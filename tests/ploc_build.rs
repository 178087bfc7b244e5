use ploc::bvh::RayQuery;
use ploc::morton::{morton_encode_u64, split_by_3_u64};
use ploc::int_box::IntBox;
use ploc::ploc::{compute_merge_directions, merge_pass, sort_nodes_m64, BoundingBox, Bvh2, Bvh2Node, PlocBuilder};

#[derive(Clone, Copy, Debug, PartialEq)]
struct Aabb {
    min: [f32; 3],
    max: [f32; 3],
}

fn cube(x: f32, y: f32, z: f32, size: f32) -> Aabb {
    Aabb { min: [x, y, z], max: [x + size, y + size, z + size] }
}

impl Aabb {
    fn contains(&self, other: &Aabb) -> bool {
        (0..3).all(|a| self.min[a] <= other.min[a] && other.max[a] <= self.max[a])
    }

    fn half_area(&self) -> f32 {
        let d: Vec<f32> = (0..3).map(|a| self.max[a] - self.min[a]).collect();
        (d[0] + d[1]) * d[2] + d[0] * d[1]
    }

    fn ray_entry(&self, origin: [f32; 3], inv_dir: [f32; 3], tmax: f32) -> f32 {
        let mut t_near = f32::MIN;
        let mut t_far = f32::MAX;
        for a in 0..3 {
            let t1 = (self.min[a] - origin[a]) * inv_dir[a];
            let t2 = (self.max[a] - origin[a]) * inv_dir[a];
            t_near = t_near.max(t1.min(t2));
            t_far = t_far.min(t1.max(t2));
        }
        if t_far >= t_near && t_far >= 0.0 && t_near < tmax {
            t_near
        } else {
            f32::INFINITY
        }
    }
}

impl BoundingBox for Aabb {
    fn spec_union(self, other: Self) -> Self {
        BoundingBox::union(&self, &other)
    }

    fn spec_half_area_lt(self, other: Self) -> bool {
        BoundingBox::half_area_lt(&self, &other)
    }

    fn spec_morton_code(self, total: Self) -> u64 {
        BoundingBox::morton_code(&self, &total)
    }

    fn empty() -> Self {
        Aabb { min: [f32::MAX; 3], max: [f32::MIN; 3] }
    }

    fn union(&self, other: &Self) -> Self {
        let mut r = *self;
        for a in 0..3 {
            r.min[a] = self.min[a].min(other.min[a]);
            r.max[a] = self.max[a].max(other.max[a]);
        }
        r
    }

    fn half_area_lt(&self, other: &Self) -> bool {
        self.half_area() < other.half_area()
    }

    fn morton_code(&self, total: &Self) -> u64 {
        let mut q = [0u32; 3];
        for a in 0..3 {
            let scale = 1.0 / (total.max[a] as f64 - total.min[a] as f64);
            let offset = -(total.min[a] as f64) * scale;
            let center = (self.min[a] as f64 + self.max[a] as f64) * 0.5;
            let p = center * scale + offset;
            q[a] = (p * (1u64 << 21) as f64) as u32;
        }
        morton_encode_u64(q[0], q[1], q[2])
    }
}

fn safe_inverse(x: f32) -> f32 {
    if x.abs() <= f32::EPSILON {
        x.signum() / f32::EPSILON
    } else {
        1.0 / x
    }
}

struct BoxQuery<'a> {
    origin: [f32; 3],
    inv_dir: [f32; 3],
    tmax: f32,
    prims: &'a [Aabb],
}

impl<'a> BoxQuery<'a> {
    fn new(origin: [f32; 3], dir: [f32; 3], prims: &'a [Aabb]) -> Self {
        BoxQuery {
            origin,
            inv_dir: [safe_inverse(dir[0]), safe_inverse(dir[1]), safe_inverse(dir[2])],
            tmax: f32::INFINITY,
            prims,
        }
    }
}

impl<'a> RayQuery<Aabb> for BoxQuery<'a> {
    fn enters(&self, aabb: &Aabb) -> bool {
        aabb.ray_entry(self.origin, self.inv_dir, self.tmax) < self.tmax
    }

    fn hit_primitive(&mut self, primitive_id: usize) -> bool {
        let t = self.prims[primitive_id].ray_entry(self.origin, self.inv_dir, self.tmax);
        if t < self.tmax {
            self.tmax = t;
            true
        } else {
            false
        }
    }
}

fn build(aabbs: &[Aabb]) -> Bvh2<Aabb> {
    let mut builder = PlocBuilder::preallocate_builder(aabbs.len());
    builder.build_ploc(aabbs, 2)
}

fn check_invariants(aabbs: &[Aabb], nodes: &[Bvh2Node<Aabb>]) {
    let n = aabbs.len();
    assert_eq!(nodes.len(), 2 * n - 1);
    let mut seen = vec![false; n];
    let mut leaves = 0;
    for (p, node) in nodes.iter().enumerate() {
        if node.index < 0 {
            let prim = (-node.index - 1) as usize;
            assert!(prim < n);
            assert!(!seen[prim]);
            seen[prim] = true;
            leaves += 1;
            assert_eq!(node.aabb, aabbs[prim]);
        } else {
            let c = node.index as usize;
            assert!(c > p);
            assert!(c + 1 < nodes.len());
            assert!(node.aabb.contains(&nodes[c].aabb));
            assert!(node.aabb.contains(&nodes[c + 1].aabb));
        }
    }
    assert_eq!(leaves, n);
    let total = aabbs.iter().fold(Aabb::empty(), |acc, a| acc.union(a));
    assert_eq!(nodes[0].aabb, total);
}

fn random_boxes(count: usize, seed: u64) -> Vec<Aabb> {
    let mut s = seed;
    let mut next = || {
        s = s.wrapping_mul(6364136223846793005).wrapping_add(1442695040888963407);
        ((s >> 33) % 10_000) as f32 / 100.0
    };
    (0..count)
        .map(|_| {
            let (x, y, z) = (next(), next(), next());
            let size = next() / 20.0 + 0.01;
            cube(x, y, z, size)
        })
        .collect()
}

#[test]
fn split_by_3_spreads_bits() {
    assert_eq!(split_by_3_u64(0), 0);
    assert_eq!(split_by_3_u64(1), 1);
    assert_eq!(split_by_3_u64(0b111), 0b1001001);
    assert_eq!(split_by_3_u64(0x1fffff), 0x1249249249249249);
    // Bits above the 21st are dropped.
    assert_eq!(split_by_3_u64(0x200001), 1);
}

#[test]
fn morton_encode_interleaves_axes() {
    assert_eq!(morton_encode_u64(1, 0, 0), 1);
    assert_eq!(morton_encode_u64(0, 1, 0), 2);
    assert_eq!(morton_encode_u64(0, 0, 1), 4);
    assert_eq!(morton_encode_u64(3, 0, 0), 9);
    assert_eq!(morton_encode_u64(0x1fffff, 0x1fffff, 0x1fffff), 0x7fff_ffff_ffff_ffff);
}

#[test]
fn morton_order_follows_the_varying_axis() {
    let values = [0u32, 1, 2, 3, 100, 1000, 65_535, 0x1ffffe, 0x1fffff];
    for w in values.windows(2) {
        assert!(morton_encode_u64(w[0], 5, 9) < morton_encode_u64(w[1], 5, 9));
        assert!(morton_encode_u64(77, w[0], 3) < morton_encode_u64(77, w[1], 3));
        assert!(morton_encode_u64(0x1fffff, 0, w[0]) < morton_encode_u64(0x1fffff, 0, w[1]));
    }
}

#[test]
fn single_aabb_is_one_leaf() {
    let aabbs = vec![cube(0.0, 0.0, 0.0, 1.0)];
    let bvh = build(&aabbs);
    assert_eq!(bvh.nodes.len(), 1);
    assert_eq!(bvh.nodes[0].index, -1);
    assert_eq!(bvh.nodes[0].aabb, aabbs[0]);
}

#[test]
fn empty_input_gives_empty_tree() {
    let aabbs: Vec<Aabb> = Vec::new();
    let bvh = build(&aabbs);
    assert!(bvh.nodes.is_empty());
    let mut q = BoxQuery::new([0.0, 0.0, 1.0], [0.0, 0.0, -1.0], &aabbs);
    let mut hit = u32::MAX;
    bvh.traverse(&mut q, &mut hit);
    assert_eq!(hit, u32::MAX);
}

fn two_cubes() -> Vec<Aabb> {
    vec![cube(0.0, 0.0, 0.0, 1.0), cube(5.0, 0.0, 0.0, 1.0)]
}

#[test]
fn two_disjoint_cubes() {
    let aabbs = two_cubes();
    let bvh = build(&aabbs);
    assert_eq!(bvh.nodes.len(), 3);
    assert_eq!(bvh.nodes[0].index, 1);
    let mut leaves = vec![bvh.nodes[1].index, bvh.nodes[2].index];
    leaves.sort();
    assert_eq!(leaves, vec![-2, -1]);
    assert_eq!(bvh.nodes[0].aabb, Aabb { min: [0.0, 0.0, 0.0], max: [6.0, 1.0, 1.0] });
}

#[test]
fn axis_aligned_ray_hits_first_cube() {
    let aabbs = two_cubes();
    let bvh = build(&aabbs);
    let mut q = BoxQuery::new([0.5, 0.5, 10.0], [0.0, 0.0, -1.0], &aabbs);
    let mut hit = u32::MAX;
    bvh.traverse(&mut q, &mut hit);
    assert_eq!(hit, 0);
    assert!((q.tmax - 9.0).abs() < 1e-5);
}

#[test]
fn ray_between_cubes_misses() {
    let aabbs = two_cubes();
    let bvh = build(&aabbs);
    let mut q = BoxQuery::new([3.0, 0.5, 10.0], [0.0, 0.0, -1.0], &aabbs);
    let mut hit = u32::MAX;
    bvh.traverse(&mut q, &mut hit);
    assert_eq!(hit, u32::MAX);
    assert_eq!(q.tmax, f32::INFINITY);
}

#[test]
fn lattice_of_cubes() {
    let mut aabbs = Vec::new();
    for i in 0..10 {
        for j in 0..10 {
            for k in 0..10 {
                aabbs.push(cube(2.0 * i as f32, 2.0 * j as f32, 2.0 * k as f32, 1.0));
            }
        }
    }
    let bvh = build(&aabbs);
    check_invariants(&aabbs, &bvh.nodes);
    assert_eq!(bvh.nodes[0].aabb, Aabb { min: [0.0; 3], max: [19.0; 3] });
    for (id, a) in aabbs.iter().enumerate() {
        let c = [a.min[0] + 0.5, a.min[1] + 0.5, a.max[2] + 0.5];
        let mut q = BoxQuery::new(c, [0.0, 0.0, -1.0], &aabbs);
        let mut hit = u32::MAX;
        bvh.traverse(&mut q, &mut hit);
        assert_eq!(hit as usize, id);
        assert!((q.tmax - 0.5).abs() < 1e-5);
    }
}

#[test]
fn random_boxes_keep_tree_invariants() {
    for (count, seed) in [(2usize, 1u64), (3, 2), (17, 3), (1000, 4), (12_345, 5)] {
        let aabbs = random_boxes(count, seed);
        let bvh = build(&aabbs);
        check_invariants(&aabbs, &bvh.nodes);
    }
}

#[test]
fn coincident_boxes_still_build() {
    let aabbs = vec![cube(1.0, 1.0, 1.0, 0.5); 64];
    let bvh = build(&aabbs);
    check_invariants(&aabbs, &bvh.nodes);
}

#[test]
fn traversal_matches_brute_force() {
    let aabbs = random_boxes(500, 9);
    let bvh = build(&aabbs);
    let mut s = 77u64;
    let mut next = || {
        s = s.wrapping_mul(6364136223846793005).wrapping_add(1442695040888963407);
        ((s >> 33) % 10_000) as f32 / 100.0 - 50.0
    };
    for _ in 0..200 {
        let origin = [next() + 50.0, next() + 50.0, 150.0];
        let dir = [next() / 100.0, next() / 100.0, -1.0];
        let mut q = BoxQuery::new(origin, dir, &aabbs);
        let mut hit = u32::MAX;
        bvh.traverse(&mut q, &mut hit);
        let mut brute = BoxQuery::new(origin, dir, &aabbs);
        let mut best = u32::MAX;
        for id in 0..aabbs.len() {
            if brute.hit_primitive(id) {
                best = id as u32;
            }
        }
        assert_eq!(hit == u32::MAX, best == u32::MAX);
        if hit != u32::MAX {
            assert_eq!(q.tmax, brute.tmax);
        }
    }
}

#[test]
fn rebuild_reuses_the_tree() {
    let mut builder = PlocBuilder::preallocate_builder(8);
    let mut bvh = Bvh2::new();
    let first = random_boxes(40, 21);
    builder.rebuild_ploc(&first, &mut bvh, 1);
    check_invariants(&first, &bvh.nodes);
    let second = random_boxes(7, 22);
    builder.rebuild_ploc(&second, &mut bvh, 1);
    check_invariants(&second, &bvh.nodes);
    bvh.clear();
    assert!(bvh.nodes.is_empty());
}

#[test]
fn merge_directions_and_one_pass() {
    // Three boxes: the first two are close, the third far away.
    let current = vec![
        Bvh2Node { aabb: cube(0.0, 0.0, 0.0, 1.0), index: -1 },
        Bvh2Node { aabb: cube(1.0, 0.0, 0.0, 1.0), index: -2 },
        Bvh2Node { aabb: cube(9.0, 0.0, 0.0, 1.0), index: -3 },
    ];
    let mut merge = Vec::new();
    compute_merge_directions(&current, &mut merge);
    assert_eq!(merge, vec![1, -1, -1]);
    let mut nodes = vec![Bvh2Node { aabb: Aabb::empty(), index: 0 }; 5];
    let mut next = Vec::new();
    let k = merge_pass(&current, &merge, &mut next, &mut nodes, 5);
    assert_eq!(k, 3);
    assert_eq!(nodes[3].index, -1);
    assert_eq!(nodes[4].index, -2);
    assert_eq!(next.len(), 2);
    assert_eq!(next[0].index, 3);
    assert_eq!(next[0].aabb, Aabb { min: [0.0; 3], max: [2.0, 1.0, 1.0] });
    assert_eq!(next[1].index, -3);
}

fn ibox(x: u32, y: u32, z: u32, size: u32) -> IntBox {
    IntBox { min_x: x, min_y: y, min_z: z, max_x: x + size, max_y: y + size, max_z: z + size }
}

fn int_build(aabbs: &[IntBox]) -> Bvh2<IntBox> {
    let mut builder = PlocBuilder::preallocate_builder(aabbs.len());
    builder.build_ploc(aabbs, 1)
}

#[test]
fn int_single_box_is_one_leaf() {
    let aabbs = vec![ibox(0, 0, 0, 1)];
    let bvh = int_build(&aabbs);
    assert_eq!(bvh.nodes.len(), 1);
    assert_eq!(bvh.nodes[0].index, -1);
    assert_eq!(bvh.nodes[0].aabb, aabbs[0]);
}

#[test]
fn int_two_cubes_root_is_their_union() {
    let aabbs = vec![ibox(0, 0, 0, 1), ibox(5, 0, 0, 1)];
    let bvh = int_build(&aabbs);
    assert_eq!(bvh.nodes.len(), 3);
    assert_eq!(bvh.nodes[0].index, 1);
    let mut leaves = vec![bvh.nodes[1].index, bvh.nodes[2].index];
    leaves.sort();
    assert_eq!(leaves, vec![-2, -1]);
    assert_eq!(bvh.nodes[0].aabb, IntBox { min_x: 0, min_y: 0, min_z: 0, max_x: 6, max_y: 1, max_z: 1 });
}

#[test]
fn int_lattice_root_and_boxes() {
    let mut aabbs = Vec::new();
    for i in 0..10 {
        for j in 0..10 {
            for k in 0..10 {
                aabbs.push(ibox(2 * i, 2 * j, 2 * k, 1));
            }
        }
    }
    let bvh = int_build(&aabbs);
    assert_eq!(bvh.nodes.len(), 1999);
    assert_eq!(bvh.nodes[0].aabb, IntBox { min_x: 0, min_y: 0, min_z: 0, max_x: 19, max_y: 19, max_z: 19 });
    for node in &bvh.nodes {
        if node.index >= 0 {
            let c = node.index as usize;
            assert_eq!(node.aabb, bvh.nodes[c].aabb.union(&bvh.nodes[c + 1].aabb));
        } else {
            assert_eq!(node.aabb, aabbs[(-node.index - 1) as usize]);
        }
    }
}

#[test]
fn int_coincident_boxes_root() {
    let aabbs = vec![ibox(3, 3, 3, 2); 33];
    let bvh = int_build(&aabbs);
    assert_eq!(bvh.nodes.len(), 65);
    assert_eq!(bvh.nodes[0].aabb, aabbs[0]);
}

#[test]
fn int_box_arithmetic() {
    let a = ibox(0, 0, 0, 1);
    let b = ibox(1, 0, 0, 1);
    let u = a.union(&b);
    assert_eq!(u, IntBox { min_x: 0, min_y: 0, min_z: 0, max_x: 2, max_y: 1, max_z: 1 });
    // Half areas: a is (1+1)*1+1*1 = 3, u is (2+1)*1+2*1 = 5.
    assert!(a.half_area_lt(&u));
    assert!(!u.half_area_lt(&a));
    let total = IntBox { min_x: 0, min_y: 0, min_z: 0, max_x: 15, max_y: 15, max_z: 15 };
    // Centre x = 0.5 of 16 cells: 1 * 2^20 / 16 = 65536 on each axis.
    assert_eq!(a.morton_code(&total), morton_encode_u64(65536, 65536, 65536));
}

#[test]
fn merge_directions_follow_costs() {
    let current = vec![
        Bvh2Node { aabb: ibox(0, 0, 0, 1), index: -1 },
        Bvh2Node { aabb: ibox(1, 0, 0, 1), index: -2 },
        Bvh2Node { aabb: ibox(9, 0, 0, 1), index: -3 },
        Bvh2Node { aabb: ibox(10, 0, 0, 1), index: -4 },
    ];
    let mut merge = Vec::new();
    compute_merge_directions(&current, &mut merge);
    assert_eq!(merge, vec![1, -1, 1, -1]);
}

#[test]
fn sort_nodes_orders_by_code() {
    let leaves: Vec<Bvh2Node<IntBox>> = vec![
        Bvh2Node { aabb: ibox(9, 9, 9, 1), index: -1 },
        Bvh2Node { aabb: ibox(0, 0, 0, 1), index: -2 },
        Bvh2Node { aabb: ibox(4, 0, 0, 1), index: -3 },
    ];
    let total = ibox(0, 0, 0, 10);
    let mut sorted = Vec::new();
    let mut mortons = Vec::new();
    sort_nodes_m64(&leaves, &mut sorted, &mut mortons, &total, 1);
    let order: Vec<i32> = sorted.iter().map(|n| n.index).collect();
    assert_eq!(order, vec![-2, -3, -1]);
    assert!(mortons.windows(2).all(|w| w[0].code <= w[1].code));
}
