//! Bottom-up construction of a two-child hierarchy by locally-ordered
//! clustering: primitives are put in Morton order, then neighbours that
//! choose each other are merged pass after pass until one node is left.
use vstd::prelude::*;
use vstd::multiset::Multiset;
use vstd::seq_lib::{lemma_multiset_commutative, to_multiset_remove};
use crate::radix_key::{RadixKey, byte_of, same_keys};
use crate::key_lemmas::lemma_same_keys_all;

verus! {

broadcast use {vstd::multiset::group_multiset_axioms, vstd::multiset::group_multiset_properties};

/// The box type that the builder clusters. Its arithmetic stays with the
/// implementor; the builder only decides which boxes to merge. Each
/// operation is a function of its arguments, named by a spec function.
pub trait BoundingBox: Sized + Copy {
    /// The smallest box containing both boxes.
    spec fn spec_union(self, other: Self) -> Self;

    /// Whether the half-area of this box is smaller than that of `other`.
    spec fn spec_half_area_lt(self, other: Self) -> bool;

    /// The Morton code of this box's centre, placed in the unit cube that
    /// `total` spans.
    spec fn spec_morton_code(self, total: Self) -> u64;

    /// The box that contains nothing.
    fn empty() -> Self;

    fn union(&self, other: &Self) -> (r: Self)
        ensures
            r == self.spec_union(*other),
    ;

    fn half_area_lt(&self, other: &Self) -> (r: bool)
        ensures
            r == self.spec_half_area_lt(*other),
    ;

    fn morton_code(&self, total: &Self) -> (r: u64)
        ensures
            r == self.spec_morton_code(*total),
    ;
}

/// A node of the hierarchy: a leaf when `index < 0` (its primitive is
/// `-index - 1`), else an inner node whose children sit at `index` and
/// `index + 1`.
#[derive(Clone, Copy)]
pub struct Bvh2Node<B> {
    pub aabb: B,
    pub index: i32,
}

/// A hierarchy stored as an array of nodes, the root at position 0.
pub struct Bvh2<B> {
    pub nodes: Vec<Bvh2Node<B>>,
}

impl<B> Bvh2<B> {
    /// A hierarchy with no nodes.
    pub fn new() -> (r: Self)
        ensures
            r.nodes@.len() == 0,
    {
        Bvh2 { nodes: Vec::new() }
    }

    /// Removes all nodes.
    pub fn clear(&mut self)
        ensures
            final(self).nodes@.len() == 0,
    {
        self.nodes.clear();
    }
}

/// A primitive's position in the input and the Morton code of its centre.
#[derive(Clone, Copy)]
pub struct Morton64 {
    pub index: usize,
    pub code: u64,
}

impl RadixKey for Morton64 {
    open spec fn spec_levels() -> nat {
        8
    }

    open spec fn spec_level(self, level: nat) -> u8 {
        byte_of(self.code, level)
    }

    fn levels() -> (r: usize) {
        8
    }

    fn get_level(&self, level: usize) -> (r: u8) {
        ((self.code >> ((8 * level) as u64)) & 0xff) as u8
    }
}

/// The `index` fields of a run of nodes.
pub open spec fn index_values<B>(s: Seq<Bvh2Node<B>>) -> Seq<i32> {
    s.map_values(|x: Bvh2Node<B>| x.index)
}

/// The leaf indices of primitives `0..n`.
pub open spec fn leaf_indices(n: nat) -> Seq<i32> {
    Seq::new(n, |p: int| (-p - 1) as i32)
}

/// The inner-node indices handed out while the insertion point went from `m`
/// down to `k`, two slots at a time.
pub open spec fn inner_indices(k: int, m: int) -> Seq<i32> {
    Seq::new(((m - k) / 2) as nat, |j: int| (k + 2 * j) as i32)
}

/// The largest number of primitives the builder takes, so that every node
/// index fits an `i32`.
pub const MAX_PRIMITIVES: usize = 0x4000_0000;

/// The number of primitives of a hierarchy with `len` nodes.
pub open spec fn prims_of(len: nat) -> nat {
    ((len + 1) / 2) as nat
}

/// The state of a build: `nodes[k..2n-1]` is placed, `live` holds the
/// clusters still to merge, and together they hold each leaf once and each
/// inner index handed out so far once.
pub open spec fn layout_inv<B>(nodes: Seq<Bvh2Node<B>>, k: int, live: Seq<Bvh2Node<B>>, n: nat) -> bool {
    let m = 2 * n - 1;
    &&& 1 <= n <= MAX_PRIMITIVES
    &&& nodes.len() == m
    &&& 0 <= k <= m
    &&& k + 1 == 2 * live.len()
    &&& (index_values(nodes.subrange(k, m)) + index_values(live)).to_multiset() == (leaf_indices(n)
        + inner_indices(k, m)).to_multiset()
    &&& forall|p: int|
        k <= p < m && #[trigger] nodes[p].index >= 0 ==> p < nodes[p].index && nodes[p].index + 1 < m
    &&& forall|j: int|
        0 <= j < live.len() && #[trigger] live[j].index >= 0 ==> k <= live[j].index && live[j].index
            + 1 < m
}

/// The finished hierarchy over `n` primitives: `2n - 1` nodes, every inner
/// node's children after it and in range, and each primitive in exactly one
/// leaf, no leaf naming any other primitive.
pub open spec fn tree_wf<B>(nodes: Seq<Bvh2Node<B>>, n: nat) -> bool {
    &&& n == 0 ==> nodes.len() == 0
    &&& n >= 1 ==> nodes.len() == 2 * n - 1
    &&& forall|p: int|
        0 <= p < nodes.len() && #[trigger] nodes[p].index >= 0 ==> p < nodes[p].index
            && nodes[p].index + 1 < nodes.len()
    &&& forall|q: int| 0 <= q < n ==> #[trigger] index_values(nodes).to_multiset().count((-q - 1) as i32) == 1
    &&& forall|p: int| 0 <= p < nodes.len() && #[trigger] nodes[p].index < 0 ==> nodes[p].index >= -(n as int)
    &&& n >= 1 ==> index_values(nodes).to_multiset() == (leaf_indices(n) + inner_indices(1, 2 * n - 1)).to_multiset()
}

/// Every leaf carries its primitive's box, and every inner node the union of
/// its children's boxes.
pub open spec fn tree_boxes<B: BoundingBox>(nodes: Seq<Bvh2Node<B>>, aabbs: Seq<B>) -> bool {
    &&& forall|p: int|
        0 <= p < nodes.len() && #[trigger] nodes[p].index < 0 ==> -nodes[p].index - 1 < aabbs.len()
            && nodes[p].aabb == aabbs[-nodes[p].index - 1]
    &&& forall|p: int|
        0 <= p < nodes.len() && #[trigger] nodes[p].index >= 0 ==> nodes[p].aabb
            == nodes[nodes[p].index as int].aabb.spec_union(nodes[nodes[p].index + 1].aabb)
}

proof fn lemma_map_same_keys<A, C>(a: Seq<A>, b: Seq<A>, f: spec_fn(A) -> C)
    requires
        same_keys(a, b),
    ensures
        a.map_values(f).to_multiset() == b.map_values(f).to_multiset(),
    decreases a.len(),
{
    a.to_multiset_ensures();
    b.to_multiset_ensures();
    a.map_values(f).to_multiset_ensures();
    b.map_values(f).to_multiset_ensures();
    if a.len() == 0 {
        assert(b.len() == 0);
        assert(a.map_values(f) =~= b.map_values(f));
    } else {
        let x = a.last();
        assert(a.contains(x));
        assert(a.to_multiset().count(x) > 0);
        assert(b.to_multiset().count(x) > 0);
        assert(b.contains(x));
        let j = choose|j: int| 0 <= j < b.len() && b[j] == x;
        to_multiset_remove(a, a.len() - 1);
        to_multiset_remove(b, j);
        assert(a.remove(a.len() - 1) =~= a.drop_last());
        lemma_map_same_keys(a.drop_last(), b.remove(j), f);
        assert(a.map_values(f) =~= a.drop_last().map_values(f).push(f(x)));
        assert(b.remove(j).map_values(f) =~= b.map_values(f).remove(j));
        let bm = b.map_values(f);
        to_multiset_remove(bm, j);
        vstd::seq_lib::to_multiset_build(a.drop_last().map_values(f), f(x));
        assert(bm[j] == f(x));
        assert(bm.contains(f(x)));
        assert(bm.to_multiset().count(f(x)) > 0);
        assert(bm.to_multiset() =~= bm.remove(j).to_multiset().insert(f(x)));
    }
}

/// Merge directions for each cluster: `1` to pair with the right neighbour,
/// `-1` with the left one.
pub open spec fn directions_ok(merge: Seq<i8>, c: int) -> bool {
    &&& c >= 2
    &&& merge.len() >= c
    &&& merge[0] == 1
    &&& merge[c - 1] == -1
    &&& forall|i: int| 0 <= i < c ==> #[trigger] merge[i] == 1 || merge[i] == -1
}

/// The box that merging cluster `i` with cluster `i + 1` would give.
pub open spec fn pair_cost<B: BoundingBox>(current: Seq<Bvh2Node<B>>, i: int) -> B {
    current[i].aabb.spec_union(current[i + 1].aabb)
}

/// Each cluster but the last prefers its left neighbour exactly when the
/// merge with it is cheaper than the merge with its right one; the first
/// always prefers the right one, the last the left one.
pub fn compute_merge_directions<B: BoundingBox>(current: &Vec<Bvh2Node<B>>, merge: &mut Vec<i8>)
    requires
        current@.len() >= 2,
    ensures
        final(merge)@.len() == current@.len(),
        directions_ok(final(merge)@, current@.len() as int),
        forall|i: int|
            0 < i < current@.len() - 1 ==> (#[trigger] final(merge)@[i] == -1) == pair_cost(current@, i - 1).spec_half_area_lt(
                pair_cost(current@, i),
            ),
{
    let c = current.len();
    merge.clear();
    merge.push(1);
    let mut last_cost = current[0].aabb.union(&current[1].aabb);
    let mut i: usize = 1;
    while i < c - 1
        invariant
            1 <= i <= c - 1,
            c == current@.len(),
            merge@.len() == i,
            merge@[0] == 1,
            forall|j: int| 0 <= j < i ==> #[trigger] merge@[j] == 1 || merge@[j] == -1,
            last_cost == pair_cost(current@, i - 1),
            forall|j: int|
                0 < j < i ==> (#[trigger] merge@[j] == -1) == pair_cost(current@, j - 1).spec_half_area_lt(
                    pair_cost(current@, j),
                ),
        decreases c - i,
    {
        let cost = current[i].aabb.union(&current[i + 1].aabb);
        if last_cost.half_area_lt(&cost) {
            merge.push(-1);
        } else {
            merge.push(1);
        }
        last_cost = cost;
        i += 1;
    }
    merge.push(-1);
}

/// Some cluster prefers its right neighbour, which prefers it back.
proof fn lemma_mutual_pair(merge: Seq<i8>, c: int, t: int) -> (r: int)
    requires
        directions_ok(merge, c),
        0 <= t < c - 1,
        merge[t] == 1,
    ensures
        t <= r < c - 1,
        merge[r] == 1,
        merge[r + 1] == -1,
    decreases c - t,
{
    if merge[t + 1] == -1 {
        t
    } else {
        assert(merge[t + 1] == 1 || merge[t + 1] == -1);
        lemma_mutual_pair(merge, c, t + 1)
    }
}

proof fn lemma_inner_indices_step(k: int, m: int)
    requires
        2 <= k <= m,
        (m - k) % 2 == 0,
    ensures
        inner_indices(k - 2, m) =~= seq![(k - 2) as i32] + inner_indices(k, m),
{
    assert(((m - (k - 2)) / 2) == (m - k) / 2 + 1);
}

/// Cluster `i` and its right neighbour choose each other.
pub open spec fn pairs_right(merge: Seq<i8>, c: int, i: int) -> bool {
    0 <= i && i + 1 < c && merge[i] == 1 && merge[i + 1] == -1
}

/// The number of mutual pairs that start before cluster `i`.
pub open spec fn pairs_before(merge: Seq<i8>, c: int, i: int) -> nat
    decreases i,
{
    if i <= 0 {
        0
    } else {
        pairs_before(merge, c, i - 1) + if pairs_right(merge, c, i - 1) {
            1nat
        } else {
            0nat
        }
    }
}

proof fn lemma_pairs_before_mono(merge: Seq<i8>, c: int, a: int, b: int)
    requires
        0 <= a <= b,
    ensures
        pairs_before(merge, c, a) <= pairs_before(merge, c, b),
        a < b && pairs_right(merge, c, a) ==> pairs_before(merge, c, a) + 1 <= pairs_before(merge, c, b),
    decreases b - a,
{
    if a < b {
        lemma_pairs_before_mono(merge, c, a, b - 1);
        if a == b - 1 {
        }
    }
}

/// Every inner node of `nodes[k..m]` and of `live` has the union of its
/// children's boxes.
pub open spec fn boxes_inv<B: BoundingBox>(nodes: Seq<Bvh2Node<B>>, k: int, m: int, live: Seq<Bvh2Node<B>>) -> bool {
    &&& forall|p: int|
        k <= p < m && #[trigger] nodes[p].index >= 0 ==> nodes[p].aabb == nodes[nodes[p].index as int].aabb.spec_union(
            nodes[nodes[p].index + 1].aabb,
        )
    &&& forall|j: int|
        0 <= j < live.len() && #[trigger] live[j].index >= 0 ==> live[j].aabb == nodes[live[j].index as int].aabb.spec_union(
            nodes[live[j].index + 1].aabb,
        )
}

/// Every leaf of `nodes[k..m]` and of `live` carries the box of its
/// primitive.
pub open spec fn leaves_inv<B>(nodes: Seq<Bvh2Node<B>>, k: int, m: int, live: Seq<Bvh2Node<B>>, aabbs: Seq<B>) -> bool {
    &&& forall|p: int|
        k <= p < m && #[trigger] nodes[p].index < 0 ==> -nodes[p].index - 1 < aabbs.len()
            && nodes[p].aabb == aabbs[-nodes[p].index - 1]
    &&& forall|j: int|
        0 <= j < live.len() && #[trigger] live[j].index < 0 ==> -live[j].index - 1 < aabbs.len()
            && live[j].aabb == aabbs[-live[j].index - 1]
}

/// Mutual pairs never overlap, so they start at most every other cluster.
proof fn lemma_pairs_gap(merge: Seq<i8>, c: int, a: int, b: int)
    requires
        0 <= a <= b,
    ensures
        pairs_before(merge, c, b) - pairs_before(merge, c, a) <= (b - a + 1) / 2,
        a < b && !pairs_right(merge, c, b - 1) ==> pairs_before(merge, c, b) - pairs_before(merge, c, a)
            <= (b - a) / 2,
    decreases b - a,
{
    if a < b {
        lemma_pairs_gap(merge, c, a, b - 1);
        if pairs_right(merge, c, b - 1) && b - 1 > a {
            assert(!pairs_right(merge, c, b - 2));
            lemma_pairs_gap(merge, c, a, b - 2);
            assert(pairs_before(merge, c, b - 1) == pairs_before(merge, c, b - 2));
        }
    }
}

/// One merge pass: clusters whose merge directions point at each other are
/// written as two children at the top of the free part of `nodes`, below
/// `insert_index`, and replaced by their parent; the others are kept. At least
/// one pair merges. Returns the new insertion point.
#[verifier::rlimit(50)]
pub fn merge_pass<B: BoundingBox>(
    current: &Vec<Bvh2Node<B>>,
    merge: &Vec<i8>,
    next: &mut Vec<Bvh2Node<B>>,
    nodes: &mut Vec<Bvh2Node<B>>,
    insert_index: usize,
) -> (k: usize)
    requires
        directions_ok(merge@, current@.len() as int),
        old(next)@.len() == 0,
        layout_inv(old(nodes)@, insert_index as int, current@, prims_of(old(nodes)@.len())),
        boxes_inv(old(nodes)@, insert_index as int, old(nodes)@.len() as int, current@),
    ensures
        final(nodes)@.len() == old(nodes)@.len(),
        boxes_inv(final(nodes)@, k as int, final(nodes)@.len() as int, final(next)@),
        forall|p: int|
            k <= p < final(nodes)@.len() && #[trigger] final(nodes)@[p].index < 0 ==> (exists|j: int|
                0 <= j < current@.len() && final(nodes)@[p] == current@[j]) || (insert_index <= p
                && final(nodes)@[p] == old(nodes)@[p]),
        forall|j: int|
            0 <= j < final(next)@.len() && #[trigger] final(next)@[j].index < 0 ==> exists|q: int|
                0 <= q < current@.len() && final(next)@[j] == current@[q],
        layout_inv(final(nodes)@, k as int, final(next)@, prims_of(old(nodes)@.len())),
        final(next)@.len() < current@.len(),
        k < insert_index,
        k == insert_index - 2 * pairs_before(merge@, current@.len() as int, current@.len() as int),
        final(next)@.len() == current@.len() - pairs_before(merge@, current@.len() as int, current@.len() as int),
        forall|i: int|
            #![trigger pairs_right(merge@, current@.len() as int, i)]
            0 <= i < current@.len() && pairs_right(merge@, current@.len() as int, i) ==> {
                let slot = insert_index - 2 * pairs_before(merge@, current@.len() as int, i) - 2;
                &&& final(nodes)@[slot] == current@[i]
                &&& final(nodes)@[slot + 1] == current@[i + 1]
                &&& final(next)@[i - pairs_before(merge@, current@.len() as int, i)].index == slot
                &&& final(next)@[i - pairs_before(merge@, current@.len() as int, i)].aabb
                    == current@[i].aabb.spec_union(current@[i + 1].aabb)
            },
        forall|i: int|
            #![trigger current@[i]]
            0 <= i < current@.len() && !pairs_right(merge@, current@.len() as int, i) && !pairs_right(
                merge@,
                current@.len() as int,
                i - 1,
            ) ==> final(next)@[i - pairs_before(merge@, current@.len() as int, i)] == current@[i],
{
    let ghost n = prims_of(nodes@.len());
    let ghost m = 2 * n - 1;
    let c = current.len();
    let ghost t = lemma_mutual_pair(merge@, c as int, 0);
    let mut k = insert_index;
    let mut i: usize = 0;
    proof {
        assert(current@.subrange(0, c as int) =~= current@);
        assert(next@ + current@.subrange(0, c as int) =~= current@);
    }
    while i < c
        invariant
            c == current@.len(),
            directions_ok(merge@, c as int),
            i <= c,
            m == 2 * n - 1,
            n == prims_of(nodes@.len()),
            k <= insert_index,
            layout_inv(nodes@, k as int, next@ + current@.subrange(i as int, c as int), n),
            next@.len() < i || i <= t,
            next@.len() <= i,
            0 <= t < c - 1,
            merge@[t] == 1 && merge@[t + 1] == -1,
            0 < i < c ==> !(merge@[i - 1] == 1 && merge@[i as int] == -1),
            next@.len() < i ==> k < insert_index,
            k == insert_index - 2 * pairs_before(merge@, c as int, i as int),
            next@.len() == i - pairs_before(merge@, c as int, i as int),
            nodes@.len() == old(nodes)@.len(),
            insert_index <= old(nodes)@.len(),
            forall|j: int|
                #![trigger pairs_right(merge@, c as int, j)]
                0 <= j < i && pairs_right(merge@, c as int, j) ==> {
                    let slot = insert_index - 2 * pairs_before(merge@, c as int, j) - 2;
                    &&& nodes@[slot] == current@[j]
                    &&& nodes@[slot + 1] == current@[j + 1]
                    &&& next@[j - pairs_before(merge@, c as int, j)].index == slot
                    &&& next@[j - pairs_before(merge@, c as int, j)].aabb == current@[j].aabb.spec_union(
                        current@[j + 1].aabb,
                    )
                },
            boxes_inv(nodes@, k as int, m, next@ + current@.subrange(i as int, c as int)),
            forall|p: int|
                k <= p < m && #[trigger] nodes@[p].index < 0 ==> (exists|j: int|
                    0 <= j < c && nodes@[p] == current@[j]) || (insert_index <= p && nodes@[p]
                    == old(nodes)@[p]),
            forall|j: int|
                0 <= j < next@.len() && #[trigger] next@[j].index < 0 ==> exists|q: int|
                    0 <= q < c && next@[j] == current@[q],
            forall|j: int|
                #![trigger current@[j]]
                0 <= j < i && !pairs_right(merge@, c as int, j) && !pairs_right(merge@, c as int, j - 1)
                    ==> next@[j - pairs_before(merge@, c as int, j)] == current@[j],
        decreases c - i,
    {
        let step = merge[i];
        let best = if step == 1 {
            i + 1
        } else {
            i - 1
        };
        let ghost live = next@ + current@.subrange(i as int, c as int);
        let mutual = if merge[best] == 1 {
            best + 1 == i
        } else {
            best == i + 1
        };
        if !mutual {
            proof {
                assert(next@.push(current@[i as int]) + current@.subrange(i + 1, c as int) =~= live);
            }
            let ghost next0 = next@;
            next.push(current[i]);
            proof {
                assert(next@[next0.len() as int] == current@[i as int]);
                assert(next@ + current@.subrange(i + 1, c as int) =~= live);
                let ci = c as int;
                let ii = i as int;
                assert(!pairs_right(merge@, ci, ii));
                assert(pairs_before(merge@, ci, ii + 1) == pairs_before(merge@, ci, ii));
                assert forall|j: int|
                    #![trigger pairs_right(merge@, ci, j)]
                    0 <= j < ii + 1 && pairs_right(merge@, ci, j) implies {
                        let slot = insert_index - 2 * pairs_before(merge@, ci, j) - 2;
                        &&& nodes@[slot] == current@[j]
                        &&& nodes@[slot + 1] == current@[j + 1]
                        &&& next@[j - pairs_before(merge@, ci, j)].index == slot
                        &&& next@[j - pairs_before(merge@, ci, j)].aabb == current@[j].aabb.spec_union(
                            current@[j + 1].aabb,
                        )
                    } by {
                    lemma_pairs_before_mono(merge@, ci, j, ii);
                    lemma_pairs_gap(merge@, ci, j, ii);
                    lemma_pairs_gap(merge@, ci, 0, j);
                    assert(pairs_before(merge@, ci, 0) == 0);
                    assert(!pairs_right(merge@, ci, ii - 1));
                    assert(j - pairs_before(merge@, ci, j) < next0.len());
                    assert(next@[j - pairs_before(merge@, ci, j)] == next0[j - pairs_before(merge@, ci, j)]);
                }
                assert forall|j: int|
                    #![trigger current@[j]]
                    0 <= j < ii + 1 && !pairs_right(merge@, ci, j) && !pairs_right(merge@, ci, j - 1)
                    implies next@[j - pairs_before(merge@, ci, j)] == current@[j] by {
                    lemma_pairs_before_mono(merge@, ci, j, ii);
                    lemma_pairs_gap(merge@, ci, j, ii);
                    lemma_pairs_gap(merge@, ci, 0, j);
                    assert(pairs_before(merge@, ci, 0) == 0);
                    if j < ii {
                        assert(!pairs_right(merge@, ci, ii - 1));
                        assert(j - pairs_before(merge@, ci, j) < next0.len());
                        assert(next@[j - pairs_before(merge@, ci, j)] == next0[j - pairs_before(merge@, ci, j)]);
                    }
                }
            }
            i += 1;
        } else if best < i {
            i += 1;
        } else {
            let left = current[i];
            let right = current[best];
            proof {
                assert(live[next@.len() as int] == left);
                assert(live[next@.len() as int + 1] == right);
                assert(k + 1 == 2 * live.len());
                assert(k >= 2);
            }
            let ghost filled = nodes@.subrange(k as int, m);
            let ghost nodes0 = nodes@;
            let ghost next0 = next@;
            let ghost k0 = k as int;
            k = k - 2;
            let parent = Bvh2Node { aabb: left.aabb.union(&right.aabb), index: k as i32 };
            nodes.set(k, left);
            nodes.set(k + 1, right);
            next.push(parent);
            proof {
                let rest = current@.subrange(i + 2, c as int);
                assert(current@.subrange(i as int, c as int) =~= seq![left, right] + rest);
                assert(nodes@.subrange(k as int, m) =~= seq![left, right] + filled);
                lemma_inner_indices_step(k + 2, m);
                let a = index_values(filled);
                let nv = index_values(next@.drop_last());
                let r = index_values(rest);
                let lr = seq![left.index, right.index];
                assert(index_values(nodes@.subrange(k as int, m)) =~= lr + a);
                assert(index_values(next@) =~= nv.push(k as i32));
                assert(index_values(live) =~= nv + lr + r);
                assert(index_values(next@ + rest) =~= nv.push(k as i32) + r);
                let kk = k as i32;
                let lf = leaf_indices(n);
                let i2 = inner_indices(k + 2, m);
                lemma_multiset_commutative(lr + a, nv.push(kk) + r);
                lemma_multiset_commutative(lr, a);
                lemma_multiset_commutative(nv.push(kk), r);
                lemma_multiset_commutative(a, nv + lr + r);
                lemma_multiset_commutative(nv + lr, r);
                lemma_multiset_commutative(nv, lr);
                lemma_multiset_commutative(seq![kk], i2);
                lemma_multiset_commutative(lf, inner_indices(k as int, m));
                lemma_multiset_commutative(lf, i2);
                vstd::seq_lib::to_multiset_build(nv, kk);
                assert(seq![kk].to_multiset() =~= Multiset::empty().insert(kk)) by {
                    vstd::seq_lib::to_multiset_build(Seq::<i32>::empty(), kk);
                    assert(seq![kk] =~= Seq::<i32>::empty().push(kk));
                    Seq::<i32>::empty().to_multiset_ensures();
                    assert(Seq::<i32>::empty().to_multiset() =~= Multiset::empty());
                }
                let old_all = (a + (nv + lr + r)).to_multiset();
                let new_all = ((lr + a) + (nv.push(kk) + r)).to_multiset();
                assert(new_all =~= old_all.insert(kk));
                assert((lf + inner_indices(k as int, m)).to_multiset() =~= (lf + i2).to_multiset().insert(kk));
                assert(index_values(live) =~= nv + lr + r);
                assert(old_all == (lf + i2).to_multiset());
                assert((index_values(nodes@.subrange(k as int, m)) + index_values(next@ + rest)) =~= (lr + a) + (nv.push(kk) + r));
                assert(next@ + current@.subrange(i + 2, c as int) =~= next@ + rest);
                assert forall|p: int|
                    k <= p < m && #[trigger] nodes@[p].index >= 0 implies p < nodes@[p].index
                    && nodes@[p].index + 1 < m by {
                    if p == k as int {
                        assert(live[next@.len() - 1] == left);
                    } else if p == k + 1 {
                        assert(live[next@.len() as int] == right);
                    } else {
                        assert(nodes@[p] == filled[p - k - 2]);
                    }
                }
                let nl = next@ + rest;
                assert forall|j: int| 0 <= j < nl.len() && #[trigger] nl[j].index >= 0 implies k
                    <= nl[j].index && nl[j].index + 1 < m by {
                    if j < next@.len() - 1 {
                        assert(nl[j] == live[j]);
                    } else if j >= next@.len() {
                        assert(nl[j] == live[j + 1]);
                    }
                }
            }
            proof {
                let ci = c as int;
                let ii = i as int;
                assert(pairs_right(merge@, ci, ii));
                assert(!pairs_right(merge@, ci, ii + 1));
                assert(pairs_before(merge@, ci, ii + 1) == pairs_before(merge@, ci, ii) + 1);
                assert(pairs_before(merge@, ci, ii + 2) == pairs_before(merge@, ci, ii + 1));
                assert forall|j: int|
                    #![trigger pairs_right(merge@, ci, j)]
                    0 <= j < ii + 2 && pairs_right(merge@, ci, j) implies {
                        let slot = insert_index - 2 * pairs_before(merge@, ci, j) - 2;
                        &&& nodes@[slot] == current@[j]
                        &&& nodes@[slot + 1] == current@[j + 1]
                        &&& next@[j - pairs_before(merge@, ci, j)].index == slot
                        &&& next@[j - pairs_before(merge@, ci, j)].aabb == current@[j].aabb.spec_union(
                            current@[j + 1].aabb,
                        )
                    } by {
                    if j < ii {
                        lemma_pairs_before_mono(merge@, ci, j, ii);
                        lemma_pairs_gap(merge@, ci, j, ii);
                        lemma_pairs_gap(merge@, ci, 0, j);
                        assert(pairs_before(merge@, ci, 0) == 0);
                        assert(!pairs_right(merge@, ci, ii - 1));
                        let slot = insert_index - 2 * pairs_before(merge@, ci, j) - 2;
                        assert(slot >= k0);
                        assert(k0 <= insert_index && insert_index <= nodes0.len());
                        assert(slot + 1 < nodes0.len());
                        assert(nodes@ == nodes0.update(k0 - 2, left).update(k0 - 1, right));
                        assert(nodes@[slot] == nodes0[slot]);
                        assert(nodes@[slot + 1] == nodes0[slot + 1]);
                        assert(next@[j - pairs_before(merge@, ci, j)] == next0[j - pairs_before(merge@, ci, j)]);
                    } else if j == ii + 1 {
                    } else {
                        assert(next@[j - pairs_before(merge@, ci, j)] == parent);
                        assert(left == current@[ii] && right == current@[ii + 1]);
                        assert(parent.aabb == left.aabb.spec_union(right.aabb));
                    }
                }
                assert forall|j: int|
                    #![trigger current@[j]]
                    0 <= j < ii + 2 && !pairs_right(merge@, ci, j) && !pairs_right(merge@, ci, j - 1)
                    implies next@[j - pairs_before(merge@, ci, j)] == current@[j] by {
                    if j < ii {
                        lemma_pairs_before_mono(merge@, ci, j, ii);
                        lemma_pairs_gap(merge@, ci, j, ii);
                        lemma_pairs_gap(merge@, ci, 0, j);
                        assert(pairs_before(merge@, ci, 0) == 0);
                        assert(!pairs_right(merge@, ci, ii - 1));
                        assert(j - pairs_before(merge@, ci, j) < next0.len());
                        assert(next@[j - pairs_before(merge@, ci, j)] == next0[j - pairs_before(merge@, ci, j)]);
                    }
                }
            }
            proof {
                let ci = c as int;
                let ii = i as int;
                let kk = k as int;
                let live0 = next0 + current@.subrange(ii, ci);
                let live1 = next@ + current@.subrange(ii + 2, ci);
                assert(left == current@[ii] && right == current@[ii + 1]);
                assert(live0[next0.len() as int] == left);
                assert(live0[next0.len() as int + 1] == right);
                assert(nodes@ == nodes0.update(kk, left).update(kk + 1, right));
                assert forall|p: int|
                    kk <= p < m && #[trigger] nodes@[p].index >= 0 implies nodes@[p].aabb
                    == nodes@[nodes@[p].index as int].aabb.spec_union(nodes@[nodes@[p].index + 1].aabb) by {
                    if p == kk {
                        assert(live0[next0.len() as int].index >= 0);
                    } else if p == kk + 1 {
                        assert(live0[next0.len() as int + 1].index >= 0);
                    } else {
                        assert(nodes@[p] == nodes0[p]);
                    }
                }
                assert forall|j: int|
                    0 <= j < live1.len() && #[trigger] live1[j].index >= 0 implies live1[j].aabb
                    == nodes@[live1[j].index as int].aabb.spec_union(nodes@[live1[j].index + 1].aabb) by {
                    if j < next0.len() {
                        assert(live1[j] == live0[j]);
                    } else if j == next0.len() {
                        assert(live1[j] == parent);
                    } else {
                        assert(live1[j] == live0[j + 1]);
                    }
                }
                assert(nodes@[kk] == current@[ii]);
                assert(nodes@[kk + 1] == current@[ii + 1]);
                assert forall|p: int|
                    kk <= p < m && #[trigger] nodes@[p].index < 0 implies (exists|j: int|
                        0 <= j < ci && nodes@[p] == current@[j]) || (insert_index <= p && nodes@[p]
                        == old(nodes)@[p]) by {
                    if p == kk {
                        assert(nodes@[p] == current@[ii]);
                    } else if p == kk + 1 {
                        assert(nodes@[p] == current@[ii + 1]);
                    } else {
                        assert(nodes@[p] == nodes0[p]);
                    }
                }
                assert forall|j: int|
                    0 <= j < next@.len() && #[trigger] next@[j].index < 0 implies exists|q: int|
                        0 <= q < ci && next@[j] == current@[q] by {
                    assert(next@[j] == next0[j]);
                }
            }
            i += 2;
        }
    }
    proof {
        assert(current@.subrange(c as int, c as int) =~= Seq::<Bvh2Node<B>>::empty());
        assert(next@ + current@.subrange(c as int, c as int) =~= next@);
    }
    k
}

/// Orders the leaves of `current_nodes` by the Morton codes of their centres
/// and writes them, in that order, to `sorted_nodes`.
pub fn sort_nodes_m64<B: BoundingBox>(
    current_nodes: &Vec<Bvh2Node<B>>,
    sorted_nodes: &mut Vec<Bvh2Node<B>>,
    mortons: &mut Vec<Morton64>,
    total: &B,
    threads: usize,
)
    requires
        current_nodes@.len() <= MAX_PRIMITIVES,
        forall|i: int| 0 <= i < current_nodes@.len() ==> #[trigger] current_nodes@[i].index == -i - 1,
    ensures
        final(sorted_nodes)@.len() == current_nodes@.len(),
        final(mortons)@.len() == current_nodes@.len(),
        index_values(final(sorted_nodes)@).to_multiset() == leaf_indices(
            current_nodes@.len(),
        ).to_multiset(),
        crate::radix_key::keys_sorted(final(mortons)@, 7),
        forall|i: int, j: int|
            0 <= i < j < current_nodes@.len() ==> #[trigger] final(mortons)@[i].code <= #[trigger] final(mortons)@[j].code,
        final(mortons)@.map_values(|x: Morton64| x.index).to_multiset() == Seq::new(
            current_nodes@.len(),
            |i: int| i as usize,
        ).to_multiset(),
        forall|k: int|
            0 <= k < current_nodes@.len() ==> #[trigger] final(mortons)@[k].index < current_nodes@.len()
                && final(sorted_nodes)@[k] == current_nodes@[final(mortons)@[k].index as int]
                && final(mortons)@[k].code == current_nodes@[final(mortons)@[k].index as int].aabb.spec_morton_code(*total),
{
    let n = current_nodes.len();
    mortons.clear();
    let mut i: usize = 0;
    while i < n
        invariant
            i <= n,
            n == current_nodes@.len(),
            mortons@.len() == i,
            forall|j: int| 0 <= j < i ==> #[trigger] mortons@[j].index == j,
            forall|j: int|
                0 <= j < i ==> #[trigger] mortons@[j].code == current_nodes@[j].aabb.spec_morton_code(*total),
        decreases n - i,
    {
        let code = current_nodes[i].aabb.morton_code(total);
        mortons.push(Morton64 { index: i, code });
        i += 1;
    }
    let ghost before = mortons@;
    crate::sorter::sort(mortons.as_mut_slice(), threads);
    let ghost after = mortons@;
    proof {
        let in_range = |x: Morton64| x.index < n && x.code == current_nodes@[x.index as int].aabb.spec_morton_code(*total);
        assert forall|k: int| 0 <= k < before.len() implies #[trigger] in_range(before[k]) by {}
        lemma_same_keys_all(before, after, in_range);
        assert forall|k: int| 0 <= k < after.len() implies #[trigger] after[k].index < n
            && after[k].code == current_nodes@[after[k].index as int].aabb.spec_morton_code(*total) by {
            assert(in_range(after[k]));
        }
        after.to_multiset_ensures();
        before.to_multiset_ensures();
    }
    sorted_nodes.clear();
    let mut j: usize = 0;
    while j < n
        invariant
            j <= n,
            n == current_nodes@.len(),
            n <= MAX_PRIMITIVES,
            mortons@ == after,
            after.len() == n,
            forall|k: int| 0 <= k < after.len() ==> #[trigger] after[k].index < n,
            forall|k: int| 0 <= k < n ==> #[trigger] current_nodes@[k].index == -k - 1,
            sorted_nodes@.len() == j,
            forall|k: int| 0 <= k < j ==> #[trigger] sorted_nodes@[k] == current_nodes@[after[k].index as int],
            forall|k: int|
                0 <= k < j ==> #[trigger] sorted_nodes@[k].index == (-(after[k].index as int) - 1) as i32,
        decreases n - j,
    {
        let m = mortons[j];
        sorted_nodes.push(current_nodes[m.index]);
        j += 1;
    }
    proof {
        let f = |x: Morton64| (-(x.index as int) - 1) as i32;
        lemma_map_same_keys(before, after, f);
        assert(before.map_values(f) =~= leaf_indices(n as nat));
        assert(after.map_values(f) =~= index_values(sorted_nodes@));
        let g = |x: Morton64| x.index;
        lemma_map_same_keys(before, after, g);
        assert forall|i: int, j: int| 0 <= i < j < n implies #[trigger] after[i].code <= #[trigger] after[j].code by {
            assert(crate::radix_key::key_le(after[i], after[j], 7));
            lemma_key_le_code(after[i], after[j], 7);
            crate::sorter::lemma_key_le_numeric(after[i].code, after[j].code, 7);
        }
        assert(before.map_values(g) =~= Seq::new(n as nat, |i: int| i as usize));
    }
}

/// Two Morton records order as their codes' bytes do.
proof fn lemma_key_le_code(a: Morton64, b: Morton64, level: nat)
    ensures
        crate::radix_key::key_le(a, b, level) == crate::radix_key::key_le(a.code, b.code, level),
    decreases level,
{
    if level > 0 {
        lemma_key_le_code(a, b, (level - 1) as nat);
    }
}

/// The finished layout: the root placed at position 0 completes the tree.
proof fn lemma_layout_done<B>(nodes: Seq<Bvh2Node<B>>, root: Bvh2Node<B>, n: nat)
    requires
        layout_inv(nodes, 1, seq![root], n),
    ensures
        tree_wf(nodes.update(0, root), n),
{
    let m = 2 * n - 1;
    let t = nodes.update(0, root);
    let lf = leaf_indices(n);
    let inn = inner_indices(1, m);
    assert(t =~= seq![root] + nodes.subrange(1, m));
    let ra = index_values(seq![root]);
    let fa = index_values(nodes.subrange(1, m));
    assert(index_values(t) =~= ra + fa);
    lemma_multiset_commutative(ra, fa);
    lemma_multiset_commutative(fa, ra);
    assert(index_values(t).to_multiset() == (lf + inn).to_multiset());
    lemma_multiset_commutative(lf, inn);
    lf.to_multiset_ensures();
    inn.to_multiset_ensures();
    index_values(t).to_multiset_ensures();
    assert(lf.no_duplicates()) by {
        assert forall|a: int, b: int| 0 <= a < lf.len() && 0 <= b < lf.len() && a != b implies lf[a] != lf[b] by {}
    }
    lf.lemma_multiset_has_no_duplicates();
    assert forall|q: int| 0 <= q < n implies #[trigger] index_values(t).to_multiset().count((-q - 1) as i32) == 1 by {
        let v = (-q - 1) as i32;
        assert(lf[q] == v);
        assert(lf.contains(v));
        assert(!inn.contains(v)) by {
            if inn.contains(v) {
                let j = choose|j: int| 0 <= j < inn.len() && inn[j] == v;
                assert(inn[j] == (1 + 2 * j) as i32);
            }
        }
    }
    assert forall|p: int| 0 <= p < t.len() && #[trigger] t[p].index < 0 implies t[p].index >= -(n as int) by {
        let v = t[p].index;
        assert(index_values(t)[p] == v);
        assert(index_values(t).contains(v));
        assert(index_values(t).to_multiset().count(v) > 0);
        if !lf.contains(v) {
            assert(lf.to_multiset().count(v) == 0);
            assert(inn.to_multiset().count(v) > 0);
            assert(inn.contains(v));
            let j = choose|j: int| 0 <= j < inn.len() && inn[j] == v;
            assert(inn[j] == (1 + 2 * j) as i32);
        } else {
            let q = choose|q: int| 0 <= q < lf.len() && lf[q] == v;
        }
    }
    assert forall|p: int| 0 <= p < t.len() && #[trigger] t[p].index >= 0 implies p < t[p].index
        && t[p].index + 1 < t.len() by {
        if p == 0 {
            assert(seq![root][0] == root);
        } else {
            assert(t[p] == nodes[p]);
        }
    }
}

/// Working buffers of the builder, kept between builds so that their
/// allocations are reused.
pub struct PlocBuilder<B> {
    pub current_nodes: Vec<Bvh2Node<B>>,
    pub next_nodes: Vec<Bvh2Node<B>>,
    pub sorted_nodes: Vec<Bvh2Node<B>>,
    pub merge: Vec<i8>,
    pub mortons: Vec<Morton64>,
}

impl<B: BoundingBox> PlocBuilder<B> {
    /// A builder whose buffers have room for `leaf_count` primitives.
    pub fn preallocate_builder(leaf_count: usize) -> (r: PlocBuilder<B>)
        ensures
            r.current_nodes@.len() == 0,
            r.next_nodes@.len() == 0,
            r.sorted_nodes@.len() == 0,
            r.merge@.len() == 0,
            r.mortons@.len() == 0,
    {
        PlocBuilder {
            current_nodes: Vec::with_capacity(leaf_count),
            next_nodes: Vec::with_capacity(leaf_count),
            sorted_nodes: Vec::with_capacity(leaf_count),
            merge: Vec::with_capacity(leaf_count),
            mortons: Vec::with_capacity(leaf_count),
        }
    }

    /// Builds the hierarchy over `aabbs`.
    pub fn build_ploc(&mut self, aabbs: &[B], threads: usize) -> (bvh: Bvh2<B>)
        requires
            aabbs@.len() <= MAX_PRIMITIVES,
        ensures
            tree_wf(bvh.nodes@, aabbs@.len()),
            tree_boxes(bvh.nodes@, aabbs@),
    {
        let mut bvh = Bvh2::new();
        self.rebuild_ploc(aabbs, &mut bvh, threads);
        bvh
    }

    /// Rebuilds `bvh` over `aabbs`, reusing its node array: leaves in Morton
    /// order, then merge passes until one cluster, the root, is left.
    pub fn rebuild_ploc(&mut self, aabbs: &[B], bvh: &mut Bvh2<B>, threads: usize)
        requires
            aabbs@.len() <= MAX_PRIMITIVES,
        ensures
            tree_wf(final(bvh).nodes@, aabbs@.len()),
            tree_boxes(final(bvh).nodes@, aabbs@),
    {
        let n = aabbs.len();
        if n == 0 {
            bvh.clear();
            return;
        }
        let mut total = B::empty();
        self.current_nodes.clear();
        let mut i: usize = 0;
        while i < n
            invariant
                i <= n,
                n == aabbs@.len(),
                n <= MAX_PRIMITIVES,
                self.current_nodes@.len() == i,
                forall|j: int| 0 <= j < i ==> #[trigger] self.current_nodes@[j].index == -j - 1,
                forall|j: int| 0 <= j < i ==> #[trigger] self.current_nodes@[j].aabb == aabbs@[j],
            decreases n - i,
        {
            let aabb = aabbs[i];
            total = total.union(&aabb);
            self.current_nodes.push(Bvh2Node { aabb, index: -(i as i32) - 1 });
            i += 1;
        }
        let ghost leaves = self.current_nodes@;
        sort_nodes_m64(&self.current_nodes, &mut self.sorted_nodes, &mut self.mortons, &total, threads);
        core::mem::swap(&mut self.current_nodes, &mut self.sorted_nodes);
        let nodes_count = 2 * n - 1;
        bvh.nodes.clear();
        let placeholder = Bvh2Node { aabb: B::empty(), index: 0 };
        let mut p: usize = 0;
        while p < nodes_count
            invariant
                p <= nodes_count,
                bvh.nodes@.len() == p,
            decreases nodes_count - p,
        {
            bvh.nodes.push(placeholder);
            p += 1;
        }
        let mut insert_index = nodes_count;
        proof {
            let cur = self.current_nodes@;
            let lf = leaf_indices(n as nat);
            assert(bvh.nodes@.subrange(nodes_count as int, nodes_count as int) =~= Seq::<Bvh2Node<B>>::empty());
            assert(inner_indices(nodes_count as int, nodes_count as int) =~= Seq::<i32>::empty());
            assert(index_values(bvh.nodes@.subrange(nodes_count as int, nodes_count as int)) + index_values(cur) =~= index_values(cur));
            assert(lf + inner_indices(nodes_count as int, nodes_count as int) =~= lf);
            index_values(cur).to_multiset_ensures();
            lf.to_multiset_ensures();
            assert forall|j: int| 0 <= j < cur.len() && #[trigger] cur[j].index >= 0 implies false by {
                assert(index_values(cur)[j] == cur[j].index);
                assert(index_values(cur).contains(cur[j].index));
                assert(index_values(cur).to_multiset().count(cur[j].index) > 0);
                assert(lf.to_multiset().count(cur[j].index) > 0);
                assert(lf.contains(cur[j].index));
            }
            assert forall|j: int| 0 <= j < cur.len() && #[trigger] cur[j].index < 0 implies -cur[j].index - 1 < aabbs@.len()
                && cur[j].aabb == aabbs@[-cur[j].index - 1] by {
                let idx = self.mortons@[j].index as int;
                assert(cur[j] == leaves[idx]);
                assert(leaves[idx].index == -idx - 1);
            }
        }
        while self.current_nodes.len() > 1
            invariant
                n == aabbs@.len(),
                nodes_count == 2 * n - 1,
                bvh.nodes@.len() == nodes_count,
                layout_inv(bvh.nodes@, insert_index as int, self.current_nodes@, n as nat),
                boxes_inv(bvh.nodes@, insert_index as int, nodes_count as int, self.current_nodes@),
                leaves_inv(bvh.nodes@, insert_index as int, nodes_count as int, self.current_nodes@, aabbs@),
            decreases self.current_nodes@.len(),
        {
            compute_merge_directions(&self.current_nodes, &mut self.merge);
            self.next_nodes.clear();
            let ghost nodes0 = bvh.nodes@;
            let ghost cur0 = self.current_nodes@;
            let ghost k0 = insert_index as int;
            insert_index = merge_pass(&self.current_nodes, &self.merge, &mut self.next_nodes, &mut bvh.nodes, insert_index);
            proof {
                let nodes1 = bvh.nodes@;
                let nx = self.next_nodes@;
                assert forall|p: int|
                    insert_index <= p < nodes_count && #[trigger] nodes1[p].index < 0 implies -nodes1[p].index - 1
                    < aabbs@.len() && nodes1[p].aabb == aabbs@[-nodes1[p].index - 1] by {
                    if exists|j: int| 0 <= j < cur0.len() && nodes1[p] == cur0[j] {
                        let j = choose|j: int| 0 <= j < cur0.len() && nodes1[p] == cur0[j];
                        assert(cur0[j].index < 0);
                    } else {
                        assert(nodes0[p] == nodes1[p]);
                    }
                }
                assert forall|j: int| 0 <= j < nx.len() && #[trigger] nx[j].index < 0 implies -nx[j].index - 1
                    < aabbs@.len() && nx[j].aabb == aabbs@[-nx[j].index - 1] by {
                    let q = choose|q: int| 0 <= q < cur0.len() && nx[j] == cur0[q];
                    assert(cur0[q].index < 0);
                }
            }
            core::mem::swap(&mut self.current_nodes, &mut self.next_nodes);
        }
        let root = self.current_nodes[0];
        let ghost before = bvh.nodes@;
        proof {
            assert(self.current_nodes@ =~= seq![root]);
        }
        bvh.nodes.set(0, root);
        proof {
            lemma_layout_done(before, root, n as nat);
            let t = bvh.nodes@;
            assert(self.current_nodes@[0] == root);
            assert forall|p: int|
                0 <= p < t.len() && #[trigger] t[p].index < 0 implies -t[p].index - 1 < aabbs@.len()
                && t[p].aabb == aabbs@[-t[p].index - 1] by {
                if p > 0 {
                    assert(t[p] == before[p]);
                }
            }
            assert forall|p: int|
                0 <= p < t.len() && #[trigger] t[p].index >= 0 implies t[p].aabb == t[t[p].index as int].aabb.spec_union(
                t[t[p].index + 1].aabb,
            ) by {
                if p > 0 {
                    assert(t[p] == before[p]);
                }
            }
        }
    }
}

} // verus!
