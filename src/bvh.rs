//! Ray traversal of a two-child hierarchy.
use vstd::prelude::*;
use crate::ploc::{Bvh2, Bvh2Node, index_values, inner_indices, leaf_indices, tree_wf, MAX_PRIMITIVES};
use vstd::seq_lib::lemma_multiset_commutative;

verus! {

/// A ray query against the boxes and primitives of a hierarchy. It holds the
/// ray, whose far distance shrinks to the closest hit found so far.
pub trait RayQuery<B> {
    /// Whether the ray enters `aabb` before its current far distance.
    fn enters(&self, aabb: &B) -> bool;

    /// Tests primitive `primitive_id`; when the ray hits it before its current
    /// far distance, the far distance becomes that hit's and `true` is returned.
    fn hit_primitive(&mut self, primitive_id: usize) -> bool;
}

/// Every inner node's children come after it and lie within the array.
pub open spec fn children_below<B>(nodes: Seq<Bvh2Node<B>>) -> bool {
    &&& nodes.len() <= u32::MAX
    &&& forall|p: int|
        0 <= p < nodes.len() && #[trigger] nodes[p].index >= 0 ==> p < nodes[p].index
            && nodes[p].index + 1 < nodes.len()
}

/// The primitive that a leaf names.
pub open spec fn leaf_primitive(index: i32) -> int {
    -(index + 1)
}

/// `2^e`.
pub open spec fn pow2(e: nat) -> nat
    decreases e,
{
    if e == 0 {
        1
    } else {
        2 * pow2((e - 1) as nat)
    }
}

proof fn lemma_pow2_mono(a: nat, b: nat)
    requires
        a <= b,
    ensures
        pow2(a) <= pow2(b),
    decreases b - a,
{
    if a < b {
        lemma_pow2_mono(a, (b - 1) as nat);
    }
}

/// How much work a stack of pending nodes can still cause in an array of `m`
/// nodes whose children always come after their parent.
pub open spec fn pending_weight(stack: Seq<u32>, m: int) -> nat
    decreases stack.len(),
{
    if stack.len() == 0 {
        0
    } else {
        pending_weight(stack.drop_last(), m) + pow2((m - stack.last()) as nat)
    }
}

/// The traversal state of the resumable form: the pending node indices and
/// the ray.
pub struct Traversal<R> {
    pub stack: Vec<u32>,
    pub ray: R,
}

impl<R> Traversal<R> {
    /// Starts over with a new ray from the root.
    pub fn reinit(&mut self, ray: R)
        ensures
            final(self).stack@ == seq![0u32],
            final(self).ray == ray,
    {
        self.stack.clear();
        self.stack.push(0);
        self.ray = ray;
    }
}

/// One step of a walk: the node taken from the stack, whether the query
/// entered its box, for an entered leaf what testing its primitive answered,
/// and, past the first step, the step that queued the node.
#[derive(Clone, Copy)]
pub struct Visit {
    pub node: u32,
    pub entered: bool,
    pub hit: bool,
    pub parent: Ghost<int>,
}

/// Inner node indices are distinct and odd, so no node is a child of two
/// inner nodes: together with `children_below` the array is a tree.
pub open spec fn tree_shape<B>(nodes: Seq<Bvh2Node<B>>) -> bool {
    &&& children_below(nodes)
    &&& forall|p: int, q: int|
        0 <= p < nodes.len() && 0 <= q < nodes.len() && p != q && #[trigger] nodes[p].index >= 0
            && #[trigger] nodes[q].index >= 0 ==> nodes[p].index != nodes[q].index
    &&& forall|p: int| 0 <= p < nodes.len() && #[trigger] nodes[p].index >= 0 ==> nodes[p].index % 2 == 1
}

/// `x` is a child of node `q`.
pub open spec fn child_of<B>(nodes: Seq<Bvh2Node<B>>, q: int, x: int) -> bool {
    nodes[q].index >= 0 && (x == nodes[q].index || x == nodes[q].index + 1)
}

/// Step `b` was queued by an earlier step that entered an inner node whose
/// child it is.
pub open spec fn queued_by<B>(nodes: Seq<Bvh2Node<B>>, v: Seq<Visit>, b: int) -> bool {
    let a = v[b].parent@;
    &&& 0 <= a < b
    &&& v[a].entered
    &&& child_of(nodes, v[a].node as int, v[b].node as int)
}

/// `v` is a depth-first walk of the tree from its root: each node at most
/// once, the root first, beyond it only children of entered inner nodes, and
/// every child of an entered inner node.
pub open spec fn walk_ok<B>(nodes: Seq<Bvh2Node<B>>, v: Seq<Visit>) -> bool {
    &&& nodes.len() > 0 ==> v.len() >= 1 && v[0].node == 0
    &&& forall|a: int| 0 <= a < v.len() ==> #[trigger] v[a].node < nodes.len()
    &&& forall|a: int, b: int| 0 <= a < b < v.len() ==> #[trigger] v[a].node != #[trigger] v[b].node
    &&& forall|b: int| 0 < b < v.len() ==> #[trigger] queued_by(nodes, v, b)
    &&& forall|a: int, x: int|
        0 <= a < v.len() && v[a].entered && #[trigger] child_of(nodes, v[a].node as int, x) ==> exists|b: int|
            a < b < v.len() && #[trigger] v[b].node == x
    &&& forall|a: int| 0 <= a < v.len() && #[trigger] v[a].hit ==> v[a].entered && nodes[v[a].node as int].index < 0
}

/// `new_id` is the primitive of the last visit whose test reported a hit, or
/// `old_id` when none did.
pub open spec fn closest_ok<B>(nodes: Seq<Bvh2Node<B>>, v: Seq<Visit>, old_id: u32, new_id: u32) -> bool {
    if exists|a: int| 0 <= a < v.len() && #[trigger] v[a].hit {
        exists|a: int|
            0 <= a < v.len() && #[trigger] v[a].hit && new_id == leaf_primitive(nodes[v[a].node as int].index)
                && forall|b: int| a < b < v.len() ==> !#[trigger] v[b].hit
    } else {
        new_id == old_id
    }
}

/// Stack entries and recorded nodes lie in the array.
#[verifier::opaque]
pub open spec fn w_bounds(m: int, v: Seq<Visit>, s: Seq<u32>) -> bool {
    &&& forall|i: int| 0 <= i < s.len() ==> #[trigger] s[i] < m
    &&& forall|a: int| 0 <= a < v.len() ==> #[trigger] v[a].node < m
}

/// No node is pending twice, pending and recorded, or recorded twice.
#[verifier::opaque]
pub open spec fn w_distinct(v: Seq<Visit>, s: Seq<u32>) -> bool {
    &&& forall|i: int, j: int| 0 <= i < j < s.len() ==> #[trigger] s[i] != #[trigger] s[j]
    &&& forall|i: int, a: int| 0 <= i < s.len() && 0 <= a < v.len() ==> #[trigger] s[i] != #[trigger] v[a].node
    &&& forall|a: int, b: int| 0 <= a < b < v.len() ==> #[trigger] v[a].node != #[trigger] v[b].node
}

/// Every pending node was queued by an entered step whose child it is.
#[verifier::opaque]
pub open spec fn w_queue<B>(nodes: Seq<Bvh2Node<B>>, v: Seq<Visit>, s: Seq<u32>, ps: Seq<int>) -> bool {
    &&& ps.len() == s.len()
    &&& v.len() > 0 ==> forall|i: int|
        0 <= i < s.len() ==> 0 <= #[trigger] ps[i] < v.len() && v[ps[i]].entered && child_of(
            nodes,
            v[ps[i]].node as int,
            s[i] as int,
        )
}

/// Every child of an entered recorded node is recorded later or pending.
#[verifier::opaque]
pub open spec fn w_pending<B>(nodes: Seq<Bvh2Node<B>>, v: Seq<Visit>, s: Seq<u32>) -> bool {
    forall|a: int, x: int|
        0 <= a < v.len() && v[a].entered && #[trigger] child_of(nodes, v[a].node as int, x) ==> (exists|b: int|
            a < b < v.len() && #[trigger] v[b].node == x) || s.contains(x as u32)
}

/// A walk in progress with `s` still pending, queued by the steps `ps`.
pub open spec fn walk_inv<B>(nodes: Seq<Bvh2Node<B>>, v: Seq<Visit>, s: Seq<u32>, ps: Seq<int>) -> bool {
    &&& w_bounds(nodes.len() as int, v, s)
    &&& w_distinct(v, s)
    &&& v.len() == 0 ==> s == seq![0u32]
    &&& v.len() >= 1 ==> v[0].node == 0
    &&& forall|b: int| 0 < b < v.len() ==> #[trigger] queued_by(nodes, v, b)
    &&& w_queue(nodes, v, s, ps)
    &&& w_pending(nodes, v, s)
    &&& forall|a: int| 0 <= a < v.len() && #[trigger] v[a].hit ==> v[a].entered && nodes[v[a].node as int].index < 0
}

/// How one visit changes the stack and the queueing steps.
pub open spec fn step_ok<B>(
    nodes: Seq<Bvh2Node<B>>,
    v0: Seq<Visit>,
    before: Seq<u32>,
    ps0: Seq<int>,
    after: Seq<u32>,
    ps1: Seq<int>,
    visit: Visit,
) -> bool {
    let rest = before.drop_last();
    let inner = visit.entered && nodes[visit.node as int].index >= 0;
    &&& before.len() > 0
    &&& ps0.len() == before.len()
    &&& visit.node == before.last()
    &&& v0.len() > 0 ==> visit.parent@ == ps0.last()
    &&& visit.hit ==> visit.entered && nodes[visit.node as int].index < 0
    &&& inner ==> after == rest.push(nodes[visit.node as int].index as u32).push(
        (nodes[visit.node as int].index + 1) as u32,
    ) && ps1 == ps0.drop_last().push(v0.len() as int).push(v0.len() as int)
    &&& !inner ==> after == rest && ps1 == ps0.drop_last()
}

impl<B> Bvh2<B> {
    /// Walks the hierarchy with `query`: a node whose box the ray does not
    /// enter before its far distance is skipped, a leaf tests its primitive and
    /// an inner node queues both children. `closest_id` ends as the last
    /// primitive hit, or unchanged when none was. The returned record lists
    /// every node taken, in order, with the answers the query gave.
    pub fn traverse<Q: RayQuery<B>>(&self, query: &mut Q, closest_id: &mut u32) -> (visits: Ghost<Seq<Visit>>)
        requires
            tree_shape(self.nodes@),
        ensures
            walk_ok(self.nodes@, visits@),
            closest_ok(self.nodes@, visits@, *old(closest_id), *final(closest_id)),
            self.nodes@.len() == 0 ==> visits@.len() == 0 && *final(query) == *old(query),
    {
        if self.nodes.len() == 0 {
            return Ghost(Seq::empty());
        }
        let ghost nodes = self.nodes@;
        let ghost m = self.nodes@.len() as int;
        let ghost mut v: Seq<Visit> = Seq::empty();
        let ghost mut ps: Seq<int> = seq![0int];
        let mut stack: Vec<u32> = Vec::new();
        stack.push(0);
        proof {
            lemma_walk_start(nodes, stack@, ps);
        }
        while stack.len() > 0
            invariant
                nodes == self.nodes@,
                tree_shape(nodes),
                m == nodes.len(),
                m > 0,
                forall|i: int| 0 <= i < stack@.len() ==> #[trigger] stack@[i] < m,
                walk_inv(nodes, v, stack@, ps),
                closest_ok(nodes, v, *old(closest_id), *closest_id),
            decreases pending_weight(stack@, m),
        {
            let ghost before = stack@;
            let ghost ps0 = ps;
            let current = stack.pop().unwrap();
            proof {
                assert(stack@ =~= before.drop_last());
                assert(before.last() == current);
                lemma_pow2_mono(0, (m - current) as nat);
                assert(pending_weight(before, m) == pending_weight(stack@, m) + pow2((m - current) as nat));
            }
            let ghost v0 = v;
            let ghost old_closest = *closest_id;
            let node = &self.nodes[current as usize];
            let entered = query.enters(&node.aabb);
            let mut hit = false;
            if entered {
                if node.index < 0 {
                    let primitive_id = (-(node.index + 1)) as u32;
                    hit = query.hit_primitive(primitive_id as usize);
                    if hit {
                        *closest_id = primitive_id;
                    }
                } else {
                    let left = node.index as u32;
                    proof {
                        let e = (m - current) as nat;
                        lemma_pow2_mono((m - left - 1) as nat, (e - 2) as nat);
                        lemma_pow2_mono((m - left) as nat, (e - 1) as nat);
                        assert(pow2(e) == 2 * pow2((e - 1) as nat));
                        assert(pow2((e - 1) as nat) == 2 * pow2((e - 2) as nat));
                        let s1 = stack@.push(left);
                        let s2 = s1.push((left + 1) as u32);
                        assert(s1.drop_last() =~= stack@);
                        assert(s2.drop_last() =~= s1);
                        assert(s1.last() == left);
                        assert(s2.last() == left + 1);
                        assert(pending_weight(s1, m) == pending_weight(stack@, m) + pow2((m - left) as nat));
                        assert(pending_weight(s2, m) == pending_weight(s1, m) + pow2((m - left - 1) as nat));
                    }
                    stack.push(left);
                    stack.push(left + 1);
                }
            }
            proof {
                reveal(w_queue);
                if v0.len() > 0 {
                    assert(0 <= ps0[ps0.len() - 1] < v0.len());
                }
                let parent: int = if v0.len() == 0 {
                    0
                } else {
                    ps0.last()
                };
                let visit = Visit { node: current, entered, hit, parent: Ghost(parent) };
                v = v0.push(visit);
                if entered && nodes[current as int].index >= 0 {
                    ps = ps0.drop_last().push(v0.len() as int).push(v0.len() as int);
                } else {
                    ps = ps0.drop_last();
                }
                lemma_walk_step(nodes, v0, before, ps0, stack@, ps, visit);
                let nv = v0.len() as int;
                assert(v[nv] == visit);
                if hit {
                    assert(v[nv].hit);
                    assert(*closest_id == leaf_primitive(nodes[current as int].index));
                    assert(forall|b: int| nv < b < v.len() ==> !#[trigger] v[b].hit);
                } else {
                    if exists|a: int| 0 <= a < v0.len() && #[trigger] v0[a].hit {
                        let a = choose|a: int|
                            0 <= a < v0.len() && #[trigger] v0[a].hit && old_closest == leaf_primitive(
                                nodes[v0[a].node as int].index,
                            ) && forall|b: int| a < b < v0.len() ==> !#[trigger] v0[b].hit;
                        assert(v[a] == v0[a]);
                        assert forall|b: int| a < b < v.len() implies !#[trigger] v[b].hit by {
                            if b < nv {
                                assert(v[b] == v0[b]);
                            }
                        }
                    } else {
                        assert forall|a: int| 0 <= a < v.len() implies !#[trigger] v[a].hit by {
                            if a < nv {
                                assert(v[a] == v0[a]);
                            }
                        }
                    }
                }
            }
        }
        proof {
            lemma_walk_done(nodes, v, stack@, ps);
        }
        Ghost(v)
    }
}

proof fn lemma_walk_start<B>(nodes: Seq<Bvh2Node<B>>, s: Seq<u32>, ps: Seq<int>)
    requires
        nodes.len() > 0,
        s == seq![0u32],
        ps == seq![0int],
    ensures
        walk_inv(nodes, Seq::empty(), s, ps),
{
    reveal(w_bounds);
    reveal(w_distinct);
    reveal(w_queue);
    reveal(w_pending);
}

proof fn lemma_walk_done<B>(nodes: Seq<Bvh2Node<B>>, v: Seq<Visit>, s: Seq<u32>, ps: Seq<int>)
    requires
        nodes.len() > 0,
        walk_inv(nodes, v, s, ps),
        s.len() == 0,
    ensures
        walk_ok(nodes, v),
{
    reveal(w_bounds);
    reveal(w_distinct);
    reveal(w_pending);
    if v.len() == 0 {
        assert(seq![0u32].len() == 1);
    }
    assert forall|a: int, x: int|
        0 <= a < v.len() && v[a].entered && #[trigger] child_of(nodes, v[a].node as int, x) implies exists|b: int|
            a < b < v.len() && #[trigger] v[b].node == x by {
        if s.contains(x as u32) {
            let i = choose|i: int| 0 <= i < s.len() && s[i] == x as u32;
        }
    }
}

/// A finished hierarchy is a tree in the sense `traverse` asks for.
pub proof fn lemma_built_tree_shape<B>(nodes: Seq<Bvh2Node<B>>, n: nat)
    requires
        tree_wf(nodes, n),
        n <= MAX_PRIMITIVES,
    ensures
        tree_shape(nodes),
{
    if n >= 1 {
        let m = 2 * n - 1;
        let iv = index_values(nodes);
        let lf = leaf_indices(n);
        let inn = inner_indices(1, m);
        lemma_multiset_commutative(lf, inn);
        iv.to_multiset_ensures();
        lf.to_multiset_ensures();
        inn.to_multiset_ensures();
        assert(inn.no_duplicates()) by {
            assert forall|a: int, b: int| 0 <= a < inn.len() && 0 <= b < inn.len() && a != b implies inn[a] != inn[b] by {
                assert(inn[a] == (1 + 2 * a) as i32 && inn[b] == (1 + 2 * b) as i32);
            }
        }
        inn.lemma_multiset_has_no_duplicates();
        assert forall|p: int| 0 <= p < nodes.len() && #[trigger] nodes[p].index >= 0 implies nodes[p].index % 2 == 1
            && (lf + inn).to_multiset().count(nodes[p].index) == 1 by {
            let v = nodes[p].index;
            assert(iv[p] == v);
            assert(iv.contains(v));
            assert(iv.to_multiset().count(v) > 0);
            if lf.contains(v) {
                let k = choose|k: int| 0 <= k < lf.len() && lf[k] == v;
            }
            assert(lf.to_multiset().count(v) == 0);
            assert(inn.contains(v));
            let j = choose|j: int| 0 <= j < inn.len() && inn[j] == v;
            assert(inn[j] == (1 + 2 * j) as i32);
        }
        assert forall|p: int, q: int|
            0 <= p < nodes.len() && 0 <= q < nodes.len() && p != q && #[trigger] nodes[p].index >= 0
                && #[trigger] nodes[q].index >= 0 implies nodes[p].index != nodes[q].index by {
            if nodes[p].index == nodes[q].index {
                let v = nodes[p].index;
                let (lo, hi) = if p < q { (p, q) } else { (q, p) };
                let rem = iv.remove(hi);
                vstd::seq_lib::to_multiset_remove(iv, hi);
                rem.to_multiset_ensures();
                assert(rem[lo] == v);
                assert(rem.contains(v));
                assert(rem.to_multiset().count(v) > 0);
                assert(iv[hi] == v);
                assert(iv.to_multiset().count(v) >= 2);
                assert((lf + inn).to_multiset().count(nodes[p].index) == 1);
            }
        }
    }
}

/// Two different inner nodes share no child.
proof fn lemma_no_shared_child<B>(nodes: Seq<Bvh2Node<B>>, q: int, cur: int, y: int)
    requires
        tree_shape(nodes),
        0 <= q < nodes.len(),
        0 <= cur < nodes.len(),
        child_of(nodes, q, y),
        child_of(nodes, cur, y),
    ensures
        q == cur,
{
    if q != cur {
        assert(nodes[q].index != nodes[cur].index);
        assert(nodes[q].index % 2 == 1 && nodes[cur].index % 2 == 1);
    }
}

/// A pending or recorded node is the root or the child of a recorded entered
/// node, so it is not a child of the node being visited now.
proof fn lemma_step_fresh<B>(
    nodes: Seq<Bvh2Node<B>>,
    v0: Seq<Visit>,
    before: Seq<u32>,
    ps0: Seq<int>,
    visit: Visit,
)
    requires
        tree_shape(nodes),
        walk_inv(nodes, v0, before, ps0),
        before.len() > 0,
        visit.node == before.last(),
        visit.entered && nodes[visit.node as int].index >= 0,
    ensures
        forall|b: int| 0 <= b < v0.len() ==> !child_of(nodes, visit.node as int, #[trigger] v0[b].node as int),
        forall|i: int| 0 <= i < before.len() - 1 ==> !child_of(nodes, visit.node as int, #[trigger] before[i] as int),
        !child_of(nodes, visit.node as int, visit.node as int),
{
    reveal(w_bounds);
    reveal(w_distinct);
    reveal(w_queue);
    let nv = v0.len() as int;
    let cur = visit.node as int;
    let li = before.len() - 1;
    assert(before[li] == visit.node);
    assert forall|b: int| 0 <= b < nv implies !child_of(nodes, cur, #[trigger] v0[b].node as int) by {
        let y = v0[b].node as int;
        if child_of(nodes, cur, y) {
            assert(before[li] != v0[b].node);
            if b == 0 {
                assert(v0[0].node == 0);
            } else {
                assert(queued_by(nodes, v0, b));
                let a = v0[b].parent@;
                assert(before[li] != v0[a].node);
                lemma_no_shared_child(nodes, v0[a].node as int, cur, y);
            }
        }
    }
    assert forall|i: int| 0 <= i < li implies !child_of(nodes, cur, #[trigger] before[i] as int) by {
        let y = before[i] as int;
        if child_of(nodes, cur, y) {
            if nv == 0 {
                assert(before.len() == 1);
            }
            let a = ps0[i];
            assert(before[li] != v0[a].node);
            lemma_no_shared_child(nodes, v0[a].node as int, cur, y);
        }
    }
}

/// One step of the walk keeps its record a depth-first walk in progress.
proof fn lemma_walk_step<B>(
    nodes: Seq<Bvh2Node<B>>,
    v0: Seq<Visit>,
    before: Seq<u32>,
    ps0: Seq<int>,
    after: Seq<u32>,
    ps1: Seq<int>,
    visit: Visit,
)
    requires
        tree_shape(nodes),
        walk_inv(nodes, v0, before, ps0),
        step_ok(nodes, v0, before, ps0, after, ps1, visit),
    ensures
        walk_inv(nodes, v0.push(visit), after, ps1),
{
    lemma_step_distinct(nodes, v0, before, ps0, after, ps1, visit);
    lemma_step_queue(nodes, v0, before, ps0, after, ps1, visit);
    lemma_step_pending(nodes, v0, before, ps0, after, ps1, visit);
    let v = v0.push(visit);
    let nv = v0.len() as int;
    reveal(w_queue);
    reveal(w_bounds);
    assert forall|a: int| 0 <= a < nv implies #[trigger] v[a] == v0[a] by {}
    assert(v[nv] == visit);
    assert forall|b: int| 0 < b < v.len() implies #[trigger] queued_by(nodes, v, b) by {
        if b < nv {
            assert(queued_by(nodes, v0, b));
            assert(v[v0[b].parent@] == v0[v0[b].parent@]);
        } else {
            let li = before.len() - 1;
            let a = ps0[li];
            assert(0 <= a < nv && v0[a].entered && child_of(nodes, v0[a].node as int, before[li] as int));
            assert(v[a] == v0[a]);
        }
    }
    assert forall|a: int| 0 <= a < v.len() && #[trigger] v[a].hit implies v[a].entered && nodes[v[a].node as int].index < 0 by {
        if a < nv {
            assert(v[a] == v0[a]);
        }
    }
    if v0.len() == 0 {
        assert(before.len() == 1);
    }
}

proof fn lemma_step_distinct<B>(
    nodes: Seq<Bvh2Node<B>>,
    v0: Seq<Visit>,
    before: Seq<u32>,
    ps0: Seq<int>,
    after: Seq<u32>,
    ps1: Seq<int>,
    visit: Visit,
)
    requires
        tree_shape(nodes),
        walk_inv(nodes, v0, before, ps0),
        step_ok(nodes, v0, before, ps0, after, ps1, visit),
    ensures
        w_bounds(nodes.len() as int, v0.push(visit), after),
        w_distinct(v0.push(visit), after),
{
    let v = v0.push(visit);
    let nv = v0.len() as int;
    let cur = visit.node as int;
    let li = before.len() - 1;
    let rest = before.drop_last();
    let inner = visit.entered && nodes[cur].index >= 0;
    if inner {
        lemma_step_fresh(nodes, v0, before, ps0, visit);
    }
    reveal(w_bounds);
    reveal(w_distinct);
    assert(before[li] == visit.node);
    assert(v[nv] == visit);
    assert forall|a: int| 0 <= a < nv implies #[trigger] v[a] == v0[a] by {}
    assert forall|i: int| 0 <= i < rest.len() implies #[trigger] rest[i] == before[i] by {}
    assert forall|i: int, j: int| 0 <= i < j < after.len() implies #[trigger] after[i] != #[trigger] after[j] by {
        if inner && j >= rest.len() && i < rest.len() {
            assert(!child_of(nodes, cur, before[i] as int));
        }
    }
    assert forall|i: int, a: int| 0 <= i < after.len() && 0 <= a < v.len() implies #[trigger] after[i] != #[trigger] v[a].node by {
        if i < rest.len() {
            assert(after[i] == before[i]);
            if a == nv {
                assert(before[i] != before[li]);
            }
        } else {
            if a < nv {
                assert(!child_of(nodes, cur, v0[a].node as int));
            } else {
                assert(!child_of(nodes, cur, cur));
            }
        }
    }
    assert forall|a: int, b: int| 0 <= a < b < v.len() implies #[trigger] v[a].node != #[trigger] v[b].node by {
        if b == nv {
            assert(before[li] != v0[a].node);
        }
    }
}

proof fn lemma_step_queue<B>(
    nodes: Seq<Bvh2Node<B>>,
    v0: Seq<Visit>,
    before: Seq<u32>,
    ps0: Seq<int>,
    after: Seq<u32>,
    ps1: Seq<int>,
    visit: Visit,
)
    requires
        tree_shape(nodes),
        walk_inv(nodes, v0, before, ps0),
        step_ok(nodes, v0, before, ps0, after, ps1, visit),
    ensures
        w_queue(nodes, v0.push(visit), after, ps1),
{
    reveal(w_queue);
    reveal(w_bounds);
    let v = v0.push(visit);
    let nv = v0.len() as int;
    let cur = visit.node as int;
    let li = before.len() - 1;
    let rest = before.drop_last();
    assert(before[li] == visit.node);
    assert(v[nv] == visit);
    assert forall|a: int| 0 <= a < nv implies #[trigger] v[a] == v0[a] by {}
    assert forall|i: int|
        0 <= i < after.len() implies 0 <= #[trigger] ps1[i] < v.len() && v[ps1[i]].entered && child_of(
        nodes,
        v[ps1[i]].node as int,
        after[i] as int,
    ) by {
        if i < rest.len() {
            assert(after[i] == before[i]);
            assert(ps1[i] == ps0[i]);
            if nv == 0 {
                assert(before.len() == 1);
            }
            assert(v[ps0[i]] == v0[ps0[i]]);
        } else {
            let inner = visit.entered && nodes[cur].index >= 0;
            if !inner {
                assert(after == rest);
            }
            let c = nodes[cur].index as int;
            assert(c + 1 < nodes.len() && nodes.len() <= u32::MAX);
            let r = rest.len() as int;
            assert(after[r] == c as u32);
            assert(after[r + 1] == (c + 1) as u32);
            assert(ps1[i] == nv);
        }
    }
}

proof fn lemma_step_pending<B>(
    nodes: Seq<Bvh2Node<B>>,
    v0: Seq<Visit>,
    before: Seq<u32>,
    ps0: Seq<int>,
    after: Seq<u32>,
    ps1: Seq<int>,
    visit: Visit,
)
    requires
        tree_shape(nodes),
        walk_inv(nodes, v0, before, ps0),
        step_ok(nodes, v0, before, ps0, after, ps1, visit),
    ensures
        w_pending(nodes, v0.push(visit), after),
{
    reveal(w_pending);
    reveal(w_bounds);
    let v = v0.push(visit);
    let nv = v0.len() as int;
    let cur = visit.node as int;
    let li = before.len() - 1;
    let rest = before.drop_last();
    assert(before[li] == visit.node);
    assert(v[nv] == visit);
    assert forall|a: int| 0 <= a < nv implies #[trigger] v[a] == v0[a] by {}
    assert forall|a: int, x: int|
        0 <= a < v.len() && v[a].entered && #[trigger] child_of(nodes, v[a].node as int, x) implies (exists|b: int|
            a < b < v.len() && #[trigger] v[b].node == x) || after.contains(x as u32) by {
        if a == nv {
            let c = nodes[cur].index as int;
            let r = rest.len() as int;
            assert(c + 1 < nodes.len() && nodes.len() <= u32::MAX);
            if x == c {
                assert(after[r] == x as u32);
            } else {
                assert(after[r + 1] == x as u32);
            }
        } else {
            assert(v[a] == v0[a]);
            if exists|b: int| a < b < v0.len() && #[trigger] v0[b].node == x {
                let b = choose|b: int| a < b < v0.len() && #[trigger] v0[b].node == x;
                assert(v[b] == v0[b]);
            } else {
                let i = choose|i: int| 0 <= i < before.len() && before[i] == x as u32;
                if i == li {
                    assert(v[nv].node == x);
                } else {
                    assert(after[i] == x as u32);
                }
            }
        }
    }
}

} // verus!
