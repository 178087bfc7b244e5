//! Distribution of a tiled chunk by one byte level: every tile is distributed
//! on its own, then misplaced runs ("edges") are swapped between the regions
//! reserved for each byte ("countries") until none is left.
use vstd::prelude::*;
use vstd::multiset::Multiset;
use crate::radix_key::{RadixKey, same_keys};
use crate::sort_utils::{
    bucket_ends, bucket_starts, get_end_offsets, get_prefix_sums, is_histogram, tile_end, tile_of,
    lemma_histogram_total, lemma_sum_mono, sum_to,
};
use crate::ska_sort::{in_buckets, ska_sort, partition_index, lemma_buckets_ordered, buckets_tile};
use crate::key_lemmas::{lemma_count_run_plus_one, lemma_count_perm, swap_keys};

verus! {

broadcast use {vstd::multiset::group_multiset_axioms, vstd::multiset::group_multiset_properties};

/// A run of `len` keys at `start`, inside the country of byte `init`, whose
/// keys all belong to the country of byte `dst`.
#[derive(Clone, Copy)]
pub struct Edge {
    pub dst: usize,
    pub init: usize,
    pub start: usize,
    pub len: usize,
}

/// Two runs of equal length to exchange: `inbound` heads into a country from
/// which `outbound` leaves.
#[derive(Clone, Copy)]
pub struct Operation {
    pub inbound: Edge,
    pub outbound: Edge,
}

/// Position `p` lies in the run of `e`.
pub open spec fn holds(e: Edge, p: int) -> bool {
    e.start <= p < e.start + e.len
}

/// The runs of `e` and `f` do not overlap.
pub open spec fn apart(e: Edge, f: Edge) -> bool {
    e.start + e.len <= f.start || f.start + f.len <= e.start
}

/// `f` is a piece of `e`, with the same countries.
pub open spec fn within(f: Edge, e: Edge) -> bool {
    f.init == e.init && f.dst == e.dst && e.start <= f.start && f.start + f.len <= e.start + e.len
}

/// Non-empty runs, none twice, none overlapping another.
#[verifier::opaque]
pub open spec fn bag_ok(b: Multiset<Edge>) -> bool {
    &&& forall|e: Edge| #[trigger] b.count(e) > 0 ==> e.len >= 1 && b.count(e) == 1
    &&& forall|e: Edge, f: Edge|
        #[trigger] b.count(e) > 0 && #[trigger] b.count(f) > 0 && e != f ==> apart(e, f)
}

/// Some run of `b` holds position `p`.
pub open spec fn covered(b: Multiset<Edge>, p: int) -> bool {
    exists|f: Edge| #[trigger] b.count(f) > 0 && holds(f, p)
}

/// The runs of `b` are pieces of the runs of `a` and cover what they cover.
#[verifier::opaque]
pub open spec fn refines(b: Multiset<Edge>, a: Multiset<Edge>) -> bool {
    &&& forall|f: Edge| #[trigger] b.count(f) > 0 ==> exists|e: Edge| #[trigger] a.count(e) > 0 && within(f, e)
    &&& forall|p: int| #[trigger] covered(a, p) ==> covered(b, p)
}

/// A run lies in the country of `init` and holds only keys of byte `dst`.
pub open spec fn edge_valid<T: RadixKey>(
    s: Seq<T>,
    level: nat,
    starts: Seq<usize>,
    ends: Seq<usize>,
    e: Edge,
) -> bool {
    &&& e.init < 256
    &&& e.dst < 256
    &&& e.init != e.dst
    &&& starts[e.init as int] <= e.start
    &&& e.start + e.len <= ends[e.init as int]
    &&& forall|p: int| holds(e, p) ==> #[trigger] s[p].spec_level(level) == e.dst
}

/// The runs of `b` are exactly the misplaced keys of `s`: each is valid, and
/// every key outside them already lies in its country.
#[verifier::opaque]
pub open spec fn edges_ok<T: RadixKey>(
    s: Seq<T>,
    level: nat,
    starts: Seq<usize>,
    ends: Seq<usize>,
    b: Multiset<Edge>,
) -> bool {
    &&& bag_ok(b)
    &&& forall|e: Edge| #[trigger] b.count(e) > 0 ==> edge_valid(s, level, starts, ends, e)
    &&& forall|c: int, p: int|
        #![trigger starts[c], s[p]]
        0 <= c < 256 && starts[c] <= p < ends[c] && !covered(b, p) ==> s[p].spec_level(level) == c
}

/// A sequence of runs in increasing, non-overlapping order.
pub open spec fn chain(v: Seq<Edge>) -> bool {
    &&& forall|i: int| 0 <= i < v.len() ==> #[trigger] v[i].len >= 1
    &&& forall|i: int, j: int|
        0 <= i < j < v.len() ==> #[trigger] v[i].start + v[i].len <= #[trigger] v[j].start
}

proof fn lemma_chain_bag(v: Seq<Edge>)
    requires
        chain(v),
    ensures
        bag_ok(v.to_multiset()),
        forall|e: Edge| #[trigger] v.to_multiset().count(e) > 0 <==> v.contains(e),
{
    reveal(bag_ok);
    v.to_multiset_ensures();
    assert(v.no_duplicates()) by {
        assert forall|i: int, j: int| 0 <= i < v.len() && 0 <= j < v.len() && i != j implies v[i] != v[j] by {
            if i < j {
                assert(v[i].start + v[i].len <= v[j].start);
            } else {
                assert(v[j].start + v[j].len <= v[i].start);
            }
        }
    }
    v.lemma_multiset_has_no_duplicates();
    assert forall|e: Edge, f: Edge|
        #[trigger] v.to_multiset().count(e) > 0 && #[trigger] v.to_multiset().count(f) > 0 && e != f implies apart(e, f) by {
        assert(v.contains(e));
        assert(v.contains(f));
        let i = choose|i: int| 0 <= i < v.len() && v[i] == e;
        let j = choose|j: int| 0 <= j < v.len() && v[j] == f;
        if i < j {
            assert(v[i].start + v[i].len <= v[j].start);
        } else {
            assert(v[j].start + v[j].len <= v[i].start);
        }
    }
    assert forall|e: Edge| #[trigger] v.to_multiset().count(e) > 0 implies e.len >= 1 by {
        assert(v.contains(e));
    }
}

/// The start of bucket `b` of tile `t`.
pub open spec fn local_start(local_counts: Seq<[usize; 256]>, ts: int, t: int, b: int) -> int {
    t * ts + sum_to(local_counts[t]@, b)
}

/// Lists the misplaced runs of `bucket`, whose tiles are each distributed
/// into their own buckets: it walks the countries and the tiles' buckets side
/// by side and records every stretch where the two disagree.
#[verifier::rlimit(40)]
fn generate_outbounds<T: RadixKey>(
    bucket: &[T],
    local_counts: &Vec<[usize; 256]>,
    global_counts: &[usize; 256],
    level: Ghost<nat>,
    tile_size: Ghost<int>,
) -> (r: Vec<Edge>)
    requires
        level@ < T::spec_levels(),
        is_histogram(global_counts@, bucket@, level@),
        tile_size@ >= 1,
        local_counts@.len() >= 1,
        (local_counts@.len() - 1) * tile_size@ < bucket@.len() <= local_counts@.len() * tile_size@,
        forall|u: int|
            0 <= u < local_counts@.len() ==> #[trigger] sum_to(local_counts@[u]@, 256) == tile_end(
                bucket@.len() as int,
                tile_size@,
                u,
            ) - u * tile_size@,
        forall|u: int, b: int, q: int|
            #![trigger bucket@[q], sum_to(local_counts@[u]@, b)]
            0 <= u < local_counts@.len() && 0 <= b < 256 && u * tile_size@ + sum_to(
                local_counts@[u]@,
                b,
            ) <= q < u * tile_size@ + sum_to(local_counts@[u]@, b + 1) ==> bucket@[q].spec_level(
                level@,
            ) == b,
    ensures
        edges_ok(bucket@, level@, bucket_starts(global_counts@), bucket_ends(global_counts@), r@.to_multiset()),
        chain(r@),
{
    let ghost s = bucket@;
    let ghost lv = level@;
    let ghost ts = tile_size@;
    let ghost gs = bucket_starts(global_counts@);
    let ghost ge = bucket_ends(global_counts@);
    let ghost lc_seq = local_counts@;
    let ghost len = s.len() as int;
    let len_exec = bucket.len();
    proof {
        lemma_histogram_total(s, lv, global_counts@);
        crate::sorter::lemma_buckets_from_counts(s, lv, global_counts@);
        lemma_buckets_ordered(gs, ge, s.len());
        assert(sum_to(global_counts@, 0) == 0);
        assert(sum_to(global_counts@, 1) == global_counts@[0]);
        assert(0 * ts == 0) by (nonlinear_arith);
        assert(sum_to(lc_seq[0]@, 0) == 0);
        assert(sum_to(lc_seq[0]@, 1) == lc_seq[0]@[0]);
    }
    let mut outbounds: Vec<Edge> = Vec::new();
    let last = local_counts.len() - 1;
    let mut pos: usize = 0;
    let mut local_bucket: usize = 0;
    let mut local_country: usize = 0;
    let mut global_country: usize = 0;
    let mut target_global_dist = global_counts[0];
    let mut target_local_dist = local_counts[0][0];
    while !(global_country == 255 && local_country == 255 && local_bucket == last)
        invariant
            s == bucket@,
            len == s.len(),
            len_exec == len,
            lc_seq == local_counts@,
            last == lc_seq.len() - 1,
            lv < T::spec_levels(),
            ts >= 1,
            gs == bucket_starts(global_counts@),
            ge == bucket_ends(global_counts@),
            sum_to(global_counts@, 256) == len,
            buckets_tile(gs, ge, s.len()),
            forall|a: int, b: int| 0 <= a < b < 256 ==> #[trigger] ge[a] <= #[trigger] gs[b],
            forall|b: int| 0 <= b < 256 ==> #[trigger] ge[b] <= s.len(),
            (lc_seq.len() - 1) * ts < len <= lc_seq.len() * ts,
            forall|u: int|
                0 <= u < lc_seq.len() ==> #[trigger] sum_to(lc_seq[u]@, 256) == tile_end(len, ts, u) - u * ts,
            forall|u: int, b: int, q: int|
                #![trigger s[q], sum_to(lc_seq[u]@, b)]
                0 <= u < lc_seq.len() && 0 <= b < 256 && u * ts + sum_to(lc_seq[u]@, b) <= q < u * ts
                    + sum_to(lc_seq[u]@, b + 1) ==> s[q].spec_level(lv) == b,
            global_country < 256,
            local_country < 256,
            local_bucket <= last,
            pos <= len,
            gs[global_country as int] <= pos,
            pos + target_global_dist == ge[global_country as int],
            local_start(lc_seq, ts, local_bucket as int, local_country as int) <= pos,
            pos + target_local_dist == local_start(lc_seq, ts, local_bucket as int, local_country + 1),
            chain(outbounds@),
            forall|i: int| 0 <= i < outbounds@.len() ==> #[trigger] outbounds@[i].start + outbounds@[i].len <= pos,
            forall|i: int| 0 <= i < outbounds@.len() ==> edge_valid(s, lv, gs, ge, #[trigger] outbounds@[i]),
            forall|c: int, q: int|
                #![trigger gs[c], s[q]]
                0 <= c < 256 && gs[c] <= q < ge[c] && q < pos && !(exists|i: int| 0 <= i < outbounds@.len() && holds(#[trigger] outbounds@[i], q))
                    ==> s[q].spec_level(lv) == c,
        decreases (len - pos) + (255 - global_country) + (last - local_bucket) * 256 + (255 - local_country),
    {
        let step = if target_global_dist < target_local_dist {
            target_global_dist
        } else {
            target_local_dist
        };
        let ghost old_out = outbounds@;
        let ghost lb = local_bucket as int;
        let ghost lcn = local_country as int;
        let ghost gc = global_country as int;
        proof {
            lemma_sum_mono(lc_seq[lb]@, lcn + 1, 256);
            lemma_sum_mono(lc_seq[lb]@, 0, lcn);
            assert(sum_to(lc_seq[lb]@, 0) == 0);
            assert((lb + 1) * ts == lb * ts + ts) by (nonlinear_arith);
            assert(tile_end(len, ts, lb) <= len);
            assert forall|q: int| pos <= q < pos + step implies #[trigger] s[q].spec_level(lv) == lcn by {
                assert(s[q] == s[q]);
                assert(sum_to(lc_seq[lb]@, lcn) == sum_to(lc_seq[lb]@, lcn));
            }
        }
        if step != 0 {
            if local_country != global_country {
                outbounds.push(Edge { dst: local_country, init: global_country, start: pos, len: step });
                proof {
                    assert forall|i: int, j: int| 0 <= i < j < outbounds@.len() implies #[trigger] outbounds@[i].start + outbounds@[i].len <= #[trigger] outbounds@[j].start by {
                        if j < old_out.len() {
                            assert(old_out[i].start + old_out[i].len <= old_out[j].start);
                        } else {
                            assert(old_out[i].start + old_out[i].len <= pos);
                        }
                    }
                    let e = outbounds@[old_out.len() as int];
                    assert forall|q: int| holds(e, q) implies #[trigger] s[q].spec_level(lv) == e.dst by {
                        assert(s[q] == s[q]);
                    }
                    assert(edge_valid(s, lv, gs, ge, e));
                    assert forall|c: int, q: int|
                        #![trigger gs[c], s[q]]
                        0 <= c < 256 && gs[c] <= q < ge[c] && q < pos + step && !(exists|i: int| 0 <= i < outbounds@.len() && holds(#[trigger] outbounds@[i], q))
                        implies s[q].spec_level(lv) == c by {
                        if q < pos {
                            if exists|i: int| 0 <= i < old_out.len() && holds(#[trigger] old_out[i], q) {
                                let i = choose|i: int| 0 <= i < old_out.len() && holds(#[trigger] old_out[i], q);
                                assert(outbounds@[i] == old_out[i]);
                            }
                        } else {
                            assert(holds(outbounds@[old_out.len() as int], q));
                        }
                    }
                }
            } else {
                proof {
                    assert forall|c: int, q: int|
                        #![trigger gs[c], s[q]]
                        0 <= c < 256 && gs[c] <= q < ge[c] && q < pos + step && !(exists|i: int| 0 <= i < outbounds@.len() && holds(#[trigger] outbounds@[i], q))
                        implies s[q].spec_level(lv) == c by {
                        if q >= pos {
                            assert(s[q].spec_level(lv) == lcn);
                            if c < gc {
                                assert(ge[c] <= gs[gc]);
                            } else if c > gc {
                                assert(ge[gc] <= gs[c]);
                            }
                        }
                    }
                }
            }
            pos = pos + step;
        }
        if step == target_global_dist && global_country < 255 {
            proof {
                lemma_sum_mono(global_counts@, gc + 2, 256);
                lemma_sum_mono(global_counts@, 0, gc + 1);
                assert(gs[gc + 1] == ge[gc]);
            }
            global_country += 1;
            target_global_dist = global_counts[global_country];
        } else {
            target_global_dist = target_global_dist - step;
        }
        if step == target_local_dist && !(local_bucket == last && local_country == 255) {
            if local_country < 255 {
                local_country += 1;
                proof {
                    lemma_sum_mono(lc_seq[lb]@, lcn + 2, 256);
                    lemma_sum_mono(lc_seq[lb]@, 0, lcn + 1);
                }
            } else {
                proof {
                    assert(lb < last);
                    assert((lb + 1) * ts <= (lc_seq.len() - 1) * ts) by (nonlinear_arith)
                        requires
                            lb + 1 <= lc_seq.len() - 1,
                            ts >= 1,
                    ;
                    assert(tile_end(len, ts, lb) == (lb + 1) * ts);
                    assert(sum_to(lc_seq[lb + 1]@, 0) == 0);
                    assert(sum_to(lc_seq[lb + 1]@, 1) == lc_seq[lb + 1]@[0]);
                    lemma_sum_mono(lc_seq[lb + 1]@, 1, 256);
                }
                local_bucket += 1;
                local_country = 0;
            }
            target_local_dist = local_counts[local_bucket][local_country];
        } else {
            target_local_dist = target_local_dist - step;
        }
    }
    proof {
        // The last stretch lies in the last country and the last tile's last
        // bucket, which are the same byte.
        let lb = last as int;
        lemma_sum_mono(lc_seq[lb]@, 0, 255);
        assert((lb + 1) * ts == lb * ts + ts) by (nonlinear_arith);
        assert(tile_end(len, ts, lb) == len);
        assert forall|c: int, q: int|
            #![trigger gs[c], s[q]]
            0 <= c < 256 && gs[c] <= q < ge[c] && pos <= q implies s[q].spec_level(lv) == c by {
            assert(s[q] == s[q]);
            assert(sum_to(lc_seq[lb]@, 255) == sum_to(lc_seq[lb]@, 255));
            if c < 255 {
                assert(ge[c] <= gs[255]);
            }
        }
        reveal(edges_ok);
        let v = outbounds@;
        lemma_chain_bag(v);
        assert forall|e: Edge| #[trigger] v.to_multiset().count(e) > 0 implies edge_valid(s, lv, gs, ge, e) by {
            assert(v.contains(e));
        }
        assert forall|c: int, q: int|
            #![trigger gs[c], s[q]]
            0 <= c < 256 && gs[c] <= q < ge[c] && !covered(v.to_multiset(), q) implies s[q].spec_level(lv) == c by {
            if exists|i: int| 0 <= i < v.len() && holds(#[trigger] v[i], q) {
                let i = choose|i: int| 0 <= i < v.len() && holds(#[trigger] v[i], q);
                assert(v.contains(v[i]));
                assert(v.to_multiset().count(v[i]) > 0);
            }
        }
    }
    outbounds
}

/// The runs of a list of operations, inbound then outbound, in order.
pub open spec fn flat(ops: Seq<Operation>) -> Seq<Edge>
    decreases ops.len(),
{
    if ops.len() == 0 {
        Seq::empty()
    } else {
        flat(ops.drop_last()) + seq![ops.last().inbound, ops.last().outbound]
    }
}

/// The summed length of the runs.
pub open spec fn total_len(v: Seq<Edge>) -> nat
    decreases v.len(),
{
    if v.len() == 0 {
        0
    } else {
        total_len(v.drop_last()) + v.last().len as nat
    }
}

proof fn lemma_refines_refl(a: Multiset<Edge>)
    ensures
        refines(a, a),
{
    reveal(refines);
    assert forall|f: Edge| #[trigger] a.count(f) > 0 implies exists|e: Edge| #[trigger] a.count(e) > 0 && within(f, e) by {
        assert(within(f, f));
    }
}

proof fn lemma_refines_trans(c: Multiset<Edge>, b: Multiset<Edge>, a: Multiset<Edge>)
    requires
        refines(c, b),
        refines(b, a),
    ensures
        refines(c, a),
{
    reveal(refines);
    assert forall|f: Edge| #[trigger] c.count(f) > 0 implies exists|e: Edge| #[trigger] a.count(e) > 0 && within(f, e) by {
        let g = choose|g: Edge| #[trigger] b.count(g) > 0 && within(f, g);
        let e = choose|e: Edge| #[trigger] a.count(e) > 0 && within(g, e);
        assert(within(f, e));
    }
}

/// Cutting a run in two keeps the runs apart and covers the same positions.
proof fn lemma_split(m: Multiset<Edge>, e: Edge, k: usize, e1: Edge, e2: Edge)
    requires
        bag_ok(m),
        m.count(e) > 0,
        1 <= k < e.len,
        e1 == (Edge { dst: e.dst, init: e.init, start: e.start, len: k }),
        e2 == (Edge { dst: e.dst, init: e.init, start: (e.start + k) as usize, len: (e.len - k) as usize }),
        e.start + e.len <= usize::MAX,
    ensures
        bag_ok(m.remove(e).insert(e1).insert(e2)),
        refines(m.remove(e).insert(e1).insert(e2), m),
{
    reveal(bag_ok);
    reveal(refines);
    let m2 = m.remove(e).insert(e1).insert(e2);
    assert(m.count(e) == 1);
    assert forall|f: Edge| #[trigger] m2.count(f) > 0 implies f.len >= 1 && m2.count(f) == 1 by {
        if f != e1 && f != e2 {
            assert(m.count(f) > 0);
            if f != e {
                assert(apart(f, e));
            }
        }
        if f == e1 || f == e2 {
            if m.count(f) > 0 {
                if f != e {
                    assert(apart(f, e));
                }
            }
        }
    }
    assert forall|f: Edge, g: Edge| #[trigger] m2.count(f) > 0 && #[trigger] m2.count(g) > 0 && f != g implies apart(f, g) by {
        if f != e1 && f != e2 {
            assert(m.count(f) > 0 && f != e);
            assert(apart(f, e));
        }
        if g != e1 && g != e2 {
            assert(m.count(g) > 0 && g != e);
            assert(apart(g, e));
        }
    }
    assert forall|f: Edge| #[trigger] m2.count(f) > 0 implies exists|h: Edge| #[trigger] m.count(h) > 0 && within(f, h) by {
        if f == e1 || f == e2 {
            assert(within(f, e));
        } else {
            assert(within(f, f));
        }
    }
    assert forall|p: int| #[trigger] covered(m, p) implies covered(m2, p) by {
        let h = choose|h: Edge| #[trigger] m.count(h) > 0 && holds(h, p);
        if h == e {
            if p < e.start + k {
                assert(m2.count(e1) > 0 && holds(e1, p));
            } else {
                assert(m2.count(e2) > 0 && holds(e2, p));
            }
        } else {
            assert(m2.count(h) > 0 && holds(h, p));
        }
    }
}

/// The four parts of the working list of `list_operations`, as one bag.
pub open spec fn bag_of(a: Seq<Edge>, b: Seq<Edge>, c: Seq<Edge>, d: Seq<Edge>) -> Multiset<Edge> {
    a.to_multiset().add(b.to_multiset()).add(c.to_multiset()).add(d.to_multiset())
}

proof fn lemma_flat_push(ops: Seq<Operation>, op: Operation)
    ensures
        flat(ops.push(op)).to_multiset() == flat(ops).to_multiset().insert(op.inbound).insert(op.outbound),
{
    assert(ops.push(op).drop_last() =~= ops);
    let f = flat(ops);
    assert(seq![op.inbound, op.outbound] =~= Seq::<Edge>::empty().push(op.inbound).push(op.outbound));
    vstd::seq_lib::lemma_multiset_commutative(f, seq![op.inbound, op.outbound]);
    vstd::seq_lib::to_multiset_build(Seq::<Edge>::empty(), op.inbound);
    vstd::seq_lib::to_multiset_build(Seq::<Edge>::empty().push(op.inbound), op.outbound);
    Seq::<Edge>::empty().to_multiset_ensures();
    assert(Seq::<Edge>::empty().to_multiset() =~= Multiset::empty());
    assert(f.to_multiset().add(Multiset::empty().insert(op.inbound).insert(op.outbound)) =~= f.to_multiset().insert(op.inbound).insert(op.outbound));
}

proof fn lemma_total_len_push(v: Seq<Edge>, e: Edge)
    ensures
        total_len(v.push(e)) == total_len(v) + e.len,
{
    assert(v.push(e).drop_last() =~= v);
}

proof fn lemma_bag_push_b(a: Seq<Edge>, b: Seq<Edge>, c: Seq<Edge>, d: Seq<Edge>, x: Edge)
    ensures
        bag_of(a, b.push(x), c, d) == bag_of(a, b, c, d).insert(x),
{
    vstd::seq_lib::to_multiset_build(b, x);
    assert(bag_of(a, b.push(x), c, d) =~= bag_of(a, b, c, d).insert(x));
}

proof fn lemma_bag_push_c(a: Seq<Edge>, b: Seq<Edge>, c: Seq<Edge>, d: Seq<Edge>, x: Edge)
    ensures
        bag_of(a, b, c.push(x), d) == bag_of(a, b, c, d).insert(x),
{
    vstd::seq_lib::to_multiset_build(c, x);
    assert(bag_of(a, b, c.push(x), d) =~= bag_of(a, b, c, d).insert(x));
}

proof fn lemma_bag_push_op(a: Seq<Edge>, b: Seq<Edge>, c: Seq<Edge>, ops: Seq<Operation>, op: Operation)
    ensures
        bag_of(a, b, c, flat(ops.push(op))) == bag_of(a, b, c, flat(ops)).insert(op.inbound).insert(op.outbound),
{
    lemma_flat_push(ops, op);
    assert(bag_of(a, b, c, flat(ops.push(op))) =~= bag_of(a, b, c, flat(ops)).insert(op.inbound).insert(op.outbound));
}

/// A bag of runs, once its parts are put back in one list.
proof fn lemma_bag_join(a: Seq<Edge>, b: Seq<Edge>, c: Seq<Edge>, d: Seq<Edge>)
    ensures
        bag_of(a, b, c, d) == (a + b + c + d).to_multiset(),
        bag_of(a, b, c, d) == (a + c + b + d).to_multiset(),
{
    vstd::seq_lib::lemma_multiset_commutative(a, b);
    vstd::seq_lib::lemma_multiset_commutative(a + b, c);
    vstd::seq_lib::lemma_multiset_commutative(a + b + c, d);
    vstd::seq_lib::lemma_multiset_commutative(a, c);
    vstd::seq_lib::lemma_multiset_commutative(a + c, b);
    vstd::seq_lib::lemma_multiset_commutative(a + c + b, d);
    assert(bag_of(a, b, c, d) =~= (a + b + c + d).to_multiset());
    assert(bag_of(a, b, c, d) =~= (a + c + b + d).to_multiset());
}

proof fn lemma_bag_member(b: Multiset<Edge>, m0: Multiset<Edge>, f: Edge)
    requires
        bag_ok(b),
        refines(b, m0),
        b.count(f) > 0,
        forall|e: Edge| #[trigger] m0.count(e) > 0 ==> e.init != e.dst && e.start + e.len <= usize::MAX,
    ensures
        f.len >= 1,
        f.start + f.len <= usize::MAX,
{
    reveal(bag_ok);
    reveal(refines);
    let e = choose|e: Edge| #[trigger] m0.count(e) > 0 && within(f, e);
}

proof fn lemma_same_keys_contains<T>(s: Seq<T>, t: Seq<T>, x: T)
    requires
        same_keys(s, t),
        t.contains(x),
    ensures
        s.contains(x),
{
    s.to_multiset_ensures();
    t.to_multiset_ensures();
    assert(t.to_multiset().count(x) > 0);
}

/// Pairs the runs heading into `country` with the runs leaving it. Unequal
/// pairs are cut to the shorter length and the rest goes back to be paired
/// again; what stays unpaired is returned with the runs of other countries.
#[verifier::rlimit(40)]
fn list_operations(country: usize, outbounds: Vec<Edge>) -> (r: (Vec<Edge>, Vec<Operation>))
    requires
        bag_ok(outbounds@.to_multiset()),
        forall|e: Edge| #[trigger] outbounds@.to_multiset().count(e) > 0 ==> e.init != e.dst && e.start + e.len <= usize::MAX,
    ensures
        bag_ok((r.0@ + flat(r.1@)).to_multiset()),
        refines((r.0@ + flat(r.1@)).to_multiset(), outbounds@.to_multiset()),
        forall|j: int|
            0 <= j < r.1@.len() ==> (#[trigger] r.1@[j]).inbound.dst == country && r.1@[j].outbound.init
                == country && r.1@[j].inbound.len == r.1@[j].outbound.len,
        r.1@.len() == 0 ==> r.0@.to_multiset() == outbounds@.to_multiset(),
        (exists|e: Edge| #[trigger] outbounds@.to_multiset().count(e) > 0 && e.dst == country) && (exists|
            e: Edge,
        | #[trigger] outbounds@.to_multiset().count(e) > 0 && e.init == country) ==> r.1@.len() > 0,
        forall|e: Edge, f: Edge|
            #[trigger] r.0@.contains(e) && #[trigger] r.0@.contains(f) ==> !(e.dst == country && f.init == country),
{
    let ghost m0 = outbounds@.to_multiset();
    let ghost input = outbounds@;
    let mut outbounds = outbounds;
    let leaves_elsewhere = |e: &Edge| -> (b: bool)
        ensures
            b == (e.init != country),
        { e.init != country };
    let ob = partition_index(outbounds.as_mut_slice(), leaves_elsewhere);
    let ghost after1 = outbounds@;
    let mut current_outbounds = outbounds.split_off(ob);
    let heads_elsewhere = |e: &Edge| -> (b: bool)
        ensures
            b == (e.dst != country),
        { e.dst != country };
    let ghost before2 = outbounds@;
    let p = partition_index(outbounds.as_mut_slice(), heads_elsewhere);
    let ghost after2 = outbounds@;
    let mut inbounds = outbounds.split_off(p);
    let mut operations: Vec<Operation> = Vec::new();
    let ghost has_in = exists|e: Edge| #[trigger] m0.count(e) > 0 && e.dst == country;
    let ghost has_out = exists|e: Edge| #[trigger] m0.count(e) > 0 && e.init == country;
    proof {
        assert forall|k: int| 0 <= k < current_outbounds@.len() implies #[trigger] current_outbounds@[k].init == country by {
            assert(leaves_elsewhere.ensures((&after1[ob + k],), false));
        }
        assert forall|k: int| 0 <= k < inbounds@.len() implies #[trigger] inbounds@[k].dst == country by {
            assert(heads_elsewhere.ensures((&after2[p + k],), false));
        }
        input.to_multiset_ensures();
        assert forall|k: int| 0 <= k < outbounds@.len() implies #[trigger] outbounds@[k].init != country
            && outbounds@[k].dst != country by {
            assert(after2[k] == outbounds@[k]);
            assert(heads_elsewhere.ensures((&after2[k],), true));
            assert(after2.contains(after2[k]));
            lemma_same_keys_contains(before2, after2, after2[k]);
            let j = choose|j: int| 0 <= j < before2.len() && before2[j] == after2[k];
            assert(after1[j] == before2[j]);
            assert(leaves_elsewhere.ensures((&after1[j],), true));
        }
        assert forall|k: int| 0 <= k < current_outbounds@.len() implies #[trigger] current_outbounds@[k].dst != country by {
            let e = current_outbounds@[k];
            assert(after1[ob + k] == e);
            assert(after1.contains(e));
            lemma_same_keys_contains(input, after1, e);
            assert(m0.count(e) > 0);
        }
        assert forall|k: int| 0 <= k < inbounds@.len() implies #[trigger] inbounds@[k].init != country by {
            let e = inbounds@[k];
            assert(after2[p + k] == e);
            assert(after2.contains(e));
            lemma_same_keys_contains(before2, after2, e);
            let j = choose|j: int| 0 <= j < before2.len() && before2[j] == e;
            assert(after1[j] == e);
            assert(after1.contains(e));
            lemma_same_keys_contains(input, after1, e);
            assert(m0.count(e) > 0);
        }
        assert(after1 =~= before2 + current_outbounds@);
        assert(after2 =~= outbounds@ + inbounds@);
        vstd::seq_lib::lemma_multiset_commutative(before2, current_outbounds@);
        vstd::seq_lib::lemma_multiset_commutative(outbounds@, inbounds@);
        assert(flat(operations@) =~= Seq::<Edge>::empty());
        Seq::<Edge>::empty().to_multiset_ensures();
        assert(Seq::<Edge>::empty().to_multiset() =~= Multiset::empty());
        assert(bag_of(outbounds@, current_outbounds@, inbounds@, flat(operations@)) =~= m0);
        lemma_refines_refl(m0);
        if has_in {
            let e = choose|e: Edge| #[trigger] m0.count(e) > 0 && e.dst == country;
            input.to_multiset_ensures();
            lemma_same_keys_contains(after1, input, e);
            if !current_outbounds@.contains(e) {
                let j = choose|j: int| 0 <= j < after1.len() && after1[j] == e;
                assert(before2.contains(e));
                lemma_same_keys_contains(after2, before2, e);
                let k = choose|k: int| 0 <= k < after2.len() && after2[k] == e;
                assert(heads_elsewhere.ensures((&after2[k],), k < p));
                assert(inbounds@[k - p] == e);
            } else {
                let j = choose|j: int| 0 <= j < current_outbounds@.len() && current_outbounds@[j] == e;
                assert(current_outbounds@[j].init == country);
            }
        }
        if has_out {
            let e = choose|e: Edge| #[trigger] m0.count(e) > 0 && e.init == country;
            input.to_multiset_ensures();
            lemma_same_keys_contains(after1, input, e);
            let j = choose|j: int| 0 <= j < after1.len() && after1[j] == e;
            assert(leaves_elsewhere.ensures((&after1[j],), j < ob));
            assert(current_outbounds@[j - ob] == e);
        }
    }
    loop
        invariant_except_break
            bag_ok(bag_of(outbounds@, current_outbounds@, inbounds@, flat(operations@))),
            refines(bag_of(outbounds@, current_outbounds@, inbounds@, flat(operations@)), m0),
            forall|k: int|
                #![trigger current_outbounds@[k]]
                0 <= k < current_outbounds@.len() ==> current_outbounds@[k].init == country
                    && current_outbounds@[k].dst != country,
            forall|k: int|
                #![trigger inbounds@[k]]
                0 <= k < inbounds@.len() ==> inbounds@[k].dst == country && inbounds@[k].init != country,
            forall|j: int|
                0 <= j < operations@.len() ==> (#[trigger] operations@[j]).inbound.dst == country
                    && operations@[j].outbound.init == country && operations@[j].inbound.len
                    == operations@[j].outbound.len,
            operations@.len() == 0 ==> bag_of(outbounds@, current_outbounds@, inbounds@, flat(operations@)) == m0,
            operations@.len() == 0 ==> (has_in ==> inbounds@.len() > 0) && (has_out ==> current_outbounds@.len() > 0),
            forall|e: Edge| #[trigger] m0.count(e) > 0 ==> e.init != e.dst && e.start + e.len <= usize::MAX,
            forall|k: int|
                #![trigger outbounds@[k]]
                0 <= k < outbounds@.len() ==> outbounds@[k].init != country && outbounds@[k].dst != country,
        ensures
            (forall|k: int| 0 <= k < outbounds@.len() ==> #[trigger] outbounds@[k].dst != country) || (forall|k: int|
                0 <= k < outbounds@.len() ==> #[trigger] outbounds@[k].init != country),
            bag_ok((outbounds@ + flat(operations@)).to_multiset()),
            refines((outbounds@ + flat(operations@)).to_multiset(), m0),
            forall|j: int|
                0 <= j < operations@.len() ==> (#[trigger] operations@[j]).inbound.dst == country
                    && operations@[j].outbound.init == country && operations@[j].inbound.len
                    == operations@[j].outbound.len,
            operations@.len() == 0 ==> outbounds@.to_multiset() == m0,
            has_in && has_out ==> operations@.len() > 0,
        decreases total_len(inbounds@) + total_len(current_outbounds@),
    {
        let ghost a0 = outbounds@;
        let ghost c0 = current_outbounds@;
        let ghost i0 = inbounds@;
        let ghost f0 = flat(operations@);
        let ghost bag0 = bag_of(a0, c0, i0, f0);
        let i = match inbounds.pop() {
            Some(i) => i,
            None => {
                proof {
                    assert(i0 =~= Seq::<Edge>::empty());
                    lemma_bag_join(a0, c0, i0, f0);
                    assert(a0 + c0 + i0 + f0 =~= a0 + c0 + f0);
                }
                proof {
                    assert forall|k: int| 0 <= k < c0.len() implies #[trigger] c0[k].dst != country by {
                        assert(c0[k] == current_outbounds@[k]);
                    }
                    assert forall|k: int| 0 <= k < a0.len() implies #[trigger] a0[k].dst != country by {
                        assert(a0[k] == outbounds@[k]);
                    }
                }
                outbounds.append(&mut current_outbounds);
                proof {
                    assert forall|k: int| 0 <= k < outbounds@.len() implies #[trigger] outbounds@[k].dst != country by {
                        if k >= a0.len() {
                            assert(outbounds@[k] == c0[k - a0.len()]);
                        } else {
                            assert(outbounds@[k] == a0[k]);
                        }
                    }
                    assert(outbounds@ + flat(operations@) =~= a0 + c0 + f0);
                    if operations@.len() == 0 {
                        assert(f0 =~= Seq::<Edge>::empty());
                        assert(a0 + c0 + f0 =~= outbounds@);
                    }
                }
                break;
            },
        };
        proof {
            assert(i0 =~= inbounds@.push(i));
            lemma_total_len_push(inbounds@, i);
        }
        let o = match current_outbounds.pop() {
            Some(o) => o,
            None => {
                proof {
                    assert(c0 =~= Seq::<Edge>::empty());
                    vstd::seq_lib::to_multiset_build(a0, i);
                    vstd::seq_lib::to_multiset_build(inbounds@, i);
                    assert(bag_of(a0.push(i), c0, inbounds@, f0) =~= bag0);
                    lemma_bag_join(a0.push(i), c0, inbounds@, f0);
                    assert(a0.push(i) + c0 + inbounds@ + f0 =~= a0.push(i) + inbounds@ + f0);
                }
                proof {
                    assert forall|k: int| 0 <= k < i0.len() implies #[trigger] i0[k].init != country by {
                        if k < i0.len() - 1 {
                            assert(i0[k] == inbounds@[k]);
                        }
                    }
                    assert forall|k: int| 0 <= k < a0.len() implies #[trigger] a0[k].init != country by {
                        assert(a0[k] == outbounds@[k]);
                    }
                }
                outbounds.push(i);
                outbounds.append(&mut inbounds);
                proof {
                    assert(i0.last() == i);
                    assert forall|k: int| 0 <= k < outbounds@.len() implies #[trigger] outbounds@[k].init != country by {
                        if k < a0.len() {
                            assert(outbounds@[k] == a0[k]);
                        } else if k == a0.len() {
                        } else {
                            assert(outbounds@[k] == i0[k - a0.len() - 1]);
                        }
                    }
                    assert(outbounds@ + flat(operations@) =~= a0.push(i) + i0.drop_last() + f0);
                    if operations@.len() == 0 {
                        assert(f0 =~= Seq::<Edge>::empty());
                        assert(a0.push(i) + i0.drop_last() + f0 =~= outbounds@);
                    }
                }
                break;
            },
        };
        let ghost c1 = current_outbounds@;
        let ghost i1s = inbounds@;
        proof {
            assert(c0 =~= c1.push(o));
            lemma_total_len_push(c1, o);
            lemma_bag_push_b(a0, c1, i1s, f0, o);
            lemma_bag_push_c(a0, c1, i1s, f0, i);
            lemma_bag_push_b(a0, c1, i1s.push(i), f0, o);
            assert(c0.last() == o && i0.last() == i);
            assert(o.init == country && i.dst == country);
            assert(bag0 == bag_of(a0, c1, i1s, f0).insert(i).insert(o));
            assert(bag0.count(i) > 0 && bag0.count(o) > 0);
            lemma_bag_member(bag0, m0, i);
            lemma_bag_member(bag0, m0, o);
        }
        let op = if i.len == o.len {
            Operation { inbound: i, outbound: o }
        } else if i.len < o.len {
            let o1 = Edge { dst: o.dst, init: o.init, start: o.start, len: i.len };
            let o2 = Edge { dst: o.dst, init: o.init, start: o.start + i.len, len: o.len - i.len };
            proof {
                lemma_split(bag0, o, i.len, o1, o2);
                lemma_refines_trans(bag0.remove(o).insert(o1).insert(o2), bag0, m0);
                lemma_total_len_push(c1, o2);
                lemma_bag_push_b(a0, c1, i1s, f0, o2);
            }
            current_outbounds.push(o2);
            Operation { inbound: i, outbound: o1 }
        } else {
            let i1 = Edge { dst: i.dst, init: i.init, start: i.start, len: o.len };
            let i2 = Edge { dst: i.dst, init: i.init, start: i.start + o.len, len: i.len - o.len };
            proof {
                lemma_split(bag0, i, o.len, i1, i2);
                lemma_refines_trans(bag0.remove(i).insert(i1).insert(i2), bag0, m0);
                lemma_total_len_push(i1s, i2);
                lemma_bag_push_c(a0, c1, i1s, f0, i2);
            }
            inbounds.push(i2);
            Operation { inbound: i1, outbound: o }
        };
        proof {
            lemma_bag_push_op(a0, current_outbounds@, inbounds@, operations@, op);
        }
        operations.push(op);
        proof {
            assert(operations@.last() == op);
            if i.len == o.len {
                assert(bag_of(outbounds@, current_outbounds@, inbounds@, flat(operations@)) =~= bag0);
            } else if i.len < o.len {
                assert(bag_of(outbounds@, current_outbounds@, inbounds@, flat(operations@)) =~= bag0.remove(o).insert(op.outbound).insert(current_outbounds@.last()));
            } else {
                assert(bag_of(outbounds@, current_outbounds@, inbounds@, flat(operations@)) =~= bag0.remove(i).insert(op.inbound).insert(inbounds@.last()));
            }
        }
    }
    proof {
        assert forall|e: Edge, f: Edge|
            #[trigger] outbounds@.contains(e) && #[trigger] outbounds@.contains(f) implies !(e.dst == country
            && f.init == country) by {
            let k1 = choose|k: int| 0 <= k < outbounds@.len() && outbounds@[k] == e;
            let k2 = choose|k: int| 0 <= k < outbounds@.len() && outbounds@[k] == f;
        }
    }
    (outbounds, operations)
}

/// Exchanges the runs `bucket[a..a + len]` and `bucket[b..b + len]`.
fn swap_ranges<T: Copy>(bucket: &mut [T], a: usize, b: usize, len: usize)
    requires
        a + len <= old(bucket)@.len(),
        b + len <= old(bucket)@.len(),
        a + len <= b || b + len <= a,
    ensures
        final(bucket)@.len() == old(bucket)@.len(),
        same_keys(old(bucket)@, final(bucket)@),
        forall|p: int|
            0 <= p < old(bucket)@.len() ==> #[trigger] final(bucket)@[p] == if a <= p < a + len {
                old(bucket)@[p - a + b]
            } else if b <= p < b + len {
                old(bucket)@[p - b + a]
            } else {
                old(bucket)@[p]
            },
{
    let ghost s0 = bucket@;
    let n = bucket.len();
    let mut k: usize = 0;
    while k < len
        invariant
            n == s0.len(),
            k <= len,
            a + len <= s0.len(),
            b + len <= s0.len(),
            a + len <= b || b + len <= a,
            bucket@.len() == s0.len(),
            same_keys(s0, bucket@),
            forall|p: int|
                0 <= p < s0.len() ==> #[trigger] bucket@[p] == if a <= p < a + k {
                    s0[p - a + b]
                } else if b <= p < b + k {
                    s0[p - b + a]
                } else {
                    s0[p]
                },
        decreases len - k,
    {
        let ghost before = bucket@;
        swap_keys(bucket, a + k, b + k);
        proof {
            before.to_multiset_ensures();
        }
        k += 1;
    }
}

/// The run left behind when an operation lands keys of another country in
/// the inbound run's place.
pub open spec fn residual(op: Operation) -> Seq<Edge> {
    if op.outbound.dst != op.inbound.init {
        seq![Edge { dst: op.outbound.dst, init: op.inbound.init, start: op.inbound.start, len: op.inbound.len }]
    } else {
        Seq::empty()
    }
}

/// The residual runs of a list of operations, in order.
pub open spec fn residuals(ops: Seq<Operation>) -> Seq<Edge>
    decreases ops.len(),
{
    if ops.len() == 0 {
        Seq::empty()
    } else {
        residuals(ops.drop_last()) + residual(ops.last())
    }
}

proof fn lemma_flat_concat(a: Seq<Operation>, b: Seq<Operation>)
    ensures
        flat(a + b) == flat(a) + flat(b),
    decreases b.len(),
{
    if b.len() == 0 {
        assert(a + b =~= a);
        assert(flat(a) + flat(b) =~= flat(a));
    } else {
        lemma_flat_concat(a, b.drop_last());
        assert((a + b).drop_last() =~= a + b.drop_last());
        assert(flat(a + b) =~= flat(a) + flat(b));
    }
}

/// The number of positions below `n` that some run of `b` holds.
pub open spec fn covered_count(b: Multiset<Edge>, n: int) -> nat
    decreases n,
{
    if n <= 0 {
        0
    } else {
        covered_count(b, n - 1) + if covered(b, n - 1) {
            1nat
        } else {
            0nat
        }
    }
}

proof fn lemma_covered_count_shrinks(a: Multiset<Edge>, b: Multiset<Edge>, q: int, n: int)
    requires
        forall|p: int| covered(b, p) ==> covered(a, p),
    ensures
        covered_count(b, n) <= covered_count(a, n),
        0 <= q < n && covered(a, q) && !covered(b, q) ==> covered_count(b, n) < covered_count(a, n),
    decreases n,
{
    if n > 0 {
        lemma_covered_count_shrinks(a, b, q, n - 1);
    }
}

proof fn lemma_refines_covered(b: Multiset<Edge>, a: Multiset<Edge>)
    requires
        refines(b, a),
    ensures
        forall|p: int| covered(b, p) <==> covered(a, p),
{
    reveal(refines);
    assert forall|p: int| covered(b, p) implies covered(a, p) by {
        let f = choose|f: Edge| #[trigger] b.count(f) > 0 && holds(f, p);
        let e = choose|e: Edge| #[trigger] a.count(e) > 0 && within(f, e);
        assert(a.count(e) > 0 && holds(e, p));
    }
}

/// Runs that refine the misplaced runs of `s` are again its misplaced runs.
proof fn lemma_refine_keeps_ok<T: RadixKey>(
    s: Seq<T>,
    level: nat,
    starts: Seq<usize>,
    ends: Seq<usize>,
    a: Multiset<Edge>,
    b: Multiset<Edge>,
)
    requires
        edges_ok(s, level, starts, ends, a),
        refines(b, a),
        bag_ok(b),
    ensures
        edges_ok(s, level, starts, ends, b),
{
    reveal(edges_ok);
    lemma_refines_covered(b, a);
    reveal(refines);
    assert forall|f: Edge| #[trigger] b.count(f) > 0 implies edge_valid(s, level, starts, ends, f) by {
        let e = choose|e: Edge| #[trigger] a.count(e) > 0 && within(f, e);
        assert(edge_valid(s, level, starts, ends, e));
        assert forall|p: int| holds(f, p) implies #[trigger] s[p].spec_level(level) == f.dst by {
            assert(holds(e, p));
        }
    }
}

/// A bag of misplaced runs that is not empty holds a run heading into some
/// country and a run leaving that same country.
proof fn lemma_find_pair<T: RadixKey>(
    s: Seq<T>,
    level: nat,
    counts: Seq<usize>,
    b: Multiset<Edge>,
    e: Edge,
) -> (d: usize)
    requires
        is_histogram(counts, s, level),
        s.len() <= usize::MAX,
        edges_ok(s, level, bucket_starts(counts), bucket_ends(counts), b),
        b.count(e) > 0,
    ensures
        d < 256,
        exists|f: Edge| #[trigger] b.count(f) > 0 && f.dst == d,
        exists|f: Edge| #[trigger] b.count(f) > 0 && f.init == d,
{
    reveal(edges_ok);
    reveal(bag_ok);
    let gs = bucket_starts(counts);
    let ge = bucket_ends(counts);
    crate::sorter::lemma_buckets_from_counts(s, level, counts);
    lemma_buckets_ordered(gs, ge, s.len());
    let d = e.dst;
    assert(edge_valid(s, level, gs, ge, e));
    let q = e.start as int;
    assert(holds(e, q));
    if !(exists|f: Edge| #[trigger] b.count(f) > 0 && f.init == d) {
        let di = d as int;
        assert forall|k: int| gs[di] <= k < ge[di] implies #[trigger] s[k].spec_level(level) == di by {
            if covered(b, k) {
                let f = choose|f: Edge| #[trigger] b.count(f) > 0 && holds(f, k);
                assert(edge_valid(s, level, gs, ge, f));
                let fi = f.init as int;
                if fi < di {
                    assert(ge[fi] <= gs[di]);
                } else if fi > di {
                    assert(ge[di] <= gs[fi]);
                }
            }
            assert(gs[di] == gs[di]);
        }
        let ei = e.init as int;
        if ei < di {
            assert(ge[ei] <= gs[di]);
        } else {
            assert(ge[di] <= gs[ei]);
        }
        lemma_count_run_plus_one(s, gs[di] as int, ge[di] as int, q, level, di);
        assert(crate::ska_sort::buckets_fit(s, level, gs, ge));
        assert(ge[di] - gs[di] == crate::radix_key::count_byte(s, level, di));
    }
    d
}

/// Carrying out one operation: the outbound run receives keys of its own
/// country, and the inbound run's place is settled or left as a residual run.
#[verifier::rlimit(40)]
proof fn lemma_exec_op<T: RadixKey>(
    s: Seq<T>,
    t: Seq<T>,
    level: nat,
    starts: Seq<usize>,
    ends: Seq<usize>,
    w: Multiset<Edge>,
    op: Operation,
)
    requires
        edges_ok(s, level, starts, ends, w),
        w.count(op.inbound) > 0,
        w.count(op.outbound) > 0,
        op.inbound.dst == op.outbound.init,
        op.inbound.len == op.outbound.len,
        t.len() == s.len(),
        forall|p: int|
            0 <= p < s.len() ==> #[trigger] t[p] == if op.outbound.start <= p < op.outbound.start + op.outbound.len {
                s[p - op.outbound.start + op.inbound.start]
            } else if op.inbound.start <= p < op.inbound.start + op.inbound.len {
                s[p - op.inbound.start + op.outbound.start]
            } else {
                s[p]
            },
        buckets_tile(starts, ends, s.len()),
    ensures
        edges_ok(t, level, starts, ends, w.remove(op.inbound).remove(op.outbound).add(residual(op).to_multiset())),
        forall|p: int| covered(w.remove(op.inbound).remove(op.outbound).add(residual(op).to_multiset()), p) ==> covered(w, p),
        !covered(w.remove(op.inbound).remove(op.outbound).add(residual(op).to_multiset()), op.outbound.start as int),
{
    reveal(edges_ok);
    reveal(bag_ok);
    lemma_buckets_ordered(starts, ends, s.len());
    let i = op.inbound;
    let o = op.outbound;
    let r = residual(op);
    let w2 = w.remove(i).remove(o).add(r.to_multiset());
    assert(edge_valid(s, level, starts, ends, i));
    assert(edge_valid(s, level, starts, ends, o));
    assert(i != o);
    assert(apart(i, o));
    let ne = Edge { dst: o.dst, init: i.init, start: i.start, len: i.len };
    r.to_multiset_ensures();
    Seq::<Edge>::empty().to_multiset_ensures();
    if o.dst != i.init {
        assert(r =~= Seq::<Edge>::empty().push(ne));
        vstd::seq_lib::to_multiset_build(Seq::<Edge>::empty(), ne);
        assert(r.to_multiset() =~= Multiset::empty().insert(ne));
    } else {
        assert(r.to_multiset() =~= Multiset::empty());
    }
    assert(w.count(i) == 1 && w.count(o) == 1);
    assert forall|f: Edge| #[trigger] w2.count(f) > 0 implies (f == ne && o.dst != i.init) || (w.count(f) > 0 && f != i && f != o) by {
        if r.to_multiset().count(f) > 0 {
            assert(o.dst != i.init && f == ne);
        }
    }
    // runs of w2
    assert forall|f: Edge| #[trigger] w2.count(f) > 0 implies f.len >= 1 && w2.count(f) == 1 by {
        if f == ne && o.dst != i.init {
            if w.count(ne) > 0 {
                assert(ne != i);
                assert(apart(ne, i));
            }
        }
    }
    assert forall|f: Edge, g: Edge| #[trigger] w2.count(f) > 0 && #[trigger] w2.count(g) > 0 && f != g implies apart(f, g) by {
        if f == ne && o.dst != i.init {
            assert(apart(g, i));
        } else if g == ne && o.dst != i.init {
            assert(apart(f, i));
        }
    }
    assert forall|f: Edge| #[trigger] w2.count(f) > 0 implies edge_valid(t, level, starts, ends, f) by {
        if f == ne && o.dst != i.init {
            assert forall|p: int| holds(f, p) implies #[trigger] t[p].spec_level(level) == f.dst by {
                assert(holds(o, p - i.start + o.start));
            }
        } else {
            assert(apart(f, i) && apart(f, o));
            assert(edge_valid(s, level, starts, ends, f));
            assert forall|p: int| holds(f, p) implies #[trigger] t[p].spec_level(level) == f.dst by {
                assert(t[p] == s[p]);
            }
        }
    }
    assert forall|p: int| covered(w2, p) implies covered(w, p) by {
        let f = choose|f: Edge| #[trigger] w2.count(f) > 0 && holds(f, p);
        if f == ne && o.dst != i.init {
            assert(w.count(i) > 0 && holds(i, p));
        } else {
            assert(w.count(f) > 0);
        }
    }
    assert(!covered(w2, o.start as int)) by {
        if covered(w2, o.start as int) {
            let f = choose|f: Edge| #[trigger] w2.count(f) > 0 && holds(f, o.start as int);
            if f == ne && o.dst != i.init {
            } else {
                assert(apart(f, o));
            }
        }
    }
    assert forall|c: int, p: int|
        #![trigger starts[c], t[p]]
        0 <= c < 256 && starts[c] <= p < ends[c] && !covered(w2, p) implies t[p].spec_level(level) == c by {
        if holds(o, p) {
            assert(holds(i, p - o.start + i.start));
            let oi = o.init as int;
            assert(starts[oi] <= p < ends[oi]);
            if c < oi {
                assert(ends[c] <= starts[oi]);
            } else if c > oi {
                assert(ends[oi] <= starts[c]);
            }
        } else if holds(i, p) {
            assert(holds(o, p - i.start + o.start));
            let ii = i.init as int;
            assert(starts[ii] <= p < ends[ii]);
            if o.dst != i.init {
                assert(w2.count(ne) > 0 && holds(ne, p));
            }
            if c < ii {
                assert(ends[c] <= starts[ii]);
            } else if c > ii {
                assert(ends[ii] <= starts[c]);
            }
        } else {
            assert(t[p] == s[p]);
            if covered(w, p) {
                let f = choose|f: Edge| #[trigger] w.count(f) > 0 && holds(f, p);
                assert(f != i && f != o);
                assert(w2.count(f) > 0);
            }
        }
    }
}

/// The runs still to settle while the operations of a pass are carried out:
/// the unpaired runs, the residuals of the first `j` operations, and the runs
/// of the others.
pub open spec fn exec_bag(outs: Seq<Edge>, ops: Seq<Operation>, j: int) -> Multiset<Edge> {
    (outs + residuals(ops.subrange(0, j)) + flat(ops.subrange(j, ops.len() as int))).to_multiset()
}

proof fn lemma_flat_single(op: Operation)
    ensures
        flat(seq![op]) == seq![op.inbound, op.outbound],
{
    let s = seq![op];
    assert(s.drop_last() =~= Seq::<Operation>::empty());
    assert(flat(Seq::<Operation>::empty()) =~= Seq::<Edge>::empty());
    assert(s.last() == op);
    assert(flat(s) =~= seq![op.inbound, op.outbound]);
}

proof fn lemma_flat_first(ops: Seq<Operation>, j: int)
    requires
        0 <= j < ops.len(),
    ensures
        flat(ops.subrange(j, ops.len() as int)) == seq![ops[j].inbound, ops[j].outbound] + flat(
            ops.subrange(j + 1, ops.len() as int),
        ),
{
    let rest = ops.subrange(j + 1, ops.len() as int);
    assert(ops.subrange(j, ops.len() as int) =~= seq![ops[j]] + rest);
    lemma_flat_concat(seq![ops[j]], rest);
    lemma_flat_single(ops[j]);
}

proof fn lemma_exec_members(outs: Seq<Edge>, ops: Seq<Operation>, j: int)
    requires
        0 <= j < ops.len(),
    ensures
        exec_bag(outs, ops, j).count(ops[j].inbound) > 0,
        exec_bag(outs, ops, j).count(ops[j].outbound) > 0,
{
    lemma_flat_first(ops, j);
    let pre = outs + residuals(ops.subrange(0, j));
    let all = pre + flat(ops.subrange(j, ops.len() as int));
    all.to_multiset_ensures();
    assert(all[pre.len() as int] == ops[j].inbound);
    assert(all[pre.len() as int + 1] == ops[j].outbound);
    assert(all.contains(ops[j].inbound));
    assert(all.contains(ops[j].outbound));
}

proof fn lemma_exec_step(outs: Seq<Edge>, ops: Seq<Operation>, j: int)
    requires
        0 <= j < ops.len(),
    ensures
        exec_bag(outs, ops, j + 1) == exec_bag(outs, ops, j).remove(ops[j].inbound).remove(
            ops[j].outbound,
        ).add(residual(ops[j]).to_multiset()),
{
    lemma_flat_first(ops, j);
    let pre = outs + residuals(ops.subrange(0, j));
    let rest = flat(ops.subrange(j + 1, ops.len() as int));
    let pair = seq![ops[j].inbound, ops[j].outbound];
    let r = residual(ops[j]);
    assert(ops.subrange(0, j + 1).drop_last() =~= ops.subrange(0, j));
    assert(residuals(ops.subrange(0, j + 1)) == residuals(ops.subrange(0, j)) + r);
    assert(outs + residuals(ops.subrange(0, j + 1)) =~= pre + r);
    vstd::seq_lib::lemma_multiset_commutative(pre + r, rest);
    vstd::seq_lib::lemma_multiset_commutative(pre, r);
    vstd::seq_lib::lemma_multiset_commutative(pre, pair + rest);
    vstd::seq_lib::lemma_multiset_commutative(pair, rest);
    assert(pair =~= Seq::<Edge>::empty().push(ops[j].inbound).push(ops[j].outbound));
    vstd::seq_lib::to_multiset_build(Seq::<Edge>::empty(), ops[j].inbound);
    vstd::seq_lib::to_multiset_build(Seq::<Edge>::empty().push(ops[j].inbound), ops[j].outbound);
    Seq::<Edge>::empty().to_multiset_ensures();
    assert(Seq::<Edge>::empty().to_multiset() =~= Multiset::empty());
    assert(exec_bag(outs, ops, j) =~= pre.to_multiset().add(rest.to_multiset()).insert(ops[j].inbound).insert(ops[j].outbound));
    assert(exec_bag(outs, ops, j + 1) =~= pre.to_multiset().add(r.to_multiset()).add(rest.to_multiset()));
    assert(exec_bag(outs, ops, j + 1) =~= exec_bag(outs, ops, j).remove(ops[j].inbound).remove(
        ops[j].outbound,
    ).add(r.to_multiset()));
}

proof fn lemma_exec_final(outs: Seq<Edge>, ops: Seq<Operation>)
    ensures
        exec_bag(outs, ops, ops.len() as int) == (outs + residuals(ops)).to_multiset(),
        exec_bag(outs, ops, 0) == (outs + flat(ops)).to_multiset(),
{
    assert(ops.subrange(0, ops.len() as int) =~= ops);
    assert(ops.subrange(ops.len() as int, ops.len() as int) =~= Seq::<Operation>::empty());
    assert(flat(Seq::<Operation>::empty()) =~= Seq::<Edge>::empty());
    assert(outs + residuals(ops) + flat(Seq::<Operation>::empty()) =~= outs + residuals(ops));
    assert(ops.subrange(0, 0) =~= Seq::<Operation>::empty());
    assert(residuals(Seq::<Operation>::empty()) =~= Seq::<Edge>::empty());
    assert(ops.subrange(0, ops.len() as int) =~= ops);
    assert(outs + residuals(Seq::<Operation>::empty()) + flat(ops) =~= outs + flat(ops));
}

proof fn lemma_sub_bag(a: Seq<Edge>, f: Seq<Edge>, m: Multiset<Edge>)
    requires
        bag_ok((a + f).to_multiset()),
        refines((a + f).to_multiset(), m),
        forall|e: Edge| #[trigger] m.count(e) > 0 ==> e.init != e.dst && e.start + e.len <= usize::MAX,
    ensures
        bag_ok(a.to_multiset()),
        forall|e: Edge| #[trigger] a.to_multiset().count(e) > 0 ==> e.init != e.dst && e.start + e.len <= usize::MAX,
{
    reveal(bag_ok);
    reveal(refines);
    vstd::seq_lib::lemma_multiset_commutative(a, f);
    let all = (a + f).to_multiset();
    assert forall|e: Edge| #[trigger] a.to_multiset().count(e) > 0 implies e.init != e.dst && e.start + e.len <= usize::MAX by {
        assert(all.count(e) > 0);
        let g = choose|g: Edge| #[trigger] m.count(g) > 0 && within(e, g);
    }
    assert forall|e: Edge| #[trigger] a.to_multiset().count(e) > 0 implies e.len >= 1 && a.to_multiset().count(e) == 1 by {
        assert(all.count(e) > 0);
    }
    assert forall|e: Edge, g: Edge| #[trigger] a.to_multiset().count(e) > 0 && #[trigger] a.to_multiset().count(g) > 0 && e != g implies apart(e, g) by {
        assert(all.count(e) > 0);
        assert(all.count(g) > 0);
    }
}

proof fn lemma_rejoin(out0: Seq<Edge>, out1: Seq<Edge>, f0: Seq<Edge>, fnew: Seq<Edge>, m: Multiset<Edge>)
    requires
        bag_ok((out0 + f0).to_multiset()),
        refines((out0 + f0).to_multiset(), m),
        bag_ok((out1 + fnew).to_multiset()),
        refines((out1 + fnew).to_multiset(), out0.to_multiset()),
    ensures
        bag_ok((out1 + (f0 + fnew)).to_multiset()),
        refines((out1 + (f0 + fnew)).to_multiset(), m),
{
    reveal(bag_ok);
    reveal(refines);
    let old_all = (out0 + f0).to_multiset();
    let pieces = (out1 + fnew).to_multiset();
    let new_all = (out1 + (f0 + fnew)).to_multiset();
    vstd::seq_lib::lemma_multiset_commutative(out0, f0);
    vstd::seq_lib::lemma_multiset_commutative(out1, fnew);
    vstd::seq_lib::lemma_multiset_commutative(f0, fnew);
    vstd::seq_lib::lemma_multiset_commutative(out1, f0 + fnew);
    assert(new_all =~= pieces.add(f0.to_multiset()));
    assert forall|x: Edge| #[trigger] pieces.count(x) > 0 implies exists|e: Edge| #[trigger] out0.to_multiset().count(e) > 0 && within(x, e) by {}
    assert forall|x: Edge| #[trigger] pieces.count(x) > 0 implies f0.to_multiset().count(x) == 0 && x.len >= 1 by {
        let e = choose|e: Edge| #[trigger] out0.to_multiset().count(e) > 0 && within(x, e);
        assert(old_all.count(e) > 0);
        if f0.to_multiset().count(x) > 0 {
            assert(old_all.count(x) > 0);
            if x == e {
                assert(old_all.count(e) >= 2);
            } else {
                assert(apart(x, e));
            }
        }
    }
    assert forall|x: Edge| #[trigger] new_all.count(x) > 0 implies x.len >= 1 && new_all.count(x) == 1 by {
        if pieces.count(x) > 0 {
        } else {
            assert(old_all.count(x) > 0);
        }
    }
    assert forall|x: Edge, y: Edge| #[trigger] new_all.count(x) > 0 && #[trigger] new_all.count(y) > 0 && x != y implies apart(x, y) by {
        if pieces.count(x) > 0 && pieces.count(y) > 0 {
        } else if pieces.count(x) > 0 {
            let e = choose|e: Edge| #[trigger] out0.to_multiset().count(e) > 0 && within(x, e);
            assert(old_all.count(e) > 0 && old_all.count(y) > 0);
            if e == y {
                assert(old_all.count(e) >= 2);
            }
        } else if pieces.count(y) > 0 {
            let e = choose|e: Edge| #[trigger] out0.to_multiset().count(e) > 0 && within(y, e);
            assert(old_all.count(e) > 0 && old_all.count(x) > 0);
            if e == x {
                assert(old_all.count(e) >= 2);
            }
        } else {
            assert(old_all.count(x) > 0 && old_all.count(y) > 0);
        }
    }
    assert forall|x: Edge| #[trigger] new_all.count(x) > 0 implies exists|e: Edge| #[trigger] m.count(e) > 0 && within(x, e) by {
        if pieces.count(x) > 0 {
            let e = choose|e: Edge| #[trigger] out0.to_multiset().count(e) > 0 && within(x, e);
            assert(old_all.count(e) > 0);
            let g = choose|g: Edge| #[trigger] m.count(g) > 0 && within(e, g);
            assert(within(x, g));
        } else {
            assert(old_all.count(x) > 0);
        }
    }
    assert forall|p: int| #[trigger] covered(m, p) implies covered(new_all, p) by {
        assert(covered(old_all, p));
        let e = choose|e: Edge| #[trigger] old_all.count(e) > 0 && holds(e, p);
        if out0.to_multiset().count(e) > 0 {
            assert(covered(out0.to_multiset(), p));
            assert(covered(pieces, p));
            let x = choose|x: Edge| #[trigger] pieces.count(x) > 0 && holds(x, p);
            assert(new_all.count(x) > 0);
        } else {
            assert(new_all.count(e) > 0);
        }
    }
}

/// Distributes each tile of `rest` on its own, tile `t` first, by the
/// histograms in `tile_counts`.
#[verifier::rlimit(40)]
fn sort_tiles<T: RadixKey>(
    rest: &mut [T],
    tile_counts: &Vec<[usize; 256]>,
    t: usize,
    tile_size: usize,
    level: usize,
)
    requires
        tile_size >= 1,
        (level as nat) < T::spec_levels(),
        forall|u: int|
            t <= u < tile_counts@.len() && (u - t) * tile_size < old(rest)@.len() ==> is_histogram(
                #[trigger] tile_counts@[u]@,
                tile_of(old(rest)@, tile_size as int, u - t),
                level as nat,
            ),
    ensures
        final(rest)@.len() == old(rest)@.len(),
        same_keys(old(rest)@, final(rest)@),
        forall|u: int, b: int, q: int|
            #![trigger final(rest)@[q], sum_to(tile_counts@[u]@, b)]
            t <= u < tile_counts@.len() && (u - t) * tile_size < old(rest)@.len() && 0 <= b < 256
                && (u - t) * tile_size + sum_to(tile_counts@[u]@, b) <= q < (u - t) * tile_size
                + sum_to(tile_counts@[u]@, b + 1) ==> final(rest)@[q].spec_level(level as nat) == b,
    decreases tile_counts@.len() - t,
{
    let ghost s = rest@;
    let ghost ts = tile_size as int;
    if t >= tile_counts.len() || rest.len() == 0 {
        return;
    }
    let len = rest.len();
    let n = if tile_size < len {
        tile_size
    } else {
        len
    };
    proof {
        assert(0 * ts == 0) by (nonlinear_arith);
        assert((0 + 1) * ts == ts) by (nonlinear_arith);
        assert(tile_of(s, ts, 0) =~= s.subrange(0, n as int));
        assert(is_histogram(tile_counts@[t as int]@, tile_of(s, ts, (t - t) as int), level as nat));
    }
    let (head, tail) = rest.split_at_mut(n);
    let ghost h0 = head@;
    let ghost t0 = tail@;
    let counts = tile_counts[t];
    proof {
        lemma_histogram_total(h0, level as nat, counts@);
        crate::sorter::lemma_buckets_from_counts(h0, level as nat, counts@);
    }
    let mut prefix_sums = get_prefix_sums(&counts);
    let end_offsets = get_end_offsets(&counts, &prefix_sums);
    proof {
        assert(prefix_sums@ =~= bucket_starts(counts@));
        assert(end_offsets@ =~= bucket_ends(counts@));
    }
    ska_sort(head, &mut prefix_sums, &end_offsets, level);
    let ghost h1 = head@;
    proof {
        assert forall|u: int|
            t + 1 <= u < tile_counts@.len() && (u - (t + 1)) * ts < t0.len() implies is_histogram(
            #[trigger] tile_counts@[u]@,
            tile_of(t0, ts, u - (t + 1)),
            level as nat,
        ) by {
            let k = u - t;
            assert((k - 1) * ts + ts == k * ts) by (nonlinear_arith);
            assert(k * ts + ts == (k + 1) * ts) by (nonlinear_arith);
            assert(n == ts);
            assert(tile_of(t0, ts, k - 1) =~= tile_of(s, ts, k));
        }
    }
    sort_tiles(tail, tile_counts, t + 1, tile_size, level);
    proof {
        assert(s =~= h0 + t0);
        crate::key_lemmas::lemma_same_keys_concat(h0, t0, head@, tail@);
        let r = rest@;
        assert(r =~= h1 + tail@);
        assert forall|u: int, b: int, q: int|
            #![trigger r[q], sum_to(tile_counts@[u]@, b)]
            t <= u < tile_counts@.len() && (u - t) * ts < s.len() && 0 <= b < 256
                && (u - t) * ts + sum_to(tile_counts@[u]@, b) <= q < (u - t) * ts
                + sum_to(tile_counts@[u]@, b + 1) implies r[q].spec_level(level as nat) == b by {
            if u == t {
                assert((u - t) * ts == 0) by (nonlinear_arith)
                    requires
                        u == t,
                ;
                lemma_sum_mono(counts@, b + 1, 256);
                lemma_sum_mono(counts@, 0, b);
                assert(bucket_starts(counts@)[b] == sum_to(counts@, b));
                assert(bucket_ends(counts@)[b] == sum_to(counts@, b + 1));
                assert(r[q] == h1[q]);
                assert(bucket_starts(counts@)[b] == bucket_starts(counts@)[b]);
            } else {
                let k = u - t;
                assert((k - 1) * ts + ts == k * ts) by (nonlinear_arith);
                assert(k >= 1);
                assert(ts <= k * ts) by (nonlinear_arith)
                    requires
                        k >= 1,
                        ts >= 1,
                ;
                assert(n == ts);
                assert((k + 1) * ts == k * ts + ts) by (nonlinear_arith);
                assert(tile_of(s, ts, k).len() == tile_end(s.len() as int, ts, k) - k * ts);
                assert(is_histogram(tile_counts@[u]@, tile_of(s, ts, k), level as nat));
                lemma_histogram_total(tile_of(s, ts, k), level as nat, tile_counts@[u]@);
                lemma_sum_mono(tile_counts@[u]@, b + 1, 256);
                assert(q < s.len());
                lemma_sum_mono(tile_counts@[u]@, 0, b);
                assert(sum_to(tile_counts@[u]@, 0) == 0);
                assert(q >= n);
                assert(h1.len() == n);
                assert(r[q] == tail@[q - n]);
                assert(tail@[q - n] == tail@[q - n]);
                assert((u - (t + 1)) * ts + sum_to(tile_counts@[u]@, b) <= q - n);
                assert((u - (t + 1)) * ts < t0.len());
            }
        }
    }
}

/// Distributes the keys of a tiled chunk into the buckets of their byte at
/// `level`: each tile is distributed on its own, then the runs that sit in
/// another byte's country are swapped pairwise, pass after pass, until every
/// key is home.
#[verifier::rlimit(40)]
pub fn regions_sort<T: RadixKey>(
    bucket: &mut [T],
    counts: &[usize; 256],
    tile_counts: &Vec<[usize; 256]>,
    tile_size: usize,
    level: usize,
)
    requires
        (level as nat) < T::spec_levels(),
        is_histogram(counts@, old(bucket)@, level as nat),
        tile_size >= 1,
        tile_counts@.len() >= 1,
        (tile_counts@.len() - 1) * tile_size < old(bucket)@.len() <= tile_counts@.len() * tile_size,
        forall|t: int|
            0 <= t < tile_counts@.len() ==> is_histogram(
                #[trigger] tile_counts@[t]@,
                tile_of(old(bucket)@, tile_size as int, t),
                level as nat,
            ),
    ensures
        final(bucket)@.len() == old(bucket)@.len(),
        same_keys(old(bucket)@, final(bucket)@),
        in_buckets(final(bucket)@, level as nat, bucket_starts(counts@), bucket_ends(counts@)),
{
    let ghost s0 = bucket@;
    let ghost lv = level as nat;
    let ghost gs = bucket_starts(counts@);
    let ghost ge = bucket_ends(counts@);
    let len = bucket.len();
    proof {
        assert forall|u: int|
            0 <= u < tile_counts@.len() && (u - 0) * tile_size < s0.len() implies is_histogram(
            #[trigger] tile_counts@[u]@,
            tile_of(s0, tile_size as int, u - 0),
            lv,
        ) by {}
    }
    sort_tiles(bucket, tile_counts, 0, tile_size, level);
    proof {
        assert forall|b: int| 0 <= b < 256 implies #[trigger] counts@[b] == crate::radix_key::count_byte(bucket@, lv, b) by {
            lemma_count_perm(s0, bucket@, lv, b);
        }
        lemma_histogram_total(bucket@, lv, counts@);
        crate::sorter::lemma_buckets_from_counts(bucket@, lv, counts@);
    }
    proof {
        assert forall|u: int|
            0 <= u < tile_counts@.len() implies #[trigger] sum_to(tile_counts@[u]@, 256) == tile_end(
            len as int,
            tile_size as int,
            u,
        ) - u * tile_size by {
            assert((u + 1) * tile_size == u * tile_size + tile_size) by (nonlinear_arith);
            assert(u * tile_size <= (tile_counts@.len() - 1) * tile_size) by (nonlinear_arith)
                requires
                    u <= tile_counts@.len() - 1,
                    tile_size >= 1,
            ;
            assert(tile_of(s0, tile_size as int, u).len() == tile_end(len as int, tile_size as int, u) - u * tile_size);
            lemma_histogram_total(tile_of(s0, tile_size as int, u), lv, tile_counts@[u]@);
        }
        assert forall|u: int, b: int, q: int|
            #![trigger bucket@[q], sum_to(tile_counts@[u]@, b)]
            0 <= u < tile_counts@.len() && 0 <= b < 256 && u * tile_size + sum_to(tile_counts@[u]@, b)
                <= q < u * tile_size + sum_to(tile_counts@[u]@, b + 1) implies bucket@[q].spec_level(lv) == b by {
            assert(u * tile_size <= (tile_counts@.len() - 1) * tile_size) by (nonlinear_arith)
                requires
                    u <= tile_counts@.len() - 1,
                    tile_size >= 1,
            ;
            assert((u - 0) * tile_size == u * tile_size);
            assert(bucket@[q] == bucket@[q]);
            assert(sum_to(tile_counts@[u]@, b) == sum_to(tile_counts@[u]@, b));
        }
    }
    let mut outbounds = generate_outbounds(bucket, tile_counts, counts, Ghost(lv), Ghost(tile_size as int));
    let mut operations: Vec<Operation> = Vec::new();
    loop
        invariant_except_break
            bucket@.len() == len,
            len == s0.len(),
            lv == level as nat,
            lv < T::spec_levels(),
            gs == bucket_starts(counts@),
            ge == bucket_ends(counts@),
            is_histogram(counts@, bucket@, lv),
            buckets_tile(gs, ge, len as nat),
            same_keys(s0, bucket@),
            is_histogram(counts@, s0, lv),
            edges_ok(bucket@, lv, gs, ge, outbounds@.to_multiset()),
            operations@.len() == 0,
        ensures
            bucket@.len() == len,
            same_keys(s0, bucket@),
            in_buckets(bucket@, lv, gs, ge),
        decreases covered_count(outbounds@.to_multiset(), len as int),
    {
        if outbounds.len() == 0 {
            proof {
                reveal(edges_ok);
                outbounds@.to_multiset_ensures();
                assert forall|c: int, p: int|
                    #![trigger gs[c], bucket@[p]]
                    0 <= c < 256 && gs[c] <= p < ge[c] implies bucket@[p].spec_level(lv) == c by {
                    assert(!covered(outbounds@.to_multiset(), p));
                }
            }
            break;
        }
        let ghost m_pass = outbounds@.to_multiset();
        let ghost s_pass = bucket@;
        let ghost mut d: usize = 0;
        proof {
            outbounds@.to_multiset_ensures();
            assert(outbounds@.contains(outbounds@[0]));
            d = lemma_find_pair(s_pass, lv, counts@, m_pass, outbounds@[0]);
            reveal(edges_ok);
            assert forall|e: Edge| #[trigger] m_pass.count(e) > 0 implies e.init != e.dst && e.start + e.len <= usize::MAX by {
                assert(edge_valid(s_pass, lv, gs, ge, e));
                lemma_buckets_ordered(gs, ge, len as nat);
            }
            assert(flat(operations@) =~= Seq::<Edge>::empty());
            assert(outbounds@ + flat(operations@) =~= outbounds@);
            lemma_refines_refl(m_pass);
        }
        let mut country: usize = 0;
        while country < 256
            invariant
                bag_ok((outbounds@ + flat(operations@)).to_multiset()),
                refines((outbounds@ + flat(operations@)).to_multiset(), m_pass),
                forall|j: int|
                    0 <= j < operations@.len() ==> (#[trigger] operations@[j]).inbound.dst
                        == operations@[j].outbound.init && operations@[j].inbound.len
                        == operations@[j].outbound.len,
                operations@.len() == 0 ==> outbounds@.to_multiset() == m_pass,
                country <= 256,
                d < 256,
                exists|f: Edge| #[trigger] m_pass.count(f) > 0 && f.dst == d,
                exists|f: Edge| #[trigger] m_pass.count(f) > 0 && f.init == d,
                country > d ==> operations@.len() > 0,
                forall|e: Edge| #[trigger] m_pass.count(e) > 0 ==> e.init != e.dst && e.start + e.len <= usize::MAX,
            decreases 256 - country,
        {
            let ghost ops0 = operations@;
            let ghost out0 = outbounds@;
            proof {
                lemma_sub_bag(out0, flat(ops0), m_pass);
            }
            let (new_outbounds, mut new_ops) = list_operations(country, outbounds);
            let ghost nops = new_ops@;
            outbounds = new_outbounds;
            operations.append(&mut new_ops);
            proof {
                lemma_flat_concat(ops0, nops);
                lemma_rejoin(out0, outbounds@, flat(ops0), flat(nops), m_pass);
                if ops0.len() == 0 && country == d {
                    assert(out0.to_multiset() == m_pass);
                }
                if ops0.len() == 0 && nops.len() == 0 {
                    assert(operations@ =~= Seq::<Operation>::empty());
                }
            }
            country += 1;
        }
        if operations.len() == 0 {
            proof {
                assert(country > d);
                assert(false);
            }
            break;
        }
        let ghost w0 = (outbounds@ + flat(operations@)).to_multiset();
        let ghost q0 = operations@[0].outbound.start as int;
        proof {
            lemma_refine_keeps_ok(s_pass, lv, gs, ge, m_pass, w0);
            lemma_refines_covered(w0, m_pass);
            assert(operations@ =~= seq![operations@[0]] + operations@.subrange(1, operations@.len() as int));
            lemma_flat_concat(seq![operations@[0]], operations@.subrange(1, operations@.len() as int));
            lemma_flat_single(operations@[0]);
            reveal(edges_ok);
            reveal(bag_ok);
            let f = flat(operations@);
            assert(f[1] == operations@[0].outbound);
            (outbounds@ + f).to_multiset_ensures();
            assert((outbounds@ + f).contains(operations@[0].outbound)) by {
                assert((outbounds@ + f)[outbounds@.len() as int + 1] == operations@[0].outbound);
            }
            lemma_exec_final(outbounds@, operations@);
            assert(covered(w0, q0)) by {
                assert(w0.count(operations@[0].outbound) > 0);
                assert(operations@[0].outbound.len >= 1);
                assert(holds(operations@[0].outbound, q0));
            }
        }
        let mut j: usize = 0;
        while j < operations.len()
            invariant
                j <= operations@.len(),
                bucket@.len() == len,
                lv < T::spec_levels(),
                buckets_tile(gs, ge, len as nat),
                same_keys(s0, bucket@),
                forall|k: int|
                    0 <= k < operations@.len() ==> (#[trigger] operations@[k]).inbound.dst
                        == operations@[k].outbound.init && operations@[k].inbound.len
                        == operations@[k].outbound.len,
                edges_ok(bucket@, lv, gs, ge, exec_bag(outbounds@, operations@, j as int)),
                forall|p: int| covered(exec_bag(outbounds@, operations@, j as int), p) ==> covered(w0, p),
                j > 0 ==> !covered(exec_bag(outbounds@, operations@, j as int), q0),
                w0 == exec_bag(outbounds@, operations@, 0),
                operations@.len() > 0,
                q0 == operations@[0].outbound.start as int,
            decreases operations@.len() - j,
        {
            let op = operations[j];
            let ghost sb = bucket@;
            let ghost wj = exec_bag(outbounds@, operations@, j as int);
            proof {
                lemma_exec_members(outbounds@, operations@, j as int);
                reveal(edges_ok);
                reveal(bag_ok);
                assert(edge_valid(sb, lv, gs, ge, op.inbound));
                assert(edge_valid(sb, lv, gs, ge, op.outbound));
                assert(op.inbound != op.outbound);
                assert(apart(op.inbound, op.outbound));
                lemma_buckets_ordered(gs, ge, len as nat);
            }
            swap_ranges(bucket, op.outbound.start, op.inbound.start, op.inbound.len);
            proof {
                lemma_exec_op(sb, bucket@, lv, gs, ge, wj, op);
                lemma_exec_step(outbounds@, operations@, j as int);
                if j == 0 {
                    assert(op == operations@[0]);
                    assert(q0 == op.outbound.start);
                }
            }
            j += 1;
        }
        let mut k: usize = 0;
        let ghost base = outbounds@;
        while k < operations.len()
            invariant
                k <= operations@.len(),
                outbounds@ == base + residuals(operations@.subrange(0, k as int)),
            decreases operations@.len() - k,
        {
            let i = operations[k].inbound;
            let o = operations[k].outbound;
            proof {
                assert(operations@.subrange(0, k + 1).drop_last() =~= operations@.subrange(0, k as int));
            }
            if o.dst != i.init {
                outbounds.push(Edge { dst: o.dst, init: i.init, start: i.start, len: i.len });
                proof {
                    assert(outbounds@ =~= base + residuals(operations@.subrange(0, k + 1)));
                }
            } else {
                proof {
                    assert(outbounds@ =~= base + residuals(operations@.subrange(0, k + 1)));
                }
            }
            k += 1;
        }
        proof {
            assert(operations@.subrange(0, operations@.len() as int) =~= operations@);
            lemma_exec_final(base, operations@);
            let wn = outbounds@.to_multiset();
            lemma_refines_covered(w0, m_pass);
            assert(covered(m_pass, q0));
            assert forall|p: int| covered(wn, p) implies covered(m_pass, p) by {
                assert(covered(w0, p));
            }
            let o0 = operations@[0].outbound;
            lemma_exec_members(base, operations@, 0);
            reveal(edges_ok);
            assert(edge_valid(s_pass, lv, gs, ge, o0));
            lemma_buckets_ordered(gs, ge, len as nat);
            assert(q0 < len);
            lemma_covered_count_shrinks(m_pass, wn, q0, len as int);
            assert forall|b: int| 0 <= b < 256 implies #[trigger] counts@[b] == crate::radix_key::count_byte(bucket@, lv, b) by {
                lemma_count_perm(s0, bucket@, lv, b);
            }
        }
        operations.clear();
    }
}

} // verus!
