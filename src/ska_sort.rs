//! In-place distribution of a slice into its 256 buckets of one byte level.
use vstd::prelude::*;
use crate::radix_key::{RadixKey, count_byte, same_keys};
use crate::key_lemmas::{lemma_count_perm, lemma_count_run_plus_one, lemma_perm_window, swap_keys};
use crate::sort_utils::{get_prefix_sums, get_end_offsets, sum_to};

verus! {

/// `starts` and `ends` cut `[0, len)` into 256 consecutive buckets, in byte order.
pub open spec fn buckets_tile(starts: Seq<usize>, ends: Seq<usize>, len: nat) -> bool {
    &&& starts.len() == 256
    &&& ends.len() == 256
    &&& starts[0] == 0
    &&& ends[255] == len
    &&& forall|b: int| 0 <= b < 255 ==> #[trigger] starts[b + 1] == ends[b]
    &&& forall|b: int| 0 <= b < 256 ==> #[trigger] starts[b] <= ends[b]
}

/// Each bucket is exactly as long as the number of keys of `s` with its byte.
pub open spec fn buckets_fit<T: RadixKey>(
    s: Seq<T>,
    level: nat,
    starts: Seq<usize>,
    ends: Seq<usize>,
) -> bool {
    forall|b: int| 0 <= b < 256 ==> #[trigger] ends[b] - starts[b] == count_byte(s, level, b)
}

/// Every key of `s` lies in the bucket of its byte at `level`.
pub open spec fn in_buckets<T: RadixKey>(
    s: Seq<T>,
    level: nat,
    starts: Seq<usize>,
    ends: Seq<usize>,
) -> bool {
    forall|b: int, p: int|
        #![trigger starts[b], s[p]]
        0 <= b < 256 && starts[b] <= p < ends[b] ==> s[p].spec_level(level) == b
}

/// The number of set flags.
pub open spec fn num_true(m: Seq<bool>) -> nat
    decreases m.len(),
{
    if m.len() == 0 {
        0
    } else {
        num_true(m.drop_last()) + if m.last() {
            1nat
        } else {
            0nat
        }
    }
}

/// What is left to place in the first `n` buckets.
pub open spec fn gap(next: Seq<usize>, ends: Seq<usize>, n: int) -> int
    decreases n,
{
    if n <= 0 {
        0
    } else {
        gap(next, ends, n - 1) + (ends[n - 1] - next[n - 1])
    }
}

proof fn lemma_num_true_set(m: Seq<bool>, i: int)
    requires
        0 <= i < m.len(),
        !m[i],
    ensures
        num_true(m.update(i, true)) == num_true(m) + 1,
    decreases m.len(),
{
    if i < m.len() - 1 {
        assert(m.update(i, true).drop_last() =~= m.drop_last().update(i, true));
        lemma_num_true_set(m.drop_last(), i);
    } else {
        assert(m.update(i, true).drop_last() =~= m.drop_last());
    }
}

proof fn lemma_num_true_bounds(m: Seq<bool>)
    ensures
        num_true(m) <= m.len(),
        num_true(m) == m.len() <==> forall|k: int| 0 <= k < m.len() ==> #[trigger] m[k],
        (forall|k: int| 0 <= k < m.len() ==> !#[trigger] m[k]) ==> num_true(m) == 0,
    decreases m.len(),
{
    if m.len() > 0 {
        lemma_num_true_bounds(m.drop_last());
        if num_true(m) == m.len() {
            assert forall|k: int| 0 <= k < m.len() implies #[trigger] m[k] by {
                if k < m.len() - 1 {
                    assert(m.drop_last()[k] == m[k]);
                }
            }
        }
        if forall|k: int| 0 <= k < m.len() ==> #[trigger] m[k] {
            assert forall|k: int| 0 <= k < m.len() - 1 implies #[trigger] m.drop_last()[k] by {
                assert(m[k]);
            }
        }
        if forall|k: int| 0 <= k < m.len() ==> !#[trigger] m[k] {
            assert forall|k: int| 0 <= k < m.len() - 1 implies !#[trigger] m.drop_last()[k] by {
                assert(!m[k]);
            }
        }
    }
}

proof fn lemma_gap_update(next: Seq<usize>, ends: Seq<usize>, k: int, x: usize, n: int)
    requires
        0 <= k < next.len(),
        n <= next.len(),
    ensures
        k < n ==> gap(next.update(k, x), ends, n) == gap(next, ends, n) - (x - next[k]),
        k >= n ==> gap(next.update(k, x), ends, n) == gap(next, ends, n),
    decreases n,
{
    if n > 0 {
        lemma_gap_update(next, ends, k, x, n - 1);
    }
}

proof fn lemma_gap_nonneg(next: Seq<usize>, ends: Seq<usize>, n: int)
    requires
        n <= next.len(),
        n <= ends.len(),
        forall|b: int| 0 <= b < n ==> #[trigger] next[b] <= ends[b],
    ensures
        gap(next, ends, n) >= 0,
    decreases n,
{
    if n > 0 {
        lemma_gap_nonneg(next, ends, n - 1);
    }
}

/// Earlier buckets end before later ones start.
pub proof fn lemma_buckets_ordered(starts: Seq<usize>, ends: Seq<usize>, len: nat)
    requires
        buckets_tile(starts, ends, len),
    ensures
        forall|a: int, b: int| 0 <= a < b < 256 ==> #[trigger] ends[a] <= #[trigger] starts[b],
        forall|b: int| 0 <= b < 256 ==> #[trigger] ends[b] <= len,
{
    assert forall|a: int, b: int| 0 <= a < b < 256 implies #[trigger] ends[a] <= #[trigger] starts[b] by {
        lemma_ordered_step(starts, ends, len, a, b);
    }
    assert forall|b: int| 0 <= b < 256 implies #[trigger] ends[b] <= len by {
        if b < 255 {
            lemma_ordered_step(starts, ends, len, b, 255);
        }
    }
}

proof fn lemma_ordered_step(starts: Seq<usize>, ends: Seq<usize>, len: nat, a: int, b: int)
    requires
        buckets_tile(starts, ends, len),
        0 <= a < b < 256,
    ensures
        ends[a] <= starts[b],
    decreases b - a,
{
    assert(starts[(b - 1) + 1] == ends[b - 1]);
    if b > a + 1 {
        lemma_ordered_step(starts, ends, len, a, b - 1);
        assert(starts[b - 1] <= ends[b - 1]);
    }
}

/// Relies on `partition::partition_index`: it permutes `data` in place so
/// that every element the predicate accepts comes before every element it
/// rejects, and returns the number of accepted elements.
#[verifier::external_body]
pub fn partition_index<T, P: Fn(&T) -> bool>(data: &mut [T], predicate: P) -> (r: usize)
    requires
        forall|x: &T| #[trigger] predicate.requires((x,)),
    ensures
        final(data)@.len() == old(data)@.len(),
        same_keys(old(data)@, final(data)@),
        r <= final(data)@.len(),
        forall|k: int| 0 <= k < r ==> #[trigger] predicate.ensures((&final(data)@[k],), true),
        forall|k: int|
            r <= k < final(data)@.len() ==> #[trigger] predicate.ensures((&final(data)@[k],), false),
{
    partition::partition_index(data, predicate)
}

/// Moves the keys of `bucket[lo..hi]` whose byte at `level` is `byte` to the
/// front of that window and returns how many there are.
fn partition_by_byte<T: RadixKey>(
    bucket: &mut [T],
    lo: usize,
    hi: usize,
    level: usize,
    byte: u8,
) -> (r: usize)
    requires
        lo <= hi <= old(bucket)@.len(),
        (level as nat) < T::spec_levels(),
    ensures
        final(bucket)@.len() == old(bucket)@.len(),
        final(bucket)@.subrange(0, lo as int) == old(bucket)@.subrange(0, lo as int),
        final(bucket)@.subrange(hi as int, final(bucket)@.len() as int) == old(bucket)@.subrange(
            hi as int,
            old(bucket)@.len() as int,
        ),
        same_keys(old(bucket)@.subrange(lo as int, hi as int), final(bucket)@.subrange(lo as int, hi as int)),
        r <= hi - lo,
        forall|k: int| lo <= k < lo + r ==> #[trigger] final(bucket)@[k].spec_level(level as nat) == byte,
        forall|k: int| lo + r <= k < hi ==> #[trigger] final(bucket)@[k].spec_level(level as nat) != byte,
{
    let ghost s = bucket@;
    let (left, rest) = bucket.split_at_mut(lo);
    let (mid, right) = rest.split_at_mut(hi - lo);
    let ghost m0 = mid@;
    let has_byte = |v: &T| -> (b: bool)
        requires
            (level as nat) < T::spec_levels(),
        ensures
            b == (v.spec_level(level as nat) == byte),
        {
            v.get_level(level) == byte
        };
    let r = partition_index(mid, has_byte);
    proof {
        assert(s.subrange(lo as int, hi as int) =~= m0);
        assert forall|k: int| lo <= k < lo + r implies #[trigger] bucket@[k].spec_level(level as nat) == byte by {
            assert(bucket@[k] == mid@[k - lo]);
            assert(has_byte.ensures((&mid@[k - lo],), true));
        }
        assert forall|k: int| lo + r <= k < hi implies #[trigger] bucket@[k].spec_level(level as nat) != byte by {
            assert(bucket@[k] == mid@[k - lo]);
            assert(has_byte.ensures((&mid@[k - lo],), false));
        }
        assert(bucket@.subrange(lo as int, hi as int) =~= mid@);
        assert(bucket@.subrange(0, lo as int) =~= s.subrange(0, lo as int));
        assert(bucket@.subrange(hi as int, bucket@.len() as int) =~= s.subrange(hi as int, s.len() as int));
    }
    r
}

/// When one bucket is as long as the whole slice, every key already lies in it.
proof fn lemma_single_bucket<T: RadixKey>(
    s: Seq<T>,
    level: nat,
    starts: Seq<usize>,
    ends: Seq<usize>,
    big: int,
)
    requires
        0 <= big < 256,
        buckets_tile(starts, ends, s.len()),
        buckets_fit(s, level, starts, ends),
        ends[big] - starts[big] == s.len(),
    ensures
        in_buckets(s, level, starts, ends),
{
    lemma_buckets_ordered(starts, ends, s.len());
    assert forall|b: int, p: int|
        #![trigger starts[b], s[p]]
        0 <= b < 256 && starts[b] <= p < ends[b] implies s[p].spec_level(level) == b by {
        if b < big {
            assert(ends[b] <= starts[big]);
        } else if b > big {
            assert(ends[big] <= starts[b]);
        } else {
            let w = s[p].spec_level(level) as int;
            if w != big {
                lemma_count_run_plus_one(s, 0, 0, p, level, w);
                assert(ends[w] - starts[w] >= 1);
                if w < big {
                    assert(ends[w] <= starts[big]);
                } else {
                    assert(ends[big] <= starts[w]);
                }
            }
        }
    }
}

/// Moves every key of `bucket` into the bucket of its byte at `level`.
///
/// On entry `prefix_sums[b]` and `end_offsets[b]` bound the bucket of byte `b`
/// and each bucket is as long as the number of keys with its byte; on exit the
/// keys are the same and each lies within the bounds of its byte.
pub fn ska_sort<T: RadixKey>(
    bucket: &mut [T],
    prefix_sums: &mut [usize; 256],
    end_offsets: &[usize; 256],
    level: usize,
)
    requires
        (level as nat) < T::spec_levels(),
        buckets_tile(old(prefix_sums)@, end_offsets@, old(bucket)@.len()),
        buckets_fit(old(bucket)@, level as nat, old(prefix_sums)@, end_offsets@),
    ensures
        final(bucket)@.len() == old(bucket)@.len(),
        same_keys(old(bucket)@, final(bucket)@),
        in_buckets(final(bucket)@, level as nat, old(prefix_sums)@, end_offsets@),
        forall|b: int|
            0 <= b < 256 ==> old(prefix_sums)@[b] <= #[trigger] final(prefix_sums)@[b]
                <= end_offsets@[b],
        (exists|b: int| 0 <= b < 256 && #[trigger] end_offsets@[b] - old(prefix_sums)@[b] == old(bucket)@.len())
            ==> final(bucket)@ == old(bucket)@,
{
    let ghost s0 = bucket@;
    let ghost starts = prefix_sums@;
    let ghost ends = end_offsets@;
    let ghost len = bucket@.len();
    let ghost lv = level as nat;
    proof {
        lemma_buckets_ordered(starts, ends, len);
    }
    let mut finished: usize = 0;
    let mut finished_map = [false; 256];
    let mut largest: usize = 0;
    let mut largest_index: usize = 0;
    proof {
        lemma_num_true_bounds(finished_map@);
    }
    let mut i: usize = 0;
    while i < 256
        invariant
            0 <= i <= 256,
            prefix_sums@ == starts,
            end_offsets@ == ends,
            bucket@ == s0,
            buckets_tile(starts, ends, len),
            finished == num_true(finished_map@),
            largest_index < 256,
            largest == ends[largest_index as int] - starts[largest_index as int] || largest == 0,
            forall|k: int| 0 <= k < i ==> ends[k] - starts[k] <= largest,
            forall|k: int|
                0 <= k < 256 ==> (#[trigger] finished_map@[k] <==> (k < i && ends[k]
                    == starts[k])),
        decreases 256 - i,
    {
        let rem = end_offsets[i] - prefix_sums[i];
        if rem == 0 {
            proof {
                lemma_num_true_set(finished_map@, i as int);
                lemma_num_true_bounds(finished_map@);
            }
            finished_map[i] = true;
            finished += 1;
        } else if rem > largest {
            largest = rem;
            largest_index = i;
        }
        i += 1;
    }
    proof {
        if exists|b: int| 0 <= b < 256 && #[trigger] ends[b] - starts[b] == len {
            let b = choose|b: int| 0 <= b < 256 && #[trigger] ends[b] - starts[b] == len;
            assert(ends[b] - starts[b] <= largest);
            assert(ends[largest_index as int] <= len);
        }
    }
    if largest == bucket.len() {
        proof {
            if len == 0 {
                assert forall|b: int, p: int|
                    #![trigger starts[b], s0[p]]
                    0 <= b < 256 && starts[b] <= p < ends[b] implies s0[p].spec_level(lv) == b by {
                    assert(ends[b] <= len);
                }
            } else {
                lemma_single_bucket(s0, lv, starts, ends, largest_index as int);
            }
        }
        return;
    } else if largest > (bucket.len() / 2) {
        let li = largest_index as u8;
        let lo = prefix_sums[largest_index];
        let hi = end_offsets[largest_index];
        assert(hi <= len) by {
            assert(ends[largest_index as int] <= len);
        }
        let offs = partition_by_byte(bucket, lo, hi, level, li);
        proof {
            lemma_perm_window(s0, bucket@, lo as int, hi as int);
            assert forall|v: int| 0 <= v < 256 implies #[trigger] ends[v] - starts[v] == count_byte(
                bucket@,
                lv,
                v,
            ) by {
                lemma_count_perm(s0, bucket@, lv, v);
            }
            lemma_gap_update(prefix_sums@, ends, largest_index as int, (lo + offs) as usize, 256);
        }
        prefix_sums[largest_index] = lo + offs;
        proof {
            assert forall|b: int, p: int|
                #![trigger starts[b], bucket@[p]]
                0 <= b < 256 && starts[b] <= p < prefix_sums@[b] implies bucket@[p].spec_level(lv)
                == b by {
                if b != largest_index {
                    assert(prefix_sums@[b] == starts[b]);
                }
            }
        }
    }
    if !finished_map[largest_index] {
        proof {
            lemma_num_true_set(finished_map@, largest_index as int);
            lemma_num_true_bounds(finished_map@);
        }
        finished_map[largest_index] = true;
        finished += 1;
    }
    let ghost big = largest_index as int;
    proof {
        lemma_num_true_bounds(finished_map@);
        lemma_gap_nonneg(prefix_sums@, ends, 256);
    }
    while finished != 256
        invariant
            (level as nat) < T::spec_levels(),
            lv == level as nat,
            end_offsets@ == ends,
            bucket@.len() == len,
            buckets_tile(starts, ends, len),
            forall|a: int, b: int| 0 <= a < b < 256 ==> #[trigger] ends[a] <= #[trigger] starts[b],
            forall|b: int| 0 <= b < 256 ==> #[trigger] ends[b] <= len,
            forall|b: int|
                0 <= b < 256 ==> starts[b] <= #[trigger] prefix_sums@[b] <= ends[b],
            in_buckets(bucket@, lv, starts, prefix_sums@),
            buckets_fit(bucket@, lv, starts, ends),
            same_keys(s0, bucket@),
            finished == num_true(finished_map@),
            finished <= 256,
            0 <= big < 256,
            forall|k: int|
                0 <= k < 256 && #[trigger] finished_map@[k] && k != big ==> prefix_sums@[k]
                    >= ends[k],
            gap(prefix_sums@, ends, 256) >= 0,
        decreases gap(prefix_sums@, ends, 256) + (256 - finished),
    {
        let ghost gap0 = gap(prefix_sums@, ends, 256);
        let ghost fin0 = finished;
        let mut b: usize = 0;
        while b < 256
            invariant
                0 <= b <= 256,
                (level as nat) < T::spec_levels(),
                lv == level as nat,
                end_offsets@ == ends,
                bucket@.len() == len,
                buckets_tile(starts, ends, len),
                forall|a: int, c: int|
                    0 <= a < c < 256 ==> #[trigger] ends[a] <= #[trigger] starts[c],
                forall|c: int| 0 <= c < 256 ==> #[trigger] ends[c] <= len,
                forall|c: int|
                    0 <= c < 256 ==> starts[c] <= #[trigger] prefix_sums@[c] <= ends[c],
                in_buckets(bucket@, lv, starts, prefix_sums@),
                buckets_fit(bucket@, lv, starts, ends),
                same_keys(s0, bucket@),
                finished == num_true(finished_map@),
                finished <= 256,
                0 <= big < 256,
                forall|k: int|
                    0 <= k < 256 && #[trigger] finished_map@[k] && k != big ==> prefix_sums@[k]
                        >= ends[k],
                gap(prefix_sums@, ends, 256) <= gap0,
                finished >= fin0,
                gap(prefix_sums@, ends, 256) == gap0 ==> forall|k: int|
                    0 <= k < b ==> #[trigger] finished_map@[k],
            decreases 256 - b,
        {
            if finished_map[b] {
                b += 1;
                continue;
            } else if prefix_sums[b] >= end_offsets[b] {
                proof {
                    lemma_num_true_set(finished_map@, b as int);
                    lemma_num_true_bounds(finished_map@);
                }
                finished_map[b] = true;
                finished += 1;
            }
            let end = end_offsets[b];
            let start = prefix_sums[b];
            let mut i = start;
            let ghost gap_b = gap(prefix_sums@, ends, 256);
            while i < end
                invariant
                    0 <= b < 256,
                    (level as nat) < T::spec_levels(),
                    lv == level as nat,
                    end_offsets@ == ends,
                    end == ends[b as int],
                    bucket@.len() == len,
                    buckets_tile(starts, ends, len),
                    forall|a: int, c: int|
                        0 <= a < c < 256 ==> #[trigger] ends[a] <= #[trigger] starts[c],
                    forall|c: int| 0 <= c < 256 ==> #[trigger] ends[c] <= len,
                    forall|c: int|
                        0 <= c < 256 ==> starts[c] <= #[trigger] prefix_sums@[c] <= ends[c],
                    in_buckets(bucket@, lv, starts, prefix_sums@),
                    buckets_fit(bucket@, lv, starts, ends),
                    same_keys(s0, bucket@),
                    prefix_sums@[b as int] <= i,
                    start <= i <= end || (start >= end && i == start),
                    gap(prefix_sums@, ends, 256) == gap_b - (i - start),
                    forall|k: int|
                        0 <= k < 256 && #[trigger] finished_map@[k] && k != big ==> prefix_sums@[k]
                            >= ends[k],
                decreases end - i,
            {
                let new_b = bucket[i].get_level(level) as usize;
                let ghost s1 = bucket@;
                let ghost ps1 = prefix_sums@;
                proof {
                    let nb = new_b as int;
                    assert(starts[b as int] <= i);
                    if nb != b {
                        if nb < b {
                            assert(ends[nb] <= starts[b as int]);
                        } else {
                            assert(ends[b as int] <= starts[nb]);
                        }
                    }
                    assert forall|k: int| starts[nb] <= k < ps1[nb] implies #[trigger] s1[k].spec_level(
                        lv,
                    ) == nb by {
                        assert(starts[nb] == starts[nb]);
                    }
                    lemma_count_run_plus_one(s1, starts[nb] as int, ps1[nb] as int, i as int, lv, nb);
                    assert(ends[nb] - starts[nb] == count_byte(s1, lv, nb));
                }
                let target = prefix_sums[new_b];
                swap_keys(bucket, target, i);
                proof {
                    lemma_gap_update(prefix_sums@, ends, new_b as int, (target + 1) as usize, 256);
                }
                prefix_sums[new_b] = target + 1;
                proof {
                    let nb = new_b as int;
                    assert forall|v: int| 0 <= v < 256 implies #[trigger] ends[v] - starts[v]
                        == count_byte(bucket@, lv, v) by {
                        lemma_count_perm(s1, bucket@, lv, v);
                    }
                    assert forall|c: int, p: int|
                        #![trigger starts[c], bucket@[p]]
                        0 <= c < 256 && starts[c] <= p < prefix_sums@[c] implies bucket@[p].spec_level(
                            lv,
                        ) == c by {
                        if p == target {
                            if c != nb {
                                if c < nb {
                                    assert(ends[c] <= starts[nb]);
                                } else {
                                    assert(ends[nb] <= starts[c]);
                                }
                            }
                        } else if p == i {
                            if c != b as int {
                                if c < b as int {
                                    assert(ends[c] <= starts[b as int]);
                                } else {
                                    assert(ends[b as int] <= starts[c]);
                                }
                            }
                        } else {
                            assert(bucket@[p] == s1[p]);
                            assert(starts[c] <= p < ps1[c]);
                        }
                    }
                }
                i += 1;
            }
            proof {
                if start < end {
                    assert(gap(prefix_sums@, ends, 256) < gap0);
                }
            }
            b += 1;
        }
        proof {
            lemma_num_true_bounds(finished_map@);
            lemma_gap_nonneg(prefix_sums@, ends, 256);
        }
    }
    proof {
        lemma_num_true_bounds(finished_map@);
        let s = bucket@;
        assert forall|c: int, p: int|
            #![trigger starts[c], s[p]]
            0 <= c < 256 && starts[c] <= p < ends[c] implies s[p].spec_level(lv) == c by {
            assert(finished_map@[c]);
            if p >= prefix_sums@[c] {
                assert(c == big);
                let w = s[p].spec_level(lv) as int;
                if w != c {
                    assert(finished_map@[w]);
                    if w < c {
                        assert(ends[w] <= starts[c]);
                    } else {
                        assert(ends[c] <= starts[w]);
                    }
                    assert forall|k: int| starts[w] <= k < ends[w] implies #[trigger] s[k].spec_level(
                        lv,
                    ) == w by {
                        assert(starts[w] == starts[w]);
                    }
                    lemma_count_run_plus_one(s, starts[w] as int, ends[w] as int, p, lv, w);
                }
            } else {
                assert(starts[c] == starts[c]);
            }
        }
    }
}

} // verus!
