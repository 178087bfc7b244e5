//! Histograms of one byte level, prefix sums and sortedness detection.
use vstd::prelude::*;
use crate::radix_key::{RadixKey, count_byte, level_sorted, lemma_count_add, lemma_count_le_len};
use crate::key_lemmas::lemma_level_sorted_pairs;
use crate::ska_sort::in_buckets;

verus! {

/// The sum of the first `n` counts.
pub open spec fn sum_to(counts: Seq<usize>, n: int) -> int
    decreases n,
{
    if n <= 0 {
        0
    } else {
        sum_to(counts, n - 1) + counts[n - 1]
    }
}

pub proof fn lemma_sum_mono(counts: Seq<usize>, a: int, b: int)
    requires
        a <= b,
    ensures
        sum_to(counts, a) <= sum_to(counts, b),
    decreases b - a,
{
    if a < b {
        lemma_sum_mono(counts, a, b - 1);
    }
}

/// The bucket starts that a histogram gives.
pub open spec fn bucket_starts(counts: Seq<usize>) -> Seq<usize> {
    Seq::new(256, |b: int| sum_to(counts, b) as usize)
}

/// The bucket ends that a histogram gives.
pub open spec fn bucket_ends(counts: Seq<usize>) -> Seq<usize> {
    Seq::new(256, |b: int| sum_to(counts, b + 1) as usize)
}

/// `counts` is the histogram of the bytes of `s` at `level`.
pub open spec fn is_histogram<T: RadixKey>(counts: Seq<usize>, s: Seq<T>, level: nat) -> bool {
    &&& counts.len() == 256
    &&& forall|b: int| 0 <= b < 256 ==> #[trigger] counts[b] == count_byte(s, level, b)
}

/// The number of keys of `s` whose byte at `level` is below `w`.
pub open spec fn count_below<T: RadixKey>(s: Seq<T>, level: nat, w: int) -> nat
    decreases s.len(),
{
    if s.len() == 0 {
        0
    } else {
        count_below(s.drop_last(), level, w) + if s.last().spec_level(level) < w {
            1nat
        } else {
            0nat
        }
    }
}

proof fn lemma_count_below_step<T: RadixKey>(s: Seq<T>, level: nat, w: int)
    ensures
        count_below(s, level, w + 1) == count_below(s, level, w) + count_byte(s, level, w),
    decreases s.len(),
{
    if s.len() > 0 {
        lemma_count_below_step(s.drop_last(), level, w);
    }
}

proof fn lemma_count_below_sum<T: RadixKey>(s: Seq<T>, level: nat, counts: Seq<usize>, w: int)
    requires
        is_histogram(counts, s, level),
        0 <= w <= 256,
    ensures
        count_below(s, level, w) == sum_to(counts, w),
    decreases w,
{
    if w == 0 {
        lemma_count_below_zero(s, level);
    } else {
        lemma_count_below_sum(s, level, counts, w - 1);
        lemma_count_below_step(s, level, w - 1);
    }
}

proof fn lemma_count_below_zero<T: RadixKey>(s: Seq<T>, level: nat)
    ensures
        count_below(s, level, 0) == 0,
    decreases s.len(),
{
    if s.len() > 0 {
        lemma_count_below_zero(s.drop_last(), level);
    }
}

proof fn lemma_count_below_add<T: RadixKey>(a: Seq<T>, b: Seq<T>, level: nat, w: int)
    ensures
        count_below(a + b, level, w) == count_below(a, level, w) + count_below(b, level, w),
    decreases b.len(),
{
    if b.len() == 0 {
        assert(a + b =~= a);
    } else {
        lemma_count_below_add(a, b.drop_last(), level, w);
        assert((a + b).drop_last() =~= a + b.drop_last());
    }
}

proof fn lemma_count_below_bounds<T: RadixKey>(s: Seq<T>, level: nat, w: int)
    ensures
        count_below(s, level, w) <= s.len(),
        (forall|k: int| 0 <= k < s.len() ==> #[trigger] s[k].spec_level(level) >= w) ==> count_below(s, level, w) == 0,
        (forall|k: int| 0 <= k < s.len() ==> #[trigger] s[k].spec_level(level) < w) ==> count_below(s, level, w) == s.len(),
    decreases s.len(),
{
    if s.len() > 0 {
        lemma_count_below_bounds(s.drop_last(), level, w);
        let t = s.drop_last();
        if forall|k: int| 0 <= k < s.len() ==> #[trigger] s[k].spec_level(level) >= w {
            assert forall|k: int| 0 <= k < t.len() implies #[trigger] t[k].spec_level(level) >= w by {
                assert(s[k] == t[k]);
            }
        }
        if forall|k: int| 0 <= k < s.len() ==> #[trigger] s[k].spec_level(level) < w {
            assert forall|k: int| 0 <= k < t.len() implies #[trigger] t[k].spec_level(level) < w by {
                assert(s[k] == t[k]);
            }
        }
    }
}

proof fn lemma_sorted_position<T: RadixKey>(s: Seq<T>, level: nat, counts: Seq<usize>, p: int)
    requires
        is_histogram(counts, s, level),
        forall|i: int, j: int|
            0 <= i <= j < s.len() ==> #[trigger] s[i].spec_level(level) <= #[trigger] s[j].spec_level(
                level,
            ),
        0 <= p < s.len(),
    ensures
        sum_to(counts, s[p].spec_level(level) as int) <= p < sum_to(
            counts,
            s[p].spec_level(level) as int + 1,
        ),
{
    let w = s[p].spec_level(level) as int;
    let pre = s.subrange(0, p);
    let post = s.subrange(p, s.len() as int);
    assert(s =~= pre + post);
    let pre1 = s.subrange(0, p + 1);
    let post1 = s.subrange(p + 1, s.len() as int);
    assert(s =~= pre1 + post1);
    lemma_count_below_add(pre, post, level, w);
    lemma_count_below_add(pre1, post1, level, w + 1);
    assert forall|k: int| 0 <= k < post.len() implies #[trigger] post[k].spec_level(level) >= w by {
        assert(post[k] == s[p + k]);
    }
    assert forall|k: int| 0 <= k < pre1.len() implies #[trigger] pre1[k].spec_level(level) < w + 1 by {
        assert(pre1[k] == s[k]);
    }
    lemma_count_below_bounds(pre, level, w);
    lemma_count_below_bounds(post, level, w);
    lemma_count_below_bounds(pre1, level, w + 1);
    lemma_count_below_bounds(post1, level, w + 1);
    lemma_count_below_sum(s, level, counts, w);
    lemma_count_below_sum(s, level, counts, w + 1);
}

/// Keys whose bytes never decrease already lie in the buckets of their histogram.
pub proof fn lemma_sorted_in_buckets<T: RadixKey>(s: Seq<T>, level: nat, counts: Seq<usize>)
    requires
        is_histogram(counts, s, level),
        level_sorted(s, level),
        s.len() <= usize::MAX,
    ensures
        in_buckets(s, level, bucket_starts(counts), bucket_ends(counts)),
{
    lemma_level_sorted_pairs(s, level);
    let st = bucket_starts(counts);
    let en = bucket_ends(counts);
    assert forall|b: int, p: int|
        #![trigger st[b], s[p]]
        0 <= b < 256 && st[b] <= p < en[b] implies s[p].spec_level(level) == b by {
        lemma_sum_mono(counts, 0, b);
        lemma_sum_mono(counts, b + 1, 256);
        lemma_count_below_sum(s, level, counts, 256);
        lemma_count_below_bounds(s, level, 256);
        let w = s[p].spec_level(level) as int;
        lemma_sorted_position(s, level, counts, p);
        if w < b {
            lemma_sum_mono(counts, w + 1, b);
        } else if w > b {
            lemma_sum_mono(counts, b + 1, w);
        }
    }
}

/// Starting offset of each bucket: the running total of the counts before it.
pub fn get_prefix_sums(counts: &[usize; 256]) -> (sums: [usize; 256])
    requires
        sum_to(counts@, 256) <= usize::MAX,
    ensures
        forall|b: int| 0 <= b < 256 ==> sums@[b] == sum_to(counts@, b),
{
    let mut sums = [0usize; 256];
    let mut running_total: usize = 0;
    let mut i: usize = 0;
    while i < 256
        invariant
            0 <= i <= 256,
            sum_to(counts@, 256) <= usize::MAX,
            running_total == sum_to(counts@, i as int),
            forall|b: int| 0 <= b < i ==> sums@[b] == sum_to(counts@, b),
        decreases 256 - i,
    {
        proof {
            lemma_sum_mono(counts@, i as int + 1, 256);
        }
        sums[i] = running_total;
        running_total = running_total + counts[i];
        i += 1;
    }
    sums
}

/// Exclusive end offset of each bucket: the start of the next one, and for the
/// last bucket its start plus its count.
pub fn get_end_offsets(counts: &[usize; 256], prefix_sums: &[usize; 256]) -> (ends: [usize; 256])
    requires
        sum_to(counts@, 256) <= usize::MAX,
        forall|b: int| 0 <= b < 256 ==> prefix_sums@[b] == sum_to(counts@, b),
    ensures
        forall|b: int| 0 <= b < 256 ==> ends@[b] == sum_to(counts@, b + 1),
{
    let mut ends = [0usize; 256];
    let mut i: usize = 0;
    while i < 255
        invariant
            0 <= i <= 255,
            forall|b: int| 0 <= b < 256 ==> prefix_sums@[b] == sum_to(counts@, b),
            forall|b: int| 0 <= b < i ==> ends@[b] == sum_to(counts@, b + 1),
        decreases 255 - i,
    {
        ends[i] = prefix_sums[i + 1];
        i += 1;
    }
    ends[255] = counts[255] + prefix_sums[255];
    ends
}

/// Histogram of the bytes at `level`, whether they never decrease, and the
/// first and last byte.
pub fn get_counts_with_ends<T: RadixKey>(bucket: &[T], level: usize) -> (r: (
    [usize; 256],
    bool,
    u8,
    u8,
))
    requires
        bucket@.len() >= 1,
        (level as nat) < T::spec_levels(),
    ensures
        forall|b: int| 0 <= b < 256 ==> r.0@[b] == count_byte(bucket@, level as nat, b),
        r.1 == level_sorted(bucket@, level as nat),
        r.2 == bucket@[0].spec_level(level as nat),
        r.3 == bucket@.last().spec_level(level as nat),
{
    let mut counts = [0usize; 256];
    let mut already_sorted = true;
    let mut last: u8 = 0;
    let mut i: usize = 0;
    let ghost s = bucket@;
    while i < bucket.len()
        invariant
            0 <= i <= s.len(),
            s == bucket@,
            (level as nat) < T::spec_levels(),
            forall|b: int| 0 <= b < 256 ==> counts@[b] == count_byte(s.take(i as int), level as nat, b),
            already_sorted == level_sorted(s.take(i as int), level as nat),
            i > 0 ==> last == s[i - 1].spec_level(level as nat),
        decreases s.len() - i,
    {
        let b = bucket[i].get_level(level);
        proof {
            assert(s.take(i as int + 1).drop_last() =~= s.take(i as int));
            lemma_count_le_len(s.take(i as int), level as nat, b as int);
        }
        counts[b as usize] = counts[b as usize] + 1;
        if i > 0 && b < last {
            already_sorted = false;
        }
        proof {
            let t = s.take(i as int + 1);
            if already_sorted {
                assert forall|k: int| 0 < k < t.len() implies #[trigger] t[k - 1].spec_level(
                    level as nat,
                ) <= t[k].spec_level(level as nat) by {
                    if k < i {
                        assert(s.take(i as int)[k - 1] == t[k - 1]);
                        assert(s.take(i as int)[k] == t[k]);
                    }
                }
            } else {
                if i > 0 && b < last {
                    assert(t[i - 1].spec_level(level as nat) > t[i as int].spec_level(level as nat));
                } else {
                    let k = choose|k: int| 0 < k < i && !(#[trigger] s.take(i as int)[k - 1].spec_level(level as nat) <= s.take(i as int)[k].spec_level(level as nat));
                    assert(s.take(i as int)[k - 1] == t[k - 1]);
                    assert(s.take(i as int)[k] == t[k]);
                }
            }
        }
        last = b;
        i += 1;
    }
    proof {
        assert(s.take(s.len() as int) =~= s);
    }
    let first = bucket[0].get_level(level);
    (counts, already_sorted, first, last)
}

/// Histogram of the bytes at `level` and whether they never decrease; an empty
/// chunk has an empty histogram and counts as sorted.
pub fn get_counts<T: RadixKey>(bucket: &[T], level: usize) -> (r: ([usize; 256], bool))
    requires
        (level as nat) < T::spec_levels(),
    ensures
        is_histogram(r.0@, bucket@, level as nat),
        r.1 == level_sorted(bucket@, level as nat),
{
    if bucket.len() == 0 {
        let z = [0usize; 256];
        proof {
            assert forall|b: int| 0 <= b < 256 implies #[trigger] z@[b] == count_byte(
                bucket@,
                level as nat,
                b,
            ) by {
                assert(bucket@.len() == 0);
            }
        }
        return (z, true);
    }
    let (counts, sorted, _, _) = get_counts_with_ends(bucket, level);
    (counts, sorted)
}

/// At most one byte value occurs.
pub fn is_homogenous_bucket(counts: &[usize; 256]) -> (r: bool)
    ensures
        r == (forall|i: int, j: int|
            0 <= i < 256 && 0 <= j < 256 && #[trigger] counts@[i] > 0 && #[trigger] counts@[j] > 0
                ==> i == j),
{
    let mut seen = false;
    let mut first: usize = 0;
    let mut i: usize = 0;
    while i < 256
        invariant
            0 <= i <= 256,
            seen ==> first < i && counts@[first as int] > 0,
            seen ==> forall|k: int| 0 <= k < i && #[trigger] counts@[k] > 0 ==> k == first,
            !seen ==> forall|k: int| 0 <= k < i ==> #[trigger] counts@[k] == 0,
        decreases 256 - i,
    {
        if counts[i] > 0 {
            if seen {
                return false;
            } else {
                seen = true;
                first = i;
            }
        }
        i += 1;
    }
    true
}

/// The sum over the first `n` tiles of the count of byte `b`.
pub open spec fn tile_sum(tiles: Seq<[usize; 256]>, n: int, b: int) -> int
    decreases n,
{
    if n <= 0 {
        0
    } else {
        tile_sum(tiles, n - 1, b) + tiles[n - 1]@[b]
    }
}

proof fn lemma_tile_sum_mono(tiles: Seq<[usize; 256]>, m: int, n: int, b: int)
    requires
        0 <= m <= n,
    ensures
        tile_sum(tiles, m, b) <= tile_sum(tiles, n, b),
    decreases n - m,
{
    if m < n {
        lemma_tile_sum_mono(tiles, m, n - 1, b);
    }
}

/// Adds the histograms of all tiles.
pub fn aggregate_tile_counts(tile_counts: &[[usize; 256]]) -> (out: [usize; 256])
    requires
        tile_counts@.len() >= 1,
        forall|b: int| 0 <= b < 256 ==> #[trigger] tile_sum(tile_counts@, tile_counts@.len() as int, b) <= usize::MAX,
    ensures
        forall|b: int| 0 <= b < 256 ==> #[trigger] out@[b] == tile_sum(tile_counts@, tile_counts@.len() as int, b),
{
    let ghost tc = tile_counts@;
    let ghost n = tc.len() as int;
    let mut out = tile_counts[0];
    proof {
        assert forall|b: int| 0 <= b < 256 implies #[trigger] out@[b] == tile_sum(tc, 1, b) by {
            assert(tile_sum(tc, 0, b) == 0);
            assert(out@[b] == tc[0]@[b]);
        }
    }
    let mut t: usize = 1;
    while t < tile_counts.len()
        invariant
            1 <= t <= n,
            tc == tile_counts@,
            n == tc.len(),
            forall|b: int| 0 <= b < 256 ==> #[trigger] tile_sum(tc, n, b) <= usize::MAX,
            forall|b: int| 0 <= b < 256 ==> #[trigger] out@[b] == tile_sum(tc, t as int, b),
        decreases n - t,
    {
        let tile = tile_counts[t];
        let mut i: usize = 0;
        while i < 256
            invariant
                0 <= i <= 256,
                1 <= t < n,
                tile == tc[t as int],
                forall|b: int| 0 <= b < 256 ==> #[trigger] tile_sum(tc, n, b) <= usize::MAX,
                forall|b: int| 0 <= b < i ==> #[trigger] out@[b] == tile_sum(tc, t + 1, b),
                forall|b: int| i <= b < 256 ==> #[trigger] out@[b] == tile_sum(tc, t as int, b),
            decreases 256 - i,
        {
            proof {
                lemma_tile_sum_mono(tc, t + 1, n, i as int);
            }
            out[i] = out[i] + tile[i];
            i += 1;
        }
        t += 1;
    }
    out
}

/// The end of tile `t` when tiles of `ts` keys cut `len` keys.
pub open spec fn tile_end(len: int, ts: int, t: int) -> int {
    if (t + 1) * ts < len {
        (t + 1) * ts
    } else {
        len
    }
}

/// Tile `t` of `s` when it is cut into tiles of `ts` keys, the last one shorter.
pub open spec fn tile_of<T>(s: Seq<T>, ts: int, t: int) -> Seq<T> {
    s.subrange(t * ts, tile_end(s.len() as int, ts, t))
}

proof fn lemma_level_sorted_concat<T: RadixKey>(a: Seq<T>, b: Seq<T>, level: nat)
    ensures
        level_sorted(a + b, level) == (level_sorted(a, level) && level_sorted(b, level) && (a.len()
            > 0 && b.len() > 0 ==> a.last().spec_level(level) <= b[0].spec_level(level))),
{
    let s = a + b;
    if level_sorted(s, level) {
        assert forall|k: int| 0 < k < a.len() implies #[trigger] a[k - 1].spec_level(level) <= a[k].spec_level(level) by {
            assert(s[k - 1] == a[k - 1] && s[k] == a[k]);
        }
        assert forall|k: int| 0 < k < b.len() implies #[trigger] b[k - 1].spec_level(level) <= b[k].spec_level(level) by {
            assert(s[a.len() + k - 1] == b[k - 1] && s[a.len() + k] == b[k]);
            assert(s[(a.len() + k) - 1].spec_level(level) <= s[a.len() + k].spec_level(level));
        }
        if a.len() > 0 && b.len() > 0 {
            assert(s[a.len() - 1] == a.last() && s[a.len() as int] == b[0]);
            assert(s[(a.len() as int) - 1].spec_level(level) <= s[a.len() as int].spec_level(level));
        }
    }
    if level_sorted(a, level) && level_sorted(b, level) && (a.len() > 0 && b.len() > 0
        ==> a.last().spec_level(level) <= b[0].spec_level(level)) {
        assert forall|k: int| 0 < k < s.len() implies #[trigger] s[k - 1].spec_level(level) <= s[k].spec_level(level) by {
            if k < a.len() {
                assert(s[k - 1] == a[k - 1] && s[k] == a[k]);
            } else if k > a.len() {
                assert(s[k - 1] == b[k - a.len() - 1] && s[k] == b[k - a.len()]);
                assert(b[(k - a.len()) - 1].spec_level(level) <= b[k - a.len()].spec_level(level));
            } else {
                assert(s[k - 1] == a.last() && s[k] == b[0]);
            }
        }
    }
}

/// Histograms of consecutive tiles of `tile_size` keys (the last may be
/// shorter), and whether the bytes at `level` never decrease over the whole
/// slice, across tile boundaries too.
pub fn get_tile_counts<T: RadixKey>(bucket: &[T], tile_size: usize, level: usize) -> (r: (
    Vec<[usize; 256]>,
    bool,
))
    requires
        tile_size >= 1,
        (level as nat) < T::spec_levels(),
    ensures
        bucket@.len() == 0 ==> r.0@.len() == 0,
        bucket@.len() >= 1 ==> r.0@.len() >= 1 && (r.0@.len() - 1) * tile_size < bucket@.len()
            <= r.0@.len() * tile_size,
        forall|t: int|
            0 <= t < r.0@.len() ==> is_histogram(
                #[trigger] r.0@[t]@,
                tile_of(bucket@, tile_size as int, t),
                level as nat,
            ),
        forall|b: int|
            0 <= b < 256 ==> #[trigger] tile_sum(r.0@, r.0@.len() as int, b) == count_byte(
                bucket@,
                level as nat,
                b,
            ),
        r.1 == level_sorted(bucket@, level as nat),
{
    let ghost s = bucket@;
    let ghost lv = level as nat;
    let ghost ts = tile_size as int;
    let len = bucket.len();
    let mut tiles: Vec<[usize; 256]> = Vec::new();
    let mut all_sorted = true;
    let mut prev_last: u8 = 0;
    let mut start: usize = 0;
    proof {
        assert(s.take(0) =~= Seq::<T>::empty());
    }
    while start < len
        invariant
            s == bucket@,
            len == s.len(),
            ts == tile_size as int,
            tile_size >= 1,
            lv == level as nat,
            (level as nat) < T::spec_levels(),
            (tiles@.len() == 0 && start == 0) || (tiles@.len() >= 1 && (tiles@.len() - 1) * ts
                < len && start == tile_end(len as int, ts, tiles@.len() - 1)),
            start <= len,
            forall|t: int|
                0 <= t < tiles@.len() ==> is_histogram(#[trigger] tiles@[t]@, tile_of(s, ts, t), lv),
            forall|b: int|
                0 <= b < 256 ==> #[trigger] tile_sum(tiles@, tiles@.len() as int, b) == count_byte(
                    s.take(start as int),
                    lv,
                    b,
                ),
            all_sorted == level_sorted(s.take(start as int), lv),
            start > 0 ==> prev_last == s[start - 1].spec_level(lv),
        decreases len - start,
    {
        let ghost n = tiles@.len() as int;
        proof {
            assert(start == n * ts) by {
                if n >= 1 {
                    assert((n - 1 + 1) * ts == n * ts);
                } else {
                    assert(0 * ts == 0) by (nonlinear_arith);
                }
            }
            assert((n + 1) * ts == n * ts + ts) by (nonlinear_arith);
        }
        let end = if tile_size > len - start {
            len
        } else {
            start + tile_size
        };
        let (counts, sorted, first, last) = get_counts_with_ends(&bucket[start..end], level);
        let ghost tile = s.subrange(start as int, end as int);
        proof {
            assert(tile =~= tile_of(s, ts, n));
            assert(s.take(end as int) =~= s.take(start as int) + tile);
            lemma_level_sorted_concat(s.take(start as int), tile, lv);
            if start > 0 {
                assert(s.take(start as int).last() == s[start - 1]);
            }
            assert forall|b: int| 0 <= b < 256 implies #[trigger] tile_sum(tiles@.push(counts), n + 1, b)
                == count_byte(s.take(end as int), lv, b) by {
                lemma_count_add(s.take(start as int), tile, lv, b);
                assert(tile_sum(tiles@.push(counts), n, b) == tile_sum(tiles@, n, b)) by {
                    lemma_tile_sum_prefix(tiles@, counts, n, b);
                }
            }
        }
        all_sorted = all_sorted && sorted && (start == 0 || prev_last <= first);
        tiles.push(counts);
        prev_last = last;
        start = end;
    }
    proof {
        assert(s.take(len as int) =~= s);
        let n = tiles@.len() as int;
        if n * ts < len {
            assert(start == n * ts);
        }
    }
    (tiles, all_sorted)
}

proof fn lemma_tile_sum_prefix(tiles: Seq<[usize; 256]>, x: [usize; 256], n: int, b: int)
    requires
        0 <= n <= tiles.len(),
    ensures
        tile_sum(tiles.push(x), n, b) == tile_sum(tiles, n, b),
    decreases n,
{
    if n > 0 {
        lemma_tile_sum_prefix(tiles, x, n - 1, b);
    }
}

/// The histogram, sortedness flag and end bytes of `get_counts_with_ends`,
/// gathered chunk by chunk over a large slice.
pub fn par_get_counts_with_ends<T: RadixKey>(bucket: &[T], level: usize, threads: usize) -> (r: (
    [usize; 256],
    bool,
    u8,
    u8,
))
    requires
        bucket@.len() >= 1,
        threads >= 1,
        (level as nat) < T::spec_levels(),
    ensures
        forall|b: int| 0 <= b < 256 ==> r.0@[b] == count_byte(bucket@, level as nat, b),
        r.1 == level_sorted(bucket@, level as nat),
        r.2 == bucket@[0].spec_level(level as nat),
        r.3 == bucket@.last().spec_level(level as nat),
{
    if bucket.len() < 400_000 {
        return get_counts_with_ends(bucket, level);
    }
    let chunk_size = bucket.len() / threads / 8 + 1;
    let (tiles, already_sorted) = get_tile_counts(bucket, chunk_size, level);
    proof {
        assert forall|b: int| 0 <= b < 256 implies #[trigger] tile_sum(tiles@, tiles@.len() as int, b)
            <= usize::MAX by {
            lemma_count_le_len(bucket@, level as nat, b);
        }
    }
    let counts = aggregate_tile_counts(tiles.as_slice());
    let first = bucket[0].get_level(level);
    let last = bucket[bucket.len() - 1].get_level(level);
    (counts, already_sorted, first, last)
}

/// Finds the bucket of a histogram that holds position `p`.
pub proof fn lemma_locate(counts: Seq<usize>, p: int, c: int) -> (b: int)
    requires
        0 <= c < 256,
        sum_to(counts, c) <= p < sum_to(counts, 256),
    ensures
        c <= b < 256,
        sum_to(counts, b) <= p < sum_to(counts, b + 1),
    decreases 256 - c,
{
    if p < sum_to(counts, c + 1) {
        c
    } else {
        if c + 1 == 256 {
            assert(false);
        }
        lemma_locate(counts, p, c + 1)
    }
}

/// The total of a histogram is the number of keys.
pub proof fn lemma_histogram_total<T: RadixKey>(s: Seq<T>, level: nat, counts: Seq<usize>)
    requires
        is_histogram(counts, s, level),
    ensures
        sum_to(counts, 256) == s.len(),
{
    lemma_count_below_sum(s, level, counts, 256);
    lemma_count_below_bounds(s, level, 256);
}

/// Keys that lie in the buckets of their histogram have non-decreasing bytes.
pub proof fn lemma_in_buckets_pairs<T: RadixKey>(s: Seq<T>, level: nat, counts: Seq<usize>)
    requires
        is_histogram(counts, s, level),
        in_buckets(s, level, bucket_starts(counts), bucket_ends(counts)),
        s.len() <= usize::MAX,
    ensures
        forall|i: int, j: int|
            0 <= i <= j < s.len() ==> #[trigger] s[i].spec_level(level) <= #[trigger] s[j].spec_level(
                level,
            ),
{
    lemma_histogram_total(s, level, counts);
    let st = bucket_starts(counts);
    let en = bucket_ends(counts);
    assert forall|i: int, j: int|
        0 <= i <= j < s.len() implies #[trigger] s[i].spec_level(level) <= #[trigger] s[j].spec_level(level) by {
        lemma_sum_mono(counts, 0, 0);
        let bi = lemma_locate(counts, i, 0);
        let bj = lemma_locate(counts, j, 0);
        lemma_sum_mono(counts, 0, bi);
        lemma_sum_mono(counts, 0, bj);
        lemma_sum_mono(counts, bi + 1, 256);
        lemma_sum_mono(counts, bj + 1, 256);
        assert(st[bi] <= i < en[bi]);
        assert(st[bj] <= j < en[bj]);
        if bi > bj {
            lemma_sum_mono(counts, bj + 1, bi);
        }
    }
}

/// When only one byte value occurs, every key lies in its bucket.
pub proof fn lemma_homogenous_in_buckets<T: RadixKey>(s: Seq<T>, level: nat, counts: Seq<usize>)
    requires
        is_histogram(counts, s, level),
        forall|i: int, j: int|
            0 <= i < 256 && 0 <= j < 256 && #[trigger] counts[i] > 0 && #[trigger] counts[j] > 0
                ==> i == j,
        s.len() <= usize::MAX,
    ensures
        in_buckets(s, level, bucket_starts(counts), bucket_ends(counts)),
{
    let st = bucket_starts(counts);
    let en = bucket_ends(counts);
    lemma_histogram_total(s, level, counts);
    assert forall|b: int, p: int|
        #![trigger st[b], s[p]]
        0 <= b < 256 && st[b] <= p < en[b] implies s[p].spec_level(level) == b by {
        lemma_sum_mono(counts, 0, b);
        lemma_sum_mono(counts, b + 1, 256);
        assert(counts[b] > 0);
        let w = s[p].spec_level(level) as int;
        if w != b {
            crate::key_lemmas::lemma_count_run_plus_one(s, 0, 0, p, level, w);
            assert(counts[w] > 0);
        }
    }
}

} // verus!
