//! The MSB-first radix sort: at each level it picks a strategy for the chunk,
//! distributes it by the current byte and recurses into the buckets.
use vstd::prelude::*;
use crate::radix_key::{RadixKey, key_le, keys_sorted, fully_sorted, same_keys, lemma_count_le_len};
use crate::key_lemmas::{
    lemma_count_perm, lemma_keys_sorted_bytes, lemma_keys_sorted_concat, lemma_keys_sorted_raise,
    lemma_level_sorted_pairs, lemma_same_keys_all, lemma_same_keys_concat,
};
use crate::sort_utils::{
    aggregate_tile_counts, bucket_ends, bucket_starts, get_counts, get_end_offsets,
    get_prefix_sums, get_tile_counts, is_histogram, is_homogenous_bucket, lemma_histogram_total,
    lemma_homogenous_in_buckets, lemma_in_buckets_pairs, lemma_sorted_in_buckets, lemma_sum_mono,
    sum_to, tile_of, tile_sum,
};
use crate::ska_sort::{in_buckets, ska_sort};
use crate::comparative_sort::comparative_sort;
use crate::regions_sort::regions_sort;

verus! {

/// Chunks of at most this many keys are sorted by comparison.
pub const COMPARATIVE_MAX: usize = 128;

/// Chunks of at least this many keys are counted in tiles when threads allow.
pub const TILING_MIN: usize = 260_000;

/// The smallest tile, and the smallest chunk whose single-byte levels are skipped.
pub const TILE_MIN: usize = 30_000;

/// Keys that lie in the buckets of their histogram at level 0 are sorted.
proof fn lemma_level_zero_sorted<T: RadixKey>(s: Seq<T>, counts: Seq<usize>)
    requires
        is_histogram(counts, s, 0),
        in_buckets(s, 0, bucket_starts(counts), bucket_ends(counts)),
        s.len() <= usize::MAX,
    ensures
        keys_sorted(s, 0),
{
    lemma_in_buckets_pairs(s, 0, counts);
    lemma_keys_sorted_bytes(s);
}

/// Chunk `c` of `s` when `s` holds chunks `b..256` of sizes `counts`.
pub open spec fn chunk_of<T>(s: Seq<T>, counts: Seq<usize>, b: int, c: int) -> Seq<T> {
    s.subrange(sum_to(counts, c) - sum_to(counts, b), sum_to(counts, c + 1) - sum_to(counts, b))
}

/// Every key of chunk `c >= b` has byte `c` at `level`.
pub open spec fn in_chunks<T: RadixKey>(s: Seq<T>, counts: Seq<usize>, b: int, level: nat) -> bool {
    forall|c: int, k: int|
        #![trigger s[k], sum_to(counts, c)]
        b <= c < 256 && sum_to(counts, c) - sum_to(counts, b) <= k < sum_to(counts, c + 1) - sum_to(
            counts,
            b,
        ) ==> s[k].spec_level(level) == c
}

/// Cuts `bucket` into consecutive chunks of the sizes in `counts` and sorts
/// each from `level` down. When the keys were distributed by their byte at
/// `level + 1` into those chunks, the whole is then sorted from `level + 1`.
pub fn director<T: RadixKey>(bucket: &mut [T], counts: &[usize; 256], level: usize, threads: usize)
    requires
        (level as nat) < T::spec_levels(),
        sum_to(counts@, 256) == old(bucket)@.len(),
    ensures
        final(bucket)@.len() == old(bucket)@.len(),
        same_keys(old(bucket)@, final(bucket)@),
        forall|c: int|
            0 <= c < 256 ==> same_keys(
                chunk_of(old(bucket)@, counts@, 0, c),
                #[trigger] chunk_of(final(bucket)@, counts@, 0, c),
            ) && keys_sorted(chunk_of(final(bucket)@, counts@, 0, c), level as nat),
        (level as nat) + 1 < T::spec_levels() && in_buckets(
            old(bucket)@,
            (level + 1) as nat,
            bucket_starts(counts@),
            bucket_ends(counts@),
        ) ==> keys_sorted(final(bucket)@, (level + 1) as nat),
    decreases level + 1, 0nat, 257nat,
{
    let len = bucket.len();
    proof {
        assert(sum_to(counts@, 0) == 0);
        if (level as nat) + 1 < T::spec_levels() && in_buckets(
            bucket@,
            (level + 1) as nat,
            bucket_starts(counts@),
            bucket_ends(counts@),
        ) {
            assert forall|c: int, k: int|
                #![trigger bucket@[k], sum_to(counts@, c)]
                0 <= c < 256 && sum_to(counts@, c) - sum_to(counts@, 0) <= k < sum_to(counts@, c + 1)
                    - sum_to(counts@, 0) implies bucket@[k].spec_level((level + 1) as nat) == c by {
                lemma_sum_mono(counts@, 0, c);
                lemma_sum_mono(counts@, c + 1, 256);
                lemma_sum_mono(counts@, c, c + 1);
                assert(bucket_starts(counts@)[c] == sum_to(counts@, c));
                assert(bucket_ends(counts@)[c] == sum_to(counts@, c + 1));
            }
            assert(in_chunks(bucket@, counts@, 0, (level + 1) as nat));
        }
    }
    sort_buckets(bucket, counts, 0, level, threads);
}

/// Sorts chunks `b..256` of `counts`, which `rest` holds in order.
fn sort_buckets<T: RadixKey>(
    rest: &mut [T],
    counts: &[usize; 256],
    b: usize,
    level: usize,
    threads: usize,
)
    requires
        b <= 256,
        (level as nat) < T::spec_levels(),
        sum_to(counts@, 256) <= usize::MAX,
        old(rest)@.len() == sum_to(counts@, 256) - sum_to(counts@, b as int),
    ensures
        final(rest)@.len() == old(rest)@.len(),
        same_keys(old(rest)@, final(rest)@),
        forall|c: int|
            b <= c < 256 ==> same_keys(
                chunk_of(old(rest)@, counts@, b as int, c),
                #[trigger] chunk_of(final(rest)@, counts@, b as int, c),
            ) && keys_sorted(chunk_of(final(rest)@, counts@, b as int, c), level as nat),
        (level as nat) + 1 < T::spec_levels() && in_chunks(old(rest)@, counts@, b as int, (level + 1) as nat)
            ==> keys_sorted(final(rest)@, (level + 1) as nat) && forall|k: int|
            0 <= k < final(rest)@.len() ==> #[trigger] final(rest)@[k].spec_level((level + 1) as nat) >= b,
    decreases level + 1, 0nat, 256 - b,
{
    let ghost up = (level + 1) as nat;
    if b == 256 {
        return;
    }
    let n = counts[b];
    proof {
        lemma_sum_mono(counts@, b as int + 1, 256);
        lemma_sum_mono(counts@, 0, b as int);
    }
    let ghost s = rest@;
    let ghost dist = up < T::spec_levels() && in_chunks(s, counts@, b as int, up);
    let (head, tail) = rest.split_at_mut(n);
    let ghost h0 = head@;
    let ghost t0 = tail@;
    proof {
        if dist {
            assert forall|k: int| 0 <= k < h0.len() implies #[trigger] h0[k].spec_level(up) == b by {
                assert(h0[k] == s[k]);
                assert(sum_to(counts@, b as int) == sum_to(counts@, b as int));
            }
            assert forall|c: int, k: int|
                #![trigger t0[k], sum_to(counts@, c)]
                b + 1 <= c < 256 && sum_to(counts@, c) - sum_to(counts@, b + 1) <= k < sum_to(
                    counts@,
                    c + 1,
                ) - sum_to(counts@, b + 1) implies t0[k].spec_level(up) == c by {
                lemma_sum_mono(counts@, c + 1, 256);
                lemma_sum_mono(counts@, b + 1, c);
                assert(t0[k] == s[k + n]);
                assert(sum_to(counts@, c) - sum_to(counts@, b as int) <= k + n);
            }
        }
    }
    handle_chunk(head, level, threads);
    sort_buckets(tail, counts, b + 1, level, threads);
    proof {
        let h1 = head@;
        let t1 = tail@;
        let f = rest@;
        assert(sum_to(counts@, b + 1) == sum_to(counts@, b as int) + counts@[b as int]);
        h0.to_multiset_ensures();
        h1.to_multiset_ensures();
        t0.to_multiset_ensures();
        t1.to_multiset_ensures();
        assert(h1.len() == h0.len() && t1.len() == t0.len());
        assert(s =~= h0 + t0);
        assert(f =~= h1 + t1);
        lemma_same_keys_concat(h0, t0, h1, t1);
        assert forall|c: int|
            b <= c < 256 implies same_keys(
            chunk_of(s, counts@, b as int, c),
            #[trigger] chunk_of(f, counts@, b as int, c),
        ) && keys_sorted(chunk_of(f, counts@, b as int, c), level as nat) by {
            lemma_sum_mono(counts@, c + 1, 256);
            lemma_sum_mono(counts@, b as int, c);
            lemma_sum_mono(counts@, c, c + 1);
            if c == b {
                assert(chunk_of(s, counts@, b as int, c) =~= h0);
                assert(chunk_of(f, counts@, b as int, c) =~= h1);
            } else {
                lemma_sum_mono(counts@, b + 1, c);
                assert(chunk_of(s, counts@, b as int, c) =~= chunk_of(t0, counts@, b + 1, c));
                assert(chunk_of(f, counts@, b as int, c) =~= chunk_of(t1, counts@, b + 1, c));
            }
        }
        if dist {
            let in_b = |x: T| x.spec_level(up) == b as int;
            assert forall|k: int| 0 <= k < h0.len() implies #[trigger] in_b(h0[k]) by {
                assert(h0[k].spec_level(up) == b);
            }
            lemma_same_keys_all(h0, h1, in_b);
            assert forall|k: int| 0 <= k < h1.len() implies #[trigger] h1[k].spec_level(up) == b by {
                assert(in_b(h1[k]));
            }
            lemma_keys_sorted_raise(h1, up, b as int);
            assert forall|i: int, j: int|
                0 <= i < h1.len() && 0 <= j < t1.len() implies #[trigger] h1[i].spec_level(up)
                < #[trigger] t1[j].spec_level(up) by {
                assert(h1[i].spec_level(up) == b);
                assert(t1[j].spec_level(up) >= b + 1);
            }
            lemma_keys_sorted_concat(h1, t1, up);
            assert forall|k: int| 0 <= k < f.len() implies #[trigger] f[k].spec_level(up) >= b by {
                if k < h1.len() {
                    assert(f[k] == h1[k]);
                } else {
                    assert(f[k] == t1[k - h1.len()]);
                }
            }
        }
    }
}

/// Sorts a chunk by its bytes from `level` down, choosing by its size between
/// a comparison sort, a tiled distribution and a single distribution, and
/// skipping the level when its bytes are already in order or all equal.
pub fn handle_chunk<T: RadixKey>(chunk: &mut [T], level: usize, threads: usize)
    requires
        (level as nat) < T::spec_levels(),
    ensures
        same_keys(old(chunk)@, final(chunk)@),
        keys_sorted(final(chunk)@, level as nat),
    decreases level, 2nat, 0nat,
{
    let ghost lv = level as nat;
    let len = chunk.len();
    if len <= 1 {
        return;
    } else if len <= COMPARATIVE_MAX {
        comparative_sort(chunk, level);
        return;
    }
    let use_tiles = len >= TILING_MIN && threads > 1;
    if use_tiles {
        proof {
            let a = (len - 1) as int;
            let d = threads as int;
            assert(a / d <= a) by (nonlinear_arith)
                requires
                    d >= 1,
                    a >= 0,
            ;
        }
        let per_thread = (len - 1) / threads + 1;
        let tile_size = if per_thread > TILE_MIN {
            per_thread
        } else {
            TILE_MIN
        };
        let (tile_counts, already_sorted) = get_tile_counts(chunk, tile_size, level);
        proof {
            assert forall|b: int| 0 <= b < 256 implies #[trigger] tile_sum(
                tile_counts@,
                tile_counts@.len() as int,
                b,
            ) <= usize::MAX by {
                lemma_count_le_len(chunk@, lv, b);
            }
        }
        let counts = aggregate_tile_counts(tile_counts.as_slice());
        if already_sorted || is_homogenous_bucket(&counts) {
            skip_level(chunk, &counts, level, threads, already_sorted);
            return;
        }
        regions_sort_adapter(chunk, &counts, &tile_counts, tile_size, level, threads);
    } else {
        let (counts, already_sorted) = get_counts(chunk, level);
        if already_sorted || (len >= TILE_MIN && is_homogenous_bucket(&counts)) {
            skip_level(chunk, &counts, level, threads, already_sorted);
            return;
        }
        ska_sort_adapter(chunk, &counts, level, threads);
    }
}

/// A chunk whose bytes at `level` are in order or all equal goes on to the
/// next level without moving.
fn skip_level<T: RadixKey>(
    chunk: &mut [T],
    counts: &[usize; 256],
    level: usize,
    threads: usize,
    sorted: bool,
)
    requires
        (level as nat) < T::spec_levels(),
        is_histogram(counts@, old(chunk)@, level as nat),
        sorted ==> crate::radix_key::level_sorted(old(chunk)@, level as nat),
        !sorted ==> forall|i: int, j: int|
            0 <= i < 256 && 0 <= j < 256 && #[trigger] counts@[i] > 0 && #[trigger] counts@[j] > 0
                ==> i == j,
    ensures
        same_keys(old(chunk)@, final(chunk)@),
        keys_sorted(final(chunk)@, level as nat),
    decreases level, 1nat, 0nat,
{
    let len = chunk.len();
    proof {
        if sorted {
            lemma_sorted_in_buckets(chunk@, level as nat, counts@);
        } else {
            lemma_homogenous_in_buckets(chunk@, level as nat, counts@);
        }
    }
    proof {
        lemma_histogram_total(chunk@, level as nat, counts@);
    }
    if level != 0 {
        director(chunk, counts, level - 1, threads);
    } else {
        proof {
            lemma_level_zero_sorted(chunk@, counts@);
        }
    }
}

/// Distributes a chunk by its byte at `level` in place, then sorts each bucket
/// below that level.
pub fn ska_sort_adapter<T: RadixKey>(
    bucket: &mut [T],
    counts: &[usize; 256],
    level: usize,
    threads: usize,
)
    requires
        (level as nat) < T::spec_levels(),
        is_histogram(counts@, old(bucket)@, level as nat),
    ensures
        same_keys(old(bucket)@, final(bucket)@),
        keys_sorted(final(bucket)@, level as nat),
    decreases level, 1nat, 0nat,
{
    let ghost lv = level as nat;
    let ghost s0 = bucket@;
    if bucket.len() < 2 {
        return;
    }
    proof {
        lemma_histogram_total(s0, lv, counts@);
    }
    let mut prefix_sums = get_prefix_sums(counts);
    let end_offsets = get_end_offsets(counts, &prefix_sums);
    proof {
        assert(prefix_sums@ =~= bucket_starts(counts@));
        assert(end_offsets@ =~= bucket_ends(counts@));
        lemma_buckets_from_counts(s0, lv, counts@);
    }
    ska_sort(bucket, &mut prefix_sums, &end_offsets, level);
    proof {
        assert forall|b: int| 0 <= b < 256 implies #[trigger] counts@[b]
            == crate::radix_key::count_byte(bucket@, lv, b) by {
            lemma_count_perm(s0, bucket@, lv, b);
        }
    }
    if level == 0 {
        proof {
            lemma_level_zero_sorted(bucket@, counts@);
        }
        return;
    }
    director(bucket, counts, level - 1, threads);
}

/// Distributes a tiled chunk by its byte at `level`, then sorts each bucket
/// below that level.
pub fn regions_sort_adapter<T: RadixKey>(
    bucket: &mut [T],
    counts: &[usize; 256],
    tile_counts: &Vec<[usize; 256]>,
    tile_size: usize,
    level: usize,
    threads: usize,
)
    requires
        (level as nat) < T::spec_levels(),
        is_histogram(counts@, old(bucket)@, level as nat),
        tile_size >= 1,
        tile_counts@.len() >= 1,
        (tile_counts@.len() - 1) * tile_size < old(bucket)@.len() <= tile_counts@.len() * tile_size,
        forall|t: int|
            0 <= t < tile_counts@.len() ==> is_histogram(
                #[trigger] tile_counts@[t]@,
                tile_of(old(bucket)@, tile_size as int, t),
                level as nat,
            ),
    ensures
        same_keys(old(bucket)@, final(bucket)@),
        keys_sorted(final(bucket)@, level as nat),
    decreases level, 1nat, 0nat,
{
    let ghost lv = level as nat;
    let ghost s0 = bucket@;
    if bucket.len() < 2 {
        return;
    }
    regions_sort(bucket, counts, tile_counts, tile_size, level);
    proof {
        assert forall|b: int| 0 <= b < 256 implies #[trigger] counts@[b]
            == crate::radix_key::count_byte(bucket@, lv, b) by {
            lemma_count_perm(s0, bucket@, lv, b);
        }
    }
    if level == 0 {
        proof {
            lemma_level_zero_sorted(bucket@, counts@);
        }
        return;
    }
    proof {
        lemma_histogram_total(bucket@, lv, counts@);
    }
    director(bucket, counts, level - 1, threads);
}

/// The bucket bounds that a histogram gives cut the keys into buckets that fit.
pub proof fn lemma_buckets_from_counts<T: RadixKey>(s: Seq<T>, level: nat, counts: Seq<usize>)
    requires
        is_histogram(counts, s, level),
        s.len() <= usize::MAX,
    ensures
        crate::ska_sort::buckets_tile(bucket_starts(counts), bucket_ends(counts), s.len()),
        crate::ska_sort::buckets_fit(s, level, bucket_starts(counts), bucket_ends(counts)),
{
    lemma_histogram_total(s, level, counts);
    let st = bucket_starts(counts);
    let en = bucket_ends(counts);
    assert forall|b: int| 0 <= b < 256 implies #[trigger] en[b] - st[b] == crate::radix_key::count_byte(
        s,
        level,
        b,
    ) && #[trigger] st[b] <= en[b] by {
        lemma_sum_mono(counts, 0, b);
        lemma_sum_mono(counts, b + 1, 256);
    }
    assert(sum_to(counts, 0) == 0);
    assert forall|b: int| 0 <= b < 255 implies #[trigger] st[b + 1] == en[b] by {
        lemma_sum_mono(counts, 0, b + 1);
        lemma_sum_mono(counts, b + 1, 256);
    }
}

/// Sorts `data` by all of its byte levels, most significant first; `threads`
/// is the number of workers the chunks may be spread over.
pub fn sort<T: RadixKey>(data: &mut [T], threads: usize)
    ensures
        same_keys(old(data)@, final(data)@),
        fully_sorted(final(data)@),
{
    if data.len() <= 1 {
        return;
    }
    let level = T::levels() - 1;
    handle_chunk(data, level, threads);
}

/// Keys that order before each other agree on every byte from `level` down.
proof fn lemma_key_le_both<T: RadixKey>(a: T, b: T, level: nat)
    requires
        key_le(a, b, level),
        key_le(b, a, level),
    ensures
        forall|l: nat| l <= level ==> #[trigger] a.spec_level(l) == b.spec_level(l),
    decreases level,
{
    if level > 0 {
        lemma_key_le_both(a, b, (level - 1) as nat);
        assert forall|l: nat| l <= level implies #[trigger] a.spec_level(l) == b.spec_level(l) by {
            if l < level {
                assert(l <= (level - 1) as nat);
            }
        }
    }
}

proof fn lemma_byte_eq(a: u64, b: u64, k: nat)
    requires
        k < 8,
        a.spec_level(k) == b.spec_level(k),
    ensures
        (a >> ((8 * k) as u64)) & 0xff == (b >> ((8 * k) as u64)) & 0xff,
{
    let sh = (8 * k) as u64;
    let x = (a >> sh) & 0xff;
    let y = (b >> sh) & 0xff;
    assert(x <= 0xff && y <= 0xff) by (bit_vector)
        requires
            x == (a >> sh) & 0xff,
            y == (b >> sh) & 0xff,
    ;
    assert(x as u8 == y as u8);
}

/// Two `u64` that order before each other are equal.
proof fn lemma_u64_key_antisymmetric(a: u64, b: u64)
    requires
        key_le(a, b, 7),
        key_le(b, a, 7),
    ensures
        a == b,
{
    lemma_key_le_both(a, b, 7);
    lemma_byte_eq(a, b, 0);
    lemma_byte_eq(a, b, 1);
    lemma_byte_eq(a, b, 2);
    lemma_byte_eq(a, b, 3);
    lemma_byte_eq(a, b, 4);
    lemma_byte_eq(a, b, 5);
    lemma_byte_eq(a, b, 6);
    lemma_byte_eq(a, b, 7);
    assert(a == b) by (bit_vector)
        requires
            (a >> 0u64) & 0xff == (b >> 0u64) & 0xff,
            (a >> 8u64) & 0xff == (b >> 8u64) & 0xff,
            (a >> 16u64) & 0xff == (b >> 16u64) & 0xff,
            (a >> 24u64) & 0xff == (b >> 24u64) & 0xff,
            (a >> 32u64) & 0xff == (b >> 32u64) & 0xff,
            (a >> 40u64) & 0xff == (b >> 40u64) & 0xff,
            (a >> 48u64) & 0xff == (b >> 48u64) & 0xff,
            (a >> 56u64) & 0xff == (b >> 56u64) & 0xff,
    ;
}

/// Two sorted sequences of the same `u64` keys are equal.
proof fn lemma_sorted_u64_unique(s: Seq<u64>, t: Seq<u64>)
    requires
        same_keys(s, t),
        keys_sorted(s, 7),
        keys_sorted(t, 7),
    ensures
        s == t,
    decreases s.len(),
{
    s.to_multiset_ensures();
    t.to_multiset_ensures();
    if s.len() == 0 {
        assert(s =~= t);
    } else {
        let n = s.len() - 1;
        let x = s.last();
        let y = t.last();
        assert(s.contains(x));
        assert(s.to_multiset().count(x) > 0);
        assert(t.to_multiset().count(x) > 0);
        assert(t.contains(x));
        assert(t.contains(y));
        assert(t.to_multiset().count(y) > 0);
        assert(s.to_multiset().count(y) > 0);
        assert(s.contains(y));
        let j = choose|j: int| 0 <= j < t.len() && t[j] == x;
        let i = choose|i: int| 0 <= i < s.len() && s[i] == y;
        if j < t.len() - 1 {
            assert(key_le(t[j], t[t.len() - 1], 7));
        } else {
            lemma_key_le_refl(x, 7);
        }
        if i < n {
            assert(key_le(s[i], s[n], 7));
        } else {
            lemma_key_le_refl(y, 7);
        }
        lemma_u64_key_antisymmetric(x, y);
        vstd::seq_lib::to_multiset_remove(s, n);
        vstd::seq_lib::to_multiset_remove(t, t.len() - 1);
        assert(s.remove(n) =~= s.drop_last());
        assert(t.remove(t.len() - 1) =~= t.drop_last());
        let s1 = s.drop_last();
        let t1 = t.drop_last();
        assert forall|a: int, b: int| 0 <= a < b < s1.len() implies key_le(#[trigger] s1[a], #[trigger] s1[b], 7) by {
            assert(s1[a] == s[a] && s1[b] == s[b]);
        }
        assert forall|a: int, b: int| 0 <= a < b < t1.len() implies key_le(#[trigger] t1[a], #[trigger] t1[b], 7) by {
            assert(t1[a] == t[a] && t1[b] == t[b]);
        }
        lemma_sorted_u64_unique(s1, t1);
        assert(s =~= s1.push(x));
        assert(t =~= t1.push(y));
    }
}

proof fn lemma_key_le_refl<T: RadixKey>(a: T, level: nat)
    ensures
        key_le(a, a, level),
    decreases level,
{
    if level > 0 {
        lemma_key_le_refl(a, (level - 1) as nat);
    }
}

/// Bytes compared from `level` down order `u64` values as numbers, once the
/// bytes above `level` agree.
pub proof fn lemma_key_le_numeric(a: u64, b: u64, level: nat)
    requires
        level <= 7,
        key_le(a, b, level),
        level < 7 ==> (a >> ((8 * level + 8) as u64)) == (b >> ((8 * level + 8) as u64)),
    ensures
        a <= b,
    decreases level,
{
    let sh = (8 * level) as u64;
    let x = (a >> sh) & 0xff;
    let y = (b >> sh) & 0xff;
    assert(x <= 0xff && y <= 0xff) by (bit_vector)
        requires
            x == (a >> sh) & 0xff,
            y == (b >> sh) & 0xff,
    ;
    assert(a.spec_level(level) == x as u8 && b.spec_level(level) == y as u8);
    if level == 7 {
        assert(sh == 56);
        if x != y {
            assert(x < y);
            assert(a < b) by (bit_vector)
                requires
                    x == (a >> 56u64) & 0xff,
                    y == (b >> 56u64) & 0xff,
                    x < y,
            ;
        } else {
            assert(key_le(a, b, 6));
            assert((a >> 56u64) == (b >> 56u64)) by (bit_vector)
                requires
                    x == (a >> 56u64) & 0xff,
                    y == (b >> 56u64) & 0xff,
                    x == y,
            ;
            lemma_key_le_numeric(a, b, 6);
        }
    } else {
        let up = (8 * level + 8) as u64;
        assert(sh < 56 && up == sh + 8);
        if x != y {
            assert(x < y);
            assert(a < b) by (bit_vector)
                requires
                    sh < 56,
                    up == sh + 8,
                    x == (a >> sh) & 0xff,
                    y == (b >> sh) & 0xff,
                    x < y,
                    (a >> up) == (b >> up),
            ;
        } else if level == 0 {
            assert(a == b || a <= b) by (bit_vector)
                requires
                    sh == 0,
                    up == 8,
                    x == (a >> sh) & 0xff,
                    y == (b >> sh) & 0xff,
                    x == y,
                    (a >> up) == (b >> up),
            ;
        } else {
            assert(key_le(a, b, (level - 1) as nat));
            assert((a >> sh) == (b >> sh)) by (bit_vector)
                requires
                    sh < 56,
                    up == sh + 8,
                    x == (a >> sh) & 0xff,
                    y == (b >> sh) & 0xff,
                    x == y,
                    (a >> up) == (b >> up),
            ;
            assert(sh == (8 * (level - 1) + 8) as u64);
            lemma_key_le_numeric(a, b, (level - 1) as nat);
        }
    }
}

/// Sorting an already sorted array of `u64` leaves it unchanged: a sorted
/// array is the only sorted arrangement of its keys.
pub proof fn lemma_sort_idempotent(before: Seq<u64>, after: Seq<u64>)
    requires
        fully_sorted(before),
        same_keys(before, after),
        fully_sorted(after),
    ensures
        after == before,
{
    lemma_sorted_u64_unique(before, after);
}

} // verus!
