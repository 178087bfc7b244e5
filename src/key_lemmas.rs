//! Facts about byte counts and key permutations that the sorts rely on.
use vstd::prelude::*;
use vstd::seq_lib::{lemma_multiset_commutative, to_multiset_remove};
use crate::radix_key::{RadixKey, count_byte, same_keys, lemma_count_add, key_le, keys_sorted, level_sorted};

verus! {

broadcast use {vstd::multiset::group_multiset_axioms, vstd::multiset::group_multiset_properties};

/// A sequence whose every byte at `level` is `v` counts each of its keys.
pub proof fn lemma_count_all<T: RadixKey>(s: Seq<T>, level: nat, v: int)
    requires
        forall|k: int| 0 <= k < s.len() ==> #[trigger] s[k].spec_level(level) == v,
    ensures
        count_byte(s, level, v) == s.len(),
    decreases s.len(),
{
    if s.len() > 0 {
        lemma_count_all(s.drop_last(), level, v);
    }
}

pub proof fn lemma_count_remove<T: RadixKey>(s: Seq<T>, j: int, level: nat, v: int)
    requires
        0 <= j < s.len(),
    ensures
        count_byte(s, level, v) == count_byte(s.remove(j), level, v) + if s[j].spec_level(level)
            == v {
            1nat
        } else {
            0nat
        },
{
    let a = s.subrange(0, j);
    let m = seq![s[j]];
    let c = s.subrange(j + 1, s.len() as int);
    assert(s =~= a + m + c);
    assert(s.remove(j) =~= a + c);
    lemma_count_add(a + m, c, level, v);
    lemma_count_add(a, m, level, v);
    lemma_count_add(a, c, level, v);
    assert(m.drop_last() =~= Seq::<T>::empty());
    assert(count_byte(Seq::<T>::empty(), level, v) == 0);
    assert(m.last() == s[j]);
    assert(count_byte(m, level, v) == if s[j].spec_level(level) == v {
        1nat
    } else {
        0nat
    });
}

/// Two sequences that hold the same keys have the same byte counts.
pub proof fn lemma_count_perm<T: RadixKey>(s: Seq<T>, t: Seq<T>, level: nat, v: int)
    requires
        same_keys(s, t),
    ensures
        count_byte(s, level, v) == count_byte(t, level, v),
    decreases s.len(),
{
    if s.len() == 0 {
        s.to_multiset_ensures();
        t.to_multiset_ensures();
        assert(t.len() == 0);
    } else {
        s.to_multiset_ensures();
        t.to_multiset_ensures();
        let x = s.last();
        assert(s.contains(x));
        assert(t.to_multiset().count(x) > 0);
        assert(t.contains(x));
        let j = choose|j: int| 0 <= j < t.len() && t[j] == x;
        to_multiset_remove(t, j);
        to_multiset_remove(s, s.len() - 1);
        assert(s.remove(s.len() - 1) =~= s.drop_last());
        lemma_count_perm(s.drop_last(), t.remove(j), level, v);
        lemma_count_remove(t, j, level, v);
    }
}

/// A key with byte `v` outside a run of `v` bytes adds one to the run's count.
pub proof fn lemma_count_run_plus_one<T: RadixKey>(
    s: Seq<T>,
    lo: int,
    hi: int,
    i: int,
    level: nat,
    v: int,
)
    requires
        0 <= lo <= hi <= s.len(),
        0 <= i < s.len(),
        !(lo <= i < hi),
        s[i].spec_level(level) == v,
        forall|k: int| lo <= k < hi ==> #[trigger] s[k].spec_level(level) == v,
    ensures
        count_byte(s, level, v) >= hi - lo + 1,
{
    let a = s.subrange(0, lo);
    let m = s.subrange(lo, hi);
    let c = s.subrange(hi, s.len() as int);
    assert(s =~= a + m + c);
    lemma_count_add(a + m, c, level, v);
    lemma_count_add(a, m, level, v);
    lemma_count_all(m, level, v);
    if i < lo {
        lemma_count_remove(a, i, level, v);
    } else {
        lemma_count_remove(c, i - hi, level, v);
    }
}

/// Rewriting a window with a permutation of itself keeps the keys of the whole.
pub proof fn lemma_perm_window<T>(s: Seq<T>, t: Seq<T>, lo: int, hi: int)
    requires
        0 <= lo <= hi <= s.len(),
        s.len() == t.len(),
        s.subrange(0, lo) == t.subrange(0, lo),
        s.subrange(hi, s.len() as int) == t.subrange(hi, t.len() as int),
        same_keys(s.subrange(lo, hi), t.subrange(lo, hi)),
    ensures
        same_keys(s, t),
{
    assert(s =~= s.subrange(0, lo) + s.subrange(lo, hi) + s.subrange(hi, s.len() as int));
    assert(t =~= t.subrange(0, lo) + t.subrange(lo, hi) + t.subrange(hi, t.len() as int));
    lemma_multiset_commutative(s.subrange(0, lo) + s.subrange(lo, hi), s.subrange(hi, s.len() as int));
    lemma_multiset_commutative(s.subrange(0, lo), s.subrange(lo, hi));
    lemma_multiset_commutative(t.subrange(0, lo) + t.subrange(lo, hi), t.subrange(hi, t.len() as int));
    lemma_multiset_commutative(t.subrange(0, lo), t.subrange(lo, hi));
}

/// Two runs sorted on their own, where every byte at `level` of the first is
/// below every byte of the second, are sorted together.
pub proof fn lemma_keys_sorted_concat<T: RadixKey>(h: Seq<T>, t: Seq<T>, level: nat)
    requires
        keys_sorted(h, level),
        keys_sorted(t, level),
        forall|i: int, j: int|
            0 <= i < h.len() && 0 <= j < t.len() ==> #[trigger] h[i].spec_level(level)
                < #[trigger] t[j].spec_level(level),
    ensures
        keys_sorted(h + t, level),
{
    let s = h + t;
    assert forall|i: int, j: int| 0 <= i < j < s.len() implies key_le(#[trigger] s[i], #[trigger] s[j], level) by {
        if j < h.len() {
            assert(s[i] == h[i] && s[j] == h[j]);
        } else if i >= h.len() {
            assert(s[i] == t[i - h.len()] && s[j] == t[j - h.len()]);
        } else {
            assert(s[i] == h[i] && s[j] == t[j - h.len()]);
            assert(h[i].spec_level(level) < t[j - h.len()].spec_level(level));
        }
    }
}

/// Keys that share their byte at `level` and are sorted below it are sorted
/// from `level` down.
pub proof fn lemma_keys_sorted_raise<T: RadixKey>(s: Seq<T>, level: nat, v: int)
    requires
        level >= 1,
        keys_sorted(s, (level - 1) as nat),
        forall|k: int| 0 <= k < s.len() ==> #[trigger] s[k].spec_level(level) == v,
    ensures
        keys_sorted(s, level),
{
    assert forall|i: int, j: int| 0 <= i < j < s.len() implies key_le(#[trigger] s[i], #[trigger] s[j], level) by {
        assert(s[i].spec_level(level) == v);
        assert(s[j].spec_level(level) == v);
        assert(key_le(s[i], s[j], (level - 1) as nat));
    }
}

/// At level 0 the order is that of the bytes.
pub proof fn lemma_keys_sorted_bytes<T: RadixKey>(s: Seq<T>)
    requires
        forall|i: int, j: int|
            0 <= i < j < s.len() ==> #[trigger] s[i].spec_level(0) <= #[trigger] s[j].spec_level(0),
    ensures
        keys_sorted(s, 0),
{
    assert forall|i: int, j: int| 0 <= i < j < s.len() implies key_le(#[trigger] s[i], #[trigger] s[j], 0) by {
        assert(s[i].spec_level(0) <= s[j].spec_level(0));
    }
}

/// Non-decreasing neighbours make a non-decreasing sequence.
pub proof fn lemma_level_sorted_pairs<T: RadixKey>(s: Seq<T>, level: nat)
    requires
        level_sorted(s, level),
    ensures
        forall|i: int, j: int|
            0 <= i <= j < s.len() ==> #[trigger] s[i].spec_level(level) <= #[trigger] s[j].spec_level(
                level,
            ),
    decreases s.len(),
{
    if s.len() > 0 {
        let t = s.drop_last();
        assert forall|k: int| 0 < k < t.len() implies #[trigger] t[k - 1].spec_level(level) <= t[k].spec_level(level) by {
            assert(s[k - 1] == t[k - 1] && s[k] == t[k]);
        }
        lemma_level_sorted_pairs(t, level);
        assert forall|i: int, j: int|
            0 <= i <= j < s.len() implies #[trigger] s[i].spec_level(level) <= #[trigger] s[j].spec_level(level) by {
            if j < s.len() - 1 {
                assert(s[i] == t[i] && s[j] == t[j]);
            } else if i < j {
                assert(s[i] == t[i] && s[j - 1] == t[j - 1]);
                assert(s[(j - 1) + 1].spec_level(level) >= s[j - 1].spec_level(level));
            }
        }
    }
}

/// What holds of every key of a sequence holds of every key of a sequence with
/// the same keys.
pub proof fn lemma_same_keys_all<T>(s: Seq<T>, t: Seq<T>, pred: spec_fn(T) -> bool)
    requires
        same_keys(s, t),
        forall|k: int| 0 <= k < s.len() ==> #[trigger] pred(s[k]),
    ensures
        forall|k: int| 0 <= k < t.len() ==> #[trigger] pred(t[k]),
{
    s.to_multiset_ensures();
    t.to_multiset_ensures();
    assert forall|k: int| 0 <= k < t.len() implies #[trigger] pred(t[k]) by {
        assert(t.contains(t[k]));
        assert(s.to_multiset().count(t[k]) > 0);
        assert(s.contains(t[k]));
    }
}

/// Keys taken apart and put back together are the same keys.
pub proof fn lemma_same_keys_concat<T>(a: Seq<T>, b: Seq<T>, c: Seq<T>, d: Seq<T>)
    requires
        same_keys(a, c),
        same_keys(b, d),
    ensures
        same_keys(a + b, c + d),
{
    lemma_multiset_commutative(a, b);
    lemma_multiset_commutative(c, d);
}

/// Exchanges two keys of a slice.
pub fn swap_keys<T: Copy>(bucket: &mut [T], a: usize, b: usize)
    requires
        a < old(bucket)@.len(),
        b < old(bucket)@.len(),
    ensures
        final(bucket)@ == old(bucket)@.update(a as int, old(bucket)@[b as int]).update(
            b as int,
            old(bucket)@[a as int],
        ),
        same_keys(old(bucket)@, final(bucket)@),
{
    let ghost s = bucket@;
    let x = bucket[a];
    let y = bucket[b];
    bucket[a] = y;
    bucket[b] = x;
    proof {
        vstd::seq_lib::to_multiset_update(s, a as int, y);
        vstd::seq_lib::to_multiset_update(s.update(a as int, y), b as int, x);
        s.to_multiset_ensures();
        assert(s.contains(x));
        assert(s.contains(y));
        assert(s.update(a as int, y)[b as int] == y);
        assert(s.to_multiset().count(x) > 0);
        assert(bucket@.to_multiset() =~= s.to_multiset());
    }
}

} // verus!
