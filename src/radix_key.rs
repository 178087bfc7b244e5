//! Keys that the radix sort orders, one byte level at a time.
use vstd::prelude::*;

verus! {

/// A key made of `levels()` bytes; level 0 is the least significant.
pub trait RadixKey: Sized + Copy {
    /// The number of byte levels of the key.
    spec fn spec_levels() -> nat;

    /// The byte of the key at `level`.
    spec fn spec_level(self, level: nat) -> u8;

    fn levels() -> (r: usize)
        ensures
            r as nat == Self::spec_levels(),
            r >= 1,
    ;

    fn get_level(&self, level: usize) -> (r: u8)
        requires
            (level as nat) < Self::spec_levels(),
        ensures
            r == self.spec_level(level as nat),
    ;
}

/// The number of keys of `s` whose byte at `level` is `v`.
pub open spec fn count_byte<T: RadixKey>(s: Seq<T>, level: nat, v: int) -> nat
    decreases s.len(),
{
    if s.len() == 0 {
        0
    } else {
        count_byte(s.drop_last(), level, v) + if s.last().spec_level(level) == v {
            1nat
        } else {
            0nat
        }
    }
}

/// The bytes of `s` at `level` never decrease from one key to the next.
pub open spec fn level_sorted<T: RadixKey>(s: Seq<T>, level: nat) -> bool {
    forall|i: int| 0 < i < s.len() ==> #[trigger] s[i - 1].spec_level(level) <= s[i].spec_level(
        level,
    )
}

/// `a` orders at or before `b` when their bytes are compared from `level` down to 0.
pub open spec fn key_le<T: RadixKey>(a: T, b: T, level: nat) -> bool
    decreases level,
{
    if a.spec_level(level) != b.spec_level(level) {
        a.spec_level(level) < b.spec_level(level)
    } else if level == 0 {
        true
    } else {
        key_le(a, b, (level - 1) as nat)
    }
}

/// Every key of `s` orders at or before every later one, from `level` down.
pub open spec fn keys_sorted<T: RadixKey>(s: Seq<T>, level: nat) -> bool {
    forall|i: int, j: int| 0 <= i < j < s.len() ==> key_le(#[trigger] s[i], #[trigger] s[j], level)
}

/// The keys of a whole key array in order, by all of their levels.
pub open spec fn fully_sorted<T: RadixKey>(s: Seq<T>) -> bool {
    keys_sorted(s, (T::spec_levels() - 1) as nat)
}

/// `t` holds the same keys as `s`, each as many times.
pub open spec fn same_keys<T>(s: Seq<T>, t: Seq<T>) -> bool {
    s.to_multiset() == t.to_multiset()
}

pub proof fn lemma_count_add<T: RadixKey>(a: Seq<T>, b: Seq<T>, level: nat, v: int)
    ensures
        count_byte(a + b, level, v) == count_byte(a, level, v) + count_byte(b, level, v),
    decreases b.len(),
{
    if b.len() == 0 {
        assert(a + b =~= a);
    } else {
        lemma_count_add(a, b.drop_last(), level, v);
        assert((a + b).drop_last() =~= a + b.drop_last());
    }
}

pub proof fn lemma_count_le_len<T: RadixKey>(s: Seq<T>, level: nat, v: int)
    ensures
        count_byte(s, level, v) <= s.len(),
    decreases s.len(),
{
    if s.len() > 0 {
        lemma_count_le_len(s.drop_last(), level, v);
    }
}

/// The `k`-th least significant byte of `x`.
pub open spec fn byte_of(x: u64, k: nat) -> u8 {
    ((x >> ((8 * k) as u64)) & 0xff) as u8
}

impl RadixKey for u8 {
    open spec fn spec_levels() -> nat {
        1
    }

    open spec fn spec_level(self, level: nat) -> u8 {
        self
    }

    fn levels() -> (r: usize) {
        1
    }

    fn get_level(&self, level: usize) -> (r: u8) {
        *self
    }
}

impl RadixKey for u64 {
    open spec fn spec_levels() -> nat {
        8
    }

    open spec fn spec_level(self, level: nat) -> u8 {
        byte_of(self, level)
    }

    fn levels() -> (r: usize) {
        8
    }

    fn get_level(&self, level: usize) -> (r: u8) {
        ((*self >> ((8 * level) as u64)) & 0xff) as u8
    }
}

} // verus!
