//! Comparison sort on the byte levels of the keys, for chunks too small to
//! pay for histograms.
use vstd::prelude::*;
use core::cmp::Ordering;
use crate::radix_key::{RadixKey, key_le, keys_sorted, same_keys};

verus! {

/// Compares two keys byte by byte, from `start_level` down to level 0.
pub fn compare_levels<T: RadixKey>(a: &T, b: &T, start_level: usize) -> (r: Ordering)
    requires
        (start_level as nat) < T::spec_levels(),
    ensures
        (r != Ordering::Greater) == key_le(*a, *b, start_level as nat),
        (r != Ordering::Less) == key_le(*b, *a, start_level as nat),
{
    let mut level = start_level;
    loop
        invariant
            level <= start_level,
            (start_level as nat) < T::spec_levels(),
            key_le(*a, *b, start_level as nat) == key_le(*a, *b, level as nat),
            key_le(*b, *a, start_level as nat) == key_le(*b, *a, level as nat),
        decreases level,
    {
        let x = a.get_level(level);
        let y = b.get_level(level);
        if x < y {
            return Ordering::Less;
        } else if x > y {
            return Ordering::Greater;
        }
        if level == 0 {
            return Ordering::Equal;
        }
        level -= 1;
    }
}

/// Relies on `slice::sort_unstable_by`: given a comparator that is a total
/// order, it permutes the slice so that no key compares greater than a later
/// key. The comparator orders keys by their bytes from `start_level` down.
#[verifier::external_body]
fn sort_unstable_by_levels<T: RadixKey>(bucket: &mut [T], start_level: usize)
    requires
        (start_level as nat) < T::spec_levels(),
    ensures
        same_keys(old(bucket)@, final(bucket)@),
        keys_sorted(final(bucket)@, start_level as nat),
{
    bucket.sort_unstable_by(|a: &T, b: &T| compare_levels(a, b, start_level))
}

/// Sorts a chunk by its bytes from `start_level` down, comparing whole keys.
pub fn comparative_sort<T: RadixKey>(bucket: &mut [T], start_level: usize)
    requires
        (start_level as nat) < T::spec_levels(),
    ensures
        same_keys(old(bucket)@, final(bucket)@),
        keys_sorted(final(bucket)@, start_level as nat),
{
    if bucket.len() < 2 {
        return;
    }
    sort_unstable_by_levels(bucket, start_level);
}

} // verus!
