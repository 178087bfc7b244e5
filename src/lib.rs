//! Bounding volume hierarchy construction by locally-ordered clustering,
//! with the MSB-first radix sort that orders its primitives.
pub mod radix_key;
pub mod key_lemmas;
pub mod sort_utils;
pub mod ska_sort;
pub mod comparative_sort;
pub mod regions_sort;
pub mod sorter;
pub mod morton;
pub mod ploc;
pub mod int_box;
pub mod bvh;
