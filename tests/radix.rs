use ploc::comparative_sort::{compare_levels, comparative_sort};
use ploc::regions_sort::regions_sort;
use ploc::ska_sort::ska_sort;
use ploc::sort_utils::{
    aggregate_tile_counts, get_counts, get_counts_with_ends, get_end_offsets, get_prefix_sums,
    get_tile_counts, is_homogenous_bucket, par_get_counts_with_ends,
};
use ploc::sorter::{director, handle_chunk, sort};
use std::cmp::Ordering;

fn lcg(seed: &mut u64) -> u64 {
    *seed = seed.wrapping_mul(6364136223846793005).wrapping_add(1442695040888963407);
    *seed
}

#[test]
pub fn test_get_tile_counts_correctly_marks_already_sorted_single_tile() {
    let mut data: Vec<u8> = vec![0, 5, 2, 3, 1];

    let (_counts, already_sorted) = get_tile_counts(&mut data, 5, 0);
    assert_eq!(already_sorted, false);

    let mut data: Vec<u8> = vec![0, 0, 1, 1, 2];

    let (_counts, already_sorted) = get_tile_counts(&mut data, 5, 0);
    assert_eq!(already_sorted, true);
}

#[test]
pub fn test_get_tile_counts_correctly_marks_already_sorted_multiple_tiles() {
    let mut data: Vec<u8> = vec![0, 5, 2, 3, 1];

    let (_counts, already_sorted) = get_tile_counts(&mut data, 2, 0);
    assert_eq!(already_sorted, false);

    let mut data: Vec<u8> = vec![0, 0, 1, 1, 2];

    let (_counts, already_sorted) = get_tile_counts(&mut data, 2, 0);
    assert_eq!(already_sorted, true);
}

#[test]
fn tile_counts_split_into_tiles() {
    let data: Vec<u8> = vec![3, 3, 1, 0, 2];
    let (tiles, sorted) = get_tile_counts(&data, 2, 0);
    assert_eq!(tiles.len(), 3);
    assert_eq!(tiles[0][3], 2);
    assert_eq!(tiles[1][1], 1);
    assert_eq!(tiles[1][0], 1);
    assert_eq!(tiles[2][2], 1);
    assert!(!sorted);
    let total = aggregate_tile_counts(&tiles);
    assert_eq!(total[0], 1);
    assert_eq!(total[1], 1);
    assert_eq!(total[2], 1);
    assert_eq!(total[3], 2);
    assert_eq!(total.iter().sum::<usize>(), 5);
}

#[test]
fn tile_boundary_breaks_sortedness() {
    // Each tile is sorted on its own; the boundary between them is not.
    let data: Vec<u8> = vec![1, 2, 0, 3];
    let (_tiles, sorted) = get_tile_counts(&data, 2, 0);
    assert!(!sorted);
}

#[test]
fn prefix_sums_and_end_offsets() {
    let mut counts = [0usize; 256];
    counts[0] = 2;
    counts[3] = 4;
    counts[255] = 1;
    let sums = get_prefix_sums(&counts);
    assert_eq!(sums[0], 0);
    assert_eq!(sums[1], 2);
    assert_eq!(sums[3], 2);
    assert_eq!(sums[4], 6);
    assert_eq!(sums[255], 6);
    let ends = get_end_offsets(&counts, &sums);
    assert_eq!(ends[0], 2);
    assert_eq!(ends[2], 2);
    assert_eq!(ends[3], 6);
    assert_eq!(ends[254], 6);
    assert_eq!(ends[255], 7);
}

#[test]
fn counts_with_ends_report_first_and_last() {
    let data: Vec<u64> = vec![0x0102, 0x0301, 0x0203];
    let (counts, sorted, first, last) = get_counts_with_ends(&data, 1);
    assert_eq!(counts[1], 1);
    assert_eq!(counts[2], 1);
    assert_eq!(counts[3], 1);
    assert!(!sorted);
    assert_eq!(first, 1);
    assert_eq!(last, 2);
    let (counts0, sorted0, first0, last0) = get_counts_with_ends(&data, 0);
    assert_eq!(counts0[2], 1);
    assert!(!sorted0);
    assert_eq!(first0, 2);
    assert_eq!(last0, 3);
}

#[test]
fn counts_of_empty_chunk() {
    let data: Vec<u64> = Vec::new();
    let (counts, sorted) = get_counts(&data, 0);
    assert!(sorted);
    assert!(counts.iter().all(|c| *c == 0));
}

#[test]
fn large_counts_match_plain_counts() {
    let mut seed = 7u64;
    let data: Vec<u64> = (0..450_000).map(|_| lcg(&mut seed) >> 3).collect();
    let plain = get_counts_with_ends(&data, 7);
    let chunked = par_get_counts_with_ends(&data, 7, 4);
    assert_eq!(plain.0, chunked.0);
    assert_eq!(plain.1, chunked.1);
    assert_eq!(plain.2, chunked.2);
    assert_eq!(plain.3, chunked.3);
    let sorted: Vec<u64> = (0..450_000u64).collect();
    assert!(par_get_counts_with_ends(&sorted, 2, 3).1);
}

#[test]
fn homogenous_bucket_detection() {
    let mut counts = [0usize; 256];
    assert!(is_homogenous_bucket(&counts));
    counts[17] = 9;
    assert!(is_homogenous_bucket(&counts));
    counts[200] = 1;
    assert!(!is_homogenous_bucket(&counts));
}

#[test]
fn compare_levels_scans_down() {
    assert_eq!(compare_levels(&0x0100u64, &0x00ffu64, 7), Ordering::Greater);
    assert_eq!(compare_levels(&0x00ffu64, &0x0100u64, 7), Ordering::Less);
    assert_eq!(compare_levels(&0x1234u64, &0x1234u64, 7), Ordering::Equal);
    // Below level 1 only the low byte counts.
    assert_eq!(compare_levels(&0x0105u64, &0x0204u64, 0), Ordering::Greater);
}

#[test]
fn comparative_sort_small_chunk() {
    let mut data: Vec<u64> = vec![9, 3, 7, 1, 0x100, 2];
    comparative_sort(&mut data, 7);
    assert_eq!(data, vec![1, 2, 3, 7, 9, 0x100]);
}

#[test]
fn ska_sort_distributes_by_byte() {
    let mut data: Vec<u64> = vec![0x0300, 0x0101, 0x0202, 0x0103, 0x0304, 0x0005];
    let (counts, _) = get_counts(&data, 1);
    let mut sums = get_prefix_sums(&counts);
    let ends = get_end_offsets(&counts, &sums);
    ska_sort(&mut data, &mut sums, &ends, 1);
    let bytes: Vec<u64> = data.iter().map(|v| v >> 8).collect();
    assert_eq!(bytes, vec![0, 1, 1, 2, 3, 3]);
    let mut copy = data.clone();
    copy.sort();
    let mut expected = vec![0x0300, 0x0101, 0x0202, 0x0103, 0x0304, 0x0005];
    expected.sort();
    assert_eq!(copy, expected);
}

#[test]
fn ska_sort_with_dominant_bucket() {
    let mut data: Vec<u64> = (0..200u64).map(|i| if i % 10 == 0 { 0x0200 + i } else { 0x0100 + i }).collect();
    let (counts, _) = get_counts(&data, 1);
    let mut sums = get_prefix_sums(&counts);
    let ends = get_end_offsets(&counts, &sums);
    ska_sort(&mut data, &mut sums, &ends, 1);
    assert!(data[..180].iter().all(|v| v >> 8 == 1));
    assert!(data[180..].iter().all(|v| v >> 8 == 2));
}

#[test]
fn director_sorts_each_bucket() {
    let mut data: Vec<u64> = vec![0x0003, 0x0001, 0x0002, 0x0109, 0x0105];
    let (counts, _) = get_counts(&data, 1);
    director(&mut data, &counts, 0, 1);
    assert_eq!(data, vec![1, 2, 3, 0x0105, 0x0109]);
}

#[test]
fn handle_chunk_sorts_from_level() {
    let mut seed = 3u64;
    let mut data: Vec<u64> = (0..5_000).map(|_| lcg(&mut seed) & 0xffff).collect();
    handle_chunk(&mut data, 1, 1);
    assert!(data.windows(2).all(|w| w[0] <= w[1]));
}

#[test]
fn sort_random_keys() {
    let mut seed = 11u64;
    let mut data: Vec<u64> = (0..100_000).map(|_| lcg(&mut seed)).collect();
    let mut expected = data.clone();
    expected.sort();
    sort(&mut data, 1);
    assert_eq!(data, expected);
}

#[test]
fn sort_tiled_chunk() {
    let mut seed = 5u64;
    let mut data: Vec<u64> = (0..300_000).map(|_| lcg(&mut seed)).collect();
    let mut expected = data.clone();
    expected.sort();
    sort(&mut data, 4);
    assert_eq!(data, expected);
}

#[test]
fn sort_equal_keys_and_tiny_inputs() {
    let mut empty: Vec<u64> = Vec::new();
    sort(&mut empty, 1);
    assert!(empty.is_empty());
    let mut one = vec![42u64];
    sort(&mut one, 1);
    assert_eq!(one, vec![42]);
    let mut same = vec![7u64; 40_000];
    sort(&mut same, 1);
    assert!(same.iter().all(|v| *v == 7));
}

#[test]
fn sort_reversed_million() {
    let mut data: Vec<u64> = (0..1_000_000u64).rev().collect();
    sort(&mut data, 1);
    assert!(data.iter().enumerate().all(|(i, v)| *v == i as u64));
    let before = data.clone();
    sort(&mut data, 1);
    assert_eq!(data, before);
}

#[test]
fn sort_sorted_is_identity() {
    let mut seed = 13u64;
    let mut data: Vec<u64> = (0..50_000).map(|_| lcg(&mut seed) % 1000).collect();
    sort(&mut data, 1);
    let once = data.clone();
    sort(&mut data, 1);
    assert_eq!(data, once);
}

#[test]
fn regions_sort_moves_runs_between_tiles() {
    let mut data: Vec<u64> = vec![3, 1, 2, 0, 2, 3, 1, 0, 0, 0, 3, 3, 1, 2, 2, 1, 0, 3, 2, 1, 3];
    let tile_size = 4;
    let (tiles, _) = get_tile_counts(&data, tile_size, 0);
    let counts = aggregate_tile_counts(&tiles);
    regions_sort(&mut data, &counts, &tiles, tile_size, 0);
    let mut expected = vec![3, 1, 2, 0, 2, 3, 1, 0, 0, 0, 3, 3, 1, 2, 2, 1, 0, 3, 2, 1, 3];
    expected.sort();
    assert_eq!(data, expected);
}


#[test]
fn director_sorts_any_chunks() {
    let mut data: Vec<u64> = vec![5, 1, 9, 3, 8, 2, 7];
    let mut counts = [0usize; 256];
    counts[0] = 3;
    counts[1] = 4;
    director(&mut data, &counts, 7, 1);
    assert_eq!(data, vec![1, 5, 9, 2, 3, 7, 8]);
}

#[test]
fn tile_counts_of_empty_bucket() {
    let data: Vec<u8> = Vec::new();
    let (tiles, sorted) = get_tile_counts(&data, 4, 0);
    assert!(tiles.is_empty());
    assert!(sorted);
}

#[test]
fn ska_sort_single_byte_leaves_slice_alone() {
    let mut data: Vec<u64> = vec![0x0305, 0x0301, 0x0309, 0x0300];
    let (counts, _) = get_counts(&data, 1);
    let mut sums = get_prefix_sums(&counts);
    let ends = get_end_offsets(&counts, &sums);
    ska_sort(&mut data, &mut sums, &ends, 1);
    assert_eq!(data, vec![0x0305, 0x0301, 0x0309, 0x0300]);
}
