use rvab::gpt_helper::{alignment_partition, find_max_free_tuple};
use rvab::metadata::{calculate_metadata_interval, calculate_metadata_interval_from_low};

fn align(first: u64, last: u64, alignment: u64, shrink: bool) -> (u64, u64) {
    let mut f = first;
    let mut l = last;
    alignment_partition(&mut f, &mut l, alignment, shrink);
    (f, l)
}

#[test]
fn align_five_to_ten_on_two() {
    assert_eq!(align(5, 10, 2, true), (6, 9));
}

#[test]
fn aligned_first_stays() {
    assert_eq!(align(6, 9, 2, true), (6, 9));
    assert_eq!(align(0, 1, 2, true), (0, 1));
}

#[test]
fn last_is_kept_without_shrinking() {
    assert_eq!(align(5, 10, 2, false), (6, 10));
    assert_eq!(align(7, 0, 2, false), (8, 0));
}

#[test]
fn align_to_larger_units() {
    assert_eq!(align(2049, 4096, 2048, true), (4096, 4095));
    assert_eq!(align(1, 100, 8, true), (8, 100));
    assert_eq!(align(16, 64, 8, true), (16, 63));
    assert_eq!(align(17, 63, 1, true), (17, 62));
}

#[test]
fn largest_free_extent_is_picked() {
    let tuples = vec![(34u64, 100u64), (2048, 5000), (9000, 4999)];
    assert_eq!(find_max_free_tuple(&tuples), (2048, 7047));
}

#[test]
fn first_of_equally_long_extents_wins() {
    let tuples = vec![(10u64, 5u64), (100, 7), (200, 7), (300, 1)];
    assert_eq!(find_max_free_tuple(&tuples), (100, 106));
}

#[test]
fn no_free_extent_gives_zeroes() {
    assert_eq!(find_max_free_tuple(&Vec::new()), (0, 0));
    assert_eq!(find_max_free_tuple(&vec![(5u64, 0u64), (9, 0)]), (0, 0));
}

#[test]
fn metadata_region_from_its_start() {
    assert_eq!(calculate_metadata_interval(2048, 512), (2048, 2048 + 131072 - 1));
    assert_eq!(calculate_metadata_interval(0, 4096), (0, 16383));
    assert_eq!(calculate_metadata_interval(10, 67108864), (10, 10));
    assert_eq!(calculate_metadata_interval(10, 67108863), (10, 11));
}

#[test]
fn metadata_region_from_its_end() {
    assert_eq!(calculate_metadata_interval_from_low(133119, 512), (2048, 133119));
    assert_eq!(calculate_metadata_interval_from_low(16383, 4096), (0, 16383));
    assert_eq!(calculate_metadata_interval_from_low(20, 67108863), (19, 20));
}

#[test]
fn metadata_region_round_trips() {
    for sector in [512u64, 4096] {
        let (start, end) = calculate_metadata_interval(4096, sector);
        assert_eq!(calculate_metadata_interval_from_low(end, sector), (start, end));
        assert_eq!((end - start + 1) * sector, 64 * 1024 * 1024);
    }
}
