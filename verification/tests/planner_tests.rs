use rvab::math_support::{check_any_overlaps, check_interval_state, Interval, IntervalState};
use rvab::metadata::{PartitionRawTarget, Slot};
use rvab::planner::{
    auto_layout_freespace_example, merge_exclude_lists, place_partition, select_backup_type,
    split_in_halves, DualPartition, LayoutError,
};
use rvab::backup_factory::BackupType;

const GIB5_SECTORS: u64 = 10485760;
const FW: u64 = 104857600;
const BACK_MIN: u64 = 225280;

fn plan(start: u64, end: u64, duals: &Vec<DualPartition>) -> Result<(Slot, Slot, u64), LayoutError> {
    let mut back_min = 0u64;
    let exclude = vec!["misc".to_string()];
    let r = auto_layout_freespace_example(
        "/dev/block/sda",
        start,
        end,
        512,
        &exclude,
        duals,
        "0FC63DAF-8483-4772-8E79-3D69D8477DE4",
        7,
        FW,
        &mut back_min,
    );
    r.map(|(a, b)| (a, b, back_min))
}

fn dual(name: &str, first: u64, last: u64, sector_size: u64) -> DualPartition {
    DualPartition {
        name: name.to_string(),
        first_lba: first,
        last_lba: last,
        sector_size,
        type_guid: "EBD0A0A2-B9E5-4433-87C0-68B6B72699C7".to_string(),
        flags: 0,
    }
}

fn userdata(slot: &Slot) -> &PartitionRawTarget {
    slot.dyn_partition_set.iter().find(|p| p.part_name == "userdata").unwrap()
}

#[test]
fn exactly_enough_space_gives_two_sound_slots() {
    let (a, b, back_min) = plan(2048, 21686275, &Vec::new()).unwrap();
    assert_eq!(back_min, BACK_MIN);
    assert_eq!(a.slot_name, "a");
    assert_eq!(b.slot_name, "b");
    let ua = userdata(&a);
    let ub = userdata(&b);
    assert_eq!((ua.start_lba, ua.end_lba), (133120, 10618881));
    assert_eq!((ub.start_lba, ub.end_lba), (10975234, 21460995));
    assert_eq!((a.backup_target_start, a.backup_target_end), (10618882, 10844161));
    assert_eq!((b.backup_target_start, b.backup_target_end), (21460996, 21686275));
    assert!(ua.end_lba - ua.start_lba + 1 >= GIB5_SECTORS);
    assert!(ub.end_lba - ub.start_lba + 1 >= GIB5_SECTORS);
    assert!((ua.end_lba - ua.start_lba + 1) * 512 >= 5 * 1024 * 1024 * 1024);
    assert_eq!(
        check_interval_state(
            &Interval::new(ua.start_lba, ua.end_lba),
            &Interval::new(ub.start_lba, ub.end_lba)
        ),
        IntervalState::Disjoint
    );
    assert!(a.backup_target_end - a.backup_target_start + 1 >= BACK_MIN);
    assert!(b.backup_target_end - b.backup_target_start + 1 >= BACK_MIN);
}

#[test]
fn slots_carry_type_code_target_and_exclude_list() {
    let (a, b, _) = plan(2048, 21686275, &Vec::new()).unwrap();
    for slot in [&a, &b] {
        assert_eq!(slot.backup_type_code, BackupType::type2code(BackupType::Losetup));
        assert_eq!(slot.backup_target, "none");
        assert_eq!(slot.backup_target_attr, "");
        assert_eq!(slot.backup_exclude_list, vec!["misc".to_string()]);
        assert_eq!(slot.dyn_partition_set.len(), 1);
        let u = userdata(slot);
        assert_eq!(u.driver, "/dev/block/sda");
        assert_eq!(u.type_guid, "0FC63DAF-8483-4772-8E79-3D69D8477DE4");
        assert_eq!(u.flags, 7);
    }
}

#[test]
fn one_sector_pair_less_is_not_enough() {
    assert_eq!(plan(2048, 21686273, &Vec::new()).err(), Some(LayoutError::NoSpaceForUserdata1));
    assert!(plan(2048, 21686273, &Vec::new()).err().unwrap().not_enough_space());
}

#[test]
fn second_half_can_be_the_one_that_is_short() {
    // An odd first sector costs the first half nothing but the second one sector.
    let r = plan(2049, 21686276, &Vec::new());
    assert!(r.is_err());
    assert!(r.err().unwrap().not_enough_space());
}

#[test]
fn tiny_extent_cannot_hold_the_backup_area() {
    assert_eq!(plan(2048, 2048 + 2 * BACK_MIN - 3, &Vec::new()).err(), Some(LayoutError::NoSpaceForBackup));
    assert_eq!(plan(2048, 4095, &Vec::new()).err(), Some(LayoutError::NoSpaceForBackup));
}

#[test]
fn insufficient_space_never_yields_a_layout() {
    for end in [4096u64, 1_000_000, 10_000_000, 21_000_000, 21686273] {
        let r = plan(2048, end, &Vec::new());
        assert!(r.is_err());
        assert!(r.err().unwrap().not_enough_space());
    }
}

#[test]
fn dual_partitions_come_first_in_each_half() {
    let duals = vec![dual("boot", 100, 131171, 512), dual("vendor", 4096, 4096 + 2097151, 512)];
    let (a, b, _) = plan(2048, 40_000_001, &duals).unwrap();
    assert_eq!(a.dyn_partition_set.len(), 3);
    assert_eq!(b.dyn_partition_set.len(), 3);
    let names: Vec<&str> = a.dyn_partition_set.iter().map(|p| p.part_name.as_str()).collect();
    assert_eq!(names, vec!["boot", "vendor", "userdata"]);
    let boot = &a.dyn_partition_set[0];
    let vendor = &a.dyn_partition_set[1];
    assert_eq!((boot.start_lba, boot.end_lba), (2048, 2048 + 131072 - 1));
    assert_eq!((vendor.start_lba, vendor.end_lba), (133120, 133120 + 2097152 - 1));
    assert_eq!(userdata(&a).start_lba, 133120 + 2097152 + 131072);
    assert_eq!(boot.type_guid, "EBD0A0A2-B9E5-4433-87C0-68B6B72699C7");
    assert_eq!(a.backup_exclude_list, vec!["misc".to_string(), "boot".to_string(), "vendor".to_string()]);
    let mut all: Vec<Interval> = Vec::new();
    for slot in [&a, &b] {
        for p in &slot.dyn_partition_set {
            all.push(Interval::new(p.start_lba, p.end_lba));
        }
        all.push(Interval::new(slot.backup_target_start, slot.backup_target_end));
    }
    assert!(!check_any_overlaps(&mut all));
}

#[test]
fn dual_partition_from_a_disk_with_larger_sectors() {
    let duals = vec![dual("modem", 10, 19, 4096)];
    let (a, _, _) = plan(2048, 40_000_001, &duals).unwrap();
    let modem = &a.dyn_partition_set[0];
    assert_eq!((modem.start_lba, modem.end_lba), (2048, 2048 + 80 - 1));
}

#[test]
fn duplicate_or_reserved_dual_names_are_refused() {
    let twice = vec![dual("boot", 0, 9, 512), dual("boot", 20, 29, 512)];
    assert_eq!(plan(2048, 40_000_001, &twice).err(), Some(LayoutError::DuplicatePartition));
    let reserved = vec![dual("userdata", 0, 9, 512)];
    assert_eq!(plan(2048, 40_000_001, &reserved).err(), Some(LayoutError::DuplicatePartition));
}

#[test]
fn zero_sector_sizes_are_refused() {
    let mut back_min = 5u64;
    let r = auto_layout_freespace_example(
        "/dev/block/sda", 2048, 40_000_001, 0, &Vec::new(), &Vec::new(), "x", 0, FW, &mut back_min,
    );
    assert_eq!(r.err(), Some(LayoutError::ZeroSectorSize));
    assert_eq!(back_min, 5);
    let bad = vec![dual("boot", 0, 9, 0)];
    assert_eq!(plan(2048, 40_000_001, &bad).err(), Some(LayoutError::ZeroSectorSize));
}

#[test]
fn ranges_that_cannot_be_counted_are_refused() {
    assert_eq!(plan(10, 5, &Vec::new()).err(), Some(LayoutError::Arithmetic));
    assert_eq!(plan(0, u64::MAX, &Vec::new()).err(), Some(LayoutError::Arithmetic));
    let inverted = vec![dual("boot", 9, 0, 512)];
    assert_eq!(plan(2048, 40_000_001, &inverted).err(), Some(LayoutError::Arithmetic));
}

#[test]
fn halves_are_aligned_without_growing() {
    let h = split_in_halves(2048, 21686275).unwrap();
    assert_eq!((h.start1, h.end1, h.start2, h.end2), (2048, 10844161, 10844162, 21686275));
    assert_eq!(h.p2_size, 10842114);
    let h = split_in_halves(5, 10).unwrap();
    assert_eq!((h.start1, h.end1, h.start2, h.end2, h.p2_size), (6, 7, 8, 9, 3));
    assert!(split_in_halves(0, 0).is_none());
}

#[test]
fn placement_advances_the_pointer() {
    let p = place_partition(2048, 100).unwrap();
    assert_eq!((p.start, p.end, p.next), (2048, 2147, 2148));
    let p = place_partition(2049, 100).unwrap();
    assert_eq!((p.start, p.end, p.next), (2050, 2147, 2148));
    let p = place_partition(2049, 101).unwrap();
    assert_eq!((p.start, p.end, p.next), (2050, 2149, 2150));
    assert!(place_partition(u64::MAX, 2).is_none());
}

#[test]
fn exclude_lists_are_merged_without_repeats() {
    let a = vec!["misc".to_string(), "boot".to_string(), "misc".to_string()];
    let b = vec!["boot".to_string(), "vendor".to_string()];
    assert_eq!(
        merge_exclude_lists(&a, &b),
        vec!["misc".to_string(), "boot".to_string(), "vendor".to_string()]
    );
}

#[test]
fn loop_device_strategy_is_preferred() {
    assert_eq!(select_backup_type(), Some(BackupType::Losetup));
}
