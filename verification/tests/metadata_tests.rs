use rvab::metadata::{find_target, Metadata, PartitionLocation, PartitionRawTarget, Slot};
use rvab::record::MetadataError;

fn target(name: &str, driver: &str, start: u64, end: u64) -> PartitionRawTarget {
    PartitionRawTarget {
        part_name: name.to_string(),
        driver: driver.to_string(),
        start_lba: start,
        end_lba: end,
        type_guid: "x".to_string(),
        flags: 0,
    }
}

fn slot(name: &str, parts: Vec<PartitionRawTarget>) -> Slot {
    Slot {
        slot_name: name.to_string(),
        backup_type_code: 1,
        backup_target: "none".to_string(),
        backup_exclude_list: vec!["misc".to_string()],
        backup_target_start: 1,
        backup_target_end: 2,
        backup_target_attr: String::new(),
        dyn_partition_set: parts,
    }
}

fn two_slots() -> Vec<Slot> {
    vec![
        slot("a", vec![target("boot", "/dev/block/sda", 10, 19), target("userdata", "/dev/block/sda", 1000, 1999)]),
        slot("b", vec![target("userdata", "/dev/block/sda", 3000, 3999), target("boot", "/dev/block/sda", 20, 29)]),
    ]
}

fn live(driver: &str, first: u64, last: u64) -> Option<PartitionLocation> {
    Some(PartitionLocation { driver: driver.to_string(), id: 7, first_lba: first, last_lba: last, sector_size: 4096 })
}

#[test]
fn new_record_is_clean() {
    let m = Metadata::new("a".to_string(), two_slots());
    assert!(!m.is_dirty());
    assert_eq!(m.current_slot, "a");
    assert_eq!(m.slots.len(), 2);
}

#[test]
fn slot_b_matches_the_live_userdata() {
    let mut m = Metadata::new("a".to_string(), two_slots());
    assert_eq!(m.calculate_current_slot(&live("/dev/block/sda", 3000, 3999)), Some("b".to_string()));
    assert_eq!(m.current_slot, "b");
    assert_eq!(m.slots.len(), 2);
}

#[test]
fn no_matching_slot_means_unknown() {
    let mut m = Metadata::new("a".to_string(), two_slots());
    assert_eq!(m.calculate_current_slot(&live("/dev/block/sda", 5000, 5999)), None);
    assert_eq!(m.current_slot, "unknown");
}

#[test]
fn device_and_both_bounds_must_match() {
    for l in [live("/dev/block/sdb", 1000, 1999), live("/dev/block/sda", 1000, 1998), live("/dev/block/sda", 1001, 1999)] {
        let mut m = Metadata::new("b".to_string(), two_slots());
        assert_eq!(m.calculate_current_slot(&l), None);
        assert_eq!(m.current_slot, "unknown");
    }
}

#[test]
fn only_userdata_is_compared() {
    let mut m = Metadata::new("b".to_string(), two_slots());
    assert_eq!(m.calculate_current_slot(&live("/dev/block/sda", 10, 19)), None);
    let mut m = Metadata::new("b".to_string(), two_slots());
    assert_eq!(m.calculate_current_slot(&live("/dev/block/sda", 1000, 1999)), Some("a".to_string()));
}

#[test]
fn first_of_several_matching_slots_wins() {
    let mut slots = two_slots();
    slots.push(slot("c", vec![target("userdata", "/dev/block/sda", 3000, 3999)]));
    let mut m = Metadata::new("a".to_string(), slots);
    assert_eq!(m.calculate_current_slot(&live("/dev/block/sda", 3000, 3999)), Some("b".to_string()));
}

#[test]
fn without_live_userdata_nothing_changes() {
    let mut m = Metadata::new("a".to_string(), two_slots());
    assert_eq!(m.calculate_current_slot(&None), None);
    assert_eq!(m.current_slot, "a");
    assert_eq!(m.calculate_current_slot(&live("", 3000, 3999)), None);
    assert_eq!(m.current_slot, "a");
}

#[test]
fn dirty_flag_is_never_stored() {
    let mut m = Metadata::new("a".to_string(), two_slots());
    m.set_dirty(true);
    assert!(m.is_dirty());
    let stored = m.for_storage();
    assert!(!stored.is_dirty());
    assert_eq!(stored.current_slot, "a");
    assert_eq!(stored.slots.len(), 2);
    assert_eq!(stored.slots[1].dyn_partition_set[0].start_lba, 3000);
    assert_eq!(stored.slots[0].backup_exclude_list, vec!["misc".to_string()]);
    assert!(m.is_dirty());
}

#[test]
fn loaded_record_with_good_checksum_is_clean() {
    let record = Metadata::new("whatever".to_string(), two_slots());
    let m = Metadata::from_fw_metadata(record, true, false, &live("/dev/block/sda", 1000, 1999)).unwrap();
    assert!(!m.is_dirty());
    assert_eq!(m.current_slot, "a");
}

#[test]
fn loaded_record_with_bad_checksum_needs_consent() {
    let record = Metadata::new("a".to_string(), two_slots());
    assert_eq!(
        Metadata::from_fw_metadata(record, false, false, &live("/dev/block/sda", 1000, 1999)).err(),
        Some(MetadataError::ChecksumDeclined)
    );
    let record = Metadata::new("a".to_string(), two_slots());
    let m = Metadata::from_fw_metadata(record, false, true, &live("/dev/block/sda", 9, 9)).unwrap();
    assert!(m.is_dirty());
    assert_eq!(m.current_slot, "unknown");
}

#[test]
fn targets_are_found_by_name() {
    let slots = two_slots();
    assert_eq!(find_target(&slots[0].dyn_partition_set, "userdata"), Some(1));
    assert_eq!(find_target(&slots[1].dyn_partition_set, "userdata"), Some(0));
    assert_eq!(find_target(&slots[1].dyn_partition_set, "modem"), None);
}

#[test]
fn clones_are_deep() {
    let s = two_slots().remove(0);
    let mut c = s.clone();
    c.dyn_partition_set[0].start_lba = 77;
    c.backup_exclude_list.push("x".to_string());
    assert_eq!(s.dyn_partition_set[0].start_lba, 10);
    assert_eq!(s.backup_exclude_list.len(), 1);
    assert_eq!(c.slot_name, "a");
}
