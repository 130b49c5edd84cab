use rvab::gpt_helper::{
    delete_part_by_name, find_next_partition_id, get_part_accelerate_location, get_part_info,
    is_disk_segment_used, new_partition, try_get_disk_lba, DiskTable, LocateError,
    LogicalBlockSize, PartitionEntry, PartitionError,
};

const LINUX_DATA: &str = "0FC63DAF-8483-4772-8E79-3D69D8477DE4";

fn entry(id: u32, name: &str, first: u64, last: u64) -> PartitionEntry {
    PartitionEntry {
        id,
        name: name.to_string(),
        first_lba: first,
        last_lba: last,
        type_guid: LINUX_DATA.to_string(),
        part_guid: format!("00000000-0000-4000-8000-{:012}", id),
        flags: id as u64,
    }
}

fn table() -> DiskTable {
    DiskTable {
        device: "/dev/block/sda".to_string(),
        sector_size: 512,
        num_parts: 4,
        first_usable: 34,
        last_usable: 99_999,
        entries: vec![entry(1, "boot", 100, 199), entry(2, "vendor", 200, 999), entry(4, "userdata", 5000, 9999)],
    }
}

#[test]
fn block_sizes_are_512_and_4096() {
    assert_eq!(try_get_disk_lba(512), Ok(LogicalBlockSize::Lb512));
    assert_eq!(try_get_disk_lba(4096), Ok(LogicalBlockSize::Lb4096));
    assert_eq!(try_get_disk_lba(1024), Err(LocateError::UnsupportedSectorSize));
    assert_eq!(try_get_disk_lba(0), Err(LocateError::UnsupportedSectorSize));
}

#[test]
fn partition_is_located_by_name() {
    let loc = get_part_accelerate_location(&table(), "vendor").unwrap();
    assert_eq!(loc.driver, "/dev/block/sda");
    assert_eq!((loc.id, loc.first_lba, loc.last_lba, loc.sector_size), (2, 200, 999, 512));
}

#[test]
fn missing_partition_is_not_found() {
    assert_eq!(get_part_accelerate_location(&table(), "modem").err(), Some(LocateError::NotFound));
    assert!(get_part_info(&table(), "modem").is_none());
}

#[test]
fn odd_sector_size_stops_the_lookup() {
    let mut t = table();
    t.sector_size = 520;
    assert_eq!(get_part_accelerate_location(&t, "vendor").err(), Some(LocateError::UnsupportedSectorSize));
    assert_eq!(delete_part_by_name(&mut t, "vendor"), Err(LocateError::UnsupportedSectorSize));
    assert_eq!(t.entries.len(), 3);
}

#[test]
fn partition_info_gives_type_and_flags() {
    assert_eq!(get_part_info(&table(), "userdata"), Some((LINUX_DATA.to_string(), 4)));
}

#[test]
fn segment_users_are_listed_in_table_order() {
    let t = table();
    assert_eq!(is_disk_segment_used(&t, 1000, 4999), None);
    assert_eq!(is_disk_segment_used(&t, 0, 99), None);
    assert_eq!(is_disk_segment_used(&t, 199, 200), Some(vec![("boot".to_string(), 1), ("vendor".to_string(), 2)]));
    assert_eq!(is_disk_segment_used(&t, 150, 160), Some(vec![("boot".to_string(), 1)]));
    assert_eq!(is_disk_segment_used(&t, 0, 100_000).map(|v| v.len()), Some(3));
    assert_eq!(is_disk_segment_used(&t, 9999, 9999), Some(vec![("userdata".to_string(), 4)]));
}

#[test]
fn next_partition_id_is_the_lowest_free_one() {
    let mut t = table();
    assert_eq!(find_next_partition_id(&t), Some(3));
    t.entries.insert(2, entry(3, "modem", 1000, 1999));
    assert_eq!(find_next_partition_id(&t), None);
    t.num_parts = 5;
    assert_eq!(find_next_partition_id(&t), Some(5));
    t.entries.clear();
    t.num_parts = 0;
    assert_eq!(find_next_partition_id(&t), Some(1));
}

#[test]
fn deleting_removes_only_the_named_partition() {
    let mut t = table();
    assert_eq!(delete_part_by_name(&mut t, "vendor"), Ok(()));
    let names: Vec<&str> = t.entries.iter().map(|e| e.name.as_str()).collect();
    assert_eq!(names, vec!["boot", "userdata"]);
    assert_eq!(delete_part_by_name(&mut t, "vendor"), Err(LocateError::NotFound));
    assert_eq!(t.entries.len(), 2);
}

#[test]
fn new_partition_lands_at_its_place() {
    let mut t = table();
    assert_eq!(new_partition(&mut t, "modem", 3, 1000, 1000, LINUX_DATA, 9), Ok(3));
    let ids: Vec<u32> = t.entries.iter().map(|e| e.id).collect();
    assert_eq!(ids, vec![1, 2, 3, 4]);
    let e = &t.entries[2];
    assert_eq!(e.name, "modem");
    assert_eq!((e.first_lba, e.last_lba, e.flags), (1000, 1999, 9));
    assert_eq!(e.type_guid, LINUX_DATA);
    assert_eq!(t.num_parts, 4);
}

#[test]
fn new_partitions_get_fresh_guids() {
    let mut t = table();
    new_partition(&mut t, "modem", 3, 1000, 1000, LINUX_DATA, 0).unwrap();
    new_partition(&mut t, "misc", 5, 2000, 1000, LINUX_DATA, 0).unwrap();
    let a = t.entries[2].part_guid.clone();
    let b = t.entries[4].part_guid.clone();
    assert_eq!(a.len(), 36);
    assert_eq!(b.len(), 36);
    assert_ne!(a, b);
    assert_eq!(t.num_parts, 5);
}

#[test]
fn new_partition_checks_its_arguments_in_order() {
    let mut t = table();
    assert_eq!(new_partition(&mut t, "x", 0, 1000, 0, LINUX_DATA, 0), Err(PartitionError::ZeroLength));
    assert_eq!(new_partition(&mut t, "x", 0, 1000, 10, LINUX_DATA, 0), Err(PartitionError::ZeroId));
    assert_eq!(new_partition(&mut t, "x", 2, 1000, 10, LINUX_DATA, 0), Err(PartitionError::OverflowPartitionCount));
    assert_eq!(new_partition(&mut t, "x", 3, 150, 10, LINUX_DATA, 0), Err(PartitionError::NotEnoughSpace));
    assert_eq!(t.entries.len(), 3);
}

#[test]
fn new_partition_must_lie_in_free_usable_space() {
    let mut t = table();
    assert_eq!(new_partition(&mut t, "x", 3, 10, 10, LINUX_DATA, 0), Err(PartitionError::NotEnoughSpace));
    assert_eq!(new_partition(&mut t, "x", 3, 99_990, 20, LINUX_DATA, 0), Err(PartitionError::NotEnoughSpace));
    assert_eq!(new_partition(&mut t, "x", 3, 4000, 1001, LINUX_DATA, 0), Err(PartitionError::NotEnoughSpace));
    assert_eq!(new_partition(&mut t, "x", 3, u64::MAX, 2, LINUX_DATA, 0), Err(PartitionError::NotEnoughSpace));
    assert_eq!(new_partition(&mut t, "x", 3, 4000, 1000, LINUX_DATA, 0), Ok(3));
    assert_eq!(new_partition(&mut t, "y", 5, 34, 66, LINUX_DATA, 0), Ok(5));
    assert_eq!(new_partition(&mut t, "z", 6, 10_000, 90_000, LINUX_DATA, 0), Ok(6));
}
