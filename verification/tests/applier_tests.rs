use rvab::applier::{
    apply_target, select_slot, ApplyError, Phase,
};
use rvab::gpt_helper::{DiskTable, PartitionEntry, PartitionError};
use rvab::metadata::{PartitionLocation, PartitionRawTarget, Slot};
use rvab::{init_partition_table_layout, try_init_partition_table_layout, try_init_userdata_partition};

const LINUX_DATA: &str = "0FC63DAF-8483-4772-8E79-3D69D8477DE4";

fn entry(id: u32, name: &str, first: u64, last: u64) -> PartitionEntry {
    PartitionEntry {
        id,
        name: name.to_string(),
        first_lba: first,
        last_lba: last,
        type_guid: LINUX_DATA.to_string(),
        part_guid: format!("00000000-0000-4000-8000-{:012}", id),
        flags: 0,
    }
}

fn disk(device: &str, num_parts: u32, entries: Vec<PartitionEntry>) -> DiskTable {
    DiskTable {
        device: device.to_string(),
        sector_size: 4096,
        num_parts,
        first_usable: 6,
        last_usable: 99_999,
        entries,
    }
}

fn tables() -> Vec<DiskTable> {
    vec![
        disk("/dev/block/sda", 8, vec![entry(1, "boot", 100, 199), entry(2, "userdata", 10_000, 19_999)]),
        disk("/dev/block/sde", 2, vec![entry(1, "modem", 100, 199), entry(2, "dsp", 200, 299)]),
    ]
}

fn target(name: &str, driver: &str, start: u64, end: u64) -> PartitionRawTarget {
    PartitionRawTarget {
        part_name: name.to_string(),
        driver: driver.to_string(),
        start_lba: start,
        end_lba: end,
        type_guid: LINUX_DATA.to_string(),
        flags: 3,
    }
}

fn slot(name: &str, parts: Vec<PartitionRawTarget>) -> Slot {
    Slot {
        slot_name: name.to_string(),
        backup_type_code: 1,
        backup_target: "none".to_string(),
        backup_exclude_list: Vec::new(),
        backup_target_start: 90_000,
        backup_target_end: 99_999,
        backup_target_attr: String::new(),
        dyn_partition_set: parts,
    }
}

fn live(first: u64, last: u64) -> PartitionLocation {
    PartitionLocation { driver: "/dev/block/sda".to_string(), id: 2, first_lba: first, last_lba: last, sector_size: 4096 }
}

fn shape(tables: &Vec<DiskTable>) -> Vec<(String, u32, Vec<(u32, String, u64, u64, String)>)> {
    tables
        .iter()
        .map(|t| {
            (
                t.device.clone(),
                t.num_parts,
                t.entries
                    .iter()
                    .map(|e| (e.id, e.name.clone(), e.first_lba, e.last_lba, e.part_guid.clone()))
                    .collect(),
            )
        })
        .collect()
}

#[test]
fn slot_is_selected_by_name_or_first() {
    let slots = vec![slot("a", Vec::new()), slot("b", Vec::new()), slot("b", Vec::new())];
    assert_eq!(select_slot(&slots, &None), Ok(0));
    assert_eq!(select_slot(&slots, &Some("b".to_string())), Ok(1));
    assert_eq!(select_slot(&slots, &Some("c".to_string())), Err(ApplyError::NoSuchSlot));
    assert_eq!(select_slot(&Vec::new(), &None), Err(ApplyError::NoSlot));
}

#[test]
fn phases_follow_one_another() {
    assert_eq!(Phase::Planning.next(true), Phase::Applying);
    assert_eq!(Phase::Planning.next(false), Phase::Planning);
    assert_eq!(Phase::Applying.next(true), Phase::CloningFirmware);
    assert_eq!(Phase::Applying.next(false), Phase::RollingBack);
    assert_eq!(Phase::CloningFirmware.next(true), Phase::Committed);
    assert_eq!(Phase::CloningFirmware.next(false), Phase::RollingBack);
    assert_eq!(Phase::RollingBack.next(true), Phase::RolledBack);
    assert_eq!(Phase::RollingBack.next(false), Phase::RolledBack);
    assert_eq!(Phase::Committed.next(false), Phase::Committed);
    assert_eq!(Phase::RolledBack.next(true), Phase::RolledBack);
}

#[test]
fn saved_target_replaces_the_partition_of_its_name() {
    let mut t = tables();
    let r = apply_target(&mut t, &target("modem", "/dev/block/sda", 200, 299), true, false);
    assert_eq!(r, Ok(()));
    assert_eq!(t[1].entries.len(), 1);
    assert_eq!(t[1].entries[0].name, "dsp");
    let names: Vec<(u32, &str)> = t[0].entries.iter().map(|e| (e.id, e.name.as_str())).collect();
    assert_eq!(names, vec![(1, "boot"), (2, "userdata"), (3, "modem")]);
    let e = &t[0].entries[2];
    assert_eq!((e.first_lba, e.last_lba, e.flags), (200, 299, 3));
}

#[test]
fn saved_target_reuses_the_freed_identifier() {
    let mut t = tables();
    let r = apply_target(&mut t, &target("boot", "/dev/block/sda", 300, 399), true, false);
    assert_eq!(r, Ok(()));
    let got: Vec<(u32, &str, u64)> = t[0].entries.iter().map(|e| (e.id, e.name.as_str(), e.first_lba)).collect();
    assert_eq!(got, vec![(1, "boot", 300), (2, "userdata", 10_000)]);
}

#[test]
fn saved_target_needs_the_old_partition() {
    let mut t = tables();
    let r = apply_target(&mut t, &target("abl", "/dev/block/sda", 300, 399), true, false);
    assert_eq!(r, Err(ApplyError::PartitionNotFound));
}

#[test]
fn dry_run_target_may_be_new() {
    let mut t = tables();
    let r = apply_target(&mut t, &target("abl", "/dev/block/sda", 300, 399), false, false);
    assert_eq!(r, Ok(()));
    assert_eq!(t[0].entries.len(), 3);
    assert_eq!(t[0].entries[2].id, 3);
}

#[test]
fn unknown_disk_and_type_are_refused() {
    let mut t = tables();
    assert_eq!(apply_target(&mut t, &target("abl", "/dev/block/sdz", 300, 399), false, false), Err(ApplyError::DiskNotFound));
    let mut bad = target("abl", "/dev/block/sda", 300, 399);
    bad.type_guid = "not a type".to_string();
    assert_eq!(apply_target(&mut t, &bad, false, false), Err(ApplyError::InvalidTypeGuid));
    let mut named = target("abl", "/dev/block/sda", 300, 399);
    named.type_guid = "LINUX_FS".to_string();
    assert_eq!(apply_target(&mut t, &named, false, false), Ok(()));
}

#[test]
fn inverted_target_is_refused() {
    let mut t = tables();
    assert_eq!(apply_target(&mut t, &target("abl", "/dev/block/sda", 400, 399), false, false), Err(ApplyError::InvalidRange));
}

#[test]
fn full_table_grows_only_when_allowed() {
    let mut t = tables();
    let abl = target("abl", "/dev/block/sde", 300, 399);
    assert_eq!(apply_target(&mut t, &abl, false, false), Err(ApplyError::UserCancelled));
    assert_eq!(apply_target(&mut t, &abl, false, true), Ok(()));
    assert_eq!(t[1].num_parts, 3);
    assert_eq!(t[1].entries[2].id, 3);
}

#[test]
fn overlapping_target_is_refused() {
    let mut t = tables();
    let r = apply_target(&mut t, &target("modem", "/dev/block/sda", 150, 250), true, false);
    assert_eq!(r, Err(ApplyError::Partition(PartitionError::NotEnoughSpace)));
}

#[test]
fn layout_is_applied_in_the_order_of_the_slot() {
    let mut t = tables();
    let s = slot("a", vec![
        target("modem", "/dev/block/sda", 200, 299),
        target("dsp", "/dev/block/sda", 300, 399),
        target("userdata", "/dev/block/sda", 10_000, 19_999),
    ]);
    assert_eq!(init_partition_table_layout(&mut t, &s, true, false), Ok(()));
    assert!(t[1].entries.is_empty());
    let got: Vec<(u32, &str, u64, u64)> =
        t[0].entries.iter().map(|e| (e.id, e.name.as_str(), e.first_lba, e.last_lba)).collect();
    assert_eq!(got, vec![(1, "boot", 100, 199), (2, "userdata", 10_000, 19_999), (3, "modem", 200, 299), (4, "dsp", 300, 399)]);
}

#[test]
fn dry_run_leaves_the_tables_alone() {
    let mut t = tables();
    let before = shape(&t);
    let s = slot("a", vec![target("modem", "/dev/block/sda", 200, 299), target("userdata", "/dev/block/sda", 10_000, 19_999)]);
    assert_eq!(init_partition_table_layout(&mut t, &s, false, false), Ok(()));
    assert_eq!(shape(&t), before);
    let clash = slot("a", vec![target("modem", "/dev/block/sda", 200, 299), target("dsp", "/dev/block/sda", 250, 349)]);
    assert_eq!(
        init_partition_table_layout(&mut t, &clash, false, false),
        Err(ApplyError::Partition(PartitionError::NotEnoughSpace))
    );
    assert_eq!(shape(&t), before);
}

#[test]
fn failed_transaction_restores_every_table() {
    let mut t = tables();
    let before = shape(&t);
    let slots = vec![slot("a", vec![
        target("userdata", "/dev/block/sda", 10_000, 19_999),
        target("modem", "/dev/block/sda", 200, 299),
        target("dsp", "/dev/block/sda", 250, 100_000),
    ])];
    let r = try_init_partition_table_layout(&mut t, &slots, &None, &live(10_000, 19_999), true, false);
    assert_eq!(r.err(), Some(ApplyError::Partition(PartitionError::NotEnoughSpace)));
    assert_eq!(shape(&t), before);
}

#[test]
fn transaction_waits_for_the_clone_and_rolls_back_if_it_fails() {
    let mut t = tables();
    let before = shape(&t);
    let slots = vec![slot("a", vec![
        target("userdata", "/dev/block/sda", 10_000, 19_999),
        target("modem", "/dev/block/sda", 200, 299),
    ])];
    let tx = try_init_partition_table_layout(&mut t, &slots, &Some("a".to_string()), &live(10_000, 19_999), true, false).unwrap();
    assert_eq!(tx.phase(), Phase::CloningFirmware);
    assert_eq!(shape(tx.snapshot()), before);
    assert_ne!(shape(&t), before);
    assert_eq!(t[0].entries.len(), 3);
    assert_eq!(tx.finish(&mut t, false), Err(ApplyError::CloneFailed));
    assert_eq!(shape(&t), before);
}

#[test]
fn transaction_commits_after_a_good_clone() {
    let mut t = tables();
    let slots = vec![slot("a", vec![
        target("userdata", "/dev/block/sda", 10_000, 19_999),
        target("modem", "/dev/block/sda", 200, 299),
    ])];
    let tx = try_init_partition_table_layout(&mut t, &slots, &None, &live(10_000, 19_999), true, false).unwrap();
    let applied = shape(&t);
    assert_eq!(tx.finish(&mut t, true), Ok(()));
    assert_eq!(shape(&t), applied);
}

#[test]
fn dry_run_transaction_is_complete_at_once() {
    let mut t = tables();
    let before = shape(&t);
    let slots = vec![slot("a", vec![target("userdata", "/dev/block/sda", 10_000, 19_999)])];
    let tx = try_init_partition_table_layout(&mut t, &slots, &None, &live(10_000, 19_999), false, true).unwrap();
    assert_eq!(tx.phase(), Phase::Committed);
    assert_eq!(shape(&t), before);
}

#[test]
fn full_layout_needs_initialised_userdata() {
    let mut t = tables();
    let before = shape(&t);
    let slots = vec![
        slot("a", vec![target("userdata", "/dev/block/sda", 20_000, 29_999)]),
        slot("b", vec![target("modem", "/dev/block/sda", 200, 299)]),
    ];
    let l = live(10_000, 19_999);
    assert_eq!(try_init_partition_table_layout(&mut t, &slots, &None, &l, true, false).err(), Some(ApplyError::UserdataNotInitialized));
    assert_eq!(
        try_init_partition_table_layout(&mut t, &slots, &Some("b".to_string()), &l, true, false).err(),
        Some(ApplyError::NoUserdataTarget)
    );
    assert_eq!(
        try_init_partition_table_layout(&mut t, &slots, &Some("c".to_string()), &l, true, false).err(),
        Some(ApplyError::NoSuchSlot)
    );
    assert_eq!(try_init_partition_table_layout(&mut t, &Vec::new(), &None, &l, true, false).err(), Some(ApplyError::NoSlot));
    assert_eq!(shape(&t), before);
}

#[test]
fn userdata_is_moved_under_its_identifier() {
    let mut t = tables();
    let slots = vec![slot("a", vec![target("userdata", "/dev/block/sda", 20_000, 59_999)])];
    assert_eq!(try_init_userdata_partition(&mut t, &slots, &None, "/dev/block/sda"), Ok(()));
    let got: Vec<(u32, &str, u64, u64)> =
        t[0].entries.iter().map(|e| (e.id, e.name.as_str(), e.first_lba, e.last_lba)).collect();
    assert_eq!(got, vec![(1, "boot", 100, 199), (2, "userdata", 20_000, 59_999)]);
    assert_ne!(t[0].entries[1].part_guid, "00000000-0000-4000-8000-000000000002");
}

#[test]
fn userdata_init_fails_without_changes() {
    let mut t = tables();
    let before = shape(&t);
    let slots = vec![slot("a", vec![target("userdata", "/dev/block/sda", 150, 59_999)])];
    assert_eq!(
        try_init_userdata_partition(&mut t, &slots, &None, "/dev/block/sda"),
        Err(ApplyError::Partition(PartitionError::NotEnoughSpace))
    );
    assert_eq!(try_init_userdata_partition(&mut t, &slots, &None, "/dev/block/sdb"), Err(ApplyError::UserdataMismatch));
    let elsewhere = vec![slot("a", vec![target("userdata", "/dev/block/sde", 1000, 1999)])];
    assert_eq!(try_init_userdata_partition(&mut t, &elsewhere, &None, "/dev/block/sde"), Err(ApplyError::PartitionNotFound));
    let none = vec![slot("a", vec![target("modem", "/dev/block/sda", 1000, 1999)])];
    assert_eq!(try_init_userdata_partition(&mut t, &none, &None, "/dev/block/sda"), Err(ApplyError::NoUserdataTarget));
    assert_eq!(shape(&t), before);
}

#[test]
fn failed_target_leaves_the_tables_alone() {
    let mut t = tables();
    let before = shape(&t);
    let r = apply_target(&mut t, &target("modem", "/dev/block/sda", 150, 250), true, false);
    assert_eq!(r, Err(ApplyError::Partition(PartitionError::NotEnoughSpace)));
    assert_eq!(shape(&t), before);
    let r = apply_target(&mut t, &target("modem", "/dev/block/sdz", 200, 299), true, false);
    assert_eq!(r, Err(ApplyError::DiskNotFound));
    assert_eq!(shape(&t), before);
}

#[test]
fn failed_saved_layout_keeps_what_was_applied_before() {
    let mut t = tables();
    let s = slot("a", vec![
        target("modem", "/dev/block/sda", 200, 299),
        target("dsp", "/dev/block/sda", 250, 349),
        target("boot", "/dev/block/sda", 400, 499),
    ]);
    assert_eq!(
        init_partition_table_layout(&mut t, &s, true, false),
        Err(ApplyError::Partition(PartitionError::NotEnoughSpace))
    );
    let on_sda: Vec<(u32, &str, u64)> = t[0].entries.iter().map(|e| (e.id, e.name.as_str(), e.first_lba)).collect();
    assert_eq!(on_sda, vec![(1, "boot", 100), (2, "userdata", 10_000), (3, "modem", 200)]);
    let on_sde: Vec<&str> = t[1].entries.iter().map(|e| e.name.as_str()).collect();
    assert_eq!(on_sde, vec!["dsp"]);
}

#[test]
fn disks_with_odd_sectors_are_not_touched() {
    let mut t = tables();
    t[1].sector_size = 520;
    let before = shape(&t);
    let r = apply_target(&mut t, &target("modem", "/dev/block/sda", 200, 299), true, false);
    assert_eq!(r, Err(ApplyError::UnsupportedSectorSize));
    let r = apply_target(&mut t, &target("abl", "/dev/block/sde", 300, 399), false, true);
    assert_eq!(r, Err(ApplyError::UnsupportedSectorSize));
    assert_eq!(shape(&t), before);
}
