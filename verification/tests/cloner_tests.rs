use rvab::clone_firmware;
use rvab::cloner::{bytes_before, bytes_of_span, chunk_size, plan_copy, CloneError};
use rvab::gpt_helper::{DiskTable, PartitionEntry};
use rvab::metadata::{PartitionRawTarget, Slot};

fn entry(id: u32, name: &str, first: u64, last: u64) -> PartitionEntry {
    PartitionEntry {
        id,
        name: name.to_string(),
        first_lba: first,
        last_lba: last,
        type_guid: "x".to_string(),
        part_guid: "y".to_string(),
        flags: 0,
    }
}

fn tables() -> Vec<DiskTable> {
    vec![
        DiskTable {
            device: "/dev/block/sda".to_string(),
            sector_size: 4096,
            num_parts: 8,
            first_usable: 6,
            last_usable: 99_999,
            entries: vec![entry(1, "boot", 100, 199), entry(2, "userdata", 10_000, 19_999)],
        },
        DiskTable {
            device: "/dev/block/sde".to_string(),
            sector_size: 512,
            num_parts: 8,
            first_usable: 34,
            last_usable: 99_999,
            entries: vec![entry(1, "modem", 800, 1599)],
        },
    ]
}

fn target(name: &str, driver: &str, start: u64, end: u64) -> PartitionRawTarget {
    PartitionRawTarget {
        part_name: name.to_string(),
        driver: driver.to_string(),
        start_lba: start,
        end_lba: end,
        type_guid: "x".to_string(),
        flags: 0,
    }
}

fn slot(name: &str, parts: Vec<PartitionRawTarget>) -> Slot {
    Slot {
        slot_name: name.to_string(),
        backup_type_code: 1,
        backup_target: "none".to_string(),
        backup_exclude_list: Vec::new(),
        backup_target_start: 0,
        backup_target_end: 0,
        backup_target_attr: String::new(),
        dyn_partition_set: parts,
    }
}

#[test]
fn copy_goes_from_the_live_place_to_the_target() {
    let job = plan_copy(&target("boot", "/dev/block/sda", 300, 399), &tables()).unwrap();
    assert_eq!(job.source, "/dev/block/sda");
    assert_eq!(job.target, "/dev/block/sda");
    assert_eq!((job.source_offset, job.target_offset, job.length), (409_600, 1_228_800, 409_600));
}

#[test]
fn copy_between_disks_counts_bytes_not_sectors() {
    let job = plan_copy(&target("modem", "/dev/block/sda", 300, 399), &tables()).unwrap();
    assert_eq!(job.source, "/dev/block/sde");
    assert_eq!((job.source_offset, job.target_offset, job.length), (409_600, 1_228_800, 409_600));
}

#[test]
fn lengths_must_match_exactly() {
    assert_eq!(plan_copy(&target("boot", "/dev/block/sda", 300, 398), &tables()).err(), Some(CloneError::LengthMismatch));
    assert_eq!(plan_copy(&target("boot", "/dev/block/sde", 300, 399), &tables()).err(), Some(CloneError::LengthMismatch));
    assert!(plan_copy(&target("boot", "/dev/block/sde", 300, 1099), &tables()).is_ok());
}

#[test]
fn copies_need_a_source_and_a_target_disk() {
    assert_eq!(plan_copy(&target("abl", "/dev/block/sda", 300, 399), &tables()).err(), Some(CloneError::PartitionNotFound));
    assert_eq!(plan_copy(&target("boot", "/dev/block/sdz", 300, 399), &tables()).err(), Some(CloneError::DiskNotFound));
    assert_eq!(plan_copy(&target("boot", "/dev/block/sda", 400, 399), &tables()).err(), Some(CloneError::Arithmetic));
    let mut t = tables();
    t[0].sector_size = 520;
    assert_eq!(plan_copy(&target("boot", "/dev/block/sda", 300, 399), &t).err(), Some(CloneError::UnsupportedSectorSize));
}

#[test]
fn firmware_is_cloned_to_every_slot_without_userdata() {
    let slots = vec![
        slot("a", vec![target("boot", "/dev/block/sda", 300, 399), target("userdata", "/dev/block/sda", 10_000, 19_999)]),
        slot("b", vec![
            target("userdata", "/dev/block/sda", 30_000, 39_999),
            target("boot", "/dev/block/sda", 500, 599),
            target("modem", "/dev/block/sda", 600, 699),
        ]),
    ];
    let plan = clone_firmware(&slots, &tables()).unwrap();
    let got: Vec<(&str, u64, &str, u64, u64)> = plan
        .jobs
        .iter()
        .map(|j| (j.source.as_str(), j.source_offset, j.target.as_str(), j.target_offset, j.length))
        .collect();
    assert_eq!(
        got,
        vec![
            ("/dev/block/sda", 409_600, "/dev/block/sda", 1_228_800, 409_600),
            ("/dev/block/sda", 409_600, "/dev/block/sda", 2_048_000, 409_600),
            ("/dev/block/sde", 409_600, "/dev/block/sda", 2_457_600, 409_600),
        ]
    );
    assert_eq!(plan.total_size, 1_228_800);
}

#[test]
fn one_bad_copy_stops_the_whole_plan() {
    let slots = vec![
        slot("a", vec![target("boot", "/dev/block/sda", 300, 399)]),
        slot("b", vec![target("boot", "/dev/block/sda", 500, 598)]),
    ];
    assert_eq!(clone_firmware(&slots, &tables()).err(), Some(CloneError::LengthMismatch));
    let plan = clone_firmware(&Vec::new(), &tables()).unwrap();
    assert!(plan.jobs.is_empty());
    assert_eq!(plan.total_size, 0);
}

#[test]
fn copies_proceed_in_chunks_of_four_kilobytes() {
    assert_eq!(chunk_size(0), 0);
    assert_eq!(chunk_size(1), 1);
    assert_eq!(chunk_size(4095), 4095);
    assert_eq!(chunk_size(4096), 4096);
    assert_eq!(chunk_size(4097), 4096);
    assert_eq!(chunk_size(u64::MAX), 4096);
    let mut remain = 10_000u64;
    let mut steps = Vec::new();
    while remain > 0 {
        let n = chunk_size(remain);
        steps.push(n);
        remain -= n;
    }
    assert_eq!(steps, vec![4096, 4096, 1808]);
}

#[test]
fn byte_counts_that_do_not_fit_are_none() {
    assert_eq!(bytes_before(100, 512), Some(51_200));
    assert_eq!(bytes_before(u64::MAX, 2), None);
    assert_eq!(bytes_before(u64::MAX, 0), Some(0));
    assert_eq!(bytes_of_span(100, 199, 4096), Some(409_600));
    assert_eq!(bytes_of_span(7, 7, 512), Some(512));
    assert_eq!(bytes_of_span(0, u64::MAX, 1), None);
    assert_eq!(bytes_of_span(1, u64::MAX, 1), Some(u64::MAX));
    assert_eq!(bytes_of_span(0, u64::MAX, 0), Some(0));
}
