use rvab::gpt_helper::{DiskTable, PartitionEntry};
use rvab::metadata::{Metadata, PartitionLocation, PartitionRawTarget, Slot};
use rvab::record::{frame_record, plan_record_writes, read_record, DeviceWrite, MetadataError};

const HEAD: &[u8] = b"RVAB_HEAD_MAGIC";

fn location(driver: &str, first: u64, last: u64, sector: u64) -> PartitionLocation {
    PartitionLocation { driver: driver.to_string(), id: 0, first_lba: first, last_lba: last, sector_size: sector }
}

fn region_after(writes: &[DeviceWrite], base: u64, len: usize, fill: u8) -> Vec<u8> {
    let mut region = vec![fill; len];
    for w in writes {
        let at = (w.offset - base) as usize;
        region[at..at + w.bytes.len()].copy_from_slice(&w.bytes);
    }
    region
}

#[test]
fn framed_record_has_text_closing_line_and_checksum() {
    let framed = frame_record(&b"hello".to_vec());
    assert_eq!(framed.body, b"hello\nRVAB_TAIL_MAGIC\n".to_vec());
    assert_eq!(framed.crc, 0x363a3020);
    assert_eq!(framed.crc, crc32fast::hash(b"hello\n"));
    assert_eq!(frame_record(&Vec::new()).crc, 0x32d70693);
}

#[test]
fn writes_cover_head_text_and_checksum() {
    let loc = location("/dev/block/sda", 16, 23, 512);
    let writes = plan_record_writes(&b"current_slot = \"a\"".to_vec(), &vec![loc]).unwrap();
    assert_eq!(writes.len(), 3);
    assert_eq!((writes[0].driver.as_str(), writes[0].offset), ("/dev/block/sda", 8192));
    assert_eq!(writes[0].bytes, HEAD.to_vec());
    assert_eq!(writes[1].offset, 8192 + 15);
    assert_eq!(writes[1].bytes, b"current_slot = \"a\"\nRVAB_TAIL_MAGIC\n".to_vec());
    assert_eq!(writes[2].offset, 8192 + 4096 - 4);
    assert_eq!(writes[2].bytes, 0x60597051u32.to_le_bytes().to_vec());
}

#[test]
fn written_record_reads_back_with_a_matching_checksum() {
    let text = b"is_dirty = false\ncurrent_slot = \"b\"\n\n[slots.a]\nslot_name = \"a\"".to_vec();
    let loc = location("/dev/block/sda", 8, 15, 4096);
    let writes = plan_record_writes(&text, &vec![loc]).unwrap();
    for fill in [0u8, 0xff, b'\n', b'x'] {
        let region = region_after(&writes, 8 * 4096, 8 * 4096, fill);
        let loaded = read_record(&region).unwrap();
        let mut expected = text.clone();
        expected.push(b'\n');
        assert_eq!(loaded.payload, expected);
        assert_eq!(loaded.stored_crc, crc32fast::hash(&expected));
        assert!(loaded.checksum_matches());
    }
}

#[test]
fn record_is_replicated_to_every_region() {
    let locs = vec![location("/dev/block/sda", 8, 15, 4096), location("/dev/block/sde", 100, 163, 512)];
    let writes = plan_record_writes(&b"x = 1".to_vec(), &locs).unwrap();
    assert_eq!(writes.len(), 6);
    assert_eq!(writes[3].driver, "/dev/block/sde");
    assert_eq!(writes[3].offset, 51200);
    assert_eq!(writes[5].offset, 51200 + 32768 - 4);
    assert_eq!(writes[1].bytes, writes[4].bytes);
    assert_eq!(writes[2].bytes, writes[5].bytes);
}

#[test]
fn record_that_does_not_fit_is_not_written_at_all() {
    let text = vec![b'a'; 600];
    let locs = vec![location("/dev/block/sda", 8, 15, 4096), location("/dev/block/sde", 100, 100, 512)];
    assert_eq!(plan_record_writes(&text, &locs).err(), Some(MetadataError::SizeOverflow));
    // 15 bytes of head, 17 of line ends and closing line, 4 of checksum.
    let exact = vec![b'a'; 512 - 15 - 17 - 4];
    assert!(plan_record_writes(&exact, &vec![location("/dev/block/sde", 100, 100, 512)]).is_ok());
    let one_more = vec![b'a'; 512 - 15 - 17 - 4 + 1];
    assert_eq!(
        plan_record_writes(&one_more, &vec![location("/dev/block/sde", 100, 100, 512)]).err(),
        Some(MetadataError::SizeOverflow)
    );
}

#[test]
fn regions_that_cannot_be_addressed_are_refused() {
    let text = b"x".to_vec();
    assert_eq!(plan_record_writes(&text, &vec![location("d", 10, 9, 512)]).err(), Some(MetadataError::Arithmetic));
    assert_eq!(plan_record_writes(&text, &vec![location("d", u64::MAX, u64::MAX, 512)]).err(), Some(MetadataError::Arithmetic));
    assert_eq!(plan_record_writes(&text, &vec![location("d", 10, 19, 0)]).err(), Some(MetadataError::SizeOverflow));
}

#[test]
fn wrong_head_marker_is_refused() {
    let mut region = vec![0u8; 4096];
    region[..15].copy_from_slice(b"RVAB_HEAD_MAGIc");
    assert_eq!(read_record(&region).err(), Some(MetadataError::BadHeadMagic));
    assert_eq!(read_record(&vec![0u8; 18]).err(), Some(MetadataError::RegionTooSmall));
    assert_eq!(read_record(&Vec::new()).err(), Some(MetadataError::RegionTooSmall));
}

#[test]
fn smallest_region_holds_an_empty_record() {
    let mut region = HEAD.to_vec();
    region.extend_from_slice(&0u32.to_le_bytes());
    let loaded = read_record(&region).unwrap();
    assert!(loaded.payload.is_empty());
    assert_eq!(loaded.stored_crc, 0);
    assert_eq!(loaded.computed_crc, 0);
    assert!(loaded.checksum_matches());
}

#[test]
fn reading_stops_at_the_closing_line() {
    let mut region = HEAD.to_vec();
    region.extend_from_slice(b"a = 1\nb = 2\nRVAB_TAIL_MAGIC\nc = 3\n");
    region.extend_from_slice(&[0u8; 40]);
    let loaded = read_record(&region).unwrap();
    assert_eq!(loaded.payload, b"a = 1\nb = 2\n".to_vec());
    assert!(!loaded.checksum_matches());
}

#[test]
fn reading_stops_at_the_last_whole_line_before_the_checksum() {
    let mut region = HEAD.to_vec();
    region.extend_from_slice(b"a = 1\nb = 2\nc = 3");
    let crc = crc32fast::hash(b"a = 1\nb = 2\n");
    region.extend_from_slice(&crc.to_le_bytes());
    let loaded = read_record(&region).unwrap();
    assert_eq!(loaded.payload, b"a = 1\nb = 2\n".to_vec());
    assert_eq!(loaded.stored_crc, crc);
    assert!(loaded.checksum_matches());
}

#[test]
fn line_end_inside_the_checksum_is_no_line_end() {
    let mut region = HEAD.to_vec();
    region.extend_from_slice(b"a = 1\nb");
    region.extend_from_slice(&[b'\n', 1, 2, 3]);
    let loaded = read_record(&region).unwrap();
    assert_eq!(loaded.payload, b"a = 1\n".to_vec());
    assert_eq!(loaded.stored_crc, u32::from_le_bytes([b'\n', 1, 2, 3]));
}

#[test]
fn damaged_text_fails_the_checksum() {
    let loc = location("/dev/block/sda", 0, 0, 4096);
    let writes = plan_record_writes(&b"current_slot = \"a\"".to_vec(), &vec![loc]).unwrap();
    let mut region = region_after(&writes, 0, 4096, 0);
    region[20] ^= 1;
    let loaded = read_record(&region).unwrap();
    assert!(!loaded.checksum_matches());
    assert_eq!(loaded.stored_crc, 0x60597051);
    assert_ne!(loaded.computed_crc, 0x60597051);
}

fn userdata_slot(name: &str, driver: &str, start: u64) -> Slot {
    Slot {
        slot_name: name.to_string(),
        backup_type_code: 1,
        backup_target: "none".to_string(),
        backup_exclude_list: Vec::new(),
        backup_target_start: 0,
        backup_target_end: 0,
        backup_target_attr: String::new(),
        dyn_partition_set: vec![PartitionRawTarget {
            part_name: "userdata".to_string(),
            driver: driver.to_string(),
            start_lba: start,
            end_lba: start + 999_999,
            type_guid: "x".to_string(),
            flags: 0,
        }],
    }
}

fn table(device: &str, sector: u64, used: Vec<(u64, u64)>) -> DiskTable {
    DiskTable {
        device: device.to_string(),
        sector_size: sector,
        num_parts: 128,
        first_usable: 6,
        last_usable: 99_999_999,
        entries: used
            .iter()
            .enumerate()
            .map(|(i, r)| PartitionEntry {
                id: i as u32 + 1,
                name: format!("p{}", i),
                first_lba: r.0,
                last_lba: r.1,
                type_guid: "x".to_string(),
                part_guid: "y".to_string(),
                flags: 0,
            })
            .collect(),
    }
}

fn places(locs: &[PartitionLocation]) -> Vec<(String, u32, u64, u64, u64)> {
    locs.iter().map(|l| (l.driver.clone(), l.id, l.first_lba, l.last_lba, l.sector_size)).collect()
}

#[test]
fn named_partition_is_the_only_region() {
    let m = Metadata::new("a".to_string(), vec![userdata_slot("a", "/dev/block/sda", 200_000)]);
    let named = Some(PartitionLocation { driver: "/dev/block/sdb".to_string(), id: 9, first_lba: 50, last_lba: 16433, sector_size: 4096 });
    let locs = Metadata::get_all_metadata_location(&m, &named, &Vec::new()).unwrap();
    assert_eq!(places(&locs), vec![("/dev/block/sdb".to_string(), 9, 50, 16433, 4096)]);
}

#[test]
fn hidden_regions_lie_before_userdata_once_per_disk() {
    let m = Metadata::new(
        "a".to_string(),
        vec![
            userdata_slot("a", "/dev/block/sda", 200_000),
            userdata_slot("b", "/dev/block/sda", 5_000_000),
            userdata_slot("c", "/dev/block/sde", 300_000),
        ],
    );
    let tables = vec![table("/dev/block/sda", 4096, vec![(200_000, 1_199_999)]), table("/dev/block/sde", 512, vec![(10, 99)])];
    let locs = Metadata::get_all_metadata_location(&m, &None, &tables).unwrap();
    assert_eq!(
        places(&locs),
        vec![
            ("/dev/block/sda".to_string(), 0, 200_000 - 16384, 199_999, 4096),
            ("/dev/block/sde".to_string(), 0, 300_000 - 131072, 299_999, 512),
        ]
    );
}

#[test]
fn hidden_region_must_be_free() {
    let m = Metadata::new("a".to_string(), vec![userdata_slot("a", "/dev/block/sda", 200_000)]);
    let used = vec![table("/dev/block/sda", 4096, vec![(190_000, 190_009)])];
    assert_eq!(Metadata::get_all_metadata_location(&m, &None, &used).err(), Some(MetadataError::RegionInUse));
    let unknown = vec![table("/dev/block/sdb", 4096, Vec::new())];
    assert_eq!(Metadata::get_all_metadata_location(&m, &None, &unknown).err(), Some(MetadataError::DiskNotFound));
    let near_start = Metadata::new("a".to_string(), vec![userdata_slot("a", "/dev/block/sda", 100)]);
    let free = vec![table("/dev/block/sda", 4096, Vec::new())];
    assert_eq!(Metadata::get_all_metadata_location(&near_start, &None, &free).err(), Some(MetadataError::Arithmetic));
    let mut no_userdata = userdata_slot("a", "/dev/block/sda", 200_000);
    no_userdata.dyn_partition_set[0].part_name = "data".to_string();
    let m = Metadata::new("a".to_string(), vec![no_userdata]);
    assert_eq!(Metadata::get_all_metadata_location(&m, &None, &free).err(), Some(MetadataError::UserdataNotFound));
}

#[test]
fn current_region_lies_before_live_userdata() {
    let tables = vec![table("/dev/block/sda", 4096, vec![(200_000, 1_199_999)])];
    let live = Some(PartitionLocation { driver: "/dev/block/sda".to_string(), id: 1, first_lba: 200_000, last_lba: 1_199_999, sector_size: 4096 });
    let loc = Metadata::get_current_metadata(&None, &live, &tables).unwrap();
    assert_eq!(places(&[loc]), vec![("/dev/block/sda".to_string(), 0, 183_616, 199_999, 4096)]);
    assert_eq!(Metadata::get_current_metadata(&None, &None, &tables).err(), Some(MetadataError::UserdataNotFound));
    let zero = Some(PartitionLocation { driver: "/dev/block/sda".to_string(), id: 1, first_lba: 200_000, last_lba: 1_199_999, sector_size: 0 });
    assert_eq!(Metadata::get_current_metadata(&None, &zero, &tables).err(), Some(MetadataError::ZeroSectorSize));
}

#[test]
fn named_partition_is_read_before_any_hidden_region() {
    let tables = vec![table("/dev/block/sda", 4096, vec![(200_000, 1_199_999)])];
    let live = Some(PartitionLocation { driver: "/dev/block/sda".to_string(), id: 1, first_lba: 200_000, last_lba: 1_199_999, sector_size: 4096 });
    let named = Some(PartitionLocation { driver: "/dev/block/sdb".to_string(), id: 9, first_lba: 50, last_lba: 16433, sector_size: 4096 });
    let loc = Metadata::get_current_metadata(&named, &live, &tables).unwrap();
    assert_eq!(places(&[loc]), vec![("/dev/block/sdb".to_string(), 9, 50, 16433, 4096)]);
    let loc = Metadata::get_current_metadata(&named, &None, &Vec::new()).unwrap();
    assert_eq!(loc.id, 9);
}

#[test]
fn record_is_written_through_its_own_method() {
    let m = Metadata::new("a".to_string(), Vec::new());
    let writes = m.write_fw_metadata(&b"hello".to_vec(), &vec![location("/dev/block/sda", 0, 0, 512)]).unwrap();
    assert_eq!(writes.len(), 3);
    assert_eq!(writes[2].bytes, 0x363a3020u32.to_le_bytes().to_vec());
    assert_eq!(writes[2].offset, 508);
}
