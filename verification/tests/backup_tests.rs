use rvab::backup_factory::{BackupTrait, BackupType};
use rvab::metadata::Metadata;

#[test]
fn codes_and_types_match() {
    assert_eq!(BackupType::code2type(0), Ok(BackupType::Partition));
    assert_eq!(BackupType::code2type(1), Ok(BackupType::Losetup));
    assert_eq!(BackupType::code2type(2), Ok(BackupType::BinarySpace));
    assert_eq!(BackupType::type2code(BackupType::Partition), 0);
    assert_eq!(BackupType::type2code(BackupType::Losetup), 1);
    assert_eq!(BackupType::type2code(BackupType::BinarySpace), 2);
}

#[test]
fn unknown_codes_are_rejected() {
    assert_eq!(BackupType::code2type(3), Err("Invalid BackupType code"));
    assert_eq!(BackupType::code2type(-1), Err("Invalid BackupType code"));
}

#[test]
fn every_type_round_trips_through_its_code() {
    for t in [BackupType::Partition, BackupType::BinarySpace, BackupType::Losetup] {
        assert_eq!(BackupType::code2type(BackupType::type2code(t)), Ok(t));
    }
}

#[test]
fn backup_size_adds_a_tenth() {
    let t = BackupType::Losetup;
    assert_eq!(t.guess_backup_target_partition_size(0), 0);
    assert_eq!(t.guess_backup_target_partition_size(10), 11);
    assert_eq!(t.guess_backup_target_partition_size(1), 2);
    assert_eq!(t.guess_backup_target_partition_size(104857600), 115343360);
    assert_eq!(BackupType::Partition.guess_backup_target_partition_size(1000), 1100);
    assert_eq!(BackupType::BinarySpace.guess_backup_target_partition_size(1001), 1102);
}

#[test]
fn backup_size_in_sectors_rounds_up() {
    let t = BackupType::Partition;
    assert_eq!(t.guess_backup_target_partition_size_sector(104857600, 512), 225280);
    assert_eq!(t.guess_backup_target_partition_size_sector(104857600, 4096), 28160);
    assert_eq!(t.guess_backup_target_partition_size_sector(1, 512), 1);
    assert_eq!(t.guess_backup_target_partition_size_sector(466, 512), 2);
    assert_eq!(t.guess_backup_target_partition_size_sector(0, 512), 0);
}

#[test]
fn sector_estimate_never_under_allocates() {
    let t = BackupType::BinarySpace;
    for fw in [1u64, 7, 465, 466, 511, 512, 513, 4095, 4096, 1_000_003, 104857600] {
        for sector in [1u64, 512, 4096] {
            let sectors = t.guess_backup_target_partition_size_sector(fw, sector);
            assert!((sectors as u128) * (sector as u128) * 10 >= (fw as u128) * 11);
            if sectors > 0 {
                assert!(((sectors - 1) as u128) * (sector as u128) * 10 < (fw as u128) * 11 + 10);
            }
        }
    }
}

#[test]
fn every_strategy_passes_its_self_test() {
    let metadata = Metadata::new("a".to_string(), Vec::new());
    for t in [BackupType::Partition, BackupType::BinarySpace, BackupType::Losetup] {
        assert!(t.test(None).is_ok());
        assert!(t.test(Some(&metadata)).is_ok());
        assert!(t.backup(&metadata, "/dev/block/sda").is_ok());
        assert!(t.restore(&metadata, "/dev/block/sda").is_ok());
        assert!(t.backup_gpt(&metadata, "/dev/block/sda").is_ok());
        assert!(t.restore_gpt(&metadata, "/dev/block/sda").is_ok());
        assert!(t.verify(&metadata, "/dev/block/sda").is_ok());
    }
}
