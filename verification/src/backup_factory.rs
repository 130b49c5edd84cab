//! Backup strategies and the size of the backup area each of them asks for.

use vstd::prelude::*;
use crate::metadata::Metadata;

verus! {

/// Moving a slot's content between its place on disk and a backup target: a
/// file, a partition, a loop device or raw disk space.
pub trait BackupTrait {
    /// Copies what lies at `orig_file_path` to the backup target.
    fn backup(&self, metadata: &Metadata, orig_file_path: &str) -> Result<(), &str>;

    /// Copies a backup to where it was made from.
    fn restore(&self, metadata: &Metadata, orig_file_path: &str) -> Result<(), &str>;

    /// Saves the partition table.
    fn backup_gpt(&self, metadata: &Metadata, orig_file_path: &str) -> Result<(), &str>;

    /// Puts a saved partition table back.
    fn restore_gpt(&self, metadata: &Metadata, orig_file_path: &str) -> Result<(), &str>;

    /// Checks a backup against what it was made from.
    fn verify(&self, metadata: &Metadata, orig_file_path: &str) -> Result<(), &str>;

    /// Tells whether the strategy can be used on this system.
    fn test(&self, metadata: Option<&Metadata>) -> Result<(), &str>;
}

/// The strategies by which a slot's firmware can be backed up.
#[derive(Clone, Copy, Debug, PartialEq, Eq, Structural)]
pub enum BackupType {
    /// The backup lives in a partition of its own.
    Partition,
    /// The backup lives in disk space outside any partition.
    BinarySpace,
    /// The backup lives in an image that is set up as a loop device.
    Losetup,
}

/// Bytes reserved for `firmware_size_b` bytes of firmware: a tenth more,
/// rounded up to a whole byte.
pub open spec fn margin_bytes(firmware_size_b: nat) -> nat {
    (firmware_size_b * 11 + 9) / 10
}

/// Sectors of `sector` bytes that hold `bytes` bytes.
pub open spec fn sectors_for(bytes: nat, sector: nat) -> nat
    recommends
        sector > 0,
{
    (bytes + sector - 1) as nat / sector
}

/// The code under which a strategy is stored.
pub open spec fn code_of(backup_type: BackupType) -> i32 {
    match backup_type {
        BackupType::Partition => 0,
        BackupType::Losetup => 1,
        BackupType::BinarySpace => 2,
    }
}

impl BackupType {
    /// Whether the mechanism behind this strategy is usable. Every strategy is.
    pub open spec fn spec_test_passes(self) -> bool {
        true
    }

    /// The name of the strategy.
    pub fn name(&self) -> (r: &'static str)
        ensures
            r@ == match *self {
                BackupType::Partition => "partition"@,
                BackupType::BinarySpace => "binaryspace"@,
                BackupType::Losetup => "losetup"@,
            },
    {
        match self {
            BackupType::Partition => "partition",
            BackupType::BinarySpace => "binaryspace",
            BackupType::Losetup => "losetup",
        }
    }

    /// The strategy stored under `code`; codes other than 0, 1 and 2 are rejected.
    pub fn code2type(code: i32) -> (r: Result<BackupType, &'static str>)
        ensures
            r is Ok <==> 0 <= code <= 2,
            r is Ok ==> code_of(r->Ok_0) == code,
            r is Err ==> r->Err_0@ == "Invalid BackupType code"@,
    {
        match code {
            0 => Ok(BackupType::Partition),
            1 => Ok(BackupType::Losetup),
            2 => Ok(BackupType::BinarySpace),
            _ => Err("Invalid BackupType code"),
        }
    }

    /// The code under which `backup_type` is stored.
    pub fn type2code(backup_type: BackupType) -> (r: i32)
        ensures
            r == code_of(backup_type),
    {
        match backup_type {
            BackupType::Partition => 0,
            BackupType::Losetup => 1,
            BackupType::BinarySpace => 2,
        }
    }

    /// Smallest backup area, in bytes, for firmware of `firmware_size_b` bytes.
    /// Every strategy asks for the same margin.
    pub fn guess_backup_target_partition_size(&self, firmware_size_b: u64) -> (r: u64)
        requires
            margin_bytes(firmware_size_b as nat) <= u64::MAX,
        ensures
            r == margin_bytes(firmware_size_b as nat),
    {
        let widened: u128 = (firmware_size_b as u128 * 11 + 9) / 10;
        match self {
            BackupType::Partition => widened as u64,
            BackupType::BinarySpace => widened as u64,
            BackupType::Losetup => widened as u64,
        }
    }

    /// Smallest backup area, in sectors of `sector` bytes, for firmware of
    /// `firmware_size_b` bytes.
    pub fn guess_backup_target_partition_size_sector(&self, firmware_size_b: u64, sector: u64) -> (r:
        u64)
        requires
            sector > 0,
            margin_bytes(firmware_size_b as nat) <= u64::MAX,
        ensures
            r == sectors_for(margin_bytes(firmware_size_b as nat), sector as nat),
            r * sector * 10 >= firmware_size_b * 11,
    {
        let size = self.guess_backup_target_partition_size(firmware_size_b);
        let mut size_sector = size / sector;
        proof {
            lemma_sectors_for(size as nat, sector as nat);
        }
        if size % sector != 0 {
            size_sector += 1;
        }
        size_sector
    }
}

/// No strategy moves any data yet: each step succeeds without doing anything.
impl BackupTrait for BackupType {
    fn backup(&self, metadata: &Metadata, orig_file_path: &str) -> (r: Result<(), &str>)
        ensures
            r is Ok,
    {
        Ok(())
    }

    fn restore(&self, metadata: &Metadata, orig_file_path: &str) -> (r: Result<(), &str>)
        ensures
            r is Ok,
    {
        Ok(())
    }

    fn backup_gpt(&self, metadata: &Metadata, orig_file_path: &str) -> (r: Result<(), &str>)
        ensures
            r is Ok,
    {
        Ok(())
    }

    fn restore_gpt(&self, metadata: &Metadata, orig_file_path: &str) -> (r: Result<(), &str>)
        ensures
            r is Ok,
    {
        Ok(())
    }

    fn verify(&self, metadata: &Metadata, orig_file_path: &str) -> (r: Result<(), &str>)
        ensures
            r is Ok,
    {
        Ok(())
    }

    fn test(&self, metadata: Option<&Metadata>) -> (r: Result<(), &str>)
        ensures
            r is Ok <==> self.spec_test_passes(),
    {
        match self {
            BackupType::Partition => {},
            BackupType::BinarySpace => {},
            BackupType::Losetup => {},
        }
        Ok(())
    }
}

/// Rounding up to whole sectors never reserves less than was asked for, and
/// it agrees with dividing and adding one for a remainder.
pub proof fn lemma_sectors_for(bytes: nat, sector: nat)
    requires
        sector > 0,
    ensures
        sectors_for(bytes, sector) * sector >= bytes,
        sectors_for(bytes, sector) == bytes / sector + if bytes % sector != 0 {
            1nat
        } else {
            0nat
        },
        sectors_for(bytes, sector) <= bytes,
{
    let q = bytes / sector;
    let r = bytes % sector;
    assert(bytes == q * sector + r) by {
        vstd::arithmetic::div_mod::lemma_fundamental_div_mod(bytes as int, sector as int);
        assert(sector * q == q * sector) by (nonlinear_arith);
    }
    if r == 0 {
        assert((bytes + sector - 1) / sector as int == q) by {
            vstd::arithmetic::div_mod::lemma_fundamental_div_mod_converse(
                bytes + sector - 1,
                sector as int,
                q as int,
                sector - 1,
            );
        }
    } else {
        assert((bytes + sector - 1) / sector as int == q + 1) by {
            assert((q + 1) * sector == q * sector + sector) by (nonlinear_arith);
            vstd::arithmetic::div_mod::lemma_fundamental_div_mod_converse(
                bytes + sector - 1,
                sector as int,
                (q + 1) as int,
                r - 1,
            );
        }
        assert((q + 1) * sector == q * sector + sector) by (nonlinear_arith);
    }
    assert(q * sector >= q) by (nonlinear_arith)
        requires
            sector >= 1,
            q >= 0,
    ;
}

/// The sector estimate never reserves less than the firmware plus a tenth.
pub proof fn lemma_estimate_never_under_allocates(firmware_size_b: nat, sector: nat)
    requires
        sector > 0,
    ensures
        sectors_for(margin_bytes(firmware_size_b), sector) * sector * 10 >= firmware_size_b * 11,
{
    lemma_sectors_for(margin_bytes(firmware_size_b), sector);
    let s = sectors_for(margin_bytes(firmware_size_b), sector);
    assert(s * sector * 10 == (s * sector) * 10) by (nonlinear_arith);
}

} // verus!
