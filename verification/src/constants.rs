//! Names, markers and size limits shared by the planner and the metadata record.

use vstd::prelude::*;

pub use crate::devices::get_block_dev_dir;

verus! {

/// Device node that identifies an eMMC system.
pub const EMMC_TRAIT_FILE: &'static str = "/dev/block/mmcblk0";

/// Name of the partition that holds user data.
pub const USERDATA_NAME: &'static str = "userdata";

/// Where user data is linked by name.
pub const USERDATA_LINK_PATH: &'static str = "/dev/block/by-name/userdata";

/// Where user data is linked by name under the boot device.
pub const USERDATA_LINK_PATH_BOOT: &'static str = "/dev/block/bootdevice/by-name/userdata";

/// Where user data is linked by name under the platform.
pub const USERDATA_LINK_PATH_PLATFORM: &'static str = "/dev/block/platform/soc/*/by-name/userdata";

/// Smallest user data partition that the planner accepts: 5 GiB.
pub const USERDATA_MIN_SIZE: u64 = 1024 * 1024 * 1024 * 5;

/// The directory that links partitions by name.
pub const BLOCK_DEV_NAME_MAPPER: &'static str = "/dev/block/by-name/";

/// The directory that links the partitions of the boot device by name.
pub const BLOCK_DEV_NAME_BOOT: &'static str = "/dev/block/bootdevice/by-name/";

/// The directory that links the partitions of the platform by name.
pub const BLOCK_DEV_NAME_PLATFORM: &'static str = "/dev/block/platform/soc/*/by-name/";

/// The directory of block device nodes.
pub const BLOCK_DEV_DIR: &'static str = "/dev/block/";

/// Name of a dedicated partition for the metadata record, if the disk has one.
pub const METADATA_PARTITION_NAME: &'static str = "rvab_metadata";

/// Marker at the very start of a metadata region.
pub const METADATA_HEAD_MAGIC: &'static str = "RVAB_HEAD_MAGIC";

/// Line that closes the text of a metadata record.
pub const METADATA_TAIL_MAGIC: &'static str = "RVAB_TAIL_MAGIC";

/// Size reserved for the metadata record: 64 MiB.
pub const METADATA_SIZE_BYTES: u64 = 1024 * 1024 * 64;

/// Value of `current_slot` while no slot matches the live disk.
pub const UNKNOWN_SLOT: &'static str = "unknown";

/// Size of one copy step when firmware is cloned: 4 KiB.
pub const CLONE_CHUNK_BYTES: u64 = 4096;

} // verus!
