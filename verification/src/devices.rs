//! What is read from the device directory and from sysfs, made sense of:
//! device paths, sizes written as text, and the size of the firmware.

use vstd::prelude::*;
use vstd::string::{StrSliceExecFns, StringExecFns, StringSliceAdditionalSpecFns};
use crate::constants::{
    BLOCK_DEV_NAME_BOOT, BLOCK_DEV_NAME_MAPPER, BLOCK_DEV_NAME_PLATFORM, EMMC_TRAIT_FILE,
    USERDATA_LINK_PATH, USERDATA_LINK_PATH_BOOT, USERDATA_LINK_PATH_PLATFORM, USERDATA_NAME,
};
use crate::metadata::names_view;
use crate::names::push_char;
use crate::planner::contains_name;
use crate::record::matches_at;

verus! {

/// `needle` stands in `hay` at position `i`.
pub open spec fn occurs_at(hay: Seq<u8>, needle: Seq<u8>, i: int) -> bool {
    0 <= i && i + needle.len() <= hay.len() && hay.subrange(i, i + needle.len()) == needle
}

/// `needle` stands somewhere in `hay`.
pub open spec fn contains_bytes(hay: Seq<u8>, needle: Seq<u8>) -> bool {
    exists|i: int| occurs_at(hay, needle, i)
}

/// Whether `needle` stands somewhere in `hay`.
pub fn bytes_contain(hay: &Vec<u8>, needle: &Vec<u8>) -> (r: bool)
    ensures
        r == contains_bytes(hay@, needle@),
{
    if needle.len() > hay.len() {
        return false;
    }
    let last = hay.len() - needle.len();
    let mut i: usize = 0;
    while i < last
        invariant
            i <= last,
            last == hay.len() - needle.len(),
            needle.len() <= hay.len(),
            forall|j: int| 0 <= j < i ==> !occurs_at(hay@, needle@, j),
        decreases last - i,
    {
        if matches_at(hay, i, i + needle.len(), needle) {
            assert(occurs_at(hay@, needle@, i as int));
            return true;
        }
        i += 1;
    }
    let at_end = matches_at(hay, last, hay.len(), needle);
    assert(at_end == occurs_at(hay@, needle@, last as int));
    at_end
}

/// Blank, tab, line feed, vertical tab, form feed or carriage return.
pub open spec fn is_space(b: u8) -> bool {
    b == 32 || (9 <= b && b <= 13)
}

/// The position of the first byte of `s` at or after `from` that is no space.
pub open spec fn skip_spaces(s: Seq<u8>, from: int) -> int
    decreases s.len() - from,
{
    if from < 0 || from >= s.len() || !is_space(s[from]) {
        from
    } else {
        skip_spaces(s, from + 1)
    }
}

/// The position after the last byte of `s` before `to` that is no space.
pub open spec fn drop_spaces(s: Seq<u8>, to: int) -> int
    decreases to,
{
    if to <= 0 || to > s.len() || !is_space(s[to - 1]) {
        to
    } else {
        drop_spaces(s, to - 1)
    }
}

/// `s` without the spaces at its start and at its end.
pub open spec fn trimmed(s: Seq<u8>) -> Seq<u8> {
    let start = skip_spaces(s, 0);
    if start >= s.len() {
        Seq::empty()
    } else {
        s.subrange(start, drop_spaces(s, s.len() as int))
    }
}

/// Every byte of `s` is a decimal digit.
pub open spec fn all_digits(s: Seq<u8>) -> bool {
    forall|i: int| 0 <= i < s.len() ==> 48 <= #[trigger] s[i] <= 57
}

/// The number that the decimal digits of `s` write.
pub open spec fn digits_value(s: Seq<u8>) -> nat
    decreases s.len(),
{
    if s.len() == 0 {
        0
    } else {
        digits_value(s.drop_last()) * 10 + (s.last() - 48) as nat
    }
}

/// The number that `text` writes in decimal digits, between spaces and after
/// an optional plus sign, where it fits in 64 bits.
pub open spec fn parsed_number(text: Seq<u8>) -> Option<u64> {
    let t = trimmed(text);
    let digits = if t.len() > 0 && t[0] == 43 {
        t.subrange(1, t.len() as int)
    } else {
        t
    };
    if digits.len() > 0 && all_digits(digits) && digits_value(digits) <= u64::MAX {
        Some(digits_value(digits) as u64)
    } else {
        None
    }
}

/// A number never gets smaller by a digit more.
pub proof fn lemma_digits_value_grows(s: Seq<u8>, k: int)
    requires
        0 <= k <= s.len(),
        all_digits(s),
    ensures
        digits_value(s.subrange(0, k)) <= digits_value(s),
    decreases s.len() - k,
{
    if k < s.len() {
        lemma_digits_value_grows(s.drop_last(), k);
        assert(s.drop_last().subrange(0, k) =~= s.subrange(0, k));
        assert(48 <= s[s.len() - 1] <= 57);
    } else {
        assert(s.subrange(0, k) =~= s);
    }
}

/// Reads a number written in decimal digits, as sysfs writes sizes.
pub fn parse_number(text: &str) -> (r: Option<u64>)
    ensures
        r == parsed_number(text.spec_bytes()),
{
    let bytes = text.as_bytes_vec();
    let mut start: usize = 0;
    while start < bytes.len() && (bytes[start] == 32 || (9 <= bytes[start] && bytes[start] <= 13))
        invariant
            start <= bytes.len(),
            skip_spaces(bytes@, 0) == skip_spaces(bytes@, start as int),
        decreases bytes.len() - start,
    {
        start += 1;
    }
    if start >= bytes.len() {
        return None;
    }
    let mut end: usize = bytes.len();
    while end > 0 && (bytes[end - 1] == 32 || (9 <= bytes[end - 1] && bytes[end - 1] <= 13))
        invariant
            start < end <= bytes.len(),
            !is_space(bytes@[start as int]),
            drop_spaces(bytes@, bytes.len() as int) == drop_spaces(bytes@, end as int),
        decreases end,
    {
        end -= 1;
    }
    let ghost t = bytes@.subrange(start as int, end as int);
    assert(t == trimmed(bytes@));
    let mut pos = start;
    if bytes[pos] == 43 {
        pos += 1;
    }
    let ghost digits = bytes@.subrange(pos as int, end as int);
    proof {
        assert(t[0] == bytes@[start as int]);
        if bytes@[start as int] == 43 {
            assert(digits =~= t.subrange(1, t.len() as int));
        } else {
            assert(digits =~= t);
        }
    }
    if pos >= end {
        return None;
    }
    let first = pos;
    let mut value: u64 = 0;
    while pos < end
        invariant
            first <= pos <= end <= bytes.len(),
            first < end,
            digits == bytes@.subrange(first as int, end as int),
            parsed_number(text.spec_bytes()) == if all_digits(digits) && digits_value(digits)
                <= u64::MAX {
                Some(digits_value(digits) as u64)
            } else {
                None
            },
            all_digits(digits.subrange(0, pos - first)),
            value == digits_value(digits.subrange(0, pos - first)),
        decreases end - pos,
    {
        let b = bytes[pos];
        let ghost shorter = digits.subrange(0, pos - first);
        let ghost longer = digits.subrange(0, pos - first + 1);
        proof {
            assert(longer.drop_last() =~= shorter);
            assert(longer.last() == b);
        }
        if b < 48 || b > 57 {
            assert(digits[pos - first] == b);
            return None;
        }
        proof {
            if all_digits(digits) {
                lemma_digits_value_grows(digits, pos - first + 1);
            }
        }
        value = match value.checked_mul(10) {
            Some(v) => match v.checked_add((b - 48) as u64) {
                Some(w) => w,
                None => {
                    return None;
                },
            },
            None => {
                return None;
            },
        };
        pos += 1;
    }
    proof {
        assert(digits.subrange(0, pos - first) =~= digits);
    }
    Some(value)
}

/// What the path of a SCSI disk starts with, before its letter.
pub const SD_PREFIX: &'static str = "/dev/block/sd";

/// The path of the SCSI disk with the given letter.
pub fn sd_device_path(letter: u8) -> (r: String)
    ensures
        r@ == SD_PREFIX@.push(letter as char),
{
    let mut path = String::from_str(SD_PREFIX);
    push_char(&mut path, letter as char);
    path
}

/// The first letter from `letter` up to `z` for which the path of that SCSI
/// disk stands in `path`.
pub open spec fn first_sd_from(path: Seq<u8>, letter: int) -> Option<u8>
    decreases 123 - letter,
{
    if letter < 97 || letter > 122 {
        None
    } else if contains_bytes(path, SD_PREFIX.spec_bytes().push(letter as u8)) {
        Some(letter as u8)
    } else {
        first_sd_from(path, letter + 1)
    }
}

/// Finds the SCSI disk, from `sda` to `sdz`, whose path stands in `path`: the
/// one with the lowest letter where there are several.
pub fn match_sd_device(path: &str) -> (r: Option<String>)
    ensures
        match first_sd_from(path.spec_bytes(), 97) {
            Some(letter) => r is Some && r->0@ == SD_PREFIX@.push(letter as char),
            None => r is None,
        },
{
    let hay = path.as_bytes_vec();
    let prefix = SD_PREFIX.as_bytes_vec();
    let mut letter: u8 = 97;
    while letter <= 122
        invariant
            97 <= letter <= 123,
            hay@ == path.spec_bytes(),
            prefix@ == SD_PREFIX.spec_bytes(),
            first_sd_from(path.spec_bytes(), 97) == first_sd_from(path.spec_bytes(), letter as int),
        decreases 123 - letter,
    {
        let mut candidate = prefix.clone();
        candidate.push(letter);
        assert(candidate@ =~= SD_PREFIX.spec_bytes().push(letter));
        if bytes_contain(&hay, &candidate) {
            return Some(sd_device_path(letter));
        }
        letter += 1;
    }
    None
}

/// Why the disk behind a device node could not be told.
#[derive(Clone, Copy, Debug, PartialEq, Eq, Structural)]
pub enum DriverError {
    /// None of the places where user data is linked exists.
    UserdataLinkNotFound,
    /// The link to a partition could not be read.
    UnreadableLink,
    /// There is no device node of that name.
    NoSuchPartitionFile,
    /// The device node belongs to no SCSI disk from `sda` to `sdz`.
    DriverNotFound,
}

/// The directory that maps partition names to device nodes: the first that
/// exists of the plain one, the one of the boot device and the one of the
/// platform.
pub fn get_block_dev_dir(mapper_exists: bool, boot_exists: bool, platform_exists: bool) -> (r: Option<
    &'static str,
>)
    ensures
        mapper_exists ==> r == Some(BLOCK_DEV_NAME_MAPPER),
        !mapper_exists && boot_exists ==> r == Some(BLOCK_DEV_NAME_BOOT),
        !mapper_exists && !boot_exists && platform_exists ==> r == Some(BLOCK_DEV_NAME_PLATFORM),
        !mapper_exists && !boot_exists && !platform_exists ==> r is None,
{
    if mapper_exists {
        Some(BLOCK_DEV_NAME_MAPPER)
    } else if boot_exists {
        Some(BLOCK_DEV_NAME_BOOT)
    } else if platform_exists {
        Some(BLOCK_DEV_NAME_PLATFORM)
    } else {
        None
    }
}

/// The link that leads to user data: the first that exists of the plain one,
/// the one of the boot device and the one of the platform.
pub fn userdata_link_path(plain_exists: bool, boot_exists: bool, platform_exists: bool) -> (r: Result<
    &'static str,
    DriverError,
>)
    ensures
        plain_exists ==> r == Ok::<&'static str, DriverError>(USERDATA_LINK_PATH),
        !plain_exists && boot_exists ==> r == Ok::<&'static str, DriverError>(
            USERDATA_LINK_PATH_BOOT,
        ),
        !plain_exists && !boot_exists && platform_exists ==> r == Ok::<&'static str, DriverError>(
            USERDATA_LINK_PATH_PLATFORM,
        ),
        !plain_exists && !boot_exists && !platform_exists ==> r == Err::<
            &'static str,
            DriverError,
        >(DriverError::UserdataLinkNotFound),
{
    if plain_exists {
        Ok(USERDATA_LINK_PATH)
    } else if boot_exists {
        Ok(USERDATA_LINK_PATH_BOOT)
    } else if platform_exists {
        Ok(USERDATA_LINK_PATH_PLATFORM)
    } else {
        Err(DriverError::UserdataLinkNotFound)
    }
}

/// The disk on which user data lives. On a system with an eMMC device that
/// is the eMMC device. Else it is the SCSI disk named in `link_target`, the
/// place to which the user data link leads.
pub fn get_userdata_driver(emmc_present: bool, link_target: &Option<String>) -> (r: Result<
    String,
    DriverError,
>)
    ensures
        emmc_present ==> r is Ok && r->Ok_0@ == EMMC_TRAIT_FILE@,
        !emmc_present && *link_target is None ==> r is Err && r->Err_0
            == DriverError::UnreadableLink,
        !emmc_present && *link_target is Some ==> match first_sd_from(
            vstd::utf8::encode_utf8(link_target->0@),
            97,
        ) {
            Some(letter) => r is Ok && r->Ok_0@ == SD_PREFIX@.push(letter as char),
            None => r is Err && r->Err_0 == DriverError::DriverNotFound,
        },
{
    if emmc_present {
        return Ok(String::from_str(EMMC_TRAIT_FILE));
    }
    match link_target {
        None => Err(DriverError::UnreadableLink),
        Some(target) => match match_sd_device(target.as_str()) {
            Some(disk) => Ok(disk),
            None => Err(DriverError::DriverNotFound),
        },
    }
}

/// The disk to which the device node `spath` belongs. On a system with an
/// eMMC device that is the eMMC device. Else the node has to exist; the disk
/// is the SCSI disk named in the place to which the node links or, where it
/// is no link, in `spath` itself.
pub fn get_partition_main_driver(
    emmc_present: bool,
    path_exists: bool,
    link_target: &Option<String>,
    spath: &str,
) -> (r: Result<String, DriverError>)
    ensures
        emmc_present ==> r is Ok && r->Ok_0@ == EMMC_TRAIT_FILE@,
        !emmc_present && !path_exists ==> r is Err && r->Err_0 == DriverError::NoSuchPartitionFile,
        !emmc_present && path_exists ==> match first_sd_from(
            match *link_target {
                Some(target) => vstd::utf8::encode_utf8(target@),
                None => spath.spec_bytes(),
            },
            97,
        ) {
            Some(letter) => r is Ok && r->Ok_0@ == SD_PREFIX@.push(letter as char),
            None => r is Err && r->Err_0 == DriverError::DriverNotFound,
        },
{
    if emmc_present {
        return Ok(String::from_str(EMMC_TRAIT_FILE));
    }
    if !path_exists {
        return Err(DriverError::NoSuchPartitionFile);
    }
    let found = match link_target {
        Some(target) => match_sd_device(target.as_str()),
        None => match_sd_device(spath),
    };
    match found {
        Some(disk) => Ok(disk),
        None => Err(DriverError::DriverNotFound),
    }
}

/// The size in bytes of a block device whose size sysfs gives as `size_text`,
/// in units of 512 bytes; `None` where the text is no number or the size does
/// not fit in 64 bits.
pub fn read_block_dev_size(size_text: &str) -> (r: Option<u64>)
    ensures
        r == match parsed_number(size_text.spec_bytes()) {
            Some(units) => if units * 512 <= u64::MAX {
                Some((units * 512) as u64)
            } else {
                None
            },
            None => None,
        },
{
    match parse_number(size_text) {
        Some(units) => units.checked_mul(512),
        None => None,
    }
}

/// The bytes in a logical sector of a disk, which sysfs gives as `size_text`.
pub fn get_disk_sector_size(size_text: &str) -> (r: Option<u64>)
    ensures
        r == parsed_number(size_text.spec_bytes()),
{
    parse_number(size_text)
}

/// The logical sectors in a physical block of a disk.
pub fn get_disk_part_boundary_alignment(physical_block_size: u32, logical_block_size: u32) -> (r: u32)
    requires
        logical_block_size > 0,
    ensures
        r == physical_block_size / logical_block_size,
{
    physical_block_size / logical_block_size
}

/// An entry of the directory that maps partition names to device nodes.
#[derive(Debug)]
pub struct BlockDevice {
    /// The name of the entry: that of a partition.
    pub name: String,
    pub is_dir: bool,
    /// The size of the device behind the entry.
    pub size_bytes: u64,
}

/// What a `BlockDevice` stands for.
pub struct BlockDeviceView {
    pub name: Seq<char>,
    pub is_dir: bool,
    pub size_bytes: int,
}

impl View for BlockDevice {
    type V = BlockDeviceView;

    open spec fn view(&self) -> BlockDeviceView {
        BlockDeviceView { name: self.name@, is_dir: self.is_dir, size_bytes: self.size_bytes as int }
    }
}

/// The views of a list of directory entries.
pub open spec fn devices_view(devices: Seq<BlockDevice>) -> Seq<BlockDeviceView> {
    devices.map_values(|d: BlockDevice| d@)
}

/// Whether a directory entry counts as firmware: it is no directory, its
/// name is in neither list of excluded names, and its name does not hold the
/// name of user data.
pub open spec fn counts_as_firmware(
    d: BlockDeviceView,
    dev_names: Seq<Seq<char>>,
    ex_back_list: Seq<Seq<char>>,
) -> bool {
    &&& !d.is_dir
    &&& !dev_names.contains(d.name)
    &&& !ex_back_list.contains(d.name)
    &&& !contains_bytes(vstd::utf8::encode_utf8(d.name), USERDATA_NAME.spec_bytes())
}

/// The number of firmware partitions among the first `k` of `devices`, and
/// the bytes they hold together.
pub open spec fn firmware_total(
    devices: Seq<BlockDeviceView>,
    dev_names: Seq<Seq<char>>,
    ex_back_list: Seq<Seq<char>>,
    k: int,
) -> (int, int)
    decreases k,
{
    if k <= 0 {
        (0, 0)
    } else {
        let (num, bytes) = firmware_total(devices, dev_names, ex_back_list, k - 1);
        if counts_as_firmware(devices[k - 1], dev_names, ex_back_list) {
            (num + 1, bytes + devices[k - 1].size_bytes)
        } else {
            (num, bytes)
        }
    }
}

/// Why the size of the firmware could not be told.
#[derive(Clone, Copy, Debug, PartialEq, Eq, Structural)]
pub enum FirmwareError {
    /// No firmware partition holds a byte.
    Empty,
    /// The size does not fit in 64 bits.
    Arithmetic,
}

/// Whether a directory entry counts as firmware.
pub fn is_firmware(device: &BlockDevice, dev_names: &Vec<String>, ex_back_list: &Vec<String>) -> (r:
    bool)
    ensures
        r == counts_as_firmware(device@, names_view(dev_names@), names_view(ex_back_list@)),
{
    if device.is_dir {
        return false;
    }
    if contains_name(dev_names, &device.name) || contains_name(ex_back_list, &device.name) {
        return false;
    }
    let hay = device.name.as_str().as_bytes_vec();
    let needle = USERDATA_NAME.as_bytes_vec();
    !bytes_contain(&hay, &needle)
}

/// The totals never get smaller as more entries are counted.
pub proof fn lemma_firmware_total_grows(
    devices: Seq<BlockDeviceView>,
    dev_names: Seq<Seq<char>>,
    ex_back_list: Seq<Seq<char>>,
    k: int,
    n: int,
)
    requires
        0 <= k <= n <= devices.len(),
        forall|i: int| 0 <= i < devices.len() ==> (#[trigger] devices[i]).size_bytes >= 0,
    ensures
        firmware_total(devices, dev_names, ex_back_list, k).1 <= firmware_total(
            devices,
            dev_names,
            ex_back_list,
            n,
        ).1,
        0 <= firmware_total(devices, dev_names, ex_back_list, k).0 <= k,
    decreases n - k,
{
    if k < n {
        lemma_firmware_total_grows(devices, dev_names, ex_back_list, k, n - 1);
    }
    lemma_firmware_count(devices, dev_names, ex_back_list, k);
}

/// No more partitions are counted than were looked at.
pub proof fn lemma_firmware_count(
    devices: Seq<BlockDeviceView>,
    dev_names: Seq<Seq<char>>,
    ex_back_list: Seq<Seq<char>>,
    k: int,
)
    requires
        0 <= k,
    ensures
        0 <= firmware_total(devices, dev_names, ex_back_list, k).0 <= k,
    decreases k,
{
    if k > 0 {
        lemma_firmware_count(devices, dev_names, ex_back_list, k - 1);
    }
}

/// The size of the firmware: the number of partitions that count as
/// firmware among `devices`, and the bytes they hold together. `dev_names`
/// are the names of the files right in the device directory, `ex_back_list`
/// the names that the caller excludes; neither counts, nor does a directory
/// or an entry whose name holds the name of user data. Firmware of no bytes
/// is refused.
pub fn calculate_firmware_size(
    devices: &Vec<BlockDevice>,
    dev_names: &Vec<String>,
    ex_back_list: &Vec<String>,
) -> (r: Result<(u64, u64), FirmwareError>)
    ensures
        ({
            let (num, bytes) = firmware_total(
                devices_view(devices@),
                names_view(dev_names@),
                names_view(ex_back_list@),
                devices.len() as int,
            );
            if bytes > u64::MAX {
                r == Err::<(u64, u64), FirmwareError>(FirmwareError::Arithmetic)
            } else if bytes == 0 {
                r == Err::<(u64, u64), FirmwareError>(FirmwareError::Empty)
            } else {
                r == Ok::<(u64, u64), FirmwareError>((num as u64, bytes as u64))
            }
        }),
{
    let mut firmware_size: u64 = 0;
    let mut total_num: u64 = 0;
    let ghost dv = devices_view(devices@);
    let ghost names = names_view(dev_names@);
    let ghost excluded = names_view(ex_back_list@);
    let mut k: usize = 0;
    while k < devices.len()
        invariant
            k <= devices.len(),
            dv == devices_view(devices@),
            names == names_view(dev_names@),
            excluded == names_view(ex_back_list@),
            firmware_total(dv, names, excluded, k as int) == (total_num as int, firmware_size as int),
            total_num <= k,
        decreases devices.len() - k,
    {
        let device = &devices[k];
        assert(dv[k as int] == device@);
        if is_firmware(device, dev_names, ex_back_list) {
            firmware_size = match firmware_size.checked_add(device.size_bytes) {
                Some(s) => s,
                None => {
                    proof {
                        lemma_firmware_total_grows(
                            dv,
                            names,
                            excluded,
                            k + 1,
                            devices.len() as int,
                        );
                    }
                    return Err(FirmwareError::Arithmetic);
                },
            };
            total_num += 1;
        }
        k += 1;
    }
    if firmware_size == 0 {
        return Err(FirmwareError::Empty);
    }
    Ok((total_num, firmware_size))
}

/// The names of those of the first `k` of `devices` that are no directories.
pub open spec fn file_names(devices: Seq<BlockDeviceView>, k: int) -> Seq<Seq<char>>
    decreases k,
{
    if k <= 0 {
        Seq::empty()
    } else if devices[k - 1].is_dir {
        file_names(devices, k - 1)
    } else {
        file_names(devices, k - 1).push(devices[k - 1].name)
    }
}

/// The names of the entries of `devices` that are no directories.
pub fn get_block_dev_filenames(devices: &Vec<BlockDevice>) -> (r: Vec<String>)
    ensures
        names_view(r@) == file_names(devices_view(devices@), devices.len() as int),
{
    let mut out: Vec<String> = Vec::new();
    let ghost dv = devices_view(devices@);
    let mut k: usize = 0;
    proof {
        assert(names_view(out@) =~= Seq::empty());
    }
    while k < devices.len()
        invariant
            k <= devices.len(),
            dv == devices_view(devices@),
            names_view(out@) == file_names(dv, k as int),
        decreases devices.len() - k,
    {
        let device = &devices[k];
        assert(dv[k as int] == device@);
        if !device.is_dir {
            let ghost before = names_view(out@);
            out.push(device.name.clone());
            proof {
                assert(names_view(out@) =~= before.push(device@.name));
            }
        }
        k += 1;
    }
    out
}

} // verus!
