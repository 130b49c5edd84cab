//! The automatic layout: two slots carved out of one free extent.

use vstd::prelude::*;
use vstd::string::StringExecFns;
use crate::backup_factory::{
    code_of, lemma_sectors_for, margin_bytes, sectors_for, BackupTrait, BackupType,
};
use crate::constants::{USERDATA_MIN_SIZE, USERDATA_NAME};
use crate::math_support::{interval_relation, IntervalState};
use crate::gpt_helper::{align_up, alignment_partition, lemma_align_bounds, shrink_last};
use crate::metadata::{
    clone_names, metadata_len_sectors, metadata_sectors, names_view, targets_view,
    PartitionRawTarget, PartitionTargetView, Slot, SlotView,
};

verus! {

/// A live partition that every slot gets a copy of.
#[derive(Debug)]
pub struct DualPartition {
    pub name: String,
    pub first_lba: u64,
    pub last_lba: u64,
    /// Sector size of the disk on which the partition lives now.
    pub sector_size: u64,
    pub type_guid: String,
    pub flags: u64,
}

/// What a `DualPartition` stands for.
pub struct DualPartitionView {
    pub name: Seq<char>,
    pub first_lba: int,
    pub last_lba: int,
    pub sector_size: int,
    pub type_guid: Seq<char>,
    pub flags: int,
}

impl View for DualPartition {
    type V = DualPartitionView;

    open spec fn view(&self) -> DualPartitionView {
        DualPartitionView {
            name: self.name@,
            first_lba: self.first_lba as int,
            last_lba: self.last_lba as int,
            sector_size: self.sector_size as int,
            type_guid: self.type_guid@,
            flags: self.flags as int,
        }
    }
}

/// The views of a list of dual partitions.
pub open spec fn duals_view(duals: Seq<DualPartition>) -> Seq<DualPartitionView> {
    duals.map_values(|d: DualPartition| d@)
}

/// Why no layout was produced.
#[derive(Clone, Copy, Debug, PartialEq, Eq, Structural)]
pub enum LayoutError {
    /// The sector size of the target disk, or of the disk of a dual partition,
    /// is zero.
    ZeroSectorSize,
    /// Two dual partitions share a name, or one is named like user data.
    DuplicatePartition,
    /// A block address or a size does not fit in 64 bits.
    Arithmetic,
    /// No backup strategy passed its self-test.
    NoBackupType,
    /// The backup area is larger than the second half of the extent.
    NoSpaceForBackup,
    /// The first half cannot hold user data of the least size.
    NoSpaceForUserdata1,
    /// The second half cannot hold user data of the least size.
    NoSpaceForUserdata2,
}

impl LayoutError {
    /// The error says that the extent is too small.
    pub open spec fn is_not_enough_space(self) -> bool {
        self is NoSpaceForBackup || self is NoSpaceForUserdata1 || self is NoSpaceForUserdata2
    }

    /// Whether the error says that the extent is too small.
    pub fn not_enough_space(&self) -> (r: bool)
        ensures
            r == self.is_not_enough_space(),
    {
        match self {
            LayoutError::NoSpaceForBackup => true,
            LayoutError::NoSpaceForUserdata1 => true,
            LayoutError::NoSpaceForUserdata2 => true,
            _ => false,
        }
    }
}

/// `x` is a value of an unsigned 64-bit integer.
pub open spec fn fits(x: int) -> bool {
    0 <= x <= u64::MAX
}

/// The two halves of a free extent, each aligned to two sectors.
pub struct Halves {
    pub start1: int,
    pub end1: int,
    pub start2: int,
    pub end2: int,
    /// Sectors of the second half before alignment.
    pub p2_size: int,
}

/// Splits `[start, end]` into two halves, the second taking the odd sector,
/// and aligns both without growing them.
pub open spec fn split_halves(start: int, end: int) -> Option<Halves> {
    let total = end - start + 1;
    let p1_size = total / 2;
    let raw_end1 = start + p1_size - 1;
    let start1 = align_up(start, 2);
    let end1 = shrink_last(raw_end1, 2, true);
    let start2 = align_up(end1 + 1, 2);
    let end2 = shrink_last(end, 2, true);
    if start <= end && fits(total) && raw_end1 >= 0 && fits(start1) && end1 >= 0 && fits(start2)
        && end2 >= 0 {
        Some(Halves { start1, end1, start2, end2, p2_size: total - p1_size })
    } else {
        None
    }
}

/// Sectors of `sector` bytes reserved for a copy of `d`: as many as hold the
/// bytes of the live partition.
pub open spec fn dual_length(d: DualPartitionView, sector: int) -> Option<int> {
    let count = d.last_lba - d.first_lba + 1;
    let bytes = count * d.sector_size;
    if d.first_lba <= d.last_lba && fits(count) && fits(bytes) {
        Some(sectors_for(bytes as nat, sector as nat) as int)
    } else {
        None
    }
}

/// Every partition of `duals` lives on a disk whose sector size is not zero.
pub open spec fn dual_sectors_ok(duals: Seq<DualPartitionView>) -> bool {
    forall|i: int| 0 <= i < duals.len() ==> (#[trigger] duals[i]).sector_size > 0
}

/// Where a partition lands: its first and last sector, and the next free
/// sector after it.
pub struct Placed {
    pub start: int,
    pub end: int,
    pub next: int,
}

/// Where a partition of `length` sectors lands when the next free sector is
/// `pointer`: its first and last sector, and the next free sector after it.
pub open spec fn place_one(pointer: int, length: int) -> Option<Placed> {
    let start = align_up(pointer, 2);
    let end = shrink_last(pointer + length - 1, 2, true);
    if fits(pointer + length) && pointer + length >= 1 && fits(start) && end >= 0 && fits(end + 1) {
        Some(Placed { start, end, next: end + 1 })
    } else {
        None
    }
}

/// The copies of `duals` placed one after another from `pointer` on, and the
/// next free sector after the last of them.
pub open spec fn place_duals(
    duals: Seq<DualPartitionView>,
    sector: int,
    disk: Seq<char>,
    pointer: int,
) -> Option<(Seq<PartitionTargetView>, int)>
    decreases duals.len(),
{
    if duals.len() == 0 {
        Some((Seq::empty(), pointer))
    } else {
        let d = duals.last();
        match place_duals(duals.drop_last(), sector, disk, pointer) {
            Some((parts, next)) => match dual_length(d, sector) {
                Some(length) => match place_one(next, length) {
                    Some(placed) => Some(
                        (
                            parts.push(
                                PartitionTargetView {
                                    part_name: d.name,
                                    driver: disk,
                                    start_lba: placed.start,
                                    end_lba: placed.end,
                                    type_guid: d.type_guid,
                                    flags: d.flags,
                                },
                            ),
                            placed.next,
                        ),
                    ),
                    None => None,
                },
                None => None,
            },
            None => None,
        }
    }
}

/// The first sector of user data when the metadata record starts at `pointer`.
pub open spec fn userdata_start(pointer: int, sector: int) -> Option<int> {
    let raw = pointer + metadata_sectors(sector as nat);
    let start = align_up(raw, 2);
    if fits(raw) && fits(start) {
        Some(start)
    } else {
        None
    }
}

/// The names of `duals` are distinct and none is that of user data.
pub open spec fn dual_names_ok(duals: Seq<DualPartitionView>) -> bool {
    &&& forall|i: int, j: int|
        0 <= i < j < duals.len() ==> (#[trigger] duals[i]).name != (#[trigger] duals[j]).name
    &&& forall|i: int| 0 <= i < duals.len() ==> (#[trigger] duals[i]).name != USERDATA_NAME@
}

/// `names` followed by `x` unless it is there already.
pub open spec fn push_unique(names: Seq<Seq<char>>, x: Seq<char>) -> Seq<Seq<char>> {
    if names.contains(x) {
        names
    } else {
        names.push(x)
    }
}

/// `acc` followed by those of `items` that it lacks, each once.
pub open spec fn merge_unique(acc: Seq<Seq<char>>, items: Seq<Seq<char>>) -> Seq<Seq<char>>
    decreases items.len(),
{
    if items.len() == 0 {
        acc
    } else {
        push_unique(merge_unique(acc, items.drop_last()), items.last())
    }
}

/// The names of a list of dual partitions.
pub open spec fn dual_names(duals: Seq<DualPartitionView>) -> Seq<Seq<char>> {
    duals.map_values(|d: DualPartitionView| d.name)
}

/// The strategy that the planner settles on: the first of loop device,
/// partition and raw disk space that passes its self-test.
pub open spec fn preferred_backup_type() -> Option<BackupType> {
    if BackupType::Losetup.spec_test_passes() {
        Some(BackupType::Losetup)
    } else if BackupType::Partition.spec_test_passes() {
        Some(BackupType::Partition)
    } else if BackupType::BinarySpace.spec_test_passes() {
        Some(BackupType::BinarySpace)
    } else {
        None
    }
}

/// What the planner is given.
pub struct PlanInput {
    pub disk: Seq<char>,
    pub start_lba: int,
    pub end_lba: int,
    pub sector: int,
    pub exclude: Seq<Seq<char>>,
    pub duals: Seq<DualPartitionView>,
    pub userdata_type_guid: Seq<char>,
    pub userdata_flags: int,
    pub fw_size: nat,
}

impl PlanInput {
    /// The numbers are such as 64-bit block addresses and sizes can hold.
    pub open spec fn wf(self) -> bool {
        &&& fits(self.start_lba)
        &&& fits(self.end_lba)
        &&& fits(self.sector)
        &&& fits(self.fw_size as int)
        &&& forall|i: int|
            0 <= i < self.duals.len() ==> {
                &&& fits((#[trigger] self.duals[i]).first_lba)
                &&& fits(self.duals[i].last_lba)
                &&& fits(self.duals[i].sector_size)
            }
    }
}

/// What the planner produces: the two slots and the least size of a backup
/// area in sectors.
pub struct Plan {
    pub slot_a: SlotView,
    pub slot_b: SlotView,
    pub back_min: int,
}

/// The slot named `name` whose half ends at `end`, with the copies `parts`
/// placed before user data, which starts at `ud_start`.
pub open spec fn slot_of(
    input: PlanInput,
    name: Seq<char>,
    code: BackupType,
    parts: Seq<PartitionTargetView>,
    ud_start: int,
    end: int,
    back_min: int,
) -> SlotView {
    let ud_end = shrink_last(end - back_min, 2, true);
    SlotView {
        slot_name: name,
        backup_type_code: code_of(code) as int,
        backup_target: "none"@,
        backup_exclude_list: merge_unique(
            merge_unique(Seq::empty(), input.exclude),
            dual_names(input.duals),
        ),
        backup_target_start: ud_end + 1,
        backup_target_end: end,
        backup_target_attr: ""@,
        dyn_partition_set: parts.push(
            PartitionTargetView {
                part_name: USERDATA_NAME@,
                driver: input.disk,
                start_lba: ud_start,
                end_lba: ud_end,
                type_guid: input.userdata_type_guid,
                flags: input.userdata_flags,
            },
        ),
    }
}

/// Sectors that the least user data partition takes.
pub open spec fn userdata_min_sectors(sector: int) -> int {
    USERDATA_MIN_SIZE as int / sector
}

/// The layout for `input`, or the reason why there is none.
pub open spec fn plan_layout(input: PlanInput) -> Result<Plan, LayoutError> {
    if input.sector == 0 || !dual_sectors_ok(input.duals) {
        Err(LayoutError::ZeroSectorSize)
    } else if !dual_names_ok(input.duals) {
        Err(LayoutError::DuplicatePartition)
    } else if preferred_backup_type() is None {
        Err(LayoutError::NoBackupType)
    } else if split_halves(input.start_lba, input.end_lba) is None {
        Err(LayoutError::Arithmetic)
    } else {
        let h = split_halves(input.start_lba, input.end_lba)->0;
        let placed1 = place_duals(input.duals, input.sector, input.disk, h.start1);
        let placed2 = place_duals(input.duals, input.sector, input.disk, h.start2);
        if placed1 is None || placed2 is None {
            Err(LayoutError::Arithmetic)
        } else {
            let (parts1, next1) = placed1->0;
            let (parts2, next2) = placed2->0;
            let ud1 = userdata_start(next1, input.sector);
            let ud2 = userdata_start(next2, input.sector);
            let back_min = sectors_for(margin_bytes(input.fw_size), input.sector as nat) as int;
            if ud1 is None || ud2 is None || margin_bytes(input.fw_size) > u64::MAX {
                Err(LayoutError::Arithmetic)
            } else if back_min > h.p2_size {
                Err(LayoutError::NoSpaceForBackup)
            } else if ud1->0 + userdata_min_sectors(input.sector) + back_min > h.end1 {
                Err(LayoutError::NoSpaceForUserdata1)
            } else if ud2->0 + userdata_min_sectors(input.sector) + back_min > h.end2 {
                Err(LayoutError::NoSpaceForUserdata2)
            } else if !fits(shrink_last(h.end1 - back_min, 2, true) + 1) || !fits(
                shrink_last(h.end2 - back_min, 2, true) + 1,
            ) {
                Err(LayoutError::Arithmetic)
            } else {
                let code = preferred_backup_type()->0;
                Ok(
                    Plan {
                        slot_a: slot_of(input, "a"@, code, parts1, ud1->0, h.end1, back_min),
                        slot_b: slot_of(input, "b"@, code, parts2, ud2->0, h.end2, back_min),
                        back_min,
                    },
                )
            }
        }
    }
}

/// The bounds of an aligned range.
#[derive(Clone, Copy, Debug)]
pub struct Aligned {
    pub first: u64,
    pub last: u64,
}

/// The two aligned halves of a free extent.
#[derive(Clone, Copy, Debug)]
pub struct HalfBounds {
    pub start1: u64,
    pub end1: u64,
    pub start2: u64,
    pub end2: u64,
    /// Sectors of the second half before alignment.
    pub p2_size: u64,
}

impl View for HalfBounds {
    type V = Halves;

    open spec fn view(&self) -> Halves {
        Halves {
            start1: self.start1 as int,
            end1: self.end1 as int,
            start2: self.start2 as int,
            end2: self.end2 as int,
            p2_size: self.p2_size as int,
        }
    }
}

/// Where one partition was placed.
#[derive(Clone, Copy, Debug)]
pub struct Placement {
    pub start: u64,
    pub end: u64,
    /// The next free sector after the partition.
    pub next: u64,
}

impl View for Placement {
    type V = Placed;

    open spec fn view(&self) -> Placed {
        Placed { start: self.start as int, end: self.end as int, next: self.next as int }
    }
}

/// The copies of the dual partitions of one slot.
#[derive(Debug)]
pub struct PlacedDuals {
    pub parts: Vec<PartitionRawTarget>,
    /// The next free sector after the last copy.
    pub next: u64,
}

/// Aligns `[first, last]` to two sectors where the result can be written
/// down: a first sector that fits in 64 bits and a last one that is not
/// negative.
pub fn try_align(first: u64, last: u64, shrink: bool) -> (r: Option<Aligned>)
    ensures
        r is Some <==> fits(align_up(first as int, 2)) && shrink_last(last as int, 2, shrink) >= 0,
        r is Some ==> r->0.first == align_up(first as int, 2) && r->0.last == shrink_last(
            last as int,
            2,
            shrink,
        ),
{
    if first == u64::MAX {
        return None;
    }
    if shrink && last == 0 {
        return None;
    }
    let mut aligned_first = first;
    let mut aligned_last = last;
    alignment_partition(&mut aligned_first, &mut aligned_last, 2, shrink);
    Some(Aligned { first: aligned_first, last: aligned_last })
}

/// Splits `[start_lba, end_lba]` in two aligned halves.
pub fn split_in_halves(start_lba: u64, end_lba: u64) -> (r: Option<HalfBounds>)
    ensures
        r is Some <==> split_halves(start_lba as int, end_lba as int) is Some,
        r is Some ==> split_halves(start_lba as int, end_lba as int) == Some(r->0@),
{
    if end_lba < start_lba {
        return None;
    }
    let total = match (end_lba - start_lba).checked_add(1) {
        Some(t) => t,
        None => {
            return None;
        },
    };
    let p1_size = total / 2;
    let p2_size = total - p1_size;
    if start_lba + p1_size == 0 {
        return None;
    }
    let p1_end = start_lba + p1_size - 1;
    let first = match try_align(start_lba, p1_end, true) {
        Some(pair) => pair,
        None => {
            return None;
        },
    };
    let second = match try_align(first.last + 1, end_lba, true) {
        Some(pair) => pair,
        None => {
            return None;
        },
    };
    Some(
        HalfBounds {
            start1: first.first,
            end1: first.last,
            start2: second.first,
            end2: second.last,
            p2_size,
        },
    )
}

/// Sectors of `sector` bytes reserved for a copy of `d`.
pub fn dual_partition_length(d: &DualPartition, sector: u64) -> (r: Option<u64>)
    requires
        sector > 0,
    ensures
        r is Some <==> dual_length(d@, sector as int) is Some,
        r is Some ==> dual_length(d@, sector as int) == Some(r->0 as int),
{
    if d.last_lba < d.first_lba {
        return None;
    }
    let count = match (d.last_lba - d.first_lba).checked_add(1) {
        Some(c) => c,
        None => {
            return None;
        },
    };
    let bytes = match count.checked_mul(d.sector_size) {
        Some(b) => b,
        None => {
            return None;
        },
    };
    proof {
        lemma_sectors_for(bytes as nat, sector as nat);
    }
    let mut length_lba = bytes / sector;
    if bytes % sector != 0 {
        length_lba += 1;
    }
    Some(length_lba)
}

/// Places a partition of `length` sectors at the next free sector `pointer`.
pub fn place_partition(pointer: u64, length: u64) -> (r: Option<Placement>)
    ensures
        r is Some <==> place_one(pointer as int, length as int) is Some,
        r is Some ==> place_one(pointer as int, length as int) == Some(r->0@),
{
    let past = match pointer.checked_add(length) {
        Some(p) => p,
        None => {
            return None;
        },
    };
    if past == 0 {
        return None;
    }
    let aligned = match try_align(pointer, past - 1, true) {
        Some(pair) => pair,
        None => {
            return None;
        },
    };
    match aligned.last.checked_add(1) {
        Some(next) => Some(Placement { start: aligned.first, end: aligned.last, next }),
        None => None,
    }
}

/// Places a copy of every partition of `duals` on `target_disk`, one after
/// another from `pointer` on.
pub fn place_dual_partitions(
    duals: &Vec<DualPartition>,
    sector: u64,
    target_disk: &str,
    pointer: u64,
) -> (r: Option<PlacedDuals>)
    requires
        sector > 0,
    ensures
        r is Some <==> place_duals(duals_view(duals@), sector as int, target_disk@, pointer as int)
            is Some,
        r is Some ==> place_duals(duals_view(duals@), sector as int, target_disk@, pointer as int)
            == Some((targets_view(r->0.parts@), r->0.next as int)),
{
    let mut parts: Vec<PartitionRawTarget> = Vec::new();
    let mut next = pointer;
    let mut i: usize = 0;
    proof {
        assert(duals_view(duals@).take(0) =~= Seq::empty());
        assert(targets_view(parts@) =~= Seq::empty());
    }
    while i < duals.len()
        invariant
            sector > 0,
            i <= duals.len(),
            place_duals(duals_view(duals@).take(i as int), sector as int, target_disk@, pointer as int)
                == Some((targets_view(parts@), next as int)),
        decreases duals.len() - i,
    {
        let d = &duals[i];
        let ghost prefix = duals_view(duals@).take(i as int);
        let ghost longer = duals_view(duals@).take(i + 1);
        proof {
            assert(longer.drop_last() =~= prefix);
            assert(longer.last() == d@);
            if place_duals(longer, sector as int, target_disk@, pointer as int) is None {
                lemma_place_duals_prefix(
                    duals_view(duals@),
                    sector as int,
                    target_disk@,
                    pointer as int,
                    i + 1,
                );
            }
        }
        let length = match dual_partition_length(d, sector) {
            Some(l) => l,
            None => {
                return None;
            },
        };
        let placed = match place_partition(next, length) {
            Some(p) => p,
            None => {
                return None;
            },
        };
        let ghost before = targets_view(parts@);
        let part = PartitionRawTarget {
            part_name: d.name.clone(),
            driver: String::from_str(target_disk),
            start_lba: placed.start,
            end_lba: placed.end,
            type_guid: d.type_guid.clone(),
            flags: d.flags,
        };
        parts.push(part);
        proof {
            assert(targets_view(parts@) =~= before.push(part@));
        }
        next = placed.next;
        i += 1;
    }
    proof {
        assert(duals_view(duals@).take(duals.len() as int) =~= duals_view(duals@));
    }
    Some(PlacedDuals { parts, next })
}

/// Where a prefix of the partitions cannot be placed, neither can all of them.
pub proof fn lemma_place_duals_prefix(
    duals: Seq<DualPartitionView>,
    sector: int,
    disk: Seq<char>,
    pointer: int,
    n: int,
)
    requires
        0 <= n <= duals.len(),
        place_duals(duals.take(n), sector, disk, pointer) is None,
    ensures
        place_duals(duals, sector, disk, pointer) is None,
    decreases duals.len(),
{
    if n == duals.len() {
        assert(duals.take(n) =~= duals);
    } else {
        assert(duals.drop_last().take(n) =~= duals.take(n));
        lemma_place_duals_prefix(duals.drop_last(), sector, disk, pointer, n);
    }
}

/// The first sector of user data when the metadata record starts at `pointer`.
pub fn userdata_start_after(pointer: u64, sector: u64) -> (r: Option<u64>)
    requires
        sector > 0,
    ensures
        r is Some <==> userdata_start(pointer as int, sector as int) is Some,
        r is Some ==> userdata_start(pointer as int, sector as int) == Some(r->0 as int),
        r is Some ==> r->0 >= 1 && r->0 % 2 == 0,
{
    let len = metadata_len_sectors(sector);
    proof {
        lemma_align_bounds(pointer + len, 0, 2, false);
    }
    let raw = match pointer.checked_add(len) {
        Some(x) => x,
        None => {
            return None;
        },
    };
    match try_align(raw, 0, false) {
        Some(aligned) => Some(aligned.first),
        None => None,
    }
}

/// Whether every partition of `duals` lives on a disk whose sector size is
/// not zero.
pub fn check_dual_sectors(duals: &Vec<DualPartition>) -> (r: bool)
    ensures
        r == dual_sectors_ok(duals_view(duals@)),
{
    let mut i: usize = 0;
    while i < duals.len()
        invariant
            i <= duals.len(),
            forall|a: int| 0 <= a < i ==> (#[trigger] duals_view(duals@)[a]).sector_size > 0,
        decreases duals.len() - i,
    {
        if duals[i].sector_size == 0 {
            assert(duals_view(duals@)[i as int].sector_size == 0);
            return false;
        }
        i += 1;
    }
    true
}

/// Whether the names of `duals` are distinct and none is that of user data.
pub fn check_dual_names(duals: &Vec<DualPartition>) -> (r: bool)
    ensures
        r == dual_names_ok(duals_view(duals@)),
{
    let userdata = String::from_str(USERDATA_NAME);
    let mut i: usize = 0;
    while i < duals.len()
        invariant
            i <= duals.len(),
            userdata@ == USERDATA_NAME@,
            forall|a: int, b: int|
                0 <= a < b < i ==> (#[trigger] duals_view(duals@)[a]).name != (
                #[trigger] duals_view(duals@)[b]).name,
            forall|a: int| 0 <= a < i ==> (#[trigger] duals_view(duals@)[a]).name != USERDATA_NAME@,
        decreases duals.len() - i,
    {
        if duals[i].name == userdata {
            assert(duals_view(duals@)[i as int].name == USERDATA_NAME@);
            return false;
        }
        let mut j: usize = 0;
        while j < i
            invariant
                j <= i < duals.len(),
                forall|a: int|
                    0 <= a < j ==> (#[trigger] duals_view(duals@)[a]).name != duals_view(
                        duals@,
                    )[i as int].name,
            decreases i - j,
        {
            if duals[j].name == duals[i].name {
                assert(duals_view(duals@)[j as int].name == duals_view(duals@)[i as int].name);
                return false;
            }
            j += 1;
        }
        i += 1;
    }
    true
}

/// Whether `names` holds `x`.
pub fn contains_name(names: &Vec<String>, x: &String) -> (r: bool)
    ensures
        r == names_view(names@).contains(x@),
{
    let mut i: usize = 0;
    while i < names.len()
        invariant
            i <= names.len(),
            forall|j: int| 0 <= j < i ==> (#[trigger] names_view(names@)[j]) != x@,
        decreases names.len() - i,
    {
        if names[i] == *x {
            assert(names_view(names@)[i as int] == x@);
            return true;
        }
        i += 1;
    }
    false
}

/// Appends to `acc` those of `items` that it lacks, each once.
pub fn merge_names(acc: Vec<String>, items: &Vec<String>) -> (r: Vec<String>)
    ensures
        names_view(r@) == merge_unique(names_view(acc@), names_view(items@)),
{
    let mut out = acc;
    let mut i: usize = 0;
    proof {
        assert(names_view(items@).take(0) =~= Seq::empty());
    }
    while i < items.len()
        invariant
            i <= items.len(),
            names_view(out@) == merge_unique(names_view(acc@), names_view(items@).take(i as int)),
        decreases items.len() - i,
    {
        proof {
            let longer = names_view(items@).take(i + 1);
            assert(longer.drop_last() =~= names_view(items@).take(i as int));
            assert(longer.last() == items@[i as int]@);
        }
        if !contains_name(&out, &items[i]) {
            let ghost before = names_view(out@);
            out.push(items[i].clone());
            proof {
                assert(names_view(out@) =~= before.push(items@[i as int]@));
            }
        }
        i += 1;
    }
    proof {
        assert(names_view(items@).take(items.len() as int) =~= names_view(items@));
    }
    out
}

/// The names that never count as firmware: those of `exclude_files` and those
/// of the dual partitions, each once.
pub fn merge_exclude_lists(exclude_files: &Vec<String>, dual_files: &Vec<String>) -> (r: Vec<String>)
    ensures
        names_view(r@) == merge_unique(
            merge_unique(Seq::empty(), names_view(exclude_files@)),
            names_view(dual_files@),
        ),
{
    let empty: Vec<String> = Vec::new();
    proof {
        assert(names_view(empty@) =~= Seq::empty());
    }
    let first = merge_names(empty, exclude_files);
    merge_names(first, dual_files)
}

/// A merged list holds no name twice, and holds exactly the names of both lists.
pub proof fn lemma_merge_unique(acc: Seq<Seq<char>>, items: Seq<Seq<char>>)
    requires
        acc.no_duplicates(),
    ensures
        merge_unique(acc, items).no_duplicates(),
        forall|x: Seq<char>|
            merge_unique(acc, items).contains(x) <==> acc.contains(x) || items.contains(x),
    decreases items.len(),
{
    if items.len() > 0 {
        let rest = items.drop_last();
        let last = items.last();
        lemma_merge_unique(acc, rest);
        let merged = merge_unique(acc, rest);
        assert forall|x: Seq<char>|
            merge_unique(acc, items).contains(x) <==> acc.contains(x) || items.contains(x) by {
            if items.contains(x) {
                let k = choose|k: int| 0 <= k < items.len() && items[k] == x;
                if k < items.len() - 1 {
                    assert(rest[k] == x);
                }
            }
            if rest.contains(x) {
                let k = choose|k: int| 0 <= k < rest.len() && rest[k] == x;
                assert(items[k] == x);
            }
            if !merged.contains(last) {
                let longer = merged.push(last);
                assert(longer[merged.len() as int] == last);
                if merged.contains(x) {
                    let k = choose|k: int| 0 <= k < merged.len() && merged[k] == x;
                    assert(longer[k] == x);
                }
            }
            assert(items[items.len() - 1] == last);
        }
    }
}

/// The names of `duals`, in their order.
pub fn dual_partition_names(duals: &Vec<DualPartition>) -> (r: Vec<String>)
    ensures
        names_view(r@) == dual_names(duals_view(duals@)),
{
    let mut out: Vec<String> = Vec::new();
    let mut i: usize = 0;
    while i < duals.len()
        invariant
            i <= duals.len(),
            out.len() == i,
            forall|j: int| 0 <= j < i ==> out@[j]@ == duals@[j].name@,
        decreases duals.len() - i,
    {
        out.push(duals[i].name.clone());
        i += 1;
    }
    proof {
        assert(names_view(out@) =~= dual_names(duals_view(duals@)));
    }
    out
}

/// Settles on a backup strategy: the first of loop device, partition and raw
/// disk space that passes its self-test.
pub fn select_backup_type() -> (r: Option<BackupType>)
    ensures
        r == preferred_backup_type(),
{
    let mut backup_type = BackupType::Losetup;
    if backup_type.test(None).is_err() {
        backup_type = BackupType::Partition;
    }
    if backup_type.test(None).is_err() {
        backup_type = BackupType::BinarySpace;
    }
    if backup_type.test(None).is_err() {
        return None;
    }
    Some(backup_type)
}

/// The arguments of the planner as plain values.
pub open spec fn plan_input(
    target_disk: &str,
    start_lba: u64,
    end_lba: u64,
    sector: u64,
    exclude_files: Seq<String>,
    dual_list: Seq<DualPartition>,
    userdata_type_guid: &str,
    userdata_flags: u64,
    fw_size: u64,
) -> PlanInput {
    PlanInput {
        disk: target_disk@,
        start_lba: start_lba as int,
        end_lba: end_lba as int,
        sector: sector as int,
        exclude: names_view(exclude_files),
        duals: duals_view(dual_list),
        userdata_type_guid: userdata_type_guid@,
        userdata_flags: userdata_flags as int,
        fw_size: fw_size as nat,
    }
}

/// Lays out two slots, "a" and "b", in the free extent `[start_lba, end_lba]`
/// of `target_disk`, whose sectors hold `sector` bytes. Each slot gets one
/// half of the extent: first a copy of every partition of `dual_list`, then
/// room for the metadata record, then user data, and at the end a backup area
/// sized for `fw_size` bytes of firmware. On success the least size of a
/// backup area, in sectors, is written to `_back_min_size_sector`.
pub fn auto_layout_freespace_example(
    target_disk: &str,
    start_lba: u64,
    end_lba: u64,
    sector: u64,
    exclude_files: &Vec<String>,
    dual_list: &Vec<DualPartition>,
    userdata_type_guid: &str,
    userdata_flags: u64,
    fw_size: u64,
    _back_min_size_sector: &mut u64,
) -> (r: Result<(Slot, Slot), LayoutError>)
    ensures
        match plan_layout(
            plan_input(
                target_disk,
                start_lba,
                end_lba,
                sector,
                exclude_files@,
                dual_list@,
                userdata_type_guid,
                userdata_flags,
                fw_size,
            ),
        ) {
            Ok(plan) => match r {
                Ok((slot_a, slot_b)) => {
                    &&& slot_a@ == plan.slot_a
                    &&& slot_b@ == plan.slot_b
                    &&& *final(_back_min_size_sector) == plan.back_min
                },
                Err(_) => false,
            },
            Err(e) => r == Err::<(Slot, Slot), LayoutError>(e) && *final(_back_min_size_sector)
                == *old(_back_min_size_sector),
        },
{
    let ghost input = plan_input(
        target_disk,
        start_lba,
        end_lba,
        sector,
        exclude_files@,
        dual_list@,
        userdata_type_guid,
        userdata_flags,
        fw_size,
    );
    if sector == 0 || !check_dual_sectors(dual_list) {
        return Err(LayoutError::ZeroSectorSize);
    }
    if !check_dual_names(dual_list) {
        return Err(LayoutError::DuplicatePartition);
    }
    let backup_type = match select_backup_type() {
        Some(t) => t,
        None => {
            return Err(LayoutError::NoBackupType);
        },
    };
    let halves = match split_in_halves(start_lba, end_lba) {
        Some(h) => h,
        None => {
            return Err(LayoutError::Arithmetic);
        },
    };
    let placed1 = place_dual_partitions(dual_list, sector, target_disk, halves.start1);
    let placed2 = place_dual_partitions(dual_list, sector, target_disk, halves.start2);
    let (placed1, placed2) = match (placed1, placed2) {
        (Some(p1), Some(p2)) => (p1, p2),
        _ => {
            return Err(LayoutError::Arithmetic);
        },
    };
    let ud1 = userdata_start_after(placed1.next, sector);
    let ud2 = userdata_start_after(placed2.next, sector);
    let (ud1, ud2) = match (ud1, ud2) {
        (Some(u1), Some(u2)) => (u1, u2),
        _ => {
            return Err(LayoutError::Arithmetic);
        },
    };
    let margin: u128 = (fw_size as u128 * 11 + 9) / 10;
    if margin > u64::MAX as u128 {
        return Err(LayoutError::Arithmetic);
    }
    let back_min = backup_type.guess_backup_target_partition_size_sector(fw_size, sector);
    if back_min > halves.p2_size {
        return Err(LayoutError::NoSpaceForBackup);
    }
    let userdata_min = USERDATA_MIN_SIZE / sector;
    if ud1 as u128 + userdata_min as u128 + back_min as u128 > halves.end1 as u128 {
        return Err(LayoutError::NoSpaceForUserdata1);
    }
    if ud2 as u128 + userdata_min as u128 + back_min as u128 > halves.end2 as u128 {
        return Err(LayoutError::NoSpaceForUserdata2);
    }
    if halves.end1 - back_min == u64::MAX || halves.end2 - back_min == u64::MAX {
        return Err(LayoutError::Arithmetic);
    }
    let exclude = merge_exclude_lists(exclude_files, &dual_partition_names(dual_list));
    let slot_a = build_slot(
        "a",
        backup_type,
        target_disk,
        clone_names(&exclude),
        placed1.parts,
        ud1,
        halves.end1,
        back_min,
        userdata_type_guid,
        userdata_flags,
    );
    let slot_b = build_slot(
        "b",
        backup_type,
        target_disk,
        exclude,
        placed2.parts,
        ud2,
        halves.end2,
        back_min,
        userdata_type_guid,
        userdata_flags,
    );
    *_back_min_size_sector = back_min;
    Ok((slot_a, slot_b))
}

/// One slot of the layout: the copies `parts`, user data from `ud_start` up
/// to the backup area, and the backup area of at least `back_min` sectors at
/// the end of the half that ends at `end`.
fn build_slot(
    name: &str,
    backup_type: BackupType,
    target_disk: &str,
    exclude: Vec<String>,
    parts: Vec<PartitionRawTarget>,
    ud_start: u64,
    end: u64,
    back_min: u64,
    userdata_type_guid: &str,
    userdata_flags: u64,
) -> (r: Slot)
    requires
        ud_start % 2 == 0,
        ud_start >= 1,
        ud_start + back_min <= end,
        end - back_min < u64::MAX,
    ensures
        r@ == (SlotView {
            slot_name: name@,
            backup_type_code: code_of(backup_type) as int,
            backup_target: "none"@,
            backup_exclude_list: names_view(exclude@),
            backup_target_start: shrink_last(end - back_min, 2, true) + 1,
            backup_target_end: end as int,
            backup_target_attr: ""@,
            dyn_partition_set: targets_view(parts@).push(
                PartitionTargetView {
                    part_name: USERDATA_NAME@,
                    driver: target_disk@,
                    start_lba: ud_start as int,
                    end_lba: shrink_last(end - back_min, 2, true),
                    type_guid: userdata_type_guid@,
                    flags: userdata_flags as int,
                },
            ),
        }),
{
    let mut userdata_start_lba = ud_start;
    let mut userdata_end = end - back_min;
    alignment_partition(&mut userdata_start_lba, &mut userdata_end, 2, true);
    let userdata = PartitionRawTarget {
        part_name: String::from_str(USERDATA_NAME),
        driver: String::from_str(target_disk),
        start_lba: userdata_start_lba,
        end_lba: userdata_end,
        type_guid: String::from_str(userdata_type_guid),
        flags: userdata_flags,
    };
    let backup_start = userdata_end + 1;
    let mut parts = parts;
    let ghost before = targets_view(parts@);
    parts.push(userdata);
    proof {
        assert(targets_view(parts@) =~= before.push(userdata@));
    }
    Slot {
        slot_name: String::from_str(name),
        backup_type_code: BackupType::type2code(backup_type),
        backup_target: String::from_str("none"),
        backup_exclude_list: exclude,
        backup_target_start: backup_start,
        backup_target_end: end,
        backup_target_attr: String::from_str(""),
        dyn_partition_set: parts,
    }
}

/// The range of `p` ends before that of `q` starts.
pub open spec fn lies_before(p: PartitionTargetView, q: PartitionTargetView) -> bool {
    p.end_lba < q.start_lba
}

/// The ranges `[s1, e1]` and `[s2, e2]` share no sector.
pub open spec fn ranges_disjoint(s1: int, e1: int, s2: int, e2: int) -> bool {
    interval_relation(s1, e1, s2, e2) == IntervalState::Disjoint
}

/// Copies placed from `pointer` on keep the order and the names of the
/// partitions they were made from, lie on the target disk, follow one another
/// without sharing a sector, and stay between `pointer` and the next free
/// sector.
pub proof fn lemma_place_duals_ordered(
    duals: Seq<DualPartitionView>,
    sector: int,
    disk: Seq<char>,
    pointer: int,
)
    requires
        sector > 0,
        pointer >= 0,
        dual_sectors_ok(duals),
        place_duals(duals, sector, disk, pointer) is Some,
    ensures
        ({
            let (parts, next) = place_duals(duals, sector, disk, pointer)->0;
            &&& parts.len() == duals.len()
            &&& pointer <= next
            &&& forall|i: int|
                0 <= i < parts.len() ==> {
                    &&& (#[trigger] parts[i]).part_name == duals[i].name
                    &&& parts[i].driver == disk
                    &&& pointer <= parts[i].start_lba
                    &&& parts[i].end_lba < next
                }
            &&& forall|i: int, j: int|
                0 <= i < j < parts.len() ==> lies_before(#[trigger] parts[i], #[trigger] parts[j])
        }),
    decreases duals.len(),
{
    if duals.len() > 0 {
        let rest = duals.drop_last();
        let d = duals.last();
        lemma_place_duals_ordered(rest, sector, disk, pointer);
        let (before, mid) = place_duals(rest, sector, disk, pointer)->0;
        let length = dual_length(d, sector)->0;
        let placed = place_one(mid, length)->0;
        let (parts, next) = place_duals(duals, sector, disk, pointer)->0;
        assert(length >= 1) by {
            let bytes = (d.last_lba - d.first_lba + 1) * d.sector_size;
            assert(duals[duals.len() - 1].sector_size > 0);
            assert(bytes >= 1) by (nonlinear_arith)
                requires
                    bytes == (d.last_lba - d.first_lba + 1) * d.sector_size,
                    d.last_lba - d.first_lba + 1 >= 1,
                    d.sector_size >= 1,
            ;
            lemma_sectors_for(bytes as nat, sector as nat);
            assert(sectors_for(bytes as nat, sector as nat) >= 1) by (nonlinear_arith)
                requires
                    sectors_for(bytes as nat, sector as nat) * sector >= bytes,
                    bytes >= 1,
                    sector > 0,
            ;
        }
        lemma_align_bounds(mid, mid + length - 1, 2, true);
        assert(parts == before.push(parts[before.len() as int]));
        assert forall|i: int| 0 <= i < parts.len() implies {
            &&& (#[trigger] parts[i]).part_name == duals[i].name
            &&& parts[i].driver == disk
            &&& pointer <= parts[i].start_lba
            &&& parts[i].end_lba < next
        } by {
            if i < before.len() {
                assert(parts[i] == before[i]);
                assert(duals[i] == rest[i]);
            }
        }
        assert forall|i: int, j: int| 0 <= i < j < parts.len() implies lies_before(
            #[trigger] parts[i],
            #[trigger] parts[j],
        ) by {
            assert(parts[i] == before[i]);
            if j < before.len() {
                assert(parts[j] == before[j]);
            }
        }
    }
}

/// Every partition of a layout, those of slot "a" first.
pub open spec fn all_targets(plan: Plan) -> Seq<PartitionTargetView> {
    plan.slot_a.dyn_partition_set + plan.slot_b.dyn_partition_set
}

/// The first and last sector of user data in `slot`: its last partition.
pub open spec fn userdata_of(slot: SlotView) -> PartitionTargetView {
    slot.dyn_partition_set.last()
}

/// What holds of every layout that the planner produces: each slot places
/// every partition once, user data last; no two partitions of the two slots
/// share a sector, and none shares a sector with a backup area; the two
/// backup areas share no sector; each backup area holds at least the sectors
/// that the firmware asks for; and each user data partition holds at least
/// the least size in whole sectors, so at least 5 GiB where the sector size
/// divides 5 GiB.
pub proof fn lemma_layout_is_sound(input: PlanInput)
    requires
        input.wf(),
        plan_layout(input) is Ok,
    ensures
        ({
            let plan = plan_layout(input)->Ok_0;
            let all = all_targets(plan);
            let a = plan.slot_a;
            let b = plan.slot_b;
            &&& a.wf() && b.wf()
            &&& userdata_of(a).part_name == USERDATA_NAME@
            &&& userdata_of(b).part_name == USERDATA_NAME@
            &&& forall|i: int, j: int|
                0 <= i < j < all.len() ==> ranges_disjoint(
                    (#[trigger] all[i]).start_lba,
                    all[i].end_lba,
                    (#[trigger] all[j]).start_lba,
                    all[j].end_lba,
                )
            &&& forall|i: int|
                0 <= i < all.len() ==> {
                    &&& ranges_disjoint(
                        (#[trigger] all[i]).start_lba,
                        all[i].end_lba,
                        a.backup_target_start,
                        a.backup_target_end,
                    )
                    &&& ranges_disjoint(
                        all[i].start_lba,
                        all[i].end_lba,
                        b.backup_target_start,
                        b.backup_target_end,
                    )
                }
            &&& ranges_disjoint(
                a.backup_target_start,
                a.backup_target_end,
                b.backup_target_start,
                b.backup_target_end,
            )
            &&& a.backup_target_end - a.backup_target_start + 1 >= plan.back_min
            &&& b.backup_target_end - b.backup_target_start + 1 >= plan.back_min
            &&& userdata_of(a).end_lba - userdata_of(a).start_lba + 1 >= userdata_min_sectors(
                input.sector,
            )
            &&& userdata_of(b).end_lba - userdata_of(b).start_lba + 1 >= userdata_min_sectors(
                input.sector,
            )
            &&& USERDATA_MIN_SIZE as int % input.sector == 0 ==> {
                &&& (userdata_of(a).end_lba - userdata_of(a).start_lba + 1) * input.sector
                    >= USERDATA_MIN_SIZE
                &&& (userdata_of(b).end_lba - userdata_of(b).start_lba + 1) * input.sector
                    >= USERDATA_MIN_SIZE
            }
        }),
{
    let plan = plan_layout(input)->Ok_0;
    let h = split_halves(input.start_lba, input.end_lba)->0;
    let sector = input.sector;
    let (parts1, next1) = place_duals(input.duals, sector, input.disk, h.start1)->0;
    let (parts2, next2) = place_duals(input.duals, sector, input.disk, h.start2)->0;
    let ud1 = userdata_start(next1, sector)->0;
    let ud2 = userdata_start(next2, sector)->0;
    let back_min = plan.back_min;
    let a = plan.slot_a;
    let b = plan.slot_b;
    let all = all_targets(plan);
    let total = input.end_lba - input.start_lba + 1;
    lemma_align_bounds(input.start_lba, input.start_lba + total / 2 - 1, 2, true);
    lemma_align_bounds(h.end1 + 1, input.end_lba, 2, true);
    lemma_place_duals_ordered(input.duals, sector, input.disk, h.start1);
    lemma_place_duals_ordered(input.duals, sector, input.disk, h.start2);
    lemma_align_bounds(next1 + metadata_sectors(sector as nat), 0, 2, false);
    lemma_align_bounds(next2 + metadata_sectors(sector as nat), 0, 2, false);
    let exclude = merge_unique(Seq::empty(), input.exclude);
    lemma_merge_unique(Seq::empty(), input.exclude);
    lemma_merge_unique(exclude, dual_names(input.duals));
    let n1 = parts1.len() as int;
    let n2 = parts2.len() as int;
    assert(a.dyn_partition_set.len() == n1 + 1 && b.dyn_partition_set.len() == n2 + 1);
    assert forall|i: int, j: int| 0 <= i < j < a.dyn_partition_set.len() implies (
    #[trigger] a.dyn_partition_set[i]).part_name != (#[trigger] a.dyn_partition_set[j]).part_name by {
        assert(a.dyn_partition_set[i] == parts1[i]);
        if j < n1 {
            assert(a.dyn_partition_set[j] == parts1[j]);
        }
    }
    assert forall|i: int, j: int| 0 <= i < j < b.dyn_partition_set.len() implies (
    #[trigger] b.dyn_partition_set[i]).part_name != (#[trigger] b.dyn_partition_set[j]).part_name by {
        assert(b.dyn_partition_set[i] == parts2[i]);
        if j < n2 {
            assert(b.dyn_partition_set[j] == parts2[j]);
        }
    }
    // Every range of slot "a" lies in [start1, end1], every range of slot "b"
    // in [start2, end2], and within a slot the ranges follow one another.
    assert forall|i: int| 0 <= i < all.len() implies {
        &&& i < n1 ==> (#[trigger] all[i]) == parts1[i]
        &&& i == n1 ==> all[i] == userdata_of(a)
        &&& n1 < i <= n1 + n2 ==> all[i] == parts2[i - n1 - 1]
        &&& i == n1 + n2 + 1 ==> all[i] == userdata_of(b)
    } by {
        if i <= n1 {
            assert(all[i] == a.dyn_partition_set[i]);
        } else {
            assert(all[i] == b.dyn_partition_set[i - n1 - 1]);
        }
    }
    assert forall|i: int, j: int| 0 <= i < j < all.len() implies ranges_disjoint(
        (#[trigger] all[i]).start_lba,
        all[i].end_lba,
        (#[trigger] all[j]).start_lba,
        all[j].end_lba,
    ) by {
        assert(all[i].end_lba < all[j].start_lba) by {
            if j < n1 {
                assert(lies_before(parts1[i], parts1[j]));
            } else if n1 < i && j <= n1 + n2 {
                assert(lies_before(parts2[i - n1 - 1], parts2[j - n1 - 1]));
            }
        }
    }
    if USERDATA_MIN_SIZE as int % sector == 0 {
        vstd::arithmetic::div_mod::lemma_fundamental_div_mod(USERDATA_MIN_SIZE as int, sector);
        let m = userdata_min_sectors(sector);
        let s1 = userdata_of(a).end_lba - userdata_of(a).start_lba + 1;
        let s2 = userdata_of(b).end_lba - userdata_of(b).start_lba + 1;
        assert(s1 * sector >= m * sector && s2 * sector >= m * sector) by (nonlinear_arith)
            requires
                s1 >= m,
                s2 >= m,
                sector > 0,
        ;
        assert(sector * m == m * sector) by (nonlinear_arith);
    }
}

/// An extent with too few sectors for two slots is refused: each slot needs
/// room for the metadata record, for user data of the least size and for the
/// backup area, and one sector more.
pub proof fn lemma_small_extent_is_refused(input: PlanInput)
    requires
        input.wf(),
        input.sector > 0,
        input.end_lba - input.start_lba + 1 <= 2 * (metadata_sectors(input.sector as nat)
            + userdata_min_sectors(input.sector) + sectors_for(
            margin_bytes(input.fw_size),
            input.sector as nat,
        )),
    ensures
        plan_layout(input) is Err,
        !(plan_layout(input)->Err_0 is ZeroSectorSize) && !(plan_layout(input)->Err_0
            is DuplicatePartition) && !(plan_layout(input)->Err_0 is NoBackupType) && !(plan_layout(
            input,
        )->Err_0 is Arithmetic) ==> plan_layout(input)->Err_0.is_not_enough_space(),
{
    if plan_layout(input) is Ok {
        let h = split_halves(input.start_lba, input.end_lba)->0;
        let sector = input.sector;
        let (parts1, next1) = place_duals(input.duals, sector, input.disk, h.start1)->0;
        let (parts2, next2) = place_duals(input.duals, sector, input.disk, h.start2)->0;
        let total = input.end_lba - input.start_lba + 1;
        lemma_align_bounds(input.start_lba, input.start_lba + total / 2 - 1, 2, true);
        lemma_align_bounds(h.end1 + 1, input.end_lba, 2, true);
        lemma_place_duals_ordered(input.duals, sector, input.disk, h.start1);
        lemma_place_duals_ordered(input.duals, sector, input.disk, h.start2);
        lemma_align_bounds(next1 + metadata_sectors(sector as nat), 0, 2, false);
        lemma_align_bounds(next2 + metadata_sectors(sector as nat), 0, 2, false);
    }
}

/// Copies placed from an even sector on take the same room wherever they
/// start: the next free sector lies as far from the start as it does for
/// any other even start, and is even again.
pub proof fn lemma_place_duals_shift(
    duals: Seq<DualPartitionView>,
    sector: int,
    disk: Seq<char>,
    p: int,
    q: int,
)
    requires
        p % 2 == 0,
        q % 2 == 0,
        place_duals(duals, sector, disk, p) is Some,
        place_duals(duals, sector, disk, q) is Some,
    ensures
        ({
            let (parts_p, next_p) = place_duals(duals, sector, disk, p)->0;
            let (parts_q, next_q) = place_duals(duals, sector, disk, q)->0;
            next_p - p == next_q - q && next_p % 2 == 0 && next_q % 2 == 0
        }),
    decreases duals.len(),
{
    if duals.len() > 0 {
        lemma_place_duals_shift(duals.drop_last(), sector, disk, p, q);
    }
}

/// Where the first half of an extent has room for its slot, so has the
/// second: the planner never finds the second half alone too small.
pub proof fn lemma_second_half_is_no_smaller(input: PlanInput)
    requires
        input.wf(),
    ensures
        plan_layout(input) != Err::<Plan, LayoutError>(LayoutError::NoSpaceForUserdata2),
{
    if input.sector != 0 && dual_sectors_ok(input.duals) && dual_names_ok(input.duals)
        && split_halves(input.start_lba, input.end_lba) is Some {
        let h = split_halves(input.start_lba, input.end_lba)->0;
        let sector = input.sector;
        let placed1 = place_duals(input.duals, sector, input.disk, h.start1);
        let placed2 = place_duals(input.duals, sector, input.disk, h.start2);
        if placed1 is Some && placed2 is Some {
            lemma_place_duals_shift(input.duals, sector, input.disk, h.start1, h.start2);
        }
    }
}

/// An extent with enough sectors is laid out: where no partition is to be
/// copied, each slot needs room for the metadata record, for user data of
/// the least size and for the backup area, and four sectors more for
/// alignment.
pub proof fn lemma_large_extent_is_planned(input: PlanInput)
    requires
        input.wf(),
        input.sector > 0,
        input.duals.len() == 0,
        input.end_lba < u64::MAX,
        margin_bytes(input.fw_size) <= u64::MAX,
        input.end_lba - input.start_lba + 1 >= 2 * (metadata_sectors(input.sector as nat)
            + userdata_min_sectors(input.sector) + sectors_for(
            margin_bytes(input.fw_size),
            input.sector as nat,
        ) + 4),
    ensures
        plan_layout(input) is Ok,
{
    let sector = input.sector;
    let total = input.end_lba - input.start_lba + 1;
    let meta = metadata_sectors(sector as nat) as int;
    let back = sectors_for(margin_bytes(input.fw_size), sector as nat) as int;
    lemma_sectors_for(margin_bytes(input.fw_size), sector as nat);
    lemma_align_bounds(input.start_lba, input.start_lba + total / 2 - 1, 2, true);
    let h = split_halves(input.start_lba, input.end_lba)->0;
    lemma_align_bounds(h.end1 + 1, input.end_lba, 2, true);
    lemma_align_bounds(h.start1 + meta, 0, 2, false);
    lemma_align_bounds(h.start2 + meta, 0, 2, false);
    assert(userdata_min_sectors(sector) >= 0) by (nonlinear_arith)
        requires
            sector > 0,
            userdata_min_sectors(sector) == USERDATA_MIN_SIZE as int / sector,
    ;
    assert(place_duals(input.duals, sector, input.disk, h.start1) == Some(
        (Seq::<PartitionTargetView>::empty(), h.start1),
    ));
    assert(place_duals(input.duals, sector, input.disk, h.start2) == Some(
        (Seq::<PartitionTargetView>::empty(), h.start2),
    ));
}

} // verus!
