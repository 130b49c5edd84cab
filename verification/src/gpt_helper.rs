//! Partition tables as plain values: lookup, free space, creation and
//! removal of partitions, and the alignment of partition bounds.

use vstd::prelude::*;
use vstd::string::StringExecFns;
use crate::math_support::{check_interval_state, interval_relation, Interval, IntervalState};
use crate::metadata::PartitionLocation;

pub use crate::devices::{
    calculate_firmware_size, get_block_dev_filenames, get_disk_part_boundary_alignment,
    get_disk_sector_size, get_partition_main_driver, get_userdata_driver, read_block_dev_size,
};
pub use crate::planner::auto_layout_freespace_example;
pub use crate::units::bytes2ieee;

verus! {

/// `first` rounded up to the next multiple of `alignment`.
pub open spec fn align_up(first: int, alignment: int) -> int
    recommends
        alignment > 0,
{
    if first % alignment != 0 {
        first + alignment - first % alignment
    } else {
        first
    }
}

/// `last` moved one block down where shrinking is asked for and `last` is a
/// multiple of `alignment`.
pub open spec fn shrink_last(last: int, alignment: int, shrink: bool) -> int
    recommends
        alignment > 0,
{
    if shrink && last % alignment == 0 {
        last - 1
    } else {
        last
    }
}

/// Rounding up reaches a multiple of the alignment and moves by less than one
/// alignment unit; shrinking never moves the last block up.
pub proof fn lemma_align_bounds(first: int, last: int, alignment: int, shrink: bool)
    requires
        alignment > 0,
        first >= 0,
    ensures
        align_up(first, alignment) % alignment == 0,
        first <= align_up(first, alignment) < first + alignment,
        last - 1 <= shrink_last(last, alignment, shrink) <= last,
{
    if first % alignment != 0 {
        let q = first / alignment;
        let r = first % alignment;
        vstd::arithmetic::div_mod::lemma_fundamental_div_mod(first, alignment);
        assert(first + alignment - r == alignment * (q + 1)) by (nonlinear_arith)
            requires
                first == alignment * q + r,
        ;
        vstd::arithmetic::div_mod::lemma_mod_multiples_basic(q + 1, alignment);
        assert(alignment * (q + 1) == (q + 1) * alignment) by (nonlinear_arith);
    }
}

/// Aligns a partition without ever growing it: `first_lba` moves up to the
/// next multiple of `alignment`; with `dis_align_last_lba`, a `last_lba` that
/// is a multiple of `alignment` moves one block down.
pub fn alignment_partition(
    first_lba: &mut u64,
    last_lba: &mut u64,
    alignment: u64,
    dis_align_last_lba: bool,
)
    requires
        alignment > 0,
        align_up(*old(first_lba) as int, alignment as int) <= u64::MAX,
        shrink_last(*old(last_lba) as int, alignment as int, dis_align_last_lba) >= 0,
    ensures
        *final(first_lba) == align_up(*old(first_lba) as int, alignment as int),
        *final(last_lba) == shrink_last(*old(last_lba) as int, alignment as int, dis_align_last_lba),
{
    if *first_lba % alignment != 0 {
        *first_lba = *first_lba + (alignment - *first_lba % alignment);
    }
    if dis_align_last_lba {
        if *last_lba % alignment == 0 {
            *last_lba = *last_lba - 1;
        }
    }
}

/// Position `i` holds the first extent of `tuples` that is longer than every
/// extent before it and at least as long as every extent after it.
pub open spec fn is_first_longest(tuples: Seq<(u64, u64)>, i: int) -> bool {
    &&& 0 <= i < tuples.len()
    &&& tuples[i].1 > 0
    &&& forall|j: int| 0 <= j < i ==> (#[trigger] tuples[j]).1 < tuples[i].1
    &&& forall|j: int| i < j < tuples.len() ==> (#[trigger] tuples[j]).1 <= tuples[i].1
}

/// No extent of `tuples` holds a block.
pub open spec fn all_empty(tuples: Seq<(u64, u64)>) -> bool {
    forall|j: int| 0 <= j < tuples.len() ==> (#[trigger] tuples[j]).1 == 0
}

/// Among free extents given as `(start_lba, length)`, picks the longest (the
/// first of several equally long ones) and returns it as
/// `(start_lba, end_lba)`; `(0, 0)` where no extent holds a block.
pub fn find_max_free_tuple(tuples: &Vec<(u64, u64)>) -> (r: (u64, u64))
    requires
        forall|j: int|
            0 <= j < tuples.len() ==> (#[trigger] tuples[j]).0 + tuples[j].1 - 1 <= u64::MAX,
    ensures
        all_empty(tuples@) ==> r == (0u64, 0u64),
        !all_empty(tuples@) ==> exists|i: int|
            {
                &&& #[trigger] is_first_longest(tuples@, i)
                &&& r.0 == tuples[i].0
                &&& r.1 == tuples[i].0 + tuples[i].1 - 1
            },
{
    let mut max_size: u64 = 0;
    let mut max_start: u64 = 0;
    let mut max_end: u64 = 0;
    let ghost mut best: int = -1;
    let mut k: usize = 0;
    while k < tuples.len()
        invariant
            k <= tuples.len(),
            forall|j: int|
                0 <= j < tuples.len() ==> (#[trigger] tuples[j]).0 + tuples[j].1 - 1 <= u64::MAX,
            forall|j: int| 0 <= j < k ==> (#[trigger] tuples[j]).1 <= max_size,
            max_size == 0 ==> best == -1 && max_start == 0 && max_end == 0,
            max_size > 0 ==> {
                &&& 0 <= best < k
                &&& tuples[best].1 == max_size
                &&& max_start == tuples[best].0
                &&& max_end == tuples[best].0 + tuples[best].1 - 1
                &&& forall|j: int| 0 <= j < best ==> (#[trigger] tuples[j]).1 < max_size
            },
        decreases tuples.len() - k,
    {
        let (start, length) = tuples[k];
        if length > max_size {
            max_size = length;
            max_start = start;
            max_end = start + (length - 1);
            proof {
                best = k as int;
            }
        }
        k += 1;
    }
    proof {
        if max_size > 0 {
            assert(is_first_longest(tuples@, best));
        }
    }
    (max_start, max_end)
}

/// Whether `name` is a partition type that the GPT library knows: one of its
/// type names, or the text of a GUID.
pub uninterp spec fn valid_partition_type(name: Seq<char>) -> bool;

/// Asks `gpt::partition_types::Type::from_name` whether it accepts `type_guid`.
/// The answer depends on the text alone.
#[verifier::external_body]
pub(crate) fn is_partition_type(type_guid: &str) -> (r: bool)
    ensures
        r == valid_partition_type(type_guid@),
{
    gpt::partition_types::Type::from_name(type_guid).is_ok()
}

/// A fresh random identifier from `uuid::Uuid::new_v4`, as text. Nothing is
/// claimed of it.
#[verifier::external_body]
fn fresh_part_guid() -> String {
    uuid::Uuid::new_v4().to_string()
}

/// The sector sizes that a GPT disk can have.
#[derive(Clone, Copy, Debug, PartialEq, Eq, Structural)]
pub enum LogicalBlockSize {
    /// 512 bytes.
    Lb512,
    /// 4096 bytes.
    Lb4096,
}

/// Why a partition could not be located.
#[derive(Clone, Copy, Debug, PartialEq, Eq, Structural)]
pub enum LocateError {
    /// The disk's sectors hold neither 512 nor 4096 bytes.
    UnsupportedSectorSize,
    /// The table has no partition of that name.
    NotFound,
}

/// One partition of a table.
#[derive(Debug)]
pub struct PartitionEntry {
    /// Position in the table, counted from 1.
    pub id: u32,
    pub name: String,
    pub first_lba: u64,
    pub last_lba: u64,
    pub type_guid: String,
    pub part_guid: String,
    pub flags: u64,
}

/// What a `PartitionEntry` stands for.
pub struct PartitionEntryView {
    pub id: int,
    pub name: Seq<char>,
    pub first_lba: int,
    pub last_lba: int,
    pub type_guid: Seq<char>,
    pub part_guid: Seq<char>,
    pub flags: int,
}

impl View for PartitionEntry {
    type V = PartitionEntryView;

    open spec fn view(&self) -> PartitionEntryView {
        PartitionEntryView {
            id: self.id as int,
            name: self.name@,
            first_lba: self.first_lba as int,
            last_lba: self.last_lba as int,
            type_guid: self.type_guid@,
            part_guid: self.part_guid@,
            flags: self.flags as int,
        }
    }
}

impl Clone for PartitionEntry {
    fn clone(&self) -> (r: Self)
        ensures
            r@ == self@,
    {
        PartitionEntry {
            id: self.id,
            name: self.name.clone(),
            first_lba: self.first_lba,
            last_lba: self.last_lba,
            type_guid: self.type_guid.clone(),
            part_guid: self.part_guid.clone(),
            flags: self.flags,
        }
    }
}

/// The views of a list of partitions.
pub open spec fn entries_view(entries: Seq<PartitionEntry>) -> Seq<PartitionEntryView> {
    entries.map_values(|e: PartitionEntry| e@)
}

/// The partition table of one disk.
#[derive(Debug)]
pub struct DiskTable {
    /// Path of the disk's device node.
    pub device: String,
    /// Bytes in a logical sector.
    pub sector_size: u64,
    /// Partitions that the table's header declares room for.
    pub num_parts: u32,
    pub first_usable: u64,
    pub last_usable: u64,
    /// The partitions in use, in ascending order of `id`.
    pub entries: Vec<PartitionEntry>,
}

/// What a `DiskTable` stands for.
pub struct DiskTableView {
    pub device: Seq<char>,
    pub sector_size: int,
    pub num_parts: int,
    pub first_usable: int,
    pub last_usable: int,
    pub entries: Seq<PartitionEntryView>,
}

impl View for DiskTable {
    type V = DiskTableView;

    open spec fn view(&self) -> DiskTableView {
        DiskTableView {
            device: self.device@,
            sector_size: self.sector_size as int,
            num_parts: self.num_parts as int,
            first_usable: self.first_usable as int,
            last_usable: self.last_usable as int,
            entries: entries_view(self.entries@),
        }
    }
}

/// The identifiers of `entries` are positive and strictly ascending.
pub open spec fn ids_ascending(entries: Seq<PartitionEntryView>) -> bool {
    &&& forall|i: int| 0 <= i < entries.len() ==> (#[trigger] entries[i]).id > 0
    &&& forall|i: int, j: int|
        0 <= i < j < entries.len() ==> (#[trigger] entries[i]).id < (#[trigger] entries[j]).id
}

impl DiskTableView {
    /// The table lists each identifier once, in ascending order.
    pub open spec fn wf(self) -> bool {
        ids_ascending(self.entries)
    }
}

/// Copies a list of partitions.
pub fn clone_entries(entries: &Vec<PartitionEntry>) -> (r: Vec<PartitionEntry>)
    ensures
        entries_view(r@) == entries_view(entries@),
{
    let mut out: Vec<PartitionEntry> = Vec::new();
    let mut i: usize = 0;
    while i < entries.len()
        invariant
            i <= entries.len(),
            out.len() == i,
            forall|j: int| 0 <= j < i ==> out@[j]@ == entries@[j]@,
        decreases entries.len() - i,
    {
        out.push(entries[i].clone());
        i += 1;
    }
    assert(entries_view(out@) =~= entries_view(entries@));
    out
}

impl Clone for DiskTable {
    fn clone(&self) -> (r: Self)
        ensures
            r@ == self@,
    {
        DiskTable {
            device: self.device.clone(),
            sector_size: self.sector_size,
            num_parts: self.num_parts,
            first_usable: self.first_usable,
            last_usable: self.last_usable,
            entries: clone_entries(&self.entries),
        }
    }
}

/// The block size for sectors of `sector_size` bytes: only 512 and 4096 are
/// supported.
pub fn try_get_disk_lba(sector_size: u64) -> (r: Result<LogicalBlockSize, LocateError>)
    ensures
        sector_size == 512 ==> r == Ok::<LogicalBlockSize, LocateError>(LogicalBlockSize::Lb512),
        sector_size == 4096 ==> r == Ok::<LogicalBlockSize, LocateError>(LogicalBlockSize::Lb4096),
        sector_size != 512 && sector_size != 4096 ==> r == Err::<LogicalBlockSize, LocateError>(
            LocateError::UnsupportedSectorSize,
        ),
{
    if sector_size == 4096 {
        Ok(LogicalBlockSize::Lb4096)
    } else if sector_size == 512 {
        Ok(LogicalBlockSize::Lb512)
    } else {
        Err(LocateError::UnsupportedSectorSize)
    }
}

/// Position `i` holds the first partition of `entries` that is named `name`.
pub open spec fn is_first_entry_named(entries: Seq<PartitionEntryView>, name: Seq<char>, i: int) -> bool {
    &&& 0 <= i < entries.len()
    &&& entries[i].name == name
    &&& forall|j: int| 0 <= j < i ==> (#[trigger] entries[j]).name != name
}

/// No partition of `entries` is named `name`.
pub open spec fn no_entry_named(entries: Seq<PartitionEntryView>, name: Seq<char>) -> bool {
    forall|j: int| 0 <= j < entries.len() ==> (#[trigger] entries[j]).name != name
}

/// Looks up the first partition named `name`.
pub fn find_entry(entries: &Vec<PartitionEntry>, name: &str) -> (r: Option<usize>)
    ensures
        match r {
            Some(i) => is_first_entry_named(entries_view(entries@), name@, i as int),
            None => no_entry_named(entries_view(entries@), name@),
        },
{
    let wanted = String::from_str(name);
    let mut i: usize = 0;
    while i < entries.len()
        invariant
            i <= entries.len(),
            wanted@ == name@,
            forall|j: int| 0 <= j < i ==> (#[trigger] entries_view(entries@)[j]).name != name@,
        decreases entries.len() - i,
    {
        if entries[i].name == wanted {
            return Some(i);
        }
        i += 1;
    }
    None
}

/// Locates the partition named `part_name` in `table`: the disk, the
/// partition's identifier, its first and last sector, and the sector size.
/// A disk whose sectors hold neither 512 nor 4096 bytes is not searched.
pub fn get_part_accelerate_location(table: &DiskTable, part_name: &str) -> (r: Result<
    PartitionLocation,
    LocateError,
>)
    ensures
        table.sector_size != 512 && table.sector_size != 4096 ==> r is Err && r->Err_0
            == LocateError::UnsupportedSectorSize,
        (table.sector_size == 512 || table.sector_size == 4096) && no_entry_named(
            table@.entries,
            part_name@,
        ) ==> r is Err && r->Err_0 == LocateError::NotFound,
        r is Ok ==> exists|i: int|
            {
                &&& #[trigger] is_first_entry_named(table@.entries, part_name@, i)
                &&& r->Ok_0.driver@ == table@.device
                &&& r->Ok_0.id == table@.entries[i].id
                &&& r->Ok_0.first_lba == table@.entries[i].first_lba
                &&& r->Ok_0.last_lba == table@.entries[i].last_lba
                &&& r->Ok_0.sector_size == table@.sector_size
            },
        r is Ok <==> (table.sector_size == 512 || table.sector_size == 4096) && !no_entry_named(
            table@.entries,
            part_name@,
        ),
{
    if try_get_disk_lba(table.sector_size).is_err() {
        return Err(LocateError::UnsupportedSectorSize);
    }
    match find_entry(&table.entries, part_name) {
        Some(i) => {
            let e = &table.entries[i];
            assert(entries_view(table.entries@)[i as int] == e@);
            let loc = PartitionLocation {
                driver: table.device.clone(),
                id: e.id,
                first_lba: e.first_lba,
                last_lba: e.last_lba,
                sector_size: table.sector_size,
            };
            assert(is_first_entry_named(table@.entries, part_name@, i as int));
            Ok(loc)
        },
        None => Err(LocateError::NotFound),
    }
}

/// The type and the flags of the partition named `part_name`, if `table` has
/// one.
pub fn get_part_info(table: &DiskTable, part_name: &str) -> (r: Option<(String, u64)>)
    ensures
        r is None <==> no_entry_named(table@.entries, part_name@),
        match r {
            Some((type_guid, flags)) => exists|i: int|
                {
                    &&& #[trigger] is_first_entry_named(table@.entries, part_name@, i)
                    &&& type_guid@ == table@.entries[i].type_guid
                    &&& flags == table@.entries[i].flags
                },
            None => true,
        },
{
    match find_entry(&table.entries, part_name) {
        Some(i) => {
            let e = &table.entries[i];
            assert(entries_view(table.entries@)[i as int] == e@);
            let type_guid = e.type_guid.clone();
            assert(is_first_entry_named(table@.entries, part_name@, i as int));
            Some((type_guid, e.flags))
        },
        None => None,
    }
}

/// The partition `e` shares a sector with `[start_lba, end_lba]`.
pub open spec fn entry_meets(e: PartitionEntryView, start_lba: int, end_lba: int) -> bool {
    interval_relation(start_lba, end_lba, e.first_lba, e.last_lba) != IntervalState::Disjoint
}

/// The name and identifier of every partition of `entries` that shares a
/// sector with `[start_lba, end_lba]`, in table order.
pub open spec fn users_of(entries: Seq<PartitionEntryView>, start_lba: int, end_lba: int) -> Seq<
    (Seq<char>, int),
>
    decreases entries.len(),
{
    if entries.len() == 0 {
        Seq::empty()
    } else {
        let rest = users_of(entries.drop_last(), start_lba, end_lba);
        if entry_meets(entries.last(), start_lba, end_lba) {
            rest.push((entries.last().name, entries.last().id))
        } else {
            rest
        }
    }
}

/// The views of a list of names with identifiers.
pub open spec fn users_view(users: Seq<(String, u32)>) -> Seq<(Seq<char>, int)> {
    users.map_values(|u: (String, u32)| (u.0@, u.1 as int))
}

/// No partition shares a sector with the range exactly when the list of its
/// users is empty.
pub proof fn lemma_users_of_empty(entries: Seq<PartitionEntryView>, start_lba: int, end_lba: int)
    ensures
        users_of(entries, start_lba, end_lba).len() == 0 <==> forall|i: int|
            0 <= i < entries.len() ==> !entry_meets(#[trigger] entries[i], start_lba, end_lba),
    decreases entries.len(),
{
    if entries.len() > 0 {
        let rest = entries.drop_last();
        lemma_users_of_empty(rest, start_lba, end_lba);
        if users_of(entries, start_lba, end_lba).len() == 0 {
            assert forall|i: int| 0 <= i < entries.len() implies !entry_meets(
                #[trigger] entries[i],
                start_lba,
                end_lba,
            ) by {
                if i < rest.len() {
                    assert(rest[i] == entries[i]);
                }
            }
        } else {
            if !entry_meets(entries.last(), start_lba, end_lba) {
                let i = choose|i: int| 0 <= i < rest.len() && entry_meets(#[trigger] rest[i], start_lba, end_lba);
                assert(rest[i] == entries[i]);
            }
        }
    }
}

/// Tells which partitions of `table` use a sector of `[start_lba, end_lba]`:
/// `None` where none does, else their names and identifiers.
pub fn is_disk_segment_used(table: &DiskTable, start_lba: u64, end_lba: u64) -> (r: Option<
    Vec<(String, u32)>,
>)
    ensures
        r is None <==> users_of(table@.entries, start_lba as int, end_lba as int).len() == 0,
        r is Some ==> users_view(r->0@) == users_of(table@.entries, start_lba as int, end_lba as int),
{
    let mut found: Vec<(String, u32)> = Vec::new();
    let wanted = Interval::new(start_lba, end_lba);
    let mut i: usize = 0;
    proof {
        assert(table@.entries.take(0) =~= Seq::empty());
        assert(users_view(found@) =~= Seq::empty());
    }
    while i < table.entries.len()
        invariant
            i <= table.entries.len(),
            wanted@ == (start_lba as int, end_lba as int),
            users_view(found@) == users_of(
                table@.entries.take(i as int),
                start_lba as int,
                end_lba as int,
            ),
        decreases table.entries.len() - i,
    {
        let e = &table.entries[i];
        proof {
            let longer = table@.entries.take(i + 1);
            assert(longer.drop_last() =~= table@.entries.take(i as int));
            assert(longer.last() == e@);
        }
        let state = check_interval_state(&wanted, &Interval::new(e.first_lba, e.last_lba));
        if state != IntervalState::Disjoint {
            let ghost before = users_view(found@);
            found.push((e.name.clone(), e.id));
            proof {
                assert(users_view(found@) =~= before.push((e@.name, e@.id)));
            }
        }
        i += 1;
    }
    proof {
        assert(table@.entries.take(table.entries.len() as int) =~= table@.entries);
    }
    if found.len() == 0 {
        return None;
    }
    Some(found)
}

/// Some partition of `entries` has the identifier `id`.
pub open spec fn id_taken(entries: Seq<PartitionEntryView>, id: int) -> bool {
    exists|k: int| 0 <= k < entries.len() && (#[trigger] entries[k]).id == id
}

/// Whether some partition of `entries` has the identifier `id`.
pub fn has_id(entries: &Vec<PartitionEntry>, id: u32) -> (r: bool)
    ensures
        r == id_taken(entries_view(entries@), id as int),
{
    let mut k: usize = 0;
    while k < entries.len()
        invariant
            k <= entries.len(),
            forall|j: int| 0 <= j < k ==> (#[trigger] entries_view(entries@)[j]).id != id,
        decreases entries.len() - k,
    {
        if entries[k].id == id {
            assert(entries_view(entries@)[k as int].id == id);
            return true;
        }
        k += 1;
    }
    false
}

/// The lowest identifier from 1 up to the declared room of the table that no
/// partition has; 1 for a table without partitions; `None` where every
/// identifier is taken.
pub fn find_next_partition_id(table: &DiskTable) -> (r: Option<u32>)
    ensures
        table@.entries.len() == 0 ==> r == Some(1u32),
        table@.entries.len() > 0 ==> match r {
            Some(id) => {
                &&& 1 <= id <= table.num_parts
                &&& !id_taken(table@.entries, id as int)
                &&& forall|j: int| 1 <= j < id ==> id_taken(table@.entries, j)
            },
            None => forall|j: int| 1 <= j <= table.num_parts ==> id_taken(table@.entries, j),
        },
{
    if table.entries.len() == 0 {
        return Some(1);
    }
    let mut id: u32 = 1;
    while id <= table.num_parts
        invariant
            1 <= id,
            id <= table.num_parts + 1,
            table.entries.len() > 0,
            forall|j: int| 1 <= j < id ==> id_taken(table@.entries, j),
        decreases table.num_parts + 1 - id,
    {
        if !has_id(&table.entries, id) {
            return Some(id);
        }
        if id == u32::MAX {
            return None;
        }
        id += 1;
    }
    None
}

/// Removes the first partition named `part_name` from `table`. A disk whose
/// sectors hold neither 512 nor 4096 bytes is left alone.
pub fn delete_part_by_name(table: &mut DiskTable, part_name: &str) -> (r: Result<(), LocateError>)
    ensures
        old(table).sector_size != 512 && old(table).sector_size != 4096 ==> r == Err::<
            (),
            LocateError,
        >(LocateError::UnsupportedSectorSize),
        (old(table).sector_size == 512 || old(table).sector_size == 4096) && no_entry_named(
            old(table)@.entries,
            part_name@,
        ) ==> r == Err::<(), LocateError>(LocateError::NotFound),
        r is Err ==> final(table)@ == old(table)@,
        r is Ok ==> exists|i: int|
            {
                &&& #[trigger] is_first_entry_named(old(table)@.entries, part_name@, i)
                &&& final(table)@ == (DiskTableView {
                    entries: old(table)@.entries.remove(i),
                    ..old(table)@
                })
            },
        r is Ok <==> (old(table).sector_size == 512 || old(table).sector_size == 4096)
            && !no_entry_named(old(table)@.entries, part_name@),
{
    if try_get_disk_lba(table.sector_size).is_err() {
        return Err(LocateError::UnsupportedSectorSize);
    }
    match find_entry(&table.entries, part_name) {
        Some(i) => {
            table.entries.remove(i);
            proof {
                assert(entries_view(table.entries@) =~= entries_view(old(table).entries@).remove(
                    i as int,
                ));
                assert(is_first_entry_named(old(table)@.entries, part_name@, i as int));
            }
            Ok(())
        },
        None => Err(LocateError::NotFound),
    }
}

/// Why a partition was not created.
#[derive(Clone, Copy, Debug, PartialEq, Eq, Structural)]
pub enum PartitionError {
    /// The partition would hold no sector.
    ZeroLength,
    /// Identifiers start at 1.
    ZeroId,
    /// The identifier belongs to a partition in use.
    OverflowPartitionCount,
    /// The range is not wholly free: it leaves the usable part of the disk or
    /// shares a sector with a partition.
    NotEnoughSpace,
}

/// `[first_lba, last_lba]` lies in the usable part of the disk and shares no
/// sector with a partition of the table.
pub open spec fn range_is_free(table: DiskTableView, first_lba: int, last_lba: int) -> bool {
    &&& table.first_usable <= first_lba
    &&& last_lba <= table.last_usable
    &&& users_of(table.entries, first_lba, last_lba).len() == 0
}

/// The place of a new partition with identifier `id` at or after position
/// `from`: before the first partition with a greater identifier.
pub open spec fn insert_pos_from(entries: Seq<PartitionEntryView>, id: int, from: int) -> int
    decreases entries.len() - from,
{
    if from < 0 || from >= entries.len() {
        entries.len() as int
    } else if entries[from].id > id {
        from
    } else {
        insert_pos_from(entries, id, from + 1)
    }
}

/// `table` with the partition `e` added at its place; the declared room grows
/// to the identifier of `e` where it was less.
pub open spec fn with_entry(table: DiskTableView, e: PartitionEntryView) -> DiskTableView {
    DiskTableView {
        entries: table.entries.insert(insert_pos_from(table.entries, e.id, 0), e),
        num_parts: if e.id > table.num_parts {
            e.id
        } else {
            table.num_parts
        },
        ..table
    }
}

/// `table` without the partition at position `i`.
pub open spec fn without_entry(table: DiskTableView, i: int) -> DiskTableView {
    DiskTableView { entries: table.entries.remove(i), ..table }
}

/// Why `new_partition` refuses its arguments, if it does.
pub open spec fn new_partition_error(
    table: DiskTableView,
    id: int,
    first_lba: int,
    length_lba: int,
) -> Option<PartitionError> {
    if length_lba == 0 {
        Some(PartitionError::ZeroLength)
    } else if id == 0 {
        Some(PartitionError::ZeroId)
    } else if id_taken(table.entries, id) {
        Some(PartitionError::OverflowPartitionCount)
    } else if !range_is_free(table, first_lba, first_lba + length_lba - 1) {
        Some(PartitionError::NotEnoughSpace)
    } else {
        None
    }
}

/// Adds to `table` a partition named `name` with the identifier `id`, which
/// covers `length_lba` sectors from `first_lba` on. The range must be wholly
/// free. Where `id` exceeds the room that the table declares, the room grows
/// to `id`. The new partition gets a fresh random GUID.
pub fn new_partition(
    table: &mut DiskTable,
    name: &str,
    id: u32,
    first_lba: u64,
    length_lba: u64,
    type_guid: &str,
    flags: u64,
) -> (r: Result<u32, PartitionError>)
    ensures
        match new_partition_error(old(table)@, id as int, first_lba as int, length_lba as int) {
            Some(e) => r == Err::<u32, PartitionError>(e) && final(table)@ == old(table)@,
            None => r == Ok::<u32, PartitionError>(id) && exists|part_guid: Seq<char>|
                #[trigger] with_entry(
                    old(table)@,
                    PartitionEntryView {
                        id: id as int,
                        name: name@,
                        first_lba: first_lba as int,
                        last_lba: first_lba + length_lba - 1,
                        type_guid: type_guid@,
                        part_guid,
                        flags: flags as int,
                    },
                ) == final(table)@,
        },
{
    if length_lba == 0 {
        return Err(PartitionError::ZeroLength);
    }
    if id == 0 {
        return Err(PartitionError::ZeroId);
    }
    if has_id(&table.entries, id) {
        return Err(PartitionError::OverflowPartitionCount);
    }
    let last_lba = match first_lba.checked_add(length_lba - 1) {
        Some(l) => l,
        None => {
            return Err(PartitionError::NotEnoughSpace);
        },
    };
    if first_lba < table.first_usable || last_lba > table.last_usable {
        return Err(PartitionError::NotEnoughSpace);
    }
    if is_disk_segment_used(table, first_lba, last_lba).is_some() {
        return Err(PartitionError::NotEnoughSpace);
    }
    let mut pos: usize = 0;
    while pos < table.entries.len() && table.entries[pos].id <= id
        invariant
            pos <= table.entries.len(),
            insert_pos_from(table@.entries, id as int, 0) == insert_pos_from(
                table@.entries,
                id as int,
                pos as int,
            ),
        decreases table.entries.len() - pos,
    {
        pos += 1;
    }
    let part = PartitionEntry {
        id,
        name: String::from_str(name),
        first_lba,
        last_lba,
        type_guid: String::from_str(type_guid),
        part_guid: fresh_part_guid(),
        flags,
    };
    table.entries.insert(pos, part);
    if id > table.num_parts {
        table.num_parts = id;
    }
    proof {
        let e = PartitionEntryView {
            id: id as int,
            name: name@,
            first_lba: first_lba as int,
            last_lba: first_lba + length_lba - 1,
            type_guid: type_guid@,
            part_guid: part@.part_guid,
            flags: flags as int,
        };
        assert(part@ == e);
        assert(entries_view(table.entries@) =~= entries_view(old(table).entries@).insert(
            pos as int,
            e,
        ));
        assert(with_entry(old(table)@, e) == table@);
    }
    Ok(id)
}

/// The place found for a new partition has only lesser or equal identifiers
/// before it and a greater one at it.
pub proof fn lemma_insert_pos(entries: Seq<PartitionEntryView>, id: int, from: int)
    requires
        0 <= from <= entries.len(),
    ensures
        from <= insert_pos_from(entries, id, from) <= entries.len(),
        forall|j: int|
            from <= j < insert_pos_from(entries, id, from) ==> (#[trigger] entries[j]).id <= id,
        insert_pos_from(entries, id, from) < entries.len() ==> entries[insert_pos_from(
            entries,
            id,
            from,
        )].id > id,
    decreases entries.len() - from,
{
    if from < entries.len() && entries[from].id <= id {
        lemma_insert_pos(entries, id, from + 1);
    }
}

/// A partition added at its place keeps the identifiers of a table in
/// ascending order.
pub proof fn lemma_insert_keeps_order(table: DiskTableView, e: PartitionEntryView)
    requires
        table.wf(),
        e.id > 0,
        !id_taken(table.entries, e.id),
    ensures
        with_entry(table, e).wf(),
{
    let before = table.entries;
    let pos = insert_pos_from(before, e.id, 0);
    lemma_insert_pos(before, e.id, 0);
    let after = with_entry(table, e).entries;
    assert forall|i: int, j: int| 0 <= i < j < after.len() implies (#[trigger] after[i]).id < (
    #[trigger] after[j]).id by {
        if i == pos {
            assert(before[j - 1].id >= before[pos].id);
        } else if j == pos {
            assert(before[i].id <= e.id);
            assert(before[i].id != e.id);
        } else {
            let bi = if i < pos { i } else { i - 1 };
            let bj = if j < pos { j } else { j - 1 };
            assert(before[bi].id < before[bj].id);
        }
    }
    assert forall|i: int| 0 <= i < after.len() implies (#[trigger] after[i]).id > 0 by {
        if i != pos {
            let bi = if i < pos { i } else { i - 1 };
            assert(before[bi].id > 0);
        }
    }
}

/// A table without one of its partitions keeps its identifiers in ascending
/// order.
pub proof fn lemma_remove_keeps_order(table: DiskTableView, i: int)
    requires
        table.wf(),
        0 <= i < table.entries.len(),
    ensures
        without_entry(table, i).wf(),
{
    let before = table.entries;
    let after = without_entry(table, i).entries;
    assert forall|j: int| 0 <= j < after.len() implies (#[trigger] after[j]).id > 0 by {
        let b = if j < i { j } else { j + 1 };
        assert(after[j] == before[b]);
    }
    assert forall|j: int, k: int| 0 <= j < k < after.len() implies (#[trigger] after[j]).id < (
    #[trigger] after[k]).id by {
        let bj = if j < i { j } else { j + 1 };
        let bk = if k < i { k } else { k + 1 };
        assert(after[j] == before[bj] && after[k] == before[bk]);
    }
}

} // verus!
