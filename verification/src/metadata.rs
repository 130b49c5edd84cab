//! Slots, their partition targets and the metadata record that lists them.

use vstd::prelude::*;
use vstd::string::StringExecFns;
use vstd::string::StrSliceExecFns;
use crate::backup_factory::{lemma_sectors_for, sectors_for};
use crate::constants::{METADATA_SIZE_BYTES, UNKNOWN_SLOT, USERDATA_NAME};

verus! {

/// Where one partition of a slot is to live.
#[derive(Debug)]
pub struct PartitionRawTarget {
    pub part_name: String,
    pub driver: String,
    pub start_lba: u64,
    pub end_lba: u64,
    pub type_guid: String,
    pub flags: u64,
}

/// What a `PartitionRawTarget` stands for.
pub struct PartitionTargetView {
    pub part_name: Seq<char>,
    pub driver: Seq<char>,
    pub start_lba: int,
    pub end_lba: int,
    pub type_guid: Seq<char>,
    pub flags: int,
}

impl View for PartitionRawTarget {
    type V = PartitionTargetView;

    open spec fn view(&self) -> PartitionTargetView {
        PartitionTargetView {
            part_name: self.part_name@,
            driver: self.driver@,
            start_lba: self.start_lba as int,
            end_lba: self.end_lba as int,
            type_guid: self.type_guid@,
            flags: self.flags as int,
        }
    }
}

impl Clone for PartitionRawTarget {
    fn clone(&self) -> (r: Self)
        ensures
            r@ == self@,
    {
        PartitionRawTarget {
            part_name: self.part_name.clone(),
            driver: self.driver.clone(),
            start_lba: self.start_lba,
            end_lba: self.end_lba,
            type_guid: self.type_guid.clone(),
            flags: self.flags,
        }
    }
}

/// The views of a list of names.
pub open spec fn names_view(names: Seq<String>) -> Seq<Seq<char>> {
    names.map_values(|n: String| n@)
}

/// The views of a list of partition targets.
pub open spec fn targets_view(parts: Seq<PartitionRawTarget>) -> Seq<PartitionTargetView> {
    parts.map_values(|p: PartitionRawTarget| p@)
}

/// The views of a list of slots.
pub open spec fn slots_view(slots: Seq<Slot>) -> Seq<SlotView> {
    slots.map_values(|s: Slot| s@)
}

/// Position `i` holds the first target of `parts` that is named `name`.
pub open spec fn is_first_named(parts: Seq<PartitionTargetView>, name: Seq<char>, i: int) -> bool {
    &&& 0 <= i < parts.len()
    &&& parts[i].part_name == name
    &&& forall|j: int| 0 <= j < i ==> (#[trigger] parts[j]).part_name != name
}

/// No target of `parts` is named `name`.
pub open spec fn no_target_named(parts: Seq<PartitionTargetView>, name: Seq<char>) -> bool {
    forall|j: int| 0 <= j < parts.len() ==> (#[trigger] parts[j]).part_name != name
}

/// No two targets of `parts` share a name.
pub open spec fn names_distinct(parts: Seq<PartitionTargetView>) -> bool {
    forall|i: int, j: int|
        0 <= i < j < parts.len() ==> (#[trigger] parts[i]).part_name != (#[trigger] parts[j]).part_name
}

/// Looks up the first target named `name`.
pub fn find_target(parts: &Vec<PartitionRawTarget>, name: &str) -> (r: Option<usize>)
    ensures
        match r {
            Some(i) => is_first_named(targets_view(parts@), name@, i as int),
            None => no_target_named(targets_view(parts@), name@),
        },
{
    let wanted = String::from_str(name);
    let mut i: usize = 0;
    while i < parts.len()
        invariant
            i <= parts.len(),
            wanted@ == name@,
            forall|j: int| 0 <= j < i ==> (#[trigger] targets_view(parts@)[j]).part_name != name@,
        decreases parts.len() - i,
    {
        if parts[i].part_name == wanted {
            return Some(i);
        }
        i += 1;
    }
    None
}

/// Copies a list of names.
pub fn clone_names(names: &Vec<String>) -> (r: Vec<String>)
    ensures
        names_view(r@) == names_view(names@),
{
    let mut out: Vec<String> = Vec::new();
    let mut i: usize = 0;
    while i < names.len()
        invariant
            i <= names.len(),
            out.len() == i,
            forall|j: int| 0 <= j < i ==> out@[j]@ == names@[j]@,
        decreases names.len() - i,
    {
        out.push(names[i].clone());
        i += 1;
    }
    assert(names_view(out@) =~= names_view(names@));
    out
}

/// Copies a list of partition targets.
pub fn clone_targets(parts: &Vec<PartitionRawTarget>) -> (r: Vec<PartitionRawTarget>)
    ensures
        targets_view(r@) == targets_view(parts@),
{
    let mut out: Vec<PartitionRawTarget> = Vec::new();
    let mut i: usize = 0;
    while i < parts.len()
        invariant
            i <= parts.len(),
            out.len() == i,
            forall|j: int| 0 <= j < i ==> out@[j]@ == parts@[j]@,
        decreases parts.len() - i,
    {
        out.push(parts[i].clone());
        i += 1;
    }
    assert(targets_view(out@) =~= targets_view(parts@));
    out
}

/// One bootable configuration: its partition targets and its backup area.
#[derive(Debug)]
pub struct Slot {
    pub slot_name: String,
    pub backup_type_code: i32,
    pub backup_target: String,
    /// Names of partitions that never count as firmware; no name twice.
    pub backup_exclude_list: Vec<String>,
    pub backup_target_start: u64,
    pub backup_target_end: u64,
    pub backup_target_attr: String,
    /// The partitions that this slot places itself; no name twice.
    pub dyn_partition_set: Vec<PartitionRawTarget>,
}

/// What a `Slot` stands for.
pub struct SlotView {
    pub slot_name: Seq<char>,
    pub backup_type_code: int,
    pub backup_target: Seq<char>,
    pub backup_exclude_list: Seq<Seq<char>>,
    pub backup_target_start: int,
    pub backup_target_end: int,
    pub backup_target_attr: Seq<char>,
    pub dyn_partition_set: Seq<PartitionTargetView>,
}

impl View for Slot {
    type V = SlotView;

    open spec fn view(&self) -> SlotView {
        SlotView {
            slot_name: self.slot_name@,
            backup_type_code: self.backup_type_code as int,
            backup_target: self.backup_target@,
            backup_exclude_list: names_view(self.backup_exclude_list@),
            backup_target_start: self.backup_target_start as int,
            backup_target_end: self.backup_target_end as int,
            backup_target_attr: self.backup_target_attr@,
            dyn_partition_set: targets_view(self.dyn_partition_set@),
        }
    }
}

impl Clone for Slot {
    fn clone(&self) -> (r: Self)
        ensures
            r@ == self@,
    {
        Slot {
            slot_name: self.slot_name.clone(),
            backup_type_code: self.backup_type_code,
            backup_target: self.backup_target.clone(),
            backup_exclude_list: clone_names(&self.backup_exclude_list),
            backup_target_start: self.backup_target_start,
            backup_target_end: self.backup_target_end,
            backup_target_attr: self.backup_target_attr.clone(),
            dyn_partition_set: clone_targets(&self.dyn_partition_set),
        }
    }
}

impl SlotView {
    /// The slot places each partition once and lists each excluded name once.
    pub open spec fn wf(self) -> bool {
        &&& names_distinct(self.dyn_partition_set)
        &&& self.backup_exclude_list.no_duplicates()
    }

    /// The slot's user data partition is recorded on `driver` from `first_lba`
    /// to `last_lba`.
    pub open spec fn userdata_at(self, driver: Seq<char>, first_lba: int, last_lba: int) -> bool {
        exists|i: int|
            {
                &&& #[trigger] is_first_named(self.dyn_partition_set, USERDATA_NAME@, i)
                &&& self.dyn_partition_set[i].driver == driver
                &&& self.dyn_partition_set[i].start_lba == first_lba
                &&& self.dyn_partition_set[i].end_lba == last_lba
            }
    }
}

/// The slots of a configuration file, in the order in which it lists them.
#[derive(Debug)]
pub struct SlotsTomlConfig {
    pub slot: Vec<Slot>,
}

impl View for SlotsTomlConfig {
    type V = Seq<SlotView>;

    open spec fn view(&self) -> Seq<SlotView> {
        slots_view(self.slot@)
    }
}

/// Where a partition was found on a live disk.
#[derive(Debug)]
pub struct PartitionLocation {
    pub driver: String,
    pub id: u32,
    pub first_lba: u64,
    pub last_lba: u64,
    pub sector_size: u64,
}

/// What a `PartitionLocation` stands for.
pub struct PartitionLocationView {
    pub driver: Seq<char>,
    pub id: int,
    pub first_lba: int,
    pub last_lba: int,
    pub sector_size: int,
}

impl View for PartitionLocation {
    type V = PartitionLocationView;

    open spec fn view(&self) -> PartitionLocationView {
        PartitionLocationView {
            driver: self.driver@,
            id: self.id as int,
            first_lba: self.first_lba as int,
            last_lba: self.last_lba as int,
            sector_size: self.sector_size as int,
        }
    }
}

impl Clone for PartitionLocation {
    fn clone(&self) -> (r: Self)
        ensures
            r@ == self@,
    {
        PartitionLocation {
            driver: self.driver.clone(),
            id: self.id,
            first_lba: self.first_lba,
            last_lba: self.last_lba,
            sector_size: self.sector_size,
        }
    }
}

/// The views of a list of locations.
pub open spec fn locations_view(locs: Seq<PartitionLocation>) -> Seq<PartitionLocationView> {
    locs.map_values(|l: PartitionLocation| l@)
}

/// A partition was found, on a device with a name.
pub open spec fn has_device(live: Option<PartitionLocation>) -> bool {
    live is Some && live->0.driver@.len() > 0
}

/// The slot table together with the slot that is live.
#[derive(Debug)]
pub struct Metadata {
    is_dirty: bool,
    pub current_slot: String,
    pub slots: Vec<Slot>,
}

/// What a `Metadata` stands for.
pub struct MetadataView {
    pub is_dirty: bool,
    pub current_slot: Seq<char>,
    pub slots: Seq<SlotView>,
}

impl View for Metadata {
    type V = MetadataView;

    closed spec fn view(&self) -> MetadataView {
        MetadataView {
            is_dirty: self.is_dirty,
            current_slot: self.current_slot@,
            slots: slots_view(self.slots@),
        }
    }
}

/// Position `k` holds the first slot of `slots` whose user data partition is
/// recorded at the given place.
pub open spec fn is_first_match(
    slots: Seq<SlotView>,
    driver: Seq<char>,
    first_lba: int,
    last_lba: int,
    k: int,
) -> bool {
    &&& 0 <= k < slots.len()
    &&& slots[k].userdata_at(driver, first_lba, last_lba)
    &&& forall|j: int| 0 <= j < k ==> !(#[trigger] slots[j]).userdata_at(driver, first_lba, last_lba)
}

/// No slot of `slots` records its user data partition at the given place.
pub open spec fn no_slot_matches(
    slots: Seq<SlotView>,
    driver: Seq<char>,
    first_lba: int,
    last_lba: int,
) -> bool {
    forall|j: int| 0 <= j < slots.len() ==> !(#[trigger] slots[j]).userdata_at(driver, first_lba, last_lba)
}

/// What resolving the current slot does to a record. Without a live user
/// data partition on a named device nothing changes. Else the current slot
/// becomes the first slot that records its user data partition at the live
/// place, and its name is returned; where no slot does, the current slot
/// becomes unknown and nothing is returned. Slots and dirty flag stay.
pub open spec fn slot_resolved(
    before: MetadataView,
    live: Option<PartitionLocation>,
    r: Option<String>,
    after: MetadataView,
) -> bool {
    &&& after.is_dirty == before.is_dirty
    &&& after.slots == before.slots
    &&& !has_device(live) ==> r is None && after == before
    &&& has_device(live) && r is Some ==> exists|k: int|
        {
            &&& #[trigger] is_first_match(
                before.slots,
                live->0.driver@,
                live->0.first_lba as int,
                live->0.last_lba as int,
                k,
            )
            &&& r->0@ == before.slots[k].slot_name
            &&& after.current_slot == r->0@
        }
    &&& has_device(live) && r is None ==> {
        &&& no_slot_matches(
            before.slots,
            live->0.driver@,
            live->0.first_lba as int,
            live->0.last_lba as int,
        )
        &&& after.current_slot == UNKNOWN_SLOT@
    }
}

/// What resolving the current slot does to a record, whatever it returns.
pub open spec fn current_slot_resolved(
    before: MetadataView,
    live: Option<PartitionLocation>,
    after: MetadataView,
) -> bool {
    &&& after.is_dirty == before.is_dirty
    &&& after.slots == before.slots
    &&& !has_device(live) ==> after == before
    &&& has_device(live) ==> {
        ||| exists|k: int|
            {
                &&& #[trigger] is_first_match(
                    before.slots,
                    live->0.driver@,
                    live->0.first_lba as int,
                    live->0.last_lba as int,
                    k,
                )
                &&& after.current_slot == before.slots[k].slot_name
            }
        ||| {
            &&& no_slot_matches(
                before.slots,
                live->0.driver@,
                live->0.first_lba as int,
                live->0.last_lba as int,
            )
            &&& after.current_slot == UNKNOWN_SLOT@
        }
    }
}

impl MetadataView {
    /// Slot names are distinct and `current_slot` names a slot or is unknown.
    pub open spec fn wf(self) -> bool {
        &&& forall|i: int, j: int|
            0 <= i < j < self.slots.len() ==> (#[trigger] self.slots[i]).slot_name != (
            #[trigger] self.slots[j]).slot_name
        &&& (self.current_slot == UNKNOWN_SLOT@ || exists|i: int|
            0 <= i < self.slots.len() && (#[trigger] self.slots[i]).slot_name == self.current_slot)
    }
}

/// Resolving the current slot against a live user data partition leaves a
/// record well formed: the current slot is then a slot of the record or
/// unknown.
pub proof fn lemma_resolved_record_is_wf(
    before: MetadataView,
    live: Option<PartitionLocation>,
    after: MetadataView,
)
    requires
        forall|i: int, j: int|
            0 <= i < j < before.slots.len() ==> (#[trigger] before.slots[i]).slot_name != (
            #[trigger] before.slots[j]).slot_name,
        has_device(live) || before.wf(),
        current_slot_resolved(before, live, after),
    ensures
        after.wf(),
{
    if has_device(live) && after.current_slot != UNKNOWN_SLOT@ {
        let k = choose|k: int|
            {
                &&& #[trigger] is_first_match(
                    before.slots,
                    live->0.driver@,
                    live->0.first_lba as int,
                    live->0.last_lba as int,
                    k,
                )
                &&& after.current_slot == before.slots[k].slot_name
            };
        assert(after.slots[k].slot_name == after.current_slot);
    }
}

impl Metadata {
    /// A record that is not dirty.
    pub fn new(current_slot: String, slots: Vec<Slot>) -> (r: Self)
        ensures
            r@ == (MetadataView {
                is_dirty: false,
                current_slot: current_slot@,
                slots: slots_view(slots@),
            }),
    {
        Metadata { is_dirty: false, current_slot, slots }
    }

    /// Whether the stored checksum failed to match when the record was loaded.
    pub fn is_dirty(&self) -> (r: bool)
        ensures
            r == self@.is_dirty,
    {
        self.is_dirty
    }

    /// The slots of the record.
    pub fn slots(&self) -> (r: &Vec<Slot>)
        ensures
            slots_view(r@) == self@.slots,
    {
        &self.slots
    }

    /// The name of the current slot.
    pub fn current_slot(&self) -> (r: &String)
        ensures
            r@ == self@.current_slot,
    {
        &self.current_slot
    }

    /// The record as it is stored: never dirty, so that the checksum of the
    /// stored text keeps its meaning.
    pub fn for_storage(&self) -> (r: Metadata)
        ensures
            r@ == (MetadataView { is_dirty: false, ..self@ }),
    {
        let mut slots: Vec<Slot> = Vec::new();
        let mut i: usize = 0;
        while i < self.slots.len()
            invariant
                i <= self.slots.len(),
                slots.len() == i,
                forall|j: int| 0 <= j < i ==> slots@[j]@ == self.slots@[j]@,
            decreases self.slots.len() - i,
        {
            slots.push(self.slots[i].clone());
            i += 1;
        }
        assert(slots_view(slots@) =~= slots_view(self.slots@));
        Metadata { is_dirty: false, current_slot: self.current_slot.clone(), slots }
    }

    /// Marks the record as loaded with, or without, a matching checksum.
    pub fn set_dirty(&mut self, dirty: bool)
        ensures
            final(self)@ == (MetadataView { is_dirty: dirty, ..old(self)@ }),
    {
        self.is_dirty = dirty;
    }

    /// Finds the slot whose recorded user data partition is the live one and
    /// makes it the current slot. `live` is where the user data partition was
    /// found on disk, if it was found: without it, or with an empty device
    /// path, nothing changes. Only the user data partition is compared.
    pub fn calculate_current_slot(&mut self, live: &Option<PartitionLocation>) -> (r: Option<String>)
        ensures
            slot_resolved(old(self)@, *live, r, final(self)@),
            current_slot_resolved(old(self)@, *live, final(self)@),
    {
        let loc = match live {
            Some(loc) => loc,
            None => {
                return None;
            },
        };
        if loc.driver.as_str().unicode_len() == 0 {
            return None;
        }
        let mut k: usize = 0;
        while k < self.slots.len()
            invariant
                k <= self.slots.len(),
                *self == *old(self),
                has_device(*live),
                live->0 == *loc,
                forall|j: int|
                    0 <= j < k ==> !(#[trigger] slots_view(self.slots@)[j]).userdata_at(
                        loc.driver@,
                        loc.first_lba as int,
                        loc.last_lba as int,
                    ),
            decreases self.slots.len() - k,
        {
            let slot = &self.slots[k];
            assert(slots_view(self.slots@)[k as int] == slot@);
            let found = find_target(&slot.dyn_partition_set, USERDATA_NAME);
            let mut hit = false;
            if let Some(i) = found {
                let target = &slot.dyn_partition_set[i];
                if target.driver == loc.driver && target.start_lba == loc.first_lba
                    && target.end_lba == loc.last_lba {
                    hit = true;
                }
                assert(hit == slot@.userdata_at(
                    loc.driver@,
                    loc.first_lba as int,
                    loc.last_lba as int,
                )) by {
                    assert(is_first_named(slot@.dyn_partition_set, USERDATA_NAME@, i as int));
                }
            }
            if hit {
                let name = slot.slot_name.clone();
                self.current_slot = name.clone();
                assert(final(self)@.slots == old(self)@.slots);
                assert(old(self)@.slots[k as int].slot_name == name@);
                assert(is_first_match(
                    old(self)@.slots,
                    loc.driver@,
                    loc.first_lba as int,
                    loc.last_lba as int,
                    k as int,
                ));
                return Some(name);
            }
            k += 1;
        }
        self.current_slot = String::from_str(UNKNOWN_SLOT);
        None
    }
}

/// Sectors of `sector` bytes that the metadata record takes.
pub open spec fn metadata_sectors(sector: nat) -> nat
    recommends
        sector > 0,
{
    sectors_for(METADATA_SIZE_BYTES as nat, sector)
}

/// Sectors of `sector` bytes that the metadata record takes.
pub fn metadata_len_sectors(sector: u64) -> (r: u64)
    requires
        sector > 0,
    ensures
        r == metadata_sectors(sector as nat),
        r >= 1,
        r * sector >= METADATA_SIZE_BYTES,
{
    proof {
        lemma_sectors_for(METADATA_SIZE_BYTES as nat, sector as nat);
    }
    let mut len = METADATA_SIZE_BYTES / sector;
    if METADATA_SIZE_BYTES % sector != 0 {
        len += 1;
    }
    assert(len >= 1) by (nonlinear_arith)
        requires
            len * sector >= 67108864,
            sector > 0,
    ;
    len
}

/// The metadata region that starts at `start_lba`, as `(start_lba, end_lba)`
/// with both ends included.
pub fn calculate_metadata_interval(start_lba: u64, sector: u64) -> (r: (u64, u64))
    requires
        sector > 0,
        start_lba + metadata_sectors(sector as nat) - 1 <= u64::MAX,
    ensures
        r.0 == start_lba,
        r.1 == start_lba + metadata_sectors(sector as nat) - 1,
{
    let len = metadata_len_sectors(sector);
    (start_lba, start_lba + (len - 1))
}

/// The metadata region that ends at `end_lba`, as `(start_lba, end_lba)` with
/// both ends included.
pub fn calculate_metadata_interval_from_low(end_lba: u64, sector: u64) -> (r: (u64, u64))
    requires
        sector > 0,
        end_lba + 1 >= metadata_sectors(sector as nat),
    ensures
        r.0 == end_lba + 1 - metadata_sectors(sector as nat),
        r.1 == end_lba,
{
    let len = metadata_len_sectors(sector);
    (end_lba - (len - 1), end_lba)
}

} // verus!
