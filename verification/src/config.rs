//! What is done with a slot configuration: checking it, turning it into a
//! metadata record and back, and listing its slots.

use vstd::prelude::*;
use vstd::string::StringExecFns;
use crate::applier::{
    apply_targets, clone_tables, entry_guard, first_slot_named_from, name_view, select_slot,
    selected_slot, tables_view, transacted, try_init_partition_table_layout, ApplyError,
};
use crate::constants::UNKNOWN_SLOT;
use crate::gpt_helper::{DiskTable, DiskTableView};
use crate::metadata::{
    current_slot_resolved, names_view, slots_view, Metadata, MetadataView, PartitionLocation,
    PartitionTargetView, Slot, SlotView, SlotsTomlConfig,
};
use crate::gpt_helper::{all_empty, find_max_free_tuple, is_first_longest, try_get_disk_lba};
use crate::planner::{
    auto_layout_freespace_example, merge_names, merge_unique, plan_input, plan_layout,
    DualPartition, LayoutError,
};
use crate::units::{bytes2ieee, decimal_chars, decimal_text, ieee_text};

verus! {

/// The names of a list of partition targets.
pub open spec fn target_names(parts: Seq<PartitionTargetView>) -> Seq<Seq<char>> {
    parts.map_values(|p: PartitionTargetView| p.part_name)
}

/// The names that do not count as firmware for `slot`: those that the slot
/// excludes and those of the partitions that it places, each once.
pub fn slot_exclude_list(slot: &Slot) -> (r: Vec<String>)
    ensures
        names_view(r@) == merge_unique(
            merge_unique(Seq::empty(), slot@.backup_exclude_list),
            target_names(slot@.dyn_partition_set),
        ),
{
    let mut placed: Vec<String> = Vec::new();
    let mut i: usize = 0;
    while i < slot.dyn_partition_set.len()
        invariant
            i <= slot.dyn_partition_set.len(),
            placed.len() == i,
            forall|j: int| 0 <= j < i ==> placed@[j]@ == slot.dyn_partition_set@[j].part_name@,
        decreases slot.dyn_partition_set.len() - i,
    {
        placed.push(slot.dyn_partition_set[i].part_name.clone());
        i += 1;
    }
    proof {
        assert(names_view(placed@) =~= target_names(slot@.dyn_partition_set));
    }
    let empty: Vec<String> = Vec::new();
    proof {
        assert(names_view(empty@) =~= Seq::empty());
    }
    let first = merge_names(empty, &slot.backup_exclude_list);
    merge_names(first, &placed)
}

/// What was measured for a slot before it is checked.
#[derive(Clone, Copy, Debug)]
pub struct SlotProbe {
    /// The size of the firmware that the slot has to back up.
    pub firmware_bytes: u64,
    /// The bytes in a sector of the disk that holds the slot's backup area.
    pub backup_sector_size: u64,
}

/// What the check of one slot found.
#[derive(Clone, Copy, Debug)]
pub struct SlotReport {
    /// The firmware is no larger than the backup area.
    pub firmware_fits: bool,
    /// Whether the layout of the slot can be applied.
    pub layout: Result<(), ApplyError>,
}

/// The backup area of `slot` holds at least `firmware_bytes` bytes.
pub open spec fn firmware_fits(slot: SlotView, firmware_bytes: int, sector: int) -> bool {
    slot.backup_target_start <= slot.backup_target_end && firmware_bytes <= (
    slot.backup_target_end - slot.backup_target_start + 1) * sector
}

/// Whether the backup area of `slot` holds at least `firmware_bytes` bytes.
pub fn check_firmware_fits(slot: &Slot, firmware_bytes: u64, sector: u64) -> (r: bool)
    ensures
        r == firmware_fits(slot@, firmware_bytes as int, sector as int),
{
    if slot.backup_target_end < slot.backup_target_start {
        return false;
    }
    match crate::cloner::bytes_of_span(slot.backup_target_start, slot.backup_target_end, sector) {
        Some(area) => firmware_bytes <= area,
        None => true,
    }
}

/// What a dry run of the layout of the slot named `name` reports, for some
/// GUIDs of the new partitions.
pub open spec fn dry_run_reported(
    tables: Seq<DiskTableView>,
    slots: Seq<SlotView>,
    name: Seq<char>,
    live_first: int,
    live_last: int,
    part_guids: Seq<Seq<char>>,
    layout: Result<(), ApplyError>,
) -> bool {
    match selected_slot(slots, Some(name)) {
        Err(e) => layout == Err::<(), ApplyError>(e),
        Ok(k) => match entry_guard(slots[k], live_first, live_last) {
            Err(e) => layout == Err::<(), ApplyError>(e),
            Ok(_) => match apply_targets(
                tables,
                slots[k].dyn_partition_set,
                false,
                true,
                part_guids,
                slots[k].dyn_partition_set.len() as int,
            ) {
                Err(e) => layout == Err::<(), ApplyError>(e),
                Ok(_) => layout is Ok,
            },
        },
    }
}

/// Checks the slot at position `k` without changing anything: whether its
/// backup area holds the firmware, and whether its layout can be applied to
/// `tables`, which is tried on a copy.
pub fn check_slot(
    slots: &Vec<Slot>,
    k: usize,
    probe: &SlotProbe,
    tables: &Vec<DiskTable>,
    live_userdata: &PartitionLocation,
) -> (r: SlotReport)
    requires
        k < slots.len(),
    ensures
        r.firmware_fits == firmware_fits(
            slots@[k as int]@,
            probe.firmware_bytes as int,
            probe.backup_sector_size as int,
        ),
        exists|part_guids: Seq<Seq<char>>| #[trigger]
            dry_run_reported(
                tables_view(tables@),
                slots_view(slots@),
                slots@[k as int].slot_name@,
                live_userdata.first_lba as int,
                live_userdata.last_lba as int,
                part_guids,
                r.layout,
            ),
{
    let slot = &slots[k];
    let fits = check_firmware_fits(slot, probe.firmware_bytes, probe.backup_sector_size);
    let mut scratch = clone_tables(tables);
    let name = Some(slot.slot_name.clone());
    let outcome = try_init_partition_table_layout(
        &mut scratch,
        slots,
        &name,
        live_userdata,
        false,
        true,
    );
    let layout = match outcome {
        Ok(_) => Ok(()),
        Err(e) => Err(e),
    };
    proof {
        let guids = choose|g: Seq<Seq<char>>| #[trigger]
            transacted(
                tables_view(tables@),
                slots_view(slots@),
                name_view(name),
                live_userdata.first_lba as int,
                live_userdata.last_lba as int,
                false,
                true,
                g,
                outcome,
                tables_view(scratch@),
            );
        assert(dry_run_reported(
            tables_view(tables@),
            slots_view(slots@),
            slots@[k as int].slot_name@,
            live_userdata.first_lba as int,
            live_userdata.last_lba as int,
            guids,
            layout,
        ));
    }
    SlotReport { firmware_fits: fits, layout }
}

/// A report without a fault.
pub open spec fn report_fine(report: SlotReport) -> bool {
    report.firmware_fits && report.layout is Ok
}

/// Checks every slot of a configuration without changing anything. `probes`
/// holds what was measured for each slot, in the order of the slots; where
/// it does not, nothing is checked. A fault in one slot does not stop the
/// check of the others. The second part of the result tells whether every
/// slot is fine.
pub fn check_slots_config(
    slots: &Vec<Slot>,
    probes: &Vec<SlotProbe>,
    tables: &Vec<DiskTable>,
    live_userdata: &PartitionLocation,
) -> (r: Option<(Vec<SlotReport>, bool)>)
    ensures
        r is Some <==> probes.len() == slots.len(),
        match r {
            Some((reports, all_fine)) => {
                &&& reports.len() == slots.len()
                &&& all_fine == forall|k: int|
                    0 <= k < reports.len() ==> report_fine(#[trigger] reports@[k])
                &&& forall|k: int|
                    0 <= k < reports.len() ==> {
                        &&& (#[trigger] reports@[k]).firmware_fits == firmware_fits(
                            slots@[k]@,
                            probes@[k].firmware_bytes as int,
                            probes@[k].backup_sector_size as int,
                        )
                        &&& exists|part_guids: Seq<Seq<char>>| #[trigger]
                            dry_run_reported(
                                tables_view(tables@),
                                slots_view(slots@),
                                slots@[k].slot_name@,
                                live_userdata.first_lba as int,
                                live_userdata.last_lba as int,
                                part_guids,
                                reports@[k].layout,
                            )
                    }
            },
            None => true,
        },
{
    if probes.len() != slots.len() {
        return None;
    }
    let mut reports: Vec<SlotReport> = Vec::new();
    let mut all_fine = true;
    let mut k: usize = 0;
    while k < slots.len()
        invariant
            k <= slots.len(),
            probes.len() == slots.len(),
            reports.len() == k,
            all_fine == forall|j: int| 0 <= j < k ==> report_fine(#[trigger] reports@[j]),
            forall|j: int|
                0 <= j < k ==> {
                    &&& (#[trigger] reports@[j]).firmware_fits == firmware_fits(
                        slots@[j]@,
                        probes@[j].firmware_bytes as int,
                        probes@[j].backup_sector_size as int,
                    )
                    &&& exists|part_guids: Seq<Seq<char>>| #[trigger]
                        dry_run_reported(
                            tables_view(tables@),
                            slots_view(slots@),
                            slots@[j].slot_name@,
                            live_userdata.first_lba as int,
                            live_userdata.last_lba as int,
                            part_guids,
                            reports@[j].layout,
                        )
                },
        decreases slots.len() - k,
    {
        let report = check_slot(slots, k, &probes[k], tables, live_userdata);
        let ghost before = reports@;
        let ghost fine_before = all_fine;
        if !report.firmware_fits || report.layout.is_err() {
            all_fine = false;
        }
        reports.push(report);
        proof {
            assert(reports@[k as int] == report);
            assert forall|j: int| 0 <= j < k implies reports@[j] == before[j] by {}
            if fine_before && report_fine(report) {
                assert forall|j: int| 0 <= j < k + 1 implies report_fine(#[trigger] reports@[j]) by {
                    if j < k {
                        assert(report_fine(before[j]));
                    }
                }
            }
            if !fine_before {
                let j = choose|j: int| 0 <= j < k && !report_fine(#[trigger] before[j]);
                assert(!report_fine(reports@[j]));
            }
        }
        k += 1;
    }
    Some((reports, all_fine))
}

/// `acc` with `slot` in the place of the slot of its name, or at the end
/// where `acc` has no slot of that name.
pub open spec fn put_slot(acc: Seq<SlotView>, slot: SlotView) -> Seq<SlotView> {
    match first_slot_named_from(acc, slot.slot_name, 0) {
        Some(i) => acc.update(i, slot),
        None => acc.push(slot),
    }
}

/// The first `k` of `slots` by name: of several slots with one name the last
/// counts.
pub open spec fn keyed_slots(slots: Seq<SlotView>, k: int) -> Seq<SlotView>
    decreases k,
{
    if k <= 0 {
        Seq::empty()
    } else {
        put_slot(keyed_slots(slots, k - 1), slots[k - 1])
    }
}

/// Where the first slot named `name` is found from `from` on.
pub proof fn lemma_first_slot_named_from(slots: Seq<SlotView>, name: Seq<char>, from: int)
    requires
        0 <= from <= slots.len(),
    ensures
        match first_slot_named_from(slots, name, from) {
            Some(i) => {
                &&& from <= i < slots.len()
                &&& slots[i].slot_name == name
                &&& forall|j: int| from <= j < i ==> (#[trigger] slots[j]).slot_name != name
            },
            None => forall|j: int| from <= j < slots.len() ==> (#[trigger] slots[j]).slot_name != name,
        },
    decreases slots.len() - from,
{
    if from < slots.len() && slots[from].slot_name != name {
        lemma_first_slot_named_from(slots, name, from + 1);
    }
}

/// The names of `slots` are distinct.
pub open spec fn slot_names_distinct(slots: Seq<SlotView>) -> bool {
    forall|i: int, j: int|
        0 <= i < j < slots.len() ==> (#[trigger] slots[i]).slot_name != (#[trigger] slots[j]).slot_name
}

/// Slots kept by name have distinct names, and each has the name of one of
/// the slots they were made from.
pub proof fn lemma_keyed_slots_distinct(slots: Seq<SlotView>, k: int)
    requires
        0 <= k <= slots.len(),
    ensures
        slot_names_distinct(keyed_slots(slots, k)),
        forall|i: int|
            0 <= i < keyed_slots(slots, k).len() ==> exists|j: int|
                0 <= j < k && (#[trigger] slots[j]).slot_name == (#[trigger] keyed_slots(
                    slots,
                    k,
                )[i]).slot_name,
    decreases k,
{
    if k > 0 {
        lemma_keyed_slots_distinct(slots, k - 1);
        let acc = keyed_slots(slots, k - 1);
        let slot = slots[k - 1];
        let out = keyed_slots(slots, k);
        lemma_first_slot_named_from(acc, slot.slot_name, 0);
        assert forall|i: int| 0 <= i < out.len() implies exists|j: int|
            0 <= j < k && (#[trigger] slots[j]).slot_name == (#[trigger] out[i]).slot_name by {
            if out[i] == slot {
                assert(slots[k - 1].slot_name == out[i].slot_name);
            } else {
                assert(out[i] == acc[i]);
                let j = choose|j: int|
                    0 <= j < k - 1 && (#[trigger] slots[j]).slot_name == acc[i].slot_name;
                assert(slots[j].slot_name == out[i].slot_name);
            }
        }
        assert forall|a: int, b: int| 0 <= a < b < out.len() implies (#[trigger] out[a]).slot_name
            != (#[trigger] out[b]).slot_name by {
            match first_slot_named_from(acc, slot.slot_name, 0) {
                Some(i) => {
                    assert(acc[a].slot_name != acc[b].slot_name);
                    assert(acc[i].slot_name == slot.slot_name);
                },
                None => {
                    if b < acc.len() {
                        assert(acc[a].slot_name != acc[b].slot_name);
                    } else {
                        assert(acc[a].slot_name != slot.slot_name);
                    }
                },
            }
        }
    }
}

/// Makes the metadata record of a configuration: its slots by name, not
/// dirty, with the current slot resolved against the live user data
/// partition `live` and unknown where no slot matches.
pub fn update_config_to_all_slots(slots: &Vec<Slot>, live: &Option<PartitionLocation>) -> (r: Metadata)
    ensures
        current_slot_resolved(
            MetadataView {
                is_dirty: false,
                current_slot: UNKNOWN_SLOT@,
                slots: keyed_slots(slots_view(slots@), slots.len() as int),
            },
            *live,
            r@,
        ),
{
    let mut keyed: Vec<Slot> = Vec::new();
    let ghost sv = slots_view(slots@);
    let mut k: usize = 0;
    proof {
        assert(slots_view(keyed@) =~= Seq::empty());
    }
    while k < slots.len()
        invariant
            k <= slots.len(),
            sv == slots_view(slots@),
            slots_view(keyed@) == keyed_slots(sv, k as int),
        decreases slots.len() - k,
    {
        let slot = slots[k].clone();
        assert(sv[k as int] == slot@);
        let ghost before = slots_view(keyed@);
        let name = Some(slot.slot_name.clone());
        match select_slot(&keyed, &name) {
            Ok(i) => {
                keyed.set(i, slot);
                proof {
                    assert(slots_view(keyed@) =~= before.update(i as int, slot@));
                }
            },
            Err(_) => {
                keyed.push(slot);
                proof {
                    assert(slots_view(keyed@) =~= before.push(slot@));
                }
            },
        }
        k += 1;
    }
    let mut metadata = Metadata::new(String::from_str(UNKNOWN_SLOT), keyed);
    metadata.calculate_current_slot(live);
    metadata
}

/// The configuration that a metadata record was made from: its slots.
pub fn dump_current_metadata(metadata: &Metadata) -> (r: SlotsTomlConfig)
    ensures
        r@ == metadata@.slots,
{
    let slots = metadata.slots();
    let mut out: Vec<Slot> = Vec::new();
    let mut i: usize = 0;
    while i < slots.len()
        invariant
            i <= slots.len(),
            out.len() == i,
            forall|j: int| 0 <= j < i ==> out@[j]@ == slots@[j]@,
        decreases slots.len() - i,
    {
        out.push(slots[i].clone());
        i += 1;
    }
    assert(slots_view(out@) =~= slots_view(slots@));
    SlotsTomlConfig { slot: out }
}

/// The position of the current slot among the slots of `metadata`: `None`
/// where no slot has the name of the current slot.
pub fn show_current_slot(metadata: &Metadata) -> (r: Option<usize>)
    ensures
        match r {
            Some(k) => k < metadata@.slots.len() && first_slot_named_from(
                metadata@.slots,
                metadata@.current_slot,
                0,
            ) == Some(k as int),
            None => first_slot_named_from(metadata@.slots, metadata@.current_slot, 0) is None,
        },
{
    let name = Some(metadata.current_slot().clone());
    match select_slot(metadata.slots(), &name) {
        Ok(k) => Some(k),
        Err(_) => None,
    }
}

/// What is to be listed.
#[derive(Debug)]
pub enum Listing {
    /// The slot at this position.
    One(usize),
    /// The names of all slots, in their order.
    Names(Vec<String>),
    /// The whole record.
    Everything,
    /// No slot has the name asked for.
    NoSuchSlot,
}

/// The names of a list of slots.
pub open spec fn slot_names(slots: Seq<SlotView>) -> Seq<Seq<char>> {
    slots.map_values(|s: SlotView| s.slot_name)
}

/// Decides what to list: the slot named `slot_name` where a name is given,
/// else with `only_name` the names of all slots, else the whole record.
pub fn list_slots(metadata: &Metadata, slot_name: &Option<String>, only_name: bool) -> (r: Listing)
    ensures
        match *slot_name {
            Some(name) => match first_slot_named_from(metadata@.slots, name@, 0) {
                Some(k) => r matches Listing::One(i) && i == k,
                None => r is NoSuchSlot,
            },
            None => if only_name {
                r matches Listing::Names(names) && names_view(names@) == slot_names(metadata@.slots)
            } else {
                r is Everything
            },
        },
{
    let slots = metadata.slots();
    if slot_name.is_some() {
        return match select_slot(slots, slot_name) {
            Ok(k) => Listing::One(k),
            Err(_) => Listing::NoSuchSlot,
        };
    }
    if only_name {
        let mut names: Vec<String> = Vec::new();
        let mut i: usize = 0;
        while i < slots.len()
            invariant
                i <= slots.len(),
                names.len() == i,
                forall|j: int| 0 <= j < i ==> names@[j]@ == slots@[j].slot_name@,
            decreases slots.len() - i,
        {
            names.push(slots[i].slot_name.clone());
            i += 1;
        }
        proof {
            assert(names_view(names@) =~= slot_names(slots_view(slots@)));
        }
        return Listing::Names(names);
    }
    Listing::Everything
}

/// The warnings at the head of a configuration template.
pub const TEMPLATE_WARNINGS: &'static str =
    "# DO NOT MODIFY BACKUP TARGET MIN SIZE , IT IS ONLY A INFO FOR YOU WITHOUT ANY OTHER FUNCTION\n# DO NOT RESTORE SUPER IF ON SYSTEM\n# Firmware too large ? add your custorm partitions to backup exclude list and regenerate \n# On-system switch please make super or system and vender .etc to dynpt list \n# On-recovery switch is safe if umounted everything \n\n";

/// The head of a configuration template for a backup area of at least
/// `bytes` bytes: the warnings, a note of that size, and the line that
/// announces the configuration.
pub open spec fn header_text(bytes: nat) -> Seq<char> {
    TEMPLATE_WARNINGS@ + "# NOTE : Backup Target Min SIZE = "@ + decimal_chars(bytes)
        + " bytes , "@ + ieee_text(bytes) + "\n"@ + "\n# Example config file\n\n"@
}

/// Writes the head of a configuration template.
pub fn template_header(bytes: u64) -> (r: String)
    ensures
        r@ == header_text(bytes as nat),
{
    let mut text = String::from_str(TEMPLATE_WARNINGS);
    text.append("# NOTE : Backup Target Min SIZE = ");
    let number = decimal_text(bytes);
    text.append(number.as_str());
    text.append(" bytes , ");
    let readable = bytes2ieee(bytes);
    text.append(readable.as_str());
    text.append("\n");
    text.append("\n# Example config file\n\n");
    text
}

/// Why no template was made.
#[derive(Clone, Copy, Debug, PartialEq, Eq, Structural)]
pub enum TemplateError {
    /// The disk's sectors hold neither 512 nor 4096 bytes.
    UnsupportedSectorSize,
    /// A free extent ends beyond the last sector that can be counted, or the
    /// size of the backup area does not fit in 64 bits.
    Arithmetic,
    /// No layout could be planned.
    Layout(LayoutError),
}

/// A configuration template: the planned slots and the text that goes
/// before them.
#[derive(Debug)]
pub struct Template {
    pub config: SlotsTomlConfig,
    pub header: String,
}

/// Every extent of `tuples` ends at a sector that can be counted.
pub open spec fn extents_fit(tuples: Seq<(u64, u64)>) -> bool {
    forall|j: int| 0 <= j < tuples.len() ==> (#[trigger] tuples[j]).0 + tuples[j].1 - 1 <= u64::MAX
}

/// `[first, last]` is the largest of the free extents `tuples`, or both are
/// 0 where no extent holds a sector.
pub open spec fn is_largest_extent(tuples: Seq<(u64, u64)>, first: u64, last: u64) -> bool {
    if all_empty(tuples) {
        first == 0 && last == 0
    } else {
        exists|i: int|
            {
                &&& #[trigger] is_first_longest(tuples, i)
                &&& first == tuples[i].0
                &&& last == tuples[i].0 + tuples[i].1 - 1
            }
    }
}

/// Whether every extent of `tuples` ends at a sector that can be counted.
pub fn check_extents(tuples: &Vec<(u64, u64)>) -> (r: bool)
    ensures
        r == extents_fit(tuples@),
{
    let mut j: usize = 0;
    while j < tuples.len()
        invariant
            j <= tuples.len(),
            forall|i: int| 0 <= i < j ==> (#[trigger] tuples[i]).0 + tuples[i].1 - 1 <= u64::MAX,
        decreases tuples.len() - j,
    {
        let (start, length) = tuples[j];
        if length > 0 && start.checked_add(length - 1).is_none() {
            return false;
        }
        j += 1;
    }
    true
}

/// Makes a configuration template for a disk: two slots laid out in the
/// largest of its free extents, and the head of the file. `free_sectors` are
/// the free extents of the disk without its user data partition, each as
/// first sector and length.
pub fn generate_template_init_config_file(
    free_sectors: &Vec<(u64, u64)>,
    target_disk: &str,
    sector_size: u64,
    exclude_files: &Vec<String>,
    dual_list: &Vec<DualPartition>,
    userdata_type_guid: &str,
    userdata_flags: u64,
    fw_size: u64,
) -> (r: Result<Template, TemplateError>)
    ensures
        sector_size != 512 && sector_size != 4096 ==> r is Err && r->Err_0
            == TemplateError::UnsupportedSectorSize,
        (sector_size == 512 || sector_size == 4096) && !extents_fit(free_sectors@) ==> r is Err
            && r->Err_0 == TemplateError::Arithmetic,
        (sector_size == 512 || sector_size == 4096) && extents_fit(free_sectors@) ==> exists|
            first: u64,
            last: u64,
        |
            {
                &&& #[trigger] is_largest_extent(free_sectors@, first, last)
                &&& match plan_layout(
                    plan_input(
                        target_disk,
                        first,
                        last,
                        sector_size,
                        exclude_files@,
                        dual_list@,
                        userdata_type_guid,
                        userdata_flags,
                        fw_size,
                    ),
                ) {
                    Err(e) => r is Err && r->Err_0 == TemplateError::Layout(e),
                    Ok(plan) => if plan.back_min * sector_size > u64::MAX {
                        r is Err && r->Err_0 == TemplateError::Arithmetic
                    } else {
                        &&& r is Ok
                        &&& r->Ok_0.config@ == seq![plan.slot_a, plan.slot_b]
                        &&& r->Ok_0.header@ == header_text((plan.back_min * sector_size) as nat)
                    },
                }
            },
{
    if try_get_disk_lba(sector_size).is_err() {
        return Err(TemplateError::UnsupportedSectorSize);
    }
    if !check_extents(free_sectors) {
        return Err(TemplateError::Arithmetic);
    }
    let (start_lba, end_lba) = find_max_free_tuple(free_sectors);
    assert(is_largest_extent(free_sectors@, start_lba, end_lba));
    let mut back_min_size_sector: u64 = 0;
    let planned = auto_layout_freespace_example(
        target_disk,
        start_lba,
        end_lba,
        sector_size,
        exclude_files,
        dual_list,
        userdata_type_guid,
        userdata_flags,
        fw_size,
        &mut back_min_size_sector,
    );
    let (slot1, slot2) = match planned {
        Ok(slots) => slots,
        Err(e) => {
            return Err(TemplateError::Layout(e));
        },
    };
    let bytes = match back_min_size_sector.checked_mul(sector_size) {
        Some(b) => b,
        None => {
            return Err(TemplateError::Arithmetic);
        },
    };
    let mut slot: Vec<Slot> = Vec::new();
    slot.push(slot1);
    slot.push(slot2);
    let config = SlotsTomlConfig { slot };
    assert(config@ =~= seq![slot1@, slot2@]);
    Ok(Template { config, header: template_header(bytes) })
}

} // verus!
