//! Applying a slot's layout to partition tables, all or nothing.

use vstd::prelude::*;
use vstd::string::StringExecFns;
use crate::constants::USERDATA_NAME;
use crate::gpt_helper::{
    delete_part_by_name, entries_view, find_entry, find_next_partition_id, id_taken,
    is_partition_type, new_partition, new_partition_error, try_get_disk_lba,
    valid_partition_type, with_entry, without_entry, DiskTable, DiskTableView, PartitionEntryView,
    PartitionError,
};
use crate::metadata::{
    find_target, slots_view, targets_view, PartitionLocation, PartitionRawTarget,
    PartitionTargetView, Slot, SlotView,
};

verus! {

/// The views of a list of partition tables.
pub open spec fn tables_view(tables: Seq<DiskTable>) -> Seq<DiskTableView> {
    tables.map_values(|t: DiskTable| t@)
}

/// Copies a list of partition tables.
pub fn clone_tables(tables: &Vec<DiskTable>) -> (r: Vec<DiskTable>)
    ensures
        tables_view(r@) == tables_view(tables@),
{
    let mut out: Vec<DiskTable> = Vec::new();
    let mut i: usize = 0;
    while i < tables.len()
        invariant
            i <= tables.len(),
            out.len() == i,
            forall|j: int| 0 <= j < i ==> out@[j]@ == tables@[j]@,
        decreases tables.len() - i,
    {
        out.push(tables[i].clone());
        i += 1;
    }
    assert(tables_view(out@) =~= tables_view(tables@));
    out
}

/// Why a layout was not applied.
#[derive(Clone, Copy, Debug, PartialEq, Eq, Structural)]
pub enum ApplyError {
    /// The configuration lists no slot.
    NoSlot,
    /// The configuration has no slot of the name asked for.
    NoSuchSlot,
    /// The slot places no user data partition.
    NoUserdataTarget,
    /// The slot's user data partition is not where user data lives now: the
    /// user data partition has to be initialised first.
    UserdataNotInitialized,
    /// The slot places user data on another disk than the one it lives on.
    UserdataMismatch,
    /// A partition that is to be replaced is in no table.
    PartitionNotFound,
    /// No table is known for the disk of a target.
    DiskNotFound,
    /// A disk's sectors hold neither 512 nor 4096 bytes.
    UnsupportedSectorSize,
    /// The table is full and may not grow.
    UserCancelled,
    /// The partition type of a target is not known.
    InvalidTypeGuid,
    /// The last sector of a target lies before its first, or the target
    /// covers more sectors than can be counted.
    InvalidRange,
    /// The partition was refused.
    Partition(PartitionError),
    /// Firmware could not be cloned after the layout was applied.
    CloneFailed,
}

/// The sector sizes of a GPT disk: 512 and 4096 bytes.
pub open spec fn supported_sector(size: int) -> bool {
    size == 512 || size == 4096
}

/// The position of the first partition named `name` at or after `from`.
pub open spec fn first_named_from(entries: Seq<PartitionEntryView>, name: Seq<char>, from: int) -> Option<
    int,
>
    decreases entries.len() - from,
{
    if from < 0 || from >= entries.len() {
        None
    } else if entries[from].name == name {
        Some(from)
    } else {
        first_named_from(entries, name, from + 1)
    }
}

/// The position of the first table at or after `from` that has a partition
/// named `name`.
pub open spec fn first_holder_from(tables: Seq<DiskTableView>, name: Seq<char>, from: int) -> Option<
    int,
>
    decreases tables.len() - from,
{
    if from < 0 || from >= tables.len() {
        None
    } else if first_named_from(tables[from].entries, name, 0) is Some {
        Some(from)
    } else {
        first_holder_from(tables, name, from + 1)
    }
}

/// The position of the first table at or after `from` that belongs to `device`.
pub open spec fn first_device_from(tables: Seq<DiskTableView>, device: Seq<char>, from: int) -> Option<
    int,
>
    decreases tables.len() - from,
{
    if from < 0 || from >= tables.len() {
        None
    } else if tables[from].device == device {
        Some(from)
    } else {
        first_device_from(tables, device, from + 1)
    }
}

/// The lowest free identifier from `id` up to the declared room of `table`.
pub open spec fn next_id_from(table: DiskTableView, id: int) -> Option<int>
    decreases table.num_parts + 1 - id,
{
    if id < 1 || id > table.num_parts {
        None
    } else if !id_taken(table.entries, id) {
        Some(id)
    } else {
        next_id_from(table, id + 1)
    }
}

/// The identifier that a new partition of `table` gets without growing it.
pub open spec fn next_id(table: DiskTableView) -> Option<int> {
    if table.entries.len() == 0 {
        Some(1)
    } else {
        next_id_from(table, 1)
    }
}

/// Where the first partition named `name` is found from `from` on: at the
/// given position, or nowhere.
pub proof fn lemma_first_named_from(entries: Seq<PartitionEntryView>, name: Seq<char>, from: int)
    requires
        0 <= from <= entries.len(),
    ensures
        match first_named_from(entries, name, from) {
            Some(i) => {
                &&& from <= i < entries.len()
                &&& entries[i].name == name
                &&& forall|j: int| from <= j < i ==> (#[trigger] entries[j]).name != name
            },
            None => forall|j: int| from <= j < entries.len() ==> (#[trigger] entries[j]).name != name,
        },
    decreases entries.len() - from,
{
    if from < entries.len() && entries[from].name != name {
        lemma_first_named_from(entries, name, from + 1);
    }
}

/// The lowest free identifier, as `find_next_partition_id` describes it.
pub proof fn lemma_next_id_from(table: DiskTableView, id: int)
    requires
        1 <= id,
    ensures
        match next_id_from(table, id) {
            Some(n) => {
                &&& id <= n <= table.num_parts
                &&& !id_taken(table.entries, n)
                &&& forall|j: int| id <= j < n ==> id_taken(table.entries, j)
            },
            None => forall|j: int| id <= j <= table.num_parts ==> id_taken(table.entries, j),
        },
    decreases table.num_parts + 1 - id,
{
    if id <= table.num_parts && id_taken(table.entries, id) {
        lemma_next_id_from(table, id + 1);
    }
}

/// The tables after the partition that a target replaces is gone, the
/// position of the target's table, and the identifier that the new partition
/// takes over (0 for none).
pub struct Cleared {
    pub tables: Seq<DiskTableView>,
    pub target: int,
    pub reuse: int,
}

/// Makes room for `target`. When changes are saved, the partition of that
/// name is removed from the first table that has one. On a dry run, only the
/// table of the target's disk is looked at, and the new partition takes over
/// the identifier of a partition that it replaces.
pub open spec fn clear_old(tables: Seq<DiskTableView>, target: PartitionTargetView, save: bool) -> Result<
    Cleared,
    ApplyError,
> {
    let name = target.part_name;
    if save {
        match first_holder_from(tables, name, 0) {
            None => Err(ApplyError::PartitionNotFound),
            Some(h) => if !supported_sector(tables[h].sector_size) {
                Err(ApplyError::UnsupportedSectorSize)
            } else {
                let i = first_named_from(tables[h].entries, name, 0)->0;
                let cleared = tables.update(h, without_entry(tables[h], i));
                match first_device_from(cleared, target.driver, 0) {
                    None => Err(ApplyError::DiskNotFound),
                    Some(t) => if !supported_sector(cleared[t].sector_size) {
                        Err(ApplyError::UnsupportedSectorSize)
                    } else {
                        Ok(Cleared { tables: cleared, target: t, reuse: 0 })
                    },
                }
            },
        }
    } else {
        match first_device_from(tables, target.driver, 0) {
            None => Err(ApplyError::DiskNotFound),
            Some(t) => if !supported_sector(tables[t].sector_size) {
                Err(ApplyError::UnsupportedSectorSize)
            } else {
                match first_named_from(tables[t].entries, name, 0) {
                    None => Ok(Cleared { tables, target: t, reuse: 0 }),
                    Some(i) => Ok(
                        Cleared {
                            tables: tables.update(t, without_entry(tables[t], i)),
                            target: t,
                            reuse: tables[t].entries[i].id,
                        },
                    ),
                }
            },
        }
    }
}

/// The identifier for a new partition of `table`: the one taken over, else
/// the lowest free one, else, where the table may grow, one more than its
/// declared room; 0 where there is none.
pub open spec fn chosen_id(table: DiskTableView, reuse: int, grow: bool) -> int {
    if reuse != 0 {
        reuse
    } else {
        match next_id(table) {
            Some(id) => id,
            None => if grow && table.num_parts < u32::MAX {
                table.num_parts + 1
            } else {
                0
            },
        }
    }
}

/// Creates the partition of `target` in the table at position `t`.
pub open spec fn create_target(
    tables: Seq<DiskTableView>,
    t: int,
    reuse: int,
    target: PartitionTargetView,
    grow: bool,
    part_guid: Seq<char>,
) -> Result<Seq<DiskTableView>, ApplyError> {
    let table = tables[t];
    let id = chosen_id(table, reuse, grow);
    let length = target.end_lba - target.start_lba + 1;
    if id == 0 {
        Err(ApplyError::UserCancelled)
    } else if !valid_partition_type(target.type_guid) {
        Err(ApplyError::InvalidTypeGuid)
    } else if target.end_lba < target.start_lba || length > u64::MAX {
        Err(ApplyError::InvalidRange)
    } else {
        match new_partition_error(table, id, target.start_lba, length) {
            Some(e) => Err(ApplyError::Partition(e)),
            None => Ok(
                tables.update(
                    t,
                    with_entry(
                        table,
                        PartitionEntryView {
                            id,
                            name: target.part_name,
                            first_lba: target.start_lba,
                            last_lba: target.end_lba,
                            type_guid: target.type_guid,
                            part_guid,
                            flags: target.flags,
                        },
                    ),
                ),
            ),
        }
    }
}

/// Replaces the partition named like `target` by one at the target's place.
/// `part_guid` is the GUID of the new partition.
pub open spec fn apply_one(
    tables: Seq<DiskTableView>,
    target: PartitionTargetView,
    save: bool,
    grow: bool,
    part_guid: Seq<char>,
) -> Result<Seq<DiskTableView>, ApplyError> {
    match clear_old(tables, target, save) {
        Err(e) => Err(e),
        Ok(c) => create_target(c.tables, c.target, c.reuse, target, grow, part_guid),
    }
}

/// Applies the first `k` of `targets` in their order, stopping at the first
/// that fails. `part_guids` holds the GUID of each new partition.
pub open spec fn apply_targets(
    tables: Seq<DiskTableView>,
    targets: Seq<PartitionTargetView>,
    save: bool,
    grow: bool,
    part_guids: Seq<Seq<char>>,
    k: int,
) -> Result<Seq<DiskTableView>, ApplyError>
    decreases k,
{
    if k <= 0 {
        Ok(tables)
    } else {
        match apply_targets(tables, targets, save, grow, part_guids, k - 1) {
            Err(e) => Err(e),
            Ok(t) => apply_one(t, targets[k - 1], save, grow, part_guids[k - 1]),
        }
    }
}

/// Looks up the first table of `device`.
pub fn find_table(tables: &Vec<DiskTable>, device: &String) -> (r: Option<usize>)
    ensures
        match r {
            Some(t) => t < tables.len() && first_device_from(tables_view(tables@), device@, 0) == Some(
                t as int,
            ),
            None => first_device_from(tables_view(tables@), device@, 0) is None,
        },
{
    let mut t: usize = 0;
    while t < tables.len()
        invariant
            t <= tables.len(),
            first_device_from(tables_view(tables@), device@, 0) == first_device_from(
                tables_view(tables@),
                device@,
                t as int,
            ),
        decreases tables.len() - t,
    {
        if tables[t].device == *device {
            return Some(t);
        }
        t += 1;
    }
    None
}

/// Looks up the first table that has a partition named `name`, and the
/// position of the first such partition in it.
pub fn find_holder(tables: &Vec<DiskTable>, name: &str) -> (r: Option<(usize, usize)>)
    ensures
        match r {
            Some((h, i)) => {
                &&& h < tables.len()
                &&& i < tables@[h as int].entries.len()
                &&& first_holder_from(tables_view(tables@), name@, 0) == Some(h as int)
                &&& first_named_from(tables_view(tables@)[h as int].entries, name@, 0) == Some(i as int)
            },
            None => first_holder_from(tables_view(tables@), name@, 0) is None,
        },
{
    let mut h: usize = 0;
    while h < tables.len()
        invariant
            h <= tables.len(),
            first_holder_from(tables_view(tables@), name@, 0) == first_holder_from(
                tables_view(tables@),
                name@,
                h as int,
            ),
        decreases tables.len() - h,
    {
        let found = find_entry(&tables[h].entries, name);
        proof {
            lemma_first_named_from(tables_view(tables@)[h as int].entries, name@, 0);
        }
        if let Some(i) = found {
            return Some((h, i));
        }
        h += 1;
    }
    None
}

/// The identifier for a new partition of `table`; 0 where there is none.
pub fn choose_partition_id(table: &DiskTable, reuse: u32, grow: bool) -> (r: u32)
    ensures
        r == chosen_id(table@, reuse as int, grow),
{
    if reuse != 0 {
        return reuse;
    }
    proof {
        lemma_next_id_from(table@, 1);
    }
    match find_next_partition_id(table) {
        Some(id) => id,
        None => {
            if grow && table.num_parts < u32::MAX {
                table.num_parts + 1
            } else {
                0
            }
        },
    }
}

/// What an attempt to apply a target has done: it went as `apply_one` says
/// for some GUID of the new partition.
pub open spec fn attempted_one(
    before: Seq<DiskTableView>,
    target: PartitionTargetView,
    save: bool,
    grow: bool,
    part_guid: Seq<char>,
    r: Result<(), ApplyError>,
    after: Seq<DiskTableView>,
) -> bool {
    match apply_one(before, target, save, grow, part_guid) {
        Ok(t) => r is Ok && after == t,
        Err(e) => r == Err::<(), ApplyError>(e),
    }
}

/// What `apply_target` has done: it went as `apply_one` says for some GUID
/// of the new partition, and after a failure the tables are what they were.
pub open spec fn applied_one(
    before: Seq<DiskTableView>,
    target: PartitionTargetView,
    save: bool,
    grow: bool,
    part_guid: Seq<char>,
    r: Result<(), ApplyError>,
    after: Seq<DiskTableView>,
) -> bool {
    match apply_one(before, target, save, grow, part_guid) {
        Ok(t) => r is Ok && after == t,
        Err(e) => r == Err::<(), ApplyError>(e) && after == before,
    }
}

/// Tries to replace the partition named like `target`. After a failure the
/// tables may have lost the old partition.
fn try_apply_target(
    tables: &mut Vec<DiskTable>,
    target: &PartitionRawTarget,
    save_changes: bool,
    grow_allowed: bool,
) -> (r: Result<(), ApplyError>)
    ensures
        exists|part_guid: Seq<char>| #[trigger]
            attempted_one(
                tables_view(old(tables)@),
                target@,
                save_changes,
                grow_allowed,
                part_guid,
                r,
                tables_view(final(tables)@),
            ),
{
    let ghost before = tables_view(tables@);
    let ghost name = target@.part_name;
    let ghost none = Seq::<char>::empty();
    let mut reuse: u32 = 0;
    let t: usize;
    if save_changes {
        let (h, i) = match find_holder(tables, target.part_name.as_str()) {
            Some(p) => p,
            None => {
                assert(attempted_one(
                    before,
                    target@,
                    save_changes,
                    grow_allowed,
                    none,
                    Err(ApplyError::PartitionNotFound),
                    tables_view(tables@),
                ));
                return Err(ApplyError::PartitionNotFound);
            },
        };
        proof {
            lemma_first_named_from(before[h as int].entries, name, 0);
        }
        let holder = &mut tables[h];
        let deleted = delete_part_by_name(holder, target.part_name.as_str());
        if deleted.is_err() {
            assert(attempted_one(
                before,
                target@,
                save_changes,
                grow_allowed,
                none,
                Err(ApplyError::UnsupportedSectorSize),
                tables_view(tables@),
            ));
            return Err(ApplyError::UnsupportedSectorSize);
        }
        proof {
            assert(tables_view(tables@) =~= before.update(
                h as int,
                without_entry(before[h as int], i as int),
            ));
        }
        t = match find_table(tables, &target.driver) {
            Some(t) => t,
            None => {
                assert(attempted_one(
                    before,
                    target@,
                    save_changes,
                    grow_allowed,
                    none,
                    Err(ApplyError::DiskNotFound),
                    tables_view(tables@),
                ));
                return Err(ApplyError::DiskNotFound);
            },
        };
        if try_get_disk_lba(tables[t].sector_size).is_err() {
            assert(attempted_one(
                before,
                target@,
                save_changes,
                grow_allowed,
                none,
                Err(ApplyError::UnsupportedSectorSize),
                tables_view(tables@),
            ));
            return Err(ApplyError::UnsupportedSectorSize);
        }
    } else {
        t = match find_table(tables, &target.driver) {
            Some(t) => t,
            None => {
                assert(attempted_one(
                    before,
                    target@,
                    save_changes,
                    grow_allowed,
                    none,
                    Err(ApplyError::DiskNotFound),
                    tables_view(tables@),
                ));
                return Err(ApplyError::DiskNotFound);
            },
        };
        if try_get_disk_lba(tables[t].sector_size).is_err() {
            assert(attempted_one(
                before,
                target@,
                save_changes,
                grow_allowed,
                none,
                Err(ApplyError::UnsupportedSectorSize),
                tables_view(tables@),
            ));
            return Err(ApplyError::UnsupportedSectorSize);
        }
        proof {
            lemma_first_named_from(before[t as int].entries, name, 0);
        }
        if let Some(i) = find_entry(&tables[t].entries, target.part_name.as_str()) {
            let table = &mut tables[t];
            let removed = table.entries.remove(i);
            reuse = removed.id;
            proof {
                assert(entries_view(table.entries@) =~= before[t as int].entries.remove(i as int));
                assert(removed@ == before[t as int].entries[i as int]);
                assert(tables_view(tables@) =~= before.update(
                    t as int,
                    without_entry(before[t as int], i as int),
                ));
            }
        }
    }
    let ghost cleared = tables_view(tables@);
    assert(clear_old(before, target@, save_changes) == Ok::<Cleared, ApplyError>(
        Cleared { tables: cleared, target: t as int, reuse: reuse as int },
    ));
    let id = choose_partition_id(&tables[t], reuse, grow_allowed);
    if id == 0 {
        assert(attempted_one(
            before,
            target@,
            save_changes,
            grow_allowed,
            none,
            Err(ApplyError::UserCancelled),
            tables_view(tables@),
        ));
        return Err(ApplyError::UserCancelled);
    }
    if !is_partition_type(target.type_guid.as_str()) {
        assert(attempted_one(
            before,
            target@,
            save_changes,
            grow_allowed,
            none,
            Err(ApplyError::InvalidTypeGuid),
            tables_view(tables@),
        ));
        return Err(ApplyError::InvalidTypeGuid);
    }
    if target.end_lba < target.start_lba || target.end_lba - target.start_lba == u64::MAX {
        assert(attempted_one(
            before,
            target@,
            save_changes,
            grow_allowed,
            none,
            Err(ApplyError::InvalidRange),
            tables_view(tables@),
        ));
        return Err(ApplyError::InvalidRange);
    }
    let length = target.end_lba - target.start_lba + 1;
    let ghost table_before = tables@[t as int]@;
    assert(table_before == cleared[t as int]);
    let table = &mut tables[t];
    let created = new_partition(
        table,
        target.part_name.as_str(),
        id,
        target.start_lba,
        length,
        target.type_guid.as_str(),
        target.flags,
    );
    match created {
        Ok(_) => {
            proof {
                let table_after = tables@[t as int]@;
                let g = choose|g: Seq<char>| #[trigger]
                    with_entry(
                        table_before,
                        PartitionEntryView {
                            id: id as int,
                            name: target.part_name@,
                            first_lba: target.start_lba as int,
                            last_lba: target.start_lba + length - 1,
                            type_guid: target.type_guid@,
                            part_guid: g,
                            flags: target.flags as int,
                        },
                    ) == table_after;
                assert(tables_view(tables@) =~= cleared.update(t as int, table_after));
                assert(attempted_one(
                    before,
                    target@,
                    save_changes,
                    grow_allowed,
                    g,
                    Ok(()),
                    tables_view(tables@),
                ));
            }
            Ok(())
        },
        Err(e) => {
            assert(attempted_one(
                before,
                target@,
                save_changes,
                grow_allowed,
                none,
                Err(ApplyError::Partition(e)),
                tables_view(tables@),
            ));
            Err(ApplyError::Partition(e))
        },
    }
}

/// Replaces the partition named like `target` by one at the target's place:
/// the old partition is removed, then the new one is created under a free
/// identifier, wholly within free space. With `save_changes` the old
/// partition is looked for in every table and has to exist; without, only the
/// table of the target's disk is looked at. With `grow_allowed` a full table
/// may grow by one partition. After a failure the tables are what they were.
pub fn apply_target(
    tables: &mut Vec<DiskTable>,
    target: &PartitionRawTarget,
    save_changes: bool,
    grow_allowed: bool,
) -> (r: Result<(), ApplyError>)
    ensures
        exists|part_guid: Seq<char>| #[trigger]
            applied_one(
                tables_view(old(tables)@),
                target@,
                save_changes,
                grow_allowed,
                part_guid,
                r,
                tables_view(final(tables)@),
            ),
{
    let ghost before = tables_view(tables@);
    let saved = clone_tables(tables);
    let r = try_apply_target(tables, target, save_changes, grow_allowed);
    let ghost g = choose|g: Seq<char>| #[trigger]
        attempted_one(before, target@, save_changes, grow_allowed, g, r, tables_view(tables@));
    if r.is_err() {
        *tables = saved;
    }
    assert(applied_one(before, target@, save_changes, grow_allowed, g, r, tables_view(tables@)));
    r
}

/// GUIDs beyond the first `k` have no part in applying the first `k` targets.
pub proof fn lemma_apply_targets_prefix(
    tables: Seq<DiskTableView>,
    targets: Seq<PartitionTargetView>,
    save: bool,
    grow: bool,
    guids1: Seq<Seq<char>>,
    guids2: Seq<Seq<char>>,
    k: int,
)
    requires
        forall|i: int| 0 <= i < k ==> guids1[i] == guids2[i],
    ensures
        apply_targets(tables, targets, save, grow, guids1, k) == apply_targets(
            tables,
            targets,
            save,
            grow,
            guids2,
            k,
        ),
    decreases k,
{
    if k > 0 {
        lemma_apply_targets_prefix(tables, targets, save, grow, guids1, guids2, k - 1);
    }
}

/// Once a target has failed, the targets after it are not applied.
pub proof fn lemma_apply_targets_stops(
    tables: Seq<DiskTableView>,
    targets: Seq<PartitionTargetView>,
    save: bool,
    grow: bool,
    guids: Seq<Seq<char>>,
    k: int,
    n: int,
)
    requires
        0 <= k <= n,
        apply_targets(tables, targets, save, grow, guids, k) is Err,
    ensures
        apply_targets(tables, targets, save, grow, guids, n) == apply_targets(
            tables,
            targets,
            save,
            grow,
            guids,
            k,
        ),
    decreases n - k,
{
    if k < n {
        lemma_apply_targets_stops(tables, targets, save, grow, guids, k, n - 1);
    }
}

/// The tables after the longest run of targets, among the first `k`, that
/// could all be applied.
pub open spec fn last_good(
    tables: Seq<DiskTableView>,
    targets: Seq<PartitionTargetView>,
    save: bool,
    grow: bool,
    part_guids: Seq<Seq<char>>,
    k: int,
) -> Seq<DiskTableView>
    decreases k,
{
    if k <= 0 {
        tables
    } else {
        match apply_targets(tables, targets, save, grow, part_guids, k) {
            Ok(t) => t,
            Err(_) => last_good(tables, targets, save, grow, part_guids, k - 1),
        }
    }
}

/// Where the target after the first `k` fails, the tables of the longest
/// good run are those after the first `k` targets.
pub proof fn lemma_last_good(
    tables: Seq<DiskTableView>,
    targets: Seq<PartitionTargetView>,
    save: bool,
    grow: bool,
    guids: Seq<Seq<char>>,
    k: int,
    n: int,
)
    requires
        0 <= k < n,
        apply_targets(tables, targets, save, grow, guids, k) is Ok,
        apply_targets(tables, targets, save, grow, guids, k + 1) is Err,
    ensures
        last_good(tables, targets, save, grow, guids, n) == apply_targets(
            tables,
            targets,
            save,
            grow,
            guids,
            k,
        )->Ok_0,
    decreases n - k,
{
    if n > k + 1 {
        lemma_apply_targets_stops(tables, targets, save, grow, guids, k + 1, n);
        lemma_last_good(tables, targets, save, grow, guids, k, n - 1);
    } else {
        assert(last_good(tables, targets, save, grow, guids, k) == apply_targets(
            tables,
            targets,
            save,
            grow,
            guids,
            k,
        )->Ok_0);
    }
}

/// What applying all of `targets` has done: it went as `apply_targets` says
/// for some GUIDs of the new partitions. After a failure the tables are
/// those after the targets that were applied before the one that failed.
pub open spec fn applied_all(
    before: Seq<DiskTableView>,
    targets: Seq<PartitionTargetView>,
    save: bool,
    grow: bool,
    part_guids: Seq<Seq<char>>,
    r: Result<(), ApplyError>,
    after: Seq<DiskTableView>,
) -> bool {
    match apply_targets(before, targets, save, grow, part_guids, targets.len() as int) {
        Ok(t) => r is Ok && after == t,
        Err(e) => r == Err::<(), ApplyError>(e) && after == last_good(
            before,
            targets,
            save,
            grow,
            part_guids,
            targets.len() as int,
        ),
    }
}

/// Applies `targets` to `tables` one after another and stops at the first
/// that fails.
pub fn apply_all_targets(
    tables: &mut Vec<DiskTable>,
    targets: &Vec<PartitionRawTarget>,
    save_changes: bool,
    grow_allowed: bool,
) -> (r: Result<(), ApplyError>)
    ensures
        exists|part_guids: Seq<Seq<char>>| #[trigger]
            applied_all(
                tables_view(old(tables)@),
                targets_view(targets@),
                save_changes,
                grow_allowed,
                part_guids,
                r,
                tables_view(final(tables)@),
            ),
{
    let ghost before = tables_view(tables@);
    let ghost tv = targets_view(targets@);
    let ghost n = targets.len() as int;
    let ghost mut guids: Seq<Seq<char>> = Seq::new(targets.len() as nat, |i: int| Seq::<char>::empty());
    let mut k: usize = 0;
    while k < targets.len()
        invariant
            k <= targets.len(),
            n == targets.len(),
            tv == targets_view(targets@),
            before == tables_view(old(tables)@),
            guids.len() == n,
            apply_targets(before, tv, save_changes, grow_allowed, guids, k as int) == Ok::<
                Seq<DiskTableView>,
                ApplyError,
            >(tables_view(tables@)),
        decreases targets.len() - k,
    {
        let ghost current = tables_view(tables@);
        let r = apply_target(tables, &targets[k], save_changes, grow_allowed);
        proof {
            let g = choose|g: Seq<char>| #[trigger]
                applied_one(
                    current,
                    targets@[k as int]@,
                    save_changes,
                    grow_allowed,
                    g,
                    r,
                    tables_view(tables@),
                );
            let updated = guids.update(k as int, g);
            lemma_apply_targets_prefix(
                before,
                tv,
                save_changes,
                grow_allowed,
                guids,
                updated,
                k as int,
            );
            guids = updated;
            assert(tv[k as int] == targets@[k as int]@);
        }
        if r.is_err() {
            proof {
                lemma_apply_targets_stops(
                    before,
                    tv,
                    save_changes,
                    grow_allowed,
                    guids,
                    k + 1,
                    n,
                );
                lemma_last_good(before, tv, save_changes, grow_allowed, guids, k as int, n);
                assert(applied_all(
                    before,
                    tv,
                    save_changes,
                    grow_allowed,
                    guids,
                    r,
                    tables_view(tables@),
                ));
            }
            return r;
        }
        k += 1;
    }
    proof {
        assert(applied_all(
            before,
            tv,
            save_changes,
            grow_allowed,
            guids,
            Ok(()),
            tables_view(tables@),
        ));
    }
    Ok(())
}

/// What `init_partition_table_layout` has done: the slot's targets were
/// applied in their order for some GUIDs of the new partitions. The outcome
/// stays in the tables only where changes are saved: a dry run leaves them as
/// they were. After a failure with saved changes the tables are those after
/// the targets that were applied before the one that failed.
pub open spec fn applied_slot(
    before: Seq<DiskTableView>,
    slot: SlotView,
    save: bool,
    grow: bool,
    part_guids: Seq<Seq<char>>,
    r: Result<(), ApplyError>,
    after: Seq<DiskTableView>,
) -> bool {
    &&& !save ==> after == before
    &&& match apply_targets(
        before,
        slot.dyn_partition_set,
        save,
        grow,
        part_guids,
        slot.dyn_partition_set.len() as int,
    ) {
        Ok(t) => r is Ok && (save ==> after == t),
        Err(e) => r == Err::<(), ApplyError>(e) && (save ==> after == last_good(
            before,
            slot.dyn_partition_set,
            save,
            grow,
            part_guids,
            slot.dyn_partition_set.len() as int,
        )),
    }
}

/// Moves the disks to the layout of `target_slot`: every partition that the
/// slot places replaces the partition of its name. With `save_changes` the
/// tables are changed; without, the same steps are made on a copy, to tell
/// whether the layout can be applied. With `grow_allowed` a full table may
/// grow by one partition.
pub fn init_partition_table_layout(
    tables: &mut Vec<DiskTable>,
    target_slot: &Slot,
    save_changes: bool,
    grow_allowed: bool,
) -> (r: Result<(), ApplyError>)
    ensures
        exists|part_guids: Seq<Seq<char>>| #[trigger]
            applied_slot(
                tables_view(old(tables)@),
                target_slot@,
                save_changes,
                grow_allowed,
                part_guids,
                r,
                tables_view(final(tables)@),
            ),
{
    let ghost before = tables_view(tables@);
    if save_changes {
        let r = apply_all_targets(tables, &target_slot.dyn_partition_set, true, grow_allowed);
        proof {
            let guids = choose|g: Seq<Seq<char>>| #[trigger]
                applied_all(
                    before,
                    targets_view(target_slot.dyn_partition_set@),
                    true,
                    grow_allowed,
                    g,
                    r,
                    tables_view(tables@),
                );
            assert(applied_slot(
                before,
                target_slot@,
                save_changes,
                grow_allowed,
                guids,
                r,
                tables_view(tables@),
            ));
        }
        r
    } else {
        let mut scratch = clone_tables(tables);
        let r = apply_all_targets(&mut scratch, &target_slot.dyn_partition_set, false, grow_allowed);
        proof {
            let guids = choose|g: Seq<Seq<char>>| #[trigger]
                applied_all(
                    before,
                    targets_view(target_slot.dyn_partition_set@),
                    false,
                    grow_allowed,
                    g,
                    r,
                    tables_view(scratch@),
                );
            assert(applied_slot(
                before,
                target_slot@,
                save_changes,
                grow_allowed,
                guids,
                r,
                tables_view(tables@),
            ));
        }
        r
    }
}

/// The position of the first slot named `name` at or after `from`.
pub open spec fn first_slot_named_from(slots: Seq<SlotView>, name: Seq<char>, from: int) -> Option<int>
    decreases slots.len() - from,
{
    if from < 0 || from >= slots.len() {
        None
    } else if slots[from].slot_name == name {
        Some(from)
    } else {
        first_slot_named_from(slots, name, from + 1)
    }
}

/// The slot to start with: the first of the name asked for, or the first of
/// all where no name is given.
pub open spec fn selected_slot(slots: Seq<SlotView>, initial_slot: Option<Seq<char>>) -> Result<
    int,
    ApplyError,
> {
    match initial_slot {
        Some(name) => match first_slot_named_from(slots, name, 0) {
            Some(k) => Ok(k),
            None => Err(ApplyError::NoSuchSlot),
        },
        None => if slots.len() > 0 {
            Ok(0)
        } else {
            Err(ApplyError::NoSlot)
        },
    }
}

/// The view of a name that may be absent.
pub open spec fn name_view(name: Option<String>) -> Option<Seq<char>> {
    match name {
        Some(n) => Some(n@),
        None => None,
    }
}

/// Picks the slot to start with.
pub fn select_slot(slots: &Vec<Slot>, initial_slot: &Option<String>) -> (r: Result<usize, ApplyError>)
    ensures
        match selected_slot(slots_view(slots@), name_view(*initial_slot)) {
            Ok(k) => r is Ok && r->Ok_0 == k && 0 <= k < slots.len(),
            Err(e) => r == Err::<usize, ApplyError>(e),
        },
{
    match initial_slot {
        Some(name) => {
            let mut k: usize = 0;
            while k < slots.len()
                invariant
                    k <= slots.len(),
                    name_view(*initial_slot) == Some(name@),
                    first_slot_named_from(slots_view(slots@), name@, 0) == first_slot_named_from(
                        slots_view(slots@),
                        name@,
                        k as int,
                    ),
                decreases slots.len() - k,
            {
                if slots[k].slot_name == *name {
                    return Ok(k);
                }
                k += 1;
            }
            Err(ApplyError::NoSuchSlot)
        },
        None => {
            if slots.len() > 0 {
                Ok(0)
            } else {
                Err(ApplyError::NoSlot)
            }
        },
    }
}

/// The first target of `parts` that is named `name`, if there is one.
pub open spec fn first_target_from(parts: Seq<PartitionTargetView>, name: Seq<char>, from: int) -> Option<
    int,
>
    decreases parts.len() - from,
{
    if from < 0 || from >= parts.len() {
        None
    } else if parts[from].part_name == name {
        Some(from)
    } else {
        first_target_from(parts, name, from + 1)
    }
}

/// Where the first target named `name` is found from `from` on.
pub proof fn lemma_first_target_from(parts: Seq<PartitionTargetView>, name: Seq<char>, from: int)
    requires
        0 <= from <= parts.len(),
    ensures
        match first_target_from(parts, name, from) {
            Some(i) => {
                &&& from <= i < parts.len()
                &&& parts[i].part_name == name
                &&& forall|j: int| from <= j < i ==> (#[trigger] parts[j]).part_name != name
            },
            None => forall|j: int| from <= j < parts.len() ==> (#[trigger] parts[j]).part_name != name,
        },
    decreases parts.len() - from,
{
    if from < parts.len() && parts[from].part_name != name {
        lemma_first_target_from(parts, name, from + 1);
    }
}

/// Looks up the user data target of `slot`.
pub fn userdata_target(slot: &Slot) -> (r: Option<usize>)
    ensures
        match r {
            Some(i) => i < slot.dyn_partition_set.len() && first_target_from(
                slot@.dyn_partition_set,
                USERDATA_NAME@,
                0,
            ) == Some(i as int),
            None => first_target_from(slot@.dyn_partition_set, USERDATA_NAME@, 0) is None,
        },
{
    proof {
        lemma_first_target_from(slot@.dyn_partition_set, USERDATA_NAME@, 0);
    }
    find_target(&slot.dyn_partition_set, USERDATA_NAME)
}

/// The stages of a transaction on partition tables.
#[derive(Clone, Copy, Debug, PartialEq, Eq, Structural)]
pub enum Phase {
    /// Nothing has been looked at yet.
    Planning,
    /// The tables were saved and are being changed.
    Applying,
    /// The tables are changed; firmware is being copied to the slots.
    CloningFirmware,
    /// Everything went well.
    Committed,
    /// Something failed; the saved tables are being written back.
    RollingBack,
    /// The saved tables are back in place.
    RolledBack,
}

/// The stage that follows `phase` when its work succeeded (`ok`) or failed.
/// Failures before the tables are touched, and in the final stages, change
/// nothing.
pub open spec fn phase_after(phase: Phase, ok: bool) -> Phase {
    match phase {
        Phase::Planning => if ok {
            Phase::Applying
        } else {
            Phase::Planning
        },
        Phase::Applying => if ok {
            Phase::CloningFirmware
        } else {
            Phase::RollingBack
        },
        Phase::CloningFirmware => if ok {
            Phase::Committed
        } else {
            Phase::RollingBack
        },
        Phase::RollingBack => Phase::RolledBack,
        Phase::Committed => Phase::Committed,
        Phase::RolledBack => Phase::RolledBack,
    }
}

impl Phase {
    /// The stage that follows this one when its work succeeded or failed.
    pub fn next(self, ok: bool) -> (r: Phase)
        ensures
            r == phase_after(self, ok),
    {
        match self {
            Phase::Planning => if ok {
                Phase::Applying
            } else {
                Phase::Planning
            },
            Phase::Applying => if ok {
                Phase::CloningFirmware
            } else {
                Phase::RollingBack
            },
            Phase::CloningFirmware => if ok {
                Phase::Committed
            } else {
                Phase::RollingBack
            },
            Phase::RollingBack => Phase::RolledBack,
            Phase::Committed => Phase::Committed,
            Phase::RolledBack => Phase::RolledBack,
        }
    }
}

/// A layout that was applied and waits for the firmware to be cloned: it
/// keeps the tables as they were, to put them back if cloning fails.
pub struct Transaction {
    phase: Phase,
    snapshot: Vec<DiskTable>,
}

impl Transaction {
    /// The stage that the transaction is in.
    pub closed spec fn spec_phase(&self) -> Phase {
        self.phase
    }

    /// The tables as they were before the transaction.
    pub closed spec fn spec_snapshot(&self) -> Seq<DiskTableView> {
        tables_view(self.snapshot@)
    }

    /// The stage that the transaction is in.
    pub fn phase(&self) -> (r: Phase)
        ensures
            r == self.spec_phase(),
    {
        self.phase
    }

    /// The tables as they were before the transaction.
    pub fn snapshot(&self) -> (r: &Vec<DiskTable>)
        ensures
            tables_view(r@) == self.spec_snapshot(),
    {
        &self.snapshot
    }

    /// Ends the transaction once cloning is over. After a failure to clone,
    /// every table is what it was before the transaction.
    pub fn finish(self, tables: &mut Vec<DiskTable>, clone_ok: bool) -> (r: Result<(), ApplyError>)
        requires
            self.spec_phase() == Phase::CloningFirmware,
        ensures
            clone_ok ==> r is Ok && tables_view(final(tables)@) == tables_view(old(tables)@),
            !clone_ok ==> r == Err::<(), ApplyError>(ApplyError::CloneFailed) && tables_view(
                final(tables)@,
            ) == self.spec_snapshot(),
    {
        let mut phase = self.phase.next(clone_ok);
        if clone_ok {
            return Ok(());
        }
        *tables = self.snapshot;
        phase = phase.next(true);
        assert(phase == Phase::RolledBack);
        Err(ApplyError::CloneFailed)
    }
}

/// Whether the slot at position `k` may be applied in full: it has to place
/// user data exactly where user data lives now.
pub open spec fn entry_guard(slot: SlotView, live_first: int, live_last: int) -> Result<(), ApplyError> {
    match first_target_from(slot.dyn_partition_set, USERDATA_NAME@, 0) {
        None => Err(ApplyError::NoUserdataTarget),
        Some(i) => if slot.dyn_partition_set[i].start_lba != live_first
            || slot.dyn_partition_set[i].end_lba != live_last {
            Err(ApplyError::UserdataNotInitialized)
        } else {
            Ok(())
        },
    }
}

/// What `try_init_partition_table_layout` has done for some GUIDs of the new
/// partitions.
pub open spec fn transacted(
    before: Seq<DiskTableView>,
    slots: Seq<SlotView>,
    initial_slot: Option<Seq<char>>,
    live_first: int,
    live_last: int,
    save: bool,
    grow: bool,
    part_guids: Seq<Seq<char>>,
    r: Result<Transaction, ApplyError>,
    after: Seq<DiskTableView>,
) -> bool {
    match selected_slot(slots, initial_slot) {
        Err(e) => r is Err && r->Err_0 == e && after == before,
        Ok(k) => match entry_guard(slots[k], live_first, live_last) {
            Err(e) => r is Err && r->Err_0 == e && after == before,
            Ok(_) => match apply_targets(
                before,
                slots[k].dyn_partition_set,
                save,
                grow,
                part_guids,
                slots[k].dyn_partition_set.len() as int,
            ) {
                Err(e) => r is Err && r->Err_0 == e && after == before,
                Ok(t) => {
                    &&& r is Ok
                    &&& r->Ok_0.spec_snapshot() == before
                    &&& after == if save {
                        t
                    } else {
                        before
                    }
                    &&& r->Ok_0.spec_phase() == if save {
                        Phase::CloningFirmware
                    } else {
                        Phase::Committed
                    }
                },
            },
        },
    }
}

/// Applies the layout of one slot as a transaction. The slot is the one
/// named by `initial_slot`, or the first. It is applied only if it places
/// user data where `live_userdata` says that user data lives. The tables are
/// saved first; if any step fails they are put back, so that after a failure
/// every table is what it was. After success with `save_changes` the
/// transaction waits for the firmware to be cloned; a dry run leaves the
/// tables as they were and is complete.
pub fn try_init_partition_table_layout(
    tables: &mut Vec<DiskTable>,
    slots: &Vec<Slot>,
    initial_slot: &Option<String>,
    live_userdata: &PartitionLocation,
    save_changes: bool,
    grow_allowed: bool,
) -> (r: Result<Transaction, ApplyError>)
    ensures
        exists|part_guids: Seq<Seq<char>>| #[trigger]
            transacted(
                tables_view(old(tables)@),
                slots_view(slots@),
                name_view(*initial_slot),
                live_userdata.first_lba as int,
                live_userdata.last_lba as int,
                save_changes,
                grow_allowed,
                part_guids,
                r,
                tables_view(final(tables)@),
            ),
        r is Err ==> tables_view(final(tables)@) == tables_view(old(tables)@),
{
    let ghost before = tables_view(tables@);
    let ghost none = Seq::<Seq<char>>::empty();
    let mut phase = Phase::Planning;
    let k = match select_slot(slots, initial_slot) {
        Ok(k) => k,
        Err(e) => {
            let r = Err(e);
            assert(transacted(
                before,
                slots_view(slots@),
                name_view(*initial_slot),
                live_userdata.first_lba as int,
                live_userdata.last_lba as int,
                save_changes,
                grow_allowed,
                none,
                r,
                tables_view(tables@),
            ));
            return r;
        },
    };
    let target_slot = &slots[k];
    assert(slots_view(slots@)[k as int] == target_slot@);
    let guard = match userdata_target(target_slot) {
        None => Err(ApplyError::NoUserdataTarget),
        Some(i) => {
            let target = &target_slot.dyn_partition_set[i];
            assert(target_slot@.dyn_partition_set[i as int] == target@);
            if target.start_lba != live_userdata.first_lba || target.end_lba
                != live_userdata.last_lba {
                Err(ApplyError::UserdataNotInitialized)
            } else {
                Ok(())
            }
        },
    };
    if let Err(e) = guard {
        let r = Err(e);
        assert(transacted(
            before,
            slots_view(slots@),
            name_view(*initial_slot),
            live_userdata.first_lba as int,
            live_userdata.last_lba as int,
            save_changes,
            grow_allowed,
            none,
            r,
            tables_view(tables@),
        ));
        return r;
    }
    let snapshot = clone_tables(tables);
    phase = phase.next(true);
    let moved = init_partition_table_layout(tables, target_slot, save_changes, grow_allowed);
    let ghost guids = choose|g: Seq<Seq<char>>| #[trigger]
        applied_slot(
            before,
            target_slot@,
            save_changes,
            grow_allowed,
            g,
            moved,
            tables_view(tables@),
        );
    phase = phase.next(moved.is_ok());
    match moved {
        Ok(_) => {
            if !save_changes {
                phase = phase.next(true);
            }
            let r = Ok(Transaction { phase, snapshot });
            assert(transacted(
                before,
                slots_view(slots@),
                name_view(*initial_slot),
                live_userdata.first_lba as int,
                live_userdata.last_lba as int,
                save_changes,
                grow_allowed,
                guids,
                r,
                tables_view(tables@),
            ));
            r
        },
        Err(e) => {
            *tables = snapshot;
            phase = phase.next(true);
            assert(phase == Phase::RolledBack);
            let r = Err(e);
            assert(transacted(
                before,
                slots_view(slots@),
                name_view(*initial_slot),
                live_userdata.first_lba as int,
                live_userdata.last_lba as int,
                save_changes,
                grow_allowed,
                guids,
                r,
                tables_view(tables@),
            ));
            r
        },
    }
}

/// Moves the live user data partition to the place of `target`: the table of
/// the target's disk must have a user data partition, which is replaced under
/// its identifier.
pub open spec fn userdata_moved(
    tables: Seq<DiskTableView>,
    target: PartitionTargetView,
    part_guid: Seq<char>,
) -> Result<Seq<DiskTableView>, ApplyError> {
    match clear_old(tables, target, false) {
        Err(e) => Err(e),
        Ok(c) => if first_named_from(tables[c.target].entries, target.part_name, 0) is None {
            Err(ApplyError::PartitionNotFound)
        } else {
            create_target(c.tables, c.target, c.reuse, target, false, part_guid)
        },
    }
}

/// What `try_init_userdata_partition` has done for some GUID of the new
/// partition.
pub open spec fn userdata_initialised(
    before: Seq<DiskTableView>,
    slots: Seq<SlotView>,
    initial_slot: Option<Seq<char>>,
    userdata_driver: Seq<char>,
    part_guid: Seq<char>,
    r: Result<(), ApplyError>,
    after: Seq<DiskTableView>,
) -> bool {
    match selected_slot(slots, initial_slot) {
        Err(e) => r == Err::<(), ApplyError>(e) && after == before,
        Ok(k) => match first_target_from(slots[k].dyn_partition_set, USERDATA_NAME@, 0) {
            None => r == Err::<(), ApplyError>(ApplyError::NoUserdataTarget) && after == before,
            Some(i) => if slots[k].dyn_partition_set[i].driver != userdata_driver {
                r == Err::<(), ApplyError>(ApplyError::UserdataMismatch) && after == before
            } else {
                match userdata_moved(before, slots[k].dyn_partition_set[i], part_guid) {
                    Err(e) => r == Err::<(), ApplyError>(e) && after == before,
                    Ok(t) => r is Ok && after == t,
                }
            },
        },
    }
}

/// Prepares a disk for its first slot: the live user data partition is
/// replaced by the one that the slot places. The slot is the one named by
/// `initial_slot`, or the first; it has to place user data on
/// `userdata_driver`, the disk on which user data lives. After a failure
/// every table is what it was.
pub fn try_init_userdata_partition(
    tables: &mut Vec<DiskTable>,
    slots: &Vec<Slot>,
    initial_slot: &Option<String>,
    userdata_driver: &str,
) -> (r: Result<(), ApplyError>)
    ensures
        exists|part_guid: Seq<char>| #[trigger]
            userdata_initialised(
                tables_view(old(tables)@),
                slots_view(slots@),
                name_view(*initial_slot),
                userdata_driver@,
                part_guid,
                r,
                tables_view(final(tables)@),
            ),
{
    let ghost before = tables_view(tables@);
    let ghost none = Seq::<char>::empty();
    let k = match select_slot(slots, initial_slot) {
        Ok(k) => k,
        Err(e) => {
            assert(userdata_initialised(
                before,
                slots_view(slots@),
                name_view(*initial_slot),
                userdata_driver@,
                none,
                Err(e),
                tables_view(tables@),
            ));
            return Err(e);
        },
    };
    let target_slot = &slots[k];
    assert(slots_view(slots@)[k as int] == target_slot@);
    let i = match userdata_target(target_slot) {
        Some(i) => i,
        None => {
            assert(userdata_initialised(
                before,
                slots_view(slots@),
                name_view(*initial_slot),
                userdata_driver@,
                none,
                Err(ApplyError::NoUserdataTarget),
                tables_view(tables@),
            ));
            return Err(ApplyError::NoUserdataTarget);
        },
    };
    let target = &target_slot.dyn_partition_set[i];
    assert(target_slot@.dyn_partition_set[i as int] == target@);
    proof {
        lemma_first_target_from(target_slot@.dyn_partition_set, USERDATA_NAME@, 0);
    }
    if target.driver != String::from_str(userdata_driver) {
        assert(userdata_initialised(
            before,
            slots_view(slots@),
            name_view(*initial_slot),
            userdata_driver@,
            none,
            Err(ApplyError::UserdataMismatch),
            tables_view(tables@),
        ));
        return Err(ApplyError::UserdataMismatch);
    }
    let mut missing = false;
    if let Some(t) = find_table(tables, &target.driver) {
        proof {
            lemma_first_named_from(before[t as int].entries, target@.part_name, 0);
        }
        if try_get_disk_lba(tables[t].sector_size).is_ok() && find_entry(
            &tables[t].entries,
            target.part_name.as_str(),
        ).is_none() {
            missing = true;
        }
    }
    if missing {
        assert(userdata_initialised(
            before,
            slots_view(slots@),
            name_view(*initial_slot),
            userdata_driver@,
            none,
            Err(ApplyError::PartitionNotFound),
            tables_view(tables@),
        ));
        return Err(ApplyError::PartitionNotFound);
    }
    let mut scratch = clone_tables(tables);
    let r = apply_target(&mut scratch, target, false, false);
    let ghost g = choose|g: Seq<char>| #[trigger]
        applied_one(before, target@, false, false, g, r, tables_view(scratch@));
    if r.is_ok() {
        *tables = scratch;
    }
    assert(userdata_initialised(
        before,
        slots_view(slots@),
        name_view(*initial_slot),
        userdata_driver@,
        g,
        r,
        tables_view(tables@),
    ));
    r
}

} // verus!
