//! Copying the firmware partitions to every slot: which bytes go where.

use vstd::prelude::*;
use vstd::string::StringExecFns;
use crate::applier::{
    find_holder, find_table, first_device_from, first_holder_from, first_named_from,
    supported_sector, tables_view,
};
use crate::constants::{CLONE_CHUNK_BYTES, USERDATA_NAME};
use crate::gpt_helper::{try_get_disk_lba, DiskTable, DiskTableView};
use crate::metadata::{slots_view, targets_view, PartitionRawTarget, PartitionTargetView, Slot, SlotView};

verus! {

/// Why firmware cannot be cloned.
#[derive(Clone, Copy, Debug, PartialEq, Eq, Structural)]
pub enum CloneError {
    /// A partition to copy from is in no table.
    PartitionNotFound,
    /// A disk's sectors hold neither 512 nor 4096 bytes.
    UnsupportedSectorSize,
    /// No table is known for the disk of a target.
    DiskNotFound,
    /// An offset or a length does not fit in 64 bits.
    Arithmetic,
    /// Source and target differ in their length in bytes.
    LengthMismatch,
}

/// One copy: `length` bytes from an offset of the source device to an offset
/// of the target device.
#[derive(Debug)]
pub struct CopyJob {
    pub source: String,
    pub source_offset: u64,
    pub target: String,
    pub target_offset: u64,
    pub length: u64,
}

/// What a `CopyJob` stands for.
pub struct CopyJobView {
    pub source: Seq<char>,
    pub source_offset: int,
    pub target: Seq<char>,
    pub target_offset: int,
    pub length: int,
}

impl View for CopyJob {
    type V = CopyJobView;

    open spec fn view(&self) -> CopyJobView {
        CopyJobView {
            source: self.source@,
            source_offset: self.source_offset as int,
            target: self.target@,
            target_offset: self.target_offset as int,
            length: self.length as int,
        }
    }
}

/// The views of a list of copies.
pub open spec fn jobs_view(jobs: Seq<CopyJob>) -> Seq<CopyJobView> {
    jobs.map_values(|j: CopyJob| j@)
}

/// The copy that brings the partition named like `target` from where it
/// lives now to the place of `target`. Both must have the same length in
/// bytes.
pub open spec fn job_for(target: PartitionTargetView, tables: Seq<DiskTableView>) -> Result<
    CopyJobView,
    CloneError,
> {
    match first_holder_from(tables, target.part_name, 0) {
        None => Err(CloneError::PartitionNotFound),
        Some(h) => if !supported_sector(tables[h].sector_size) {
            Err(CloneError::UnsupportedSectorSize)
        } else {
            let live = tables[h].entries[first_named_from(tables[h].entries, target.part_name, 0)->0];
            match first_device_from(tables, target.driver, 0) {
                None => Err(CloneError::DiskNotFound),
                Some(t) => {
                    let source_offset = live.first_lba * tables[h].sector_size;
                    let source_length = (live.last_lba - live.first_lba + 1) * tables[h].sector_size;
                    let target_offset = target.start_lba * tables[t].sector_size;
                    let target_length = (target.end_lba - target.start_lba + 1)
                        * tables[t].sector_size;
                    if live.last_lba < live.first_lba || target.end_lba < target.start_lba
                        || source_offset > u64::MAX || source_length > u64::MAX || target_offset
                        > u64::MAX || target_length > u64::MAX {
                        Err(CloneError::Arithmetic)
                    } else if source_length != target_length {
                        Err(CloneError::LengthMismatch)
                    } else {
                        Ok(
                            CopyJobView {
                                source: tables[h].device,
                                source_offset,
                                target: target.driver,
                                target_offset,
                                length: source_length,
                            },
                        )
                    }
                },
            }
        },
    }
}

/// The copies for the first `k` of `targets`, user data left out.
pub open spec fn jobs_for_targets(
    targets: Seq<PartitionTargetView>,
    tables: Seq<DiskTableView>,
    k: int,
) -> Result<Seq<CopyJobView>, CloneError>
    decreases k,
{
    if k <= 0 {
        Ok(Seq::empty())
    } else {
        match jobs_for_targets(targets, tables, k - 1) {
            Err(e) => Err(e),
            Ok(before) => if targets[k - 1].part_name == USERDATA_NAME@ {
                Ok(before)
            } else {
                match job_for(targets[k - 1], tables) {
                    Err(e) => Err(e),
                    Ok(job) => Ok(before.push(job)),
                }
            },
        }
    }
}

/// The copies for the first `k` of `slots`.
pub open spec fn jobs_for_slots(slots: Seq<SlotView>, tables: Seq<DiskTableView>, k: int) -> Result<
    Seq<CopyJobView>,
    CloneError,
>
    decreases k,
{
    if k <= 0 {
        Ok(Seq::empty())
    } else {
        match jobs_for_slots(slots, tables, k - 1) {
            Err(e) => Err(e),
            Ok(before) => match jobs_for_targets(
                slots[k - 1].dyn_partition_set,
                tables,
                slots[k - 1].dyn_partition_set.len() as int,
            ) {
                Err(e) => Err(e),
                Ok(jobs) => Ok(before + jobs),
            },
        }
    }
}

/// The bytes that the first `k` of `jobs` copy.
pub open spec fn total_length(jobs: Seq<CopyJobView>, k: int) -> int
    decreases k,
{
    if k <= 0 {
        0
    } else {
        total_length(jobs, k - 1) + jobs[k - 1].length
    }
}

/// The copies that clone the firmware, and the bytes they copy in all.
pub open spec fn clone_plan(slots: Seq<SlotView>, tables: Seq<DiskTableView>) -> Result<
    (Seq<CopyJobView>, int),
    CloneError,
> {
    match jobs_for_slots(slots, tables, slots.len() as int) {
        Err(e) => Err(e),
        Ok(jobs) => if total_length(jobs, jobs.len() as int) > u64::MAX {
            Err(CloneError::Arithmetic)
        } else {
            Ok((jobs, total_length(jobs, jobs.len() as int)))
        },
    }
}

/// The copies to make and the bytes they copy in all.
#[derive(Debug)]
pub struct ClonePlan {
    pub jobs: Vec<CopyJob>,
    pub total_size: u64,
}

/// The bytes before sector `lba` on a disk with sectors of `sector` bytes,
/// where that number fits in 64 bits.
pub fn bytes_before(lba: u64, sector: u64) -> (r: Option<u64>)
    ensures
        r is Some <==> lba * sector <= u64::MAX,
        r is Some ==> r->0 == lba * sector,
{
    lba.checked_mul(sector)
}

/// The bytes of the sectors from `first` to `last` on a disk with sectors of
/// `sector` bytes, where that number fits in 64 bits.
pub fn bytes_of_span(first: u64, last: u64, sector: u64) -> (r: Option<u64>)
    requires
        first <= last,
    ensures
        r is Some <==> (last - first + 1) * sector <= u64::MAX,
        r is Some ==> r->0 == (last - first + 1) * sector,
{
    proof {
        assert((last - first + 1) * sector == (last - first) * sector + sector)
            by (nonlinear_arith);
    }
    match (last - first).checked_mul(sector) {
        Some(most) => most.checked_add(sector),
        None => {
            assert((last - first) * sector + sector > u64::MAX);
            None
        },
    }
}

/// Plans the copy for one target.
pub fn plan_copy(target: &PartitionRawTarget, tables: &Vec<DiskTable>) -> (r: Result<CopyJob, CloneError>)
    ensures
        match job_for(target@, tables_view(tables@)) {
            Ok(job) => r is Ok && r->Ok_0@ == job,
            Err(e) => r is Err && r->Err_0 == e,
        },
{
    let (h, i) = match find_holder(tables, target.part_name.as_str()) {
        Some(p) => p,
        None => {
            return Err(CloneError::PartitionNotFound);
        },
    };
    let source = &tables[h];
    assert(tables_view(tables@)[h as int] == source@);
    if try_get_disk_lba(source.sector_size).is_err() {
        return Err(CloneError::UnsupportedSectorSize);
    }
    let live = &source.entries[i];
    assert(source@.entries[i as int] == live@);
    let t = match find_table(tables, &target.driver) {
        Some(t) => t,
        None => {
            return Err(CloneError::DiskNotFound);
        },
    };
    let target_sector = tables[t].sector_size;
    assert(tables_view(tables@)[t as int] == tables@[t as int]@);
    if live.last_lba < live.first_lba || target.end_lba < target.start_lba {
        return Err(CloneError::Arithmetic);
    }
    let source_offset = bytes_before(live.first_lba, source.sector_size);
    let source_length = bytes_of_span(live.first_lba, live.last_lba, source.sector_size);
    let target_offset = bytes_before(target.start_lba, target_sector);
    let target_length = bytes_of_span(target.start_lba, target.end_lba, target_sector);
    let (source_offset, source_length, target_offset, target_length) = match (
        source_offset,
        source_length,
        target_offset,
        target_length,
    ) {
        (Some(a), Some(b), Some(c), Some(d)) => (a, b, c, d),
        _ => {
            return Err(CloneError::Arithmetic);
        },
    };
    if source_length != target_length {
        return Err(CloneError::LengthMismatch);
    }
    Ok(
        CopyJob {
            source: source.device.clone(),
            source_offset,
            target: target.driver.clone(),
            target_offset,
            length: source_length,
        },
    )
}

/// Once a copy cannot be planned, the targets after it are not looked at.
pub proof fn lemma_jobs_for_targets_stop(
    targets: Seq<PartitionTargetView>,
    tables: Seq<DiskTableView>,
    k: int,
    n: int,
)
    requires
        0 <= k <= n,
        jobs_for_targets(targets, tables, k) is Err,
    ensures
        jobs_for_targets(targets, tables, n) == jobs_for_targets(targets, tables, k),
    decreases n - k,
{
    if k < n {
        lemma_jobs_for_targets_stop(targets, tables, k, n - 1);
    }
}

/// Once the copies of a slot cannot be planned, the slots after it are not
/// looked at.
pub proof fn lemma_jobs_for_slots_stop(
    slots: Seq<SlotView>,
    tables: Seq<DiskTableView>,
    k: int,
    n: int,
)
    requires
        0 <= k <= n,
        jobs_for_slots(slots, tables, k) is Err,
    ensures
        jobs_for_slots(slots, tables, n) == jobs_for_slots(slots, tables, k),
    decreases n - k,
{
    if k < n {
        lemma_jobs_for_slots_stop(slots, tables, k, n - 1);
    }
}

/// The bytes copied never get fewer as more copies are counted.
pub proof fn lemma_total_length_grows(jobs: Seq<CopyJobView>, k: int, n: int)
    requires
        0 <= k <= n <= jobs.len(),
        forall|i: int| 0 <= i < jobs.len() ==> (#[trigger] jobs[i]).length >= 0,
    ensures
        total_length(jobs, k) <= total_length(jobs, n),
    decreases n - k,
{
    if k < n {
        lemma_total_length_grows(jobs, k, n - 1);
    }
}

/// Plans the copies for the partitions of one slot, user data left out.
pub fn plan_slot_copies(targets: &Vec<PartitionRawTarget>, tables: &Vec<DiskTable>) -> (r: Result<
    Vec<CopyJob>,
    CloneError,
>)
    ensures
        match jobs_for_targets(targets_view(targets@), tables_view(tables@), targets.len() as int) {
            Ok(jobs) => r is Ok && jobs_view(r->Ok_0@) == jobs,
            Err(e) => r is Err && r->Err_0 == e,
        },
{
    let userdata = String::from_str(USERDATA_NAME);
    let mut jobs: Vec<CopyJob> = Vec::new();
    let ghost tv = targets_view(targets@);
    let ghost tabs = tables_view(tables@);
    let mut k: usize = 0;
    proof {
        assert(jobs_view(jobs@) =~= Seq::empty());
    }
    while k < targets.len()
        invariant
            k <= targets.len(),
            userdata@ == USERDATA_NAME@,
            tv == targets_view(targets@),
            tabs == tables_view(tables@),
            jobs_for_targets(tv, tabs, k as int) == Ok::<Seq<CopyJobView>, CloneError>(
                jobs_view(jobs@),
            ),
        decreases targets.len() - k,
    {
        let target = &targets[k];
        assert(tv[k as int] == target@);
        proof {
            if jobs_for_targets(tv, tabs, k + 1) is Err {
                lemma_jobs_for_targets_stop(tv, tabs, k + 1, targets.len() as int);
            }
        }
        if target.part_name != userdata {
            let job = match plan_copy(target, tables) {
                Ok(job) => job,
                Err(e) => {
                    return Err(e);
                },
            };
            let ghost before = jobs_view(jobs@);
            jobs.push(job);
            proof {
                assert(jobs_view(jobs@) =~= before.push(job@));
            }
        }
        k += 1;
    }
    Ok(jobs)
}

/// Plans the cloning of firmware: every partition but user data that a slot
/// places is copied from where the partition of that name lives now to its
/// place in the slot, for every slot. Source and target of a copy must have
/// the same length in bytes.
pub fn clone_firmware(slots: &Vec<Slot>, tables: &Vec<DiskTable>) -> (r: Result<ClonePlan, CloneError>)
    ensures
        match clone_plan(slots_view(slots@), tables_view(tables@)) {
            Ok((jobs, total)) => {
                &&& r is Ok
                &&& jobs_view(r->Ok_0.jobs@) == jobs
                &&& r->Ok_0.total_size == total
            },
            Err(e) => r is Err && r->Err_0 == e,
        },
{
    let mut jobs: Vec<CopyJob> = Vec::new();
    let ghost sv = slots_view(slots@);
    let ghost tabs = tables_view(tables@);
    let mut s: usize = 0;
    proof {
        assert(jobs_view(jobs@) =~= Seq::empty());
    }
    while s < slots.len()
        invariant
            s <= slots.len(),
            sv == slots_view(slots@),
            tabs == tables_view(tables@),
            jobs_for_slots(sv, tabs, s as int) == Ok::<Seq<CopyJobView>, CloneError>(
                jobs_view(jobs@),
            ),
        decreases slots.len() - s,
    {
        let slot = &slots[s];
        assert(sv[s as int] == slot@);
        proof {
            if jobs_for_slots(sv, tabs, s + 1) is Err {
                lemma_jobs_for_slots_stop(sv, tabs, s + 1, slots.len() as int);
            }
        }
        let mut more = match plan_slot_copies(&slot.dyn_partition_set, tables) {
            Ok(more) => more,
            Err(e) => {
                return Err(e);
            },
        };
        let ghost before = jobs_view(jobs@);
        let ghost added = jobs_view(more@);
        jobs.append(&mut more);
        proof {
            assert(jobs_view(jobs@) =~= before + added);
        }
        s += 1;
    }
    let mut total: u64 = 0;
    let mut k: usize = 0;
    while k < jobs.len()
        invariant
            k <= jobs.len(),
            total == total_length(jobs_view(jobs@), k as int),
            jobs_for_slots(sv, tabs, slots.len() as int) == Ok::<Seq<CopyJobView>, CloneError>(
                jobs_view(jobs@),
            ),
            sv == slots_view(slots@),
            tabs == tables_view(tables@),
        decreases jobs.len() - k,
    {
        assert(jobs_view(jobs@)[k as int] == jobs@[k as int]@);
        total = match total.checked_add(jobs[k].length) {
            Some(t) => t,
            None => {
                proof {
                    lemma_total_length_grows(jobs_view(jobs@), k + 1, jobs.len() as int);
                }
                return Err(CloneError::Arithmetic);
            },
        };
        k += 1;
    }
    Ok(ClonePlan { jobs, total_size: total })
}

/// The bytes of the next step of a copy of which `remain` bytes are left: a
/// whole chunk, or what is left where that is less.
pub fn chunk_size(remain: u64) -> (r: u64)
    ensures
        r == if remain > CLONE_CHUNK_BYTES {
            CLONE_CHUNK_BYTES
        } else {
            remain
        },
{
    if remain > CLONE_CHUNK_BYTES {
        CLONE_CHUNK_BYTES
    } else {
        remain
    }
}

} // verus!
