//! The metadata record as it lies on disk: a head marker, the text of the
//! record, a closing line, and a CRC32 of the text in the last four bytes of
//! the region.

use vstd::prelude::*;
use vstd::bytes::{
    lemma_auto_spec_u32_to_from_le_bytes, spec_u32_from_le_bytes, spec_u32_to_le_bytes,
    u32_from_le_bytes, u32_to_le_bytes,
};
use vstd::slice::slice_subrange;
use vstd::string::{StrSliceExecFns, StringSliceAdditionalSpecFns};
use crate::constants::{METADATA_HEAD_MAGIC, METADATA_TAIL_MAGIC};
use crate::applier::{
    find_table, first_device_from, first_target_from, tables_view, userdata_target,
};
use crate::gpt_helper::{is_disk_segment_used, users_of, DiskTable, DiskTableView};
use crate::metadata::{
    calculate_metadata_interval_from_low, locations_view, metadata_len_sectors, metadata_sectors,
    current_slot_resolved, Metadata, MetadataView, PartitionLocation, PartitionLocationView,
    SlotView,
};
use crate::constants::USERDATA_NAME;

verus! {

/// The CRC32 (IEEE) checksum of `bytes`.
pub uninterp spec fn crc32_of(bytes: Seq<u8>) -> u32;

/// The checksum that `crc32fast::hash` computes for `bytes`. It depends on
/// the bytes alone.
#[verifier::external_body]
fn crc32(bytes: &Vec<u8>) -> (r: u32)
    ensures
        r == crc32_of(bytes@),
{
    crc32fast::hash(bytes.as_slice())
}

/// The byte that ends a line.
pub const NEWLINE: u8 = 10;

/// Bytes at the end of a region that hold the checksum.
pub const CRC_BYTES: u64 = 4;

/// The marker at the start of a region.
pub open spec fn head_magic() -> Seq<u8> {
    METADATA_HEAD_MAGIC.spec_bytes()
}

/// The line that closes the text of a record.
pub open spec fn tail_magic() -> Seq<u8> {
    METADATA_TAIL_MAGIC.spec_bytes()
}

/// Both markers are 15 bytes long and hold no line end.
pub proof fn lemma_magic_bytes()
    ensures
        head_magic().len() == 15,
        tail_magic().len() == 15,
        forall|i: int| 0 <= i < 15 ==> head_magic()[i] != NEWLINE,
        forall|i: int| 0 <= i < 15 ==> tail_magic()[i] != NEWLINE,
{
    reveal_strlit("RVAB_HEAD_MAGIC");
    reveal_strlit("RVAB_TAIL_MAGIC");
    vstd::utf8::is_ascii_chars_encode_utf8(METADATA_HEAD_MAGIC@);
    vstd::utf8::is_ascii_chars_encode_utf8(METADATA_TAIL_MAGIC@);
}

/// Where the text of a record ends. The scan stands at `pos` in a line that
/// began at `line_start`; lines are taken in as long as they end before
/// `limit` and are not the closing line.
pub open spec fn payload_end(data: Seq<u8>, line_start: int, pos: int, limit: int) -> int
    decreases data.len() - pos,
{
    if pos < 0 || pos >= data.len() || pos >= limit {
        line_start
    } else if data[pos] == NEWLINE {
        if data.subrange(line_start, pos) == tail_magic() {
            line_start
        } else {
            payload_end(data, pos + 1, pos + 1, limit)
        }
    } else {
        payload_end(data, line_start, pos + 1, limit)
    }
}

/// Why a record could not be read or written.
#[derive(Clone, Copy, Debug, PartialEq, Eq, Structural)]
pub enum MetadataError {
    /// The region is too short for the head marker and the checksum.
    RegionTooSmall,
    /// The region does not start with the head marker.
    BadHeadMagic,
    /// Head marker and text do not fit in the region before the checksum.
    SizeOverflow,
    /// An offset or a length does not fit in 64 bits.
    Arithmetic,
    /// The checksum does not match and the operator declined the record.
    ChecksumDeclined,
    /// A slot places no user data partition.
    UserdataNotFound,
    /// No table is known for a disk that hosts user data.
    DiskNotFound,
    /// The sector size of a disk is zero.
    ZeroSectorSize,
    /// The hidden region before user data is used by a partition.
    RegionInUse,
}

/// What was read from a region.
#[derive(Debug)]
pub struct LoadedRecord {
    /// The text of the record, each line with its line end.
    pub payload: Vec<u8>,
    /// The checksum found at the end of the region.
    pub stored_crc: u32,
    /// The checksum of `payload`.
    pub computed_crc: u32,
}

/// What a region holds: the text of its record and the checksum stored with
/// it.
pub open spec fn decoded(region: Seq<u8>) -> Result<(Seq<u8>, u32), MetadataError> {
    if region.len() < head_magic().len() + CRC_BYTES {
        Err(MetadataError::RegionTooSmall)
    } else if region.subrange(0, head_magic().len() as int) != head_magic() {
        Err(MetadataError::BadHeadMagic)
    } else {
        let start = head_magic().len() as int;
        let limit = region.len() - CRC_BYTES;
        Ok(
            (
                region.subrange(start, payload_end(region, start, start, limit)),
                spec_u32_from_le_bytes(region.subrange(limit, region.len() as int)),
            ),
        )
    }
}

/// Whether the bytes of `data` from `from` up to `to` are those of `pattern`.
pub fn matches_at(data: &Vec<u8>, from: usize, to: usize, pattern: &Vec<u8>) -> (r: bool)
    requires
        from <= to <= data.len(),
    ensures
        r == (data@.subrange(from as int, to as int) == pattern@),
{
    if to - from != pattern.len() {
        return false;
    }
    let mut i: usize = 0;
    while i < pattern.len()
        invariant
            i <= pattern.len(),
            from <= to <= data.len(),
            to - from == pattern.len(),
            forall|j: int| 0 <= j < i ==> data@[from + j] == pattern@[j],
        decreases pattern.len() - i,
    {
        if data[from + i] != pattern[i] {
            assert(data@.subrange(from as int, to as int)[i as int] != pattern@[i as int]);
            return false;
        }
        i += 1;
    }
    assert(data@.subrange(from as int, to as int) =~= pattern@);
    true
}

/// The bytes of `data` from `from` up to `to`.
pub fn copy_range(data: &Vec<u8>, from: usize, to: usize) -> (r: Vec<u8>)
    requires
        from <= to <= data.len(),
    ensures
        r@ == data@.subrange(from as int, to as int),
{
    let mut out: Vec<u8> = Vec::new();
    let mut i: usize = from;
    while i < to
        invariant
            from <= i <= to <= data.len(),
            out@ == data@.subrange(from as int, i as int),
        decreases to - i,
    {
        out.push(data[i]);
        i += 1;
        assert(out@ =~= data@.subrange(from as int, i as int));
    }
    out
}

/// Reads a record from the bytes of its region: checks the head marker, takes
/// in the text line by line up to the closing line or to the last line that
/// ends before the checksum, and computes the checksum of that text.
pub fn read_record(region: &Vec<u8>) -> (r: Result<LoadedRecord, MetadataError>)
    ensures
        match decoded(region@) {
            Ok((payload, stored)) => {
                &&& r is Ok
                &&& r->Ok_0.payload@ == payload
                &&& r->Ok_0.stored_crc == stored
                &&& r->Ok_0.computed_crc == crc32_of(payload)
            },
            Err(e) => r is Err && r->Err_0 == e,
        },
{
    let head = METADATA_HEAD_MAGIC.as_bytes_vec();
    let tail = METADATA_TAIL_MAGIC.as_bytes_vec();
    proof {
        lemma_magic_bytes();
    }
    if region.len() < head.len() + 4 {
        return Err(MetadataError::RegionTooSmall);
    }
    if !matches_at(region, 0, head.len(), &head) {
        return Err(MetadataError::BadHeadMagic);
    }
    let start = head.len();
    let limit = region.len() - 4;
    let mut line_start = start;
    let mut pos = start;
    let mut done = false;
    while !done && pos < limit
        invariant
            start <= line_start <= pos <= limit,
            limit == region.len() - 4,
            tail@ == tail_magic(),
            payload_end(region@, start as int, start as int, limit as int) == if done {
                line_start as int
            } else {
                payload_end(region@, line_start as int, pos as int, limit as int)
            },
        decreases limit - pos + if done { 0int } else { 1int },
    {
        if region[pos] == NEWLINE {
            if matches_at(region, line_start, pos, &tail) {
                done = true;
            } else {
                pos += 1;
                line_start = pos;
            }
        } else {
            pos += 1;
        }
    }
    let payload = copy_range(region, start, line_start);
    let stored_crc = u32_from_le_bytes(slice_subrange(region.as_slice(), limit, region.len()));
    let computed_crc = crc32(&payload);
    Ok(LoadedRecord { payload, stored_crc, computed_crc })
}

impl LoadedRecord {
    /// Whether the stored checksum is that of the text.
    pub fn checksum_matches(&self) -> (r: bool)
        ensures
            r == (self.stored_crc == self.computed_crc),
    {
        self.stored_crc == self.computed_crc
    }
}

/// The text of a record: what was serialised, and a line end.
pub open spec fn record_text(serialized: Seq<u8>) -> Seq<u8> {
    serialized.push(NEWLINE)
}

/// What follows the head marker in a region: the text of the record and the
/// closing line.
pub open spec fn record_body(serialized: Seq<u8>) -> Seq<u8> {
    record_text(serialized) + tail_magic() + seq![NEWLINE]
}

/// A record ready to be written.
#[derive(Debug)]
pub struct FramedRecord {
    /// The text of the record and the closing line.
    pub body: Vec<u8>,
    /// The checksum of the text.
    pub crc: u32,
}

/// Frames what was serialised: adds a line end, computes the checksum over
/// exactly that text, and adds the closing line.
pub fn frame_record(serialized: &Vec<u8>) -> (r: FramedRecord)
    ensures
        r.body@ == record_body(serialized@),
        r.crc == crc32_of(record_text(serialized@)),
{
    let tail = METADATA_TAIL_MAGIC.as_bytes_vec();
    let mut body = copy_range(serialized, 0, serialized.len());
    assert(body@ =~= serialized@);
    body.push(NEWLINE);
    let crc = crc32(&body);
    let mut i: usize = 0;
    while i < tail.len()
        invariant
            i <= tail.len(),
            tail@ == tail_magic(),
            body@ == record_text(serialized@) + tail@.subrange(0, i as int),
        decreases tail.len() - i,
    {
        body.push(tail[i]);
        i += 1;
        assert(body@ =~= record_text(serialized@) + tail@.subrange(0, i as int));
    }
    body.push(NEWLINE);
    assert(body@ =~= record_body(serialized@));
    FramedRecord { body, crc }
}

/// Bytes to be written to a device at an offset.
#[derive(Debug)]
pub struct DeviceWrite {
    pub driver: String,
    pub offset: u64,
    pub bytes: Vec<u8>,
}

/// What a `DeviceWrite` stands for.
pub struct DeviceWriteView {
    pub driver: Seq<char>,
    pub offset: int,
    pub bytes: Seq<u8>,
}

impl View for DeviceWrite {
    type V = DeviceWriteView;

    open spec fn view(&self) -> DeviceWriteView {
        DeviceWriteView { driver: self.driver@, offset: self.offset as int, bytes: self.bytes@ }
    }
}

/// The views of a list of writes.
pub open spec fn writes_view(writes: Seq<DeviceWrite>) -> Seq<DeviceWriteView> {
    writes.map_values(|w: DeviceWrite| w@)
}

/// The writes that put a record into the region `loc`: the head marker at the
/// start of the region, the text and the closing line right after it, and the
/// checksum in the last four bytes.
pub open spec fn region_writes(loc: PartitionLocation, body: Seq<u8>, crc: u32) -> Result<
    Seq<DeviceWriteView>,
    MetadataError,
> {
    let base = loc.first_lba * loc.sector_size;
    let region_len = (loc.last_lba - loc.first_lba + 1) * loc.sector_size;
    if loc.last_lba < loc.first_lba || base > u64::MAX || region_len > u64::MAX || base + region_len
        > u64::MAX {
        Err(MetadataError::Arithmetic)
    } else if region_len < CRC_BYTES || head_magic().len() + body.len() > region_len - CRC_BYTES {
        Err(MetadataError::SizeOverflow)
    } else {
        Ok(
            seq![
                DeviceWriteView { driver: loc.driver@, offset: base, bytes: head_magic() },
                DeviceWriteView {
                    driver: loc.driver@,
                    offset: base + head_magic().len(),
                    bytes: body,
                },
                DeviceWriteView {
                    driver: loc.driver@,
                    offset: base + region_len - CRC_BYTES,
                    bytes: spec_u32_to_le_bytes(crc),
                },
            ],
        )
    }
}

/// The writes for the first `k` regions of `locs`, or the error of the first
/// region that cannot take the record.
pub open spec fn all_region_writes(locs: Seq<PartitionLocation>, body: Seq<u8>, crc: u32, k: int) -> Result<
    Seq<DeviceWriteView>,
    MetadataError,
>
    decreases k,
{
    if k <= 0 {
        Ok(Seq::empty())
    } else {
        match all_region_writes(locs, body, crc, k - 1) {
            Err(e) => Err(e),
            Ok(before) => match region_writes(locs[k - 1], body, crc) {
                Err(e) => Err(e),
                Ok(w) => Ok(before + w),
            },
        }
    }
}

/// Plans the writes that store a record in every region of `locations`.
/// Nothing is planned unless the record fits in each of them.
pub fn plan_record_writes(serialized: &Vec<u8>, locations: &Vec<PartitionLocation>) -> (r: Result<
    Vec<DeviceWrite>,
    MetadataError,
>)
    ensures
        match all_region_writes(
            locations@,
            record_body(serialized@),
            crc32_of(record_text(serialized@)),
            locations.len() as int,
        ) {
            Ok(w) => r is Ok && writes_view(r->Ok_0@) == w,
            Err(e) => r is Err && r->Err_0 == e,
        },
{
    let framed = frame_record(serialized);
    let head = METADATA_HEAD_MAGIC.as_bytes_vec();
    let mut writes: Vec<DeviceWrite> = Vec::new();
    let mut k: usize = 0;
    proof {
        lemma_magic_bytes();
        assert(writes_view(writes@) =~= Seq::empty());
    }
    while k < locations.len()
        invariant
            k <= locations.len(),
            head@ == head_magic(),
            head@.len() == 15,
            framed.body@ == record_body(serialized@),
            framed.crc == crc32_of(record_text(serialized@)),
            all_region_writes(locations@, framed.body@, framed.crc, k as int) == Ok::<
                Seq<DeviceWriteView>,
                MetadataError,
            >(writes_view(writes@)),
        decreases locations.len() - k,
    {
        let loc = &locations[k];
        proof {
            if region_writes(*loc, framed.body@, framed.crc) is Err {
                lemma_region_writes_stop(
                    locations@,
                    framed.body@,
                    framed.crc,
                    k + 1,
                    locations.len() as int,
                );
            }
        }
        if loc.last_lba < loc.first_lba {
            return Err(MetadataError::Arithmetic);
        }
        let base = match loc.first_lba.checked_mul(loc.sector_size) {
            Some(b) => b,
            None => {
                return Err(MetadataError::Arithmetic);
            },
        };
        let sectors = match (loc.last_lba - loc.first_lba).checked_add(1) {
            Some(c) => c,
            None => {
                assert((loc.last_lba - loc.first_lba + 1) * loc.sector_size > u64::MAX
                    || loc.sector_size == 0) by (nonlinear_arith)
                    requires
                        loc.last_lba - loc.first_lba + 1 > u64::MAX,
                        loc.sector_size >= 0,
                ;
                if loc.sector_size == 0 {
                    assert((loc.last_lba - loc.first_lba + 1) * loc.sector_size == 0)
                        by (nonlinear_arith)
                        requires
                            loc.sector_size == 0,
                    ;
                    return Err(MetadataError::SizeOverflow);
                }
                return Err(MetadataError::Arithmetic);
            },
        };
        let region_len = match sectors.checked_mul(loc.sector_size) {
            Some(l) => l,
            None => {
                return Err(MetadataError::Arithmetic);
            },
        };
        let end = match base.checked_add(region_len) {
            Some(e) => e,
            None => {
                return Err(MetadataError::Arithmetic);
            },
        };
        if region_len < 4 || framed.body.len() as u64 > region_len - 4 || head.len() as u64
            > region_len - 4 - framed.body.len() as u64 {
            return Err(MetadataError::SizeOverflow);
        }
        let ghost before = writes_view(writes@);
        let w1 = DeviceWrite {
            driver: loc.driver.clone(),
            offset: base,
            bytes: copy_range(&head, 0, head.len()),
        };
        let w2 = DeviceWrite {
            driver: loc.driver.clone(),
            offset: base + head.len() as u64,
            bytes: copy_range(&framed.body, 0, framed.body.len()),
        };
        let w3 = DeviceWrite {
            driver: loc.driver.clone(),
            offset: end - 4,
            bytes: u32_to_le_bytes(framed.crc),
        };
        proof {
            assert(w1@.bytes =~= head_magic());
            assert(w2@.bytes =~= framed.body@);
        }
        writes.push(w1);
        writes.push(w2);
        writes.push(w3);
        proof {
            assert(writes_view(writes@) =~= before + seq![w1@, w2@, w3@]);
        }
        k += 1;
    }
    Ok(writes)
}

/// Once a region cannot take the record, nothing is planned for the regions
/// after it.
pub proof fn lemma_region_writes_stop(
    locs: Seq<PartitionLocation>,
    body: Seq<u8>,
    crc: u32,
    k: int,
    n: int,
)
    requires
        0 <= k <= n,
        all_region_writes(locs, body, crc, k) is Err,
    ensures
        all_region_writes(locs, body, crc, n) == all_region_writes(locs, body, crc, k),
    decreases n - k,
{
    if k < n {
        lemma_region_writes_stop(locs, body, crc, k, n - 1);
    }
}

/// No line of `text` is the closing line.
pub open spec fn no_closing_line(text: Seq<u8>) -> bool {
    forall|i: int, j: int|
        0 <= i <= j < text.len() && text[j] == NEWLINE && (i == 0 || text[i - 1] == NEWLINE)
            ==> #[trigger] text.subrange(i, j) != tail_magic()
}

/// `region` holds the record made of `serialized`: head marker, text and
/// closing line at its start, the checksum of the text in its last four bytes.
pub open spec fn region_holds(region: Seq<u8>, serialized: Seq<u8>) -> bool {
    let body = record_body(serialized);
    let head = head_magic().len() as int;
    &&& region.len() >= head + body.len() + CRC_BYTES
    &&& region.subrange(0, head) == head_magic()
    &&& region.subrange(head, head + body.len() as int) == body
    &&& region.subrange(region.len() - CRC_BYTES, region.len() as int) == spec_u32_to_le_bytes(
        crc32_of(record_text(serialized)),
    )
}

/// From any place in the text of a stored record, or in its closing line,
/// the scan ends where the text ends.
proof fn lemma_scan_text(region: Seq<u8>, serialized: Seq<u8>, line_start: int, pos: int)
    requires
        region_holds(region, serialized),
        no_closing_line(record_text(serialized)),
        15 <= line_start <= pos <= 15 + record_text(serialized).len() + 15,
        pos < 15 + record_text(serialized).len() || line_start == 15 + record_text(serialized).len(),
        line_start == 15 || region[line_start - 1] == NEWLINE,
        forall|j: int| line_start <= j < pos ==> region[j] != NEWLINE,
    ensures
        payload_end(region, line_start, pos, region.len() - CRC_BYTES) == 15 + record_text(
            serialized,
        ).len(),
    decreases 15 + record_text(serialized).len() + 16 - pos,
{
    lemma_magic_bytes();
    let text = record_text(serialized);
    let body = record_body(serialized);
    let tl = record_text(serialized).len() as int;
    let bl = body.len() as int;
    let text_end = 15 + tl;
    let limit = region.len() - CRC_BYTES;
    assert forall|j: int| 0 <= j < bl implies region[15 + j] == #[trigger] body[j] by {
        assert(region.subrange(15, 15 + bl)[j] == region[15 + j]);
    }
    assert forall|j: int| 0 <= j < tl implies body[j] == #[trigger] text[j] by {}
    assert forall|j: int| 0 <= j < 15 implies body[tl + j] == #[trigger] tail_magic()[j] by {}
    assert(body[tl + 15] == NEWLINE);
    assert(text[tl - 1] == NEWLINE);
    if pos < text_end {
        if region[pos] == NEWLINE {
            let i = line_start - 15;
            let j = pos - 15;
            assert(text[j] == NEWLINE);
            assert(i == 0 || text[i - 1] == NEWLINE) by {
                if i > 0 {
                    assert(region[15 + (i - 1)] == body[i - 1]);
                }
            }
            assert(region.subrange(line_start, pos) =~= text.subrange(i, j)) by {
                assert forall|m: int| 0 <= m < j - i implies region.subrange(line_start, pos)[m]
                    == text.subrange(i, j)[m] by {
                    assert(region[15 + (i + m)] == body[i + m]);
                }
            }
            if pos + 1 < text_end {
                lemma_scan_text(region, serialized, pos + 1, pos + 1);
            } else {
                lemma_scan_text(region, serialized, pos + 1, pos + 1);
            }
        } else {
            assert(pos + 1 < text_end) by {
                assert(region[15 + (tl - 1)] == body[tl - 1]);
            }
            lemma_scan_text(region, serialized, line_start, pos + 1);
        }
    } else {
        if pos < text_end + 15 {
            assert(region[pos] == tail_magic()[pos - text_end]) by {
                assert(region[15 + (tl + (pos - text_end))] == body[tl + (pos
                    - text_end)]);
            }
            lemma_scan_text(region, serialized, line_start, pos + 1);
        } else {
            assert(region[pos] == NEWLINE) by {
                assert(region[15 + (tl + 15)] == body[tl + 15]);
            }
            assert(region.subrange(line_start, pos) =~= tail_magic()) by {
                assert forall|m: int| 0 <= m < 15 implies region.subrange(line_start, pos)[m]
                    == tail_magic()[m] by {
                    assert(region[15 + (tl + m)] == body[tl + m]);
                }
            }
        }
    }
}

/// `region` took the bytes of `write`, which lies in it from `base` on.
pub open spec fn region_took(region: Seq<u8>, base: int, write: DeviceWriteView) -> bool {
    &&& base <= write.offset
    &&& write.offset - base + write.bytes.len() <= region.len()
    &&& region.subrange(write.offset - base, write.offset - base + write.bytes.len())
        == write.bytes
}

/// The region of a device that took the three writes planned for it holds
/// the record.
pub proof fn lemma_writes_fill_region(loc: PartitionLocation, serialized: Seq<u8>, region: Seq<u8>)
    requires
        region_writes(loc, record_body(serialized), crc32_of(record_text(serialized))) is Ok,
        region.len() == (loc.last_lba - loc.first_lba + 1) * loc.sector_size,
        forall|k: int|
            0 <= k < 3 ==> region_took(
                region,
                loc.first_lba * loc.sector_size,
                #[trigger] region_writes(
                    loc,
                    record_body(serialized),
                    crc32_of(record_text(serialized)),
                )->Ok_0[k],
            ),
    ensures
        region_holds(region, serialized),
{
    lemma_magic_bytes();
    lemma_auto_spec_u32_to_from_le_bytes();
    let writes = region_writes(loc, record_body(serialized), crc32_of(record_text(serialized)))->Ok_0;
    let base = loc.first_lba * loc.sector_size;
    assert(region_took(region, base, writes[0]));
    assert(region_took(region, base, writes[1]));
    assert(region_took(region, base, writes[2]));
    assert(spec_u32_to_le_bytes(crc32_of(record_text(serialized))).len() == 4);
}

/// A record that was written is read back as it was: from a region that
/// holds the framed record, the text of the record comes back and the stored
/// checksum is that of the text. The text must have no line that is the
/// closing line.
pub proof fn lemma_record_round_trip(region: Seq<u8>, serialized: Seq<u8>)
    requires
        region_holds(region, serialized),
        no_closing_line(record_text(serialized)),
    ensures
        decoded(region) == Ok::<(Seq<u8>, u32), MetadataError>(
            (record_text(serialized), crc32_of(record_text(serialized))),
        ),
{
    lemma_magic_bytes();
    lemma_auto_spec_u32_to_from_le_bytes();
    lemma_scan_text(region, serialized, 15, 15);
    let text = record_text(serialized);
    let body = record_body(serialized);
    let tl = text.len() as int;
    let bl = body.len() as int;
    let c = crc32_of(text);
    let limit = region.len() - CRC_BYTES;
    assert(spec_u32_to_le_bytes(c).len() == 4);
    assert(spec_u32_from_le_bytes(spec_u32_to_le_bytes(c)) == c);
    assert(spec_u32_from_le_bytes(region.subrange(limit, region.len() as int)) == c);
    assert(payload_end(region, 15, 15, limit) == 15 + tl);
    assert(region.subrange(15, 15 + tl) =~= text) by {
        assert forall|j: int| 0 <= j < tl implies region.subrange(15, 15 + tl)[j]
            == text[j] by {
            assert(region.subrange(15, 15 + bl)[j] == region[15 + j]);
            assert(body[j] == text[j]);
        }
    }
}

/// The hidden region right before user data that starts at `userdata_start`
/// on a disk with sectors of `sector` bytes, as its first and last sector.
pub open spec fn hidden_region(userdata_start: int, sector: int) -> Result<(int, int), MetadataError> {
    if sector == 0 {
        Err(MetadataError::ZeroSectorSize)
    } else if userdata_start < metadata_sectors(sector as nat) {
        Err(MetadataError::Arithmetic)
    } else {
        Ok((userdata_start - metadata_sectors(sector as nat), userdata_start - 1))
    }
}

/// The hidden region before user data at `userdata_start` on `driver`, which
/// no partition of `tables` may use.
pub open spec fn free_hidden_region(
    driver: Seq<char>,
    userdata_start: int,
    sector: int,
    tables: Seq<DiskTableView>,
) -> Result<PartitionLocationView, MetadataError> {
    match hidden_region(userdata_start, sector) {
        Err(e) => Err(e),
        Ok((first, last)) => match first_device_from(tables, driver, 0) {
            None => Err(MetadataError::DiskNotFound),
            Some(t) => if users_of(tables[t].entries, first, last).len() > 0 {
                Err(MetadataError::RegionInUse)
            } else {
                Ok(
                    PartitionLocationView {
                        driver,
                        id: 0,
                        first_lba: first,
                        last_lba: last,
                        sector_size: sector,
                    },
                )
            },
        },
    }
}

/// Works out the hidden region before user data and makes sure that no
/// partition uses it.
pub fn locate_hidden_region(
    driver: &String,
    userdata_start: u64,
    sector: u64,
    tables: &Vec<DiskTable>,
) -> (r: Result<PartitionLocation, MetadataError>)
    ensures
        match free_hidden_region(driver@, userdata_start as int, sector as int, tables_view(tables@)) {
            Ok(loc) => r is Ok && r->Ok_0@ == loc,
            Err(e) => r is Err && r->Err_0 == e,
        },
{
    if sector == 0 {
        return Err(MetadataError::ZeroSectorSize);
    }
    if userdata_start < metadata_len_sectors(sector) {
        return Err(MetadataError::Arithmetic);
    }
    let (first, last) = calculate_metadata_interval_from_low(userdata_start - 1, sector);
    let t = match find_table(tables, driver) {
        Some(t) => t,
        None => {
            return Err(MetadataError::DiskNotFound);
        },
    };
    assert(tables_view(tables@)[t as int] == tables@[t as int]@);
    if is_disk_segment_used(&tables[t], first, last).is_some() {
        return Err(MetadataError::RegionInUse);
    }
    Ok(
        PartitionLocation {
            driver: driver.clone(),
            id: 0,
            first_lba: first,
            last_lba: last,
            sector_size: sector,
        },
    )
}

/// Some location of `locs` lies on `driver`.
pub open spec fn driver_listed(locs: Seq<PartitionLocationView>, driver: Seq<char>) -> bool {
    exists|i: int| 0 <= i < locs.len() && (#[trigger] locs[i]).driver == driver
}

/// The hidden regions of the first `k` slots: one for each disk that hosts
/// the user data of a slot, taken from the first slot on that disk.
pub open spec fn hidden_regions(slots: Seq<SlotView>, tables: Seq<DiskTableView>, k: int) -> Result<
    Seq<PartitionLocationView>,
    MetadataError,
>
    decreases k,
{
    if k <= 0 {
        Ok(Seq::empty())
    } else {
        match hidden_regions(slots, tables, k - 1) {
            Err(e) => Err(e),
            Ok(before) => match first_target_from(slots[k - 1].dyn_partition_set, USERDATA_NAME@, 0) {
                None => Err(MetadataError::UserdataNotFound),
                Some(i) => {
                    let userdata = slots[k - 1].dyn_partition_set[i];
                    if driver_listed(before, userdata.driver) {
                        Ok(before)
                    } else {
                        match first_device_from(tables, userdata.driver, 0) {
                            None => Err(MetadataError::DiskNotFound),
                            Some(t) => match free_hidden_region(
                                userdata.driver,
                                userdata.start_lba,
                                tables[t].sector_size,
                                tables,
                            ) {
                                Err(e) => Err(e),
                                Ok(loc) => Ok(before.push(loc)),
                            },
                        }
                    }
                },
            },
        }
    }
}

/// Once the region of a slot cannot be had, the slots after it are not looked
/// at.
pub proof fn lemma_hidden_regions_stop(
    slots: Seq<SlotView>,
    tables: Seq<DiskTableView>,
    k: int,
    n: int,
)
    requires
        0 <= k <= n,
        hidden_regions(slots, tables, k) is Err,
    ensures
        hidden_regions(slots, tables, n) == hidden_regions(slots, tables, k),
    decreases n - k,
{
    if k < n {
        lemma_hidden_regions_stop(slots, tables, k, n - 1);
    }
}

/// Whether some location of `locs` lies on `driver`.
pub fn is_driver_listed(locs: &Vec<PartitionLocation>, driver: &String) -> (r: bool)
    ensures
        r == driver_listed(locations_view(locs@), driver@),
{
    let mut i: usize = 0;
    while i < locs.len()
        invariant
            i <= locs.len(),
            forall|j: int| 0 <= j < i ==> (#[trigger] locations_view(locs@)[j]).driver != driver@,
        decreases locs.len() - i,
    {
        if locs[i].driver == *driver {
            assert(locations_view(locs@)[i as int].driver == driver@);
            return true;
        }
        i += 1;
    }
    false
}

/// What loading a record does: a record whose checksum failed is refused
/// unless the operator accepts it, and is dirty if accepted; then the current
/// slot is resolved against the live user data partition.
pub open spec fn record_loaded(
    record: MetadataView,
    checksum_ok: bool,
    accept_dirty: bool,
    live: Option<PartitionLocation>,
    r: Result<Metadata, MetadataError>,
) -> bool {
    if !checksum_ok && !accept_dirty {
        r is Err && r->Err_0 == MetadataError::ChecksumDeclined
    } else {
        &&& r is Ok
        &&& r->Ok_0@.is_dirty == !checksum_ok
        &&& current_slot_resolved(MetadataView { is_dirty: !checksum_ok, ..record }, live, r->Ok_0@)
    }
}

impl Metadata {
    /// Completes the loading of a record that was read from its region and
    /// parsed. `checksum_ok` tells whether the stored checksum matched,
    /// `accept_dirty` whether the operator accepts a record whose checksum
    /// did not, and `live` where user data lives now.
    pub fn from_fw_metadata(
        record: Metadata,
        checksum_ok: bool,
        accept_dirty: bool,
        live: &Option<PartitionLocation>,
    ) -> (r: Result<Metadata, MetadataError>)
        ensures
            record_loaded(record@, checksum_ok, accept_dirty, *live, r),
    {
        if !checksum_ok && !accept_dirty {
            return Err(MetadataError::ChecksumDeclined);
        }
        let mut metadata = record;
        metadata.set_dirty(!checksum_ok);
        metadata.calculate_current_slot(live);
        Ok(metadata)
    }

    /// Plans the writes that store this record in every region of
    /// `locations`. `serialized` is the text of `for_storage()`. Nothing is
    /// planned unless the record fits in each region.
    pub fn write_fw_metadata(&self, serialized: &Vec<u8>, locations: &Vec<PartitionLocation>) -> (r:
        Result<Vec<DeviceWrite>, MetadataError>)
        ensures
            match all_region_writes(
                locations@,
                record_body(serialized@),
                crc32_of(record_text(serialized@)),
                locations.len() as int,
            ) {
                Ok(w) => r is Ok && writes_view(r->Ok_0@) == w,
                Err(e) => r is Err && r->Err_0 == e,
            },
    {
        plan_record_writes(serialized, locations)
    }

    /// The regions that hold a copy of the record. Where the disk has a
    /// partition for the record (`named`), that partition alone. Else the
    /// hidden region before user data on every disk that hosts the user data
    /// of a slot; such a region has identifier 0.
    pub fn get_all_metadata_location(
        metadata: &Metadata,
        named: &Option<PartitionLocation>,
        tables: &Vec<DiskTable>,
    ) -> (r: Result<Vec<PartitionLocation>, MetadataError>)
        ensures
            match *named {
                Some(loc) => r is Ok && locations_view(r->Ok_0@) == seq![loc@],
                None => match hidden_regions(
                    metadata@.slots,
                    tables_view(tables@),
                    metadata@.slots.len() as int,
                ) {
                    Ok(locs) => r is Ok && locations_view(r->Ok_0@) == locs,
                    Err(e) => r is Err && r->Err_0 == e,
                },
            },
    {
        let mut ret: Vec<PartitionLocation> = Vec::new();
        if let Some(loc) = named {
            ret.push(loc.clone());
            assert(locations_view(ret@) =~= seq![loc@]);
            return Ok(ret);
        }
        let slots = metadata.slots();
        let ghost sv = metadata@.slots;
        let ghost tv = tables_view(tables@);
        let mut k: usize = 0;
        proof {
            assert(locations_view(ret@) =~= Seq::empty());
        }
        while k < slots.len()
            invariant
                k <= slots.len(),
                *named is None,
                sv == metadata@.slots,
                sv == crate::metadata::slots_view(slots@),
                tv == tables_view(tables@),
                hidden_regions(sv, tv, k as int) == Ok::<Seq<PartitionLocationView>, MetadataError>(
                    locations_view(ret@),
                ),
            decreases slots.len() - k,
        {
            let slot = &slots[k];
            assert(sv[k as int] == slot@);
            proof {
                if hidden_regions(sv, tv, k + 1) is Err {
                    lemma_hidden_regions_stop(sv, tv, k + 1, slots.len() as int);
                }
            }
            let i = match userdata_target(slot) {
                Some(i) => i,
                None => {
                    return Err(MetadataError::UserdataNotFound);
                },
            };
            let userdata = &slot.dyn_partition_set[i];
            assert(slot@.dyn_partition_set[i as int] == userdata@);
            if !is_driver_listed(&ret, &userdata.driver) {
                let t = match find_table(tables, &userdata.driver) {
                    Some(t) => t,
                    None => {
                        return Err(MetadataError::DiskNotFound);
                    },
                };
                assert(tv[t as int] == tables@[t as int]@);
                let loc = match locate_hidden_region(
                    &userdata.driver,
                    userdata.start_lba,
                    tables[t].sector_size,
                    tables,
                ) {
                    Ok(loc) => loc,
                    Err(e) => {
                        return Err(e);
                    },
                };
                let ghost before = locations_view(ret@);
                ret.push(loc);
                proof {
                    assert(locations_view(ret@) =~= before.push(loc@));
                }
            }
            k += 1;
        }
        Ok(ret)
    }

    /// The region from which the record is read. Where the disk has a
    /// partition for the record (`named`), that partition. Else the hidden
    /// region before the live user data partition, found at
    /// `userdata_location`.
    pub fn get_current_metadata(
        named: &Option<PartitionLocation>,
        userdata_location: &Option<PartitionLocation>,
        tables: &Vec<DiskTable>,
    ) -> (r: Result<PartitionLocation, MetadataError>)
        ensures
            match (*named, *userdata_location) {
                (Some(loc), _) => r is Ok && r->Ok_0@ == loc@,
                (None, None) => r is Err && r->Err_0 == MetadataError::UserdataNotFound,
                (None, Some(live)) => match free_hidden_region(
                    live.driver@,
                    live.first_lba as int,
                    live.sector_size as int,
                    tables_view(tables@),
                ) {
                    Ok(loc) => r is Ok && r->Ok_0@ == loc,
                    Err(e) => r is Err && r->Err_0 == e,
                },
            },
    {
        if let Some(loc) = named {
            return Ok(loc.clone());
        }
        match userdata_location {
            None => Err(MetadataError::UserdataNotFound),
            Some(live) => locate_hidden_region(
                &live.driver,
                live.first_lba,
                live.sector_size,
                tables,
            ),
        }
    }
}

} // verus!
