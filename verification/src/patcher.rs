//! The IPS patch container: its byte-level model, validation, record
//! decoding, and application onto a target image.

use vstd::prelude::*;

verus! {

/// The five magic bytes that open every patch container: ASCII "PATCH".
pub open spec fn magic_header() -> Seq<u8> {
    seq![0x50u8, 0x41u8, 0x54u8, 0x43u8, 0x48u8]
}

/// The three magic bytes that close every patch container: ASCII "EOF".
pub open spec fn magic_trailer() -> Seq<u8> {
    seq![0x45u8, 0x4fu8, 0x46u8]
}

/// The value of a 3-byte big-endian unsigned integer.
pub open spec fn be24(b0: u8, b1: u8, b2: u8) -> int {
    b0 * 0x10000 + b1 * 0x100 + b2
}

/// The value of a 2-byte big-endian unsigned integer.
pub open spec fn be16(b0: u8, b1: u8) -> int {
    b0 * 0x100 + b1
}

/// Why a patch container was rejected.
#[derive(Clone, Copy, Debug, PartialEq, Eq, Structural)]
pub enum PatchError {
    /// The container is shorter than the 8 bytes of framing.
    TooSmall,
    /// The first 5 bytes are not the magic header.
    BadHeader,
    /// The last 3 bytes are not the magic terminator.
    BadTrailer,
    /// A record's declared fields or payload run past the container's end.
    Truncated,
    /// A record targets positions past the end of the (possibly grown) image.
    OutOfBounds,
}

/// One decoded edit operation against the target image.
#[derive(Debug, PartialEq, Eq)]
pub enum Record {
    /// Writes `data` (exactly `size` bytes) starting at `offset`.
    Standard { offset: u32, size: u16, data: Vec<u8> },
    /// Writes `value` into each of `length` positions starting at `offset`.
    RLE { offset: u32, length: u16, value: u8 },
}

/// The mathematical shape of a [`Record`]: the same fields with the payload
/// as a sequence.
pub ghost enum RecordModel {
    Standard { offset: u32, size: u16, data: Seq<u8> },
    RLE { offset: u32, length: u16, value: u8 },
}

impl View for Record {
    type V = RecordModel;

    open spec fn view(&self) -> RecordModel {
        match self {
            Record::Standard { offset, size, data } => RecordModel::Standard {
                offset: *offset,
                size: *size,
                data: data@,
            },
            Record::RLE { offset, length, value } => RecordModel::RLE {
                offset: *offset,
                length: *length,
                value: *value,
            },
        }
    }
}

/// The first position past the image positions a record writes.
pub open spec fn record_end(m: RecordModel) -> int {
    match m {
        RecordModel::Standard { offset, size, .. } => offset + size,
        RecordModel::RLE { offset, length, .. } => offset + length,
    }
}

/// A record as decoding produces it: the offset fits in 24 bits, and a
/// literal record carries a nonzero size with exactly that many data bytes.
pub open spec fn wf_record(m: RecordModel) -> bool {
    match m {
        RecordModel::Standard { offset, size, data } => {
            &&& offset < 0x1000000
            &&& size > 0
            &&& data.len() == size
        },
        RecordModel::RLE { offset, .. } => offset < 0x1000000,
    }
}

/// Whether the container framing is intact: minimum length, magic header,
/// magic terminator.
pub open spec fn spec_container_ok(s: Seq<u8>) -> bool {
    &&& s.len() >= 8
    &&& s.subrange(0, 5) == magic_header()
    &&& s.subrange(s.len() - 3, s.len() as int) == magic_trailer()
}

/// Whether decoding stops at position `p`: fewer than 3 bytes remain, or the
/// remaining bytes are exactly the terminator.
pub open spec fn spec_at_end(s: Seq<u8>, p: int) -> bool {
    ||| p + 3 > s.len()
    ||| s.subrange(p, s.len() as int) == magic_trailer()
}

/// One decode step at position `p`: the record found there and the position
/// just past it, or `None` if its declared fields or payload run past the
/// container's end.
pub open spec fn spec_read_record_at(s: Seq<u8>, p: int) -> Option<(RecordModel, int)> {
    if p + 5 > s.len() {
        None
    } else {
        let offset = be24(s[p], s[p + 1], s[p + 2]) as u32;
        let size = be16(s[p + 3], s[p + 4]);
        if size == 0 {
            if p + 8 > s.len() {
                None
            } else {
                Some(
                    (
                        RecordModel::RLE {
                            offset,
                            length: be16(s[p + 5], s[p + 6]) as u16,
                            value: s[p + 7],
                        },
                        p + 8,
                    ),
                )
            }
        } else {
            if p + 5 + size > s.len() {
                None
            } else {
                Some(
                    (
                        RecordModel::Standard {
                            offset,
                            size: size as u16,
                            data: s.subrange(p + 5, p + 5 + size),
                        },
                        p + 5 + size,
                    ),
                )
            }
        }
    }
}

/// All records decoded from position `p` up to the terminator, in file
/// order, or `None` if a record runs past the container's end.
pub open spec fn spec_decode_from(s: Seq<u8>, p: int) -> Option<Seq<RecordModel>>
    decreases s.len() - p,
{
    if spec_at_end(s, p) {
        Some(Seq::empty())
    } else {
        match spec_read_record_at(s, p) {
            None => None,
            Some((m, q)) => match spec_decode_from(s, q) {
                None => None,
                Some(rest) => Some(seq![m] + rest),
            },
        }
    }
}

/// The 3-byte big-endian encoding of a 24-bit value.
pub open spec fn be24_bytes(v: u32) -> Seq<u8> {
    seq![(v / 0x10000) as u8, ((v / 0x100) % 0x100) as u8, (v % 0x100) as u8]
}

/// The 2-byte big-endian encoding of a 16-bit value.
pub open spec fn be16_bytes(v: u16) -> Seq<u8> {
    seq![(v / 0x100) as u8, (v % 0x100) as u8]
}

/// One record's bytes in the container format: offset, then size, then the
/// payload for a literal record, or a zero size, the length and the value
/// for a run-length record.
pub open spec fn spec_encode_record(m: RecordModel) -> Seq<u8> {
    match m {
        RecordModel::Standard { offset, size, data } => be24_bytes(offset) + be16_bytes(size)
            + data,
        RecordModel::RLE { offset, length, value } => be24_bytes(offset) + seq![0u8, 0u8]
            + be16_bytes(length) + seq![value],
    }
}

/// The records' bytes, in order: the container's body between the header and
/// the terminator.
pub open spec fn spec_encode_records(recs: Seq<RecordModel>) -> Seq<u8>
    decreases recs.len(),
{
    if recs.len() == 0 {
        Seq::empty()
    } else {
        spec_encode_record(recs[0]) + spec_encode_records(recs.subrange(1, recs.len() as int))
    }
}

/// Encoding one record more at the back appends its bytes at the back.
pub proof fn lemma_encode_records_push(recs: Seq<RecordModel>, m: RecordModel)
    ensures
        spec_encode_records(recs.push(m)) == spec_encode_records(recs) + spec_encode_record(m),
    decreases recs.len(),
{
    if recs.len() == 0 {
        assert(recs.push(m)[0] == m);
        assert(recs.push(m).subrange(1, 1) =~= Seq::<RecordModel>::empty());
        assert(spec_encode_records(Seq::<RecordModel>::empty()) == Seq::<u8>::empty());
        assert(spec_encode_records(recs.push(m)) == spec_encode_record(m) + Seq::<u8>::empty());
        assert(Seq::<u8>::empty() + spec_encode_record(m) =~= spec_encode_record(m));
        assert(spec_encode_record(m) + Seq::<u8>::empty() =~= spec_encode_record(m));
    } else {
        let tail = recs.subrange(1, recs.len() as int);
        assert(recs.push(m).subrange(1, recs.push(m).len() as int) =~= tail.push(m));
        lemma_encode_records_push(tail, m);
        assert(recs.push(m)[0] == recs[0]);
        assert(spec_encode_record(recs[0]) + (spec_encode_records(tail) + spec_encode_record(m))
            =~= (spec_encode_record(recs[0]) + spec_encode_records(tail)) + spec_encode_record(m));
    }
}

/// The image with `data` written at positions `off..off + data.len()`.
/// Positions past the image's end are dropped; the image never grows here.
pub open spec fn spec_write_bytes(img: Seq<u8>, off: int, data: Seq<u8>) -> Seq<u8> {
    Seq::new(
        img.len(),
        |i: int|
            if off <= i < off + data.len() {
                data[i - off]
            } else {
                img[i]
            },
    )
}

/// The image after one record's writes.
pub open spec fn spec_apply_record(img: Seq<u8>, m: RecordModel) -> Seq<u8> {
    match m {
        RecordModel::Standard { offset, data, .. } => spec_write_bytes(img, offset as int, data),
        RecordModel::RLE { offset, length, value } => spec_write_bytes(
            img,
            offset as int,
            Seq::new(length as nat, |i: int| value),
        ),
    }
}

/// The image after every record's writes, applied in file order.
pub open spec fn spec_apply_all(img: Seq<u8>, recs: Seq<RecordModel>) -> Seq<u8>
    decreases recs.len(),
{
    if recs.len() == 0 {
        img
    } else {
        spec_apply_record(spec_apply_all(img, recs.drop_last()), recs.last())
    }
}

/// The image length after growth: the last record's reach when it exceeds
/// the current length, else the current length. Only the last record's reach
/// counts; an earlier record reaching further triggers no growth.
pub open spec fn spec_grown_len(img_len: int, recs: Seq<RecordModel>) -> int {
    if recs.len() == 0 {
        img_len
    } else if record_end(recs.last()) > img_len {
        record_end(recs.last())
    } else {
        img_len
    }
}

/// The image extended at its tail with zero bytes up to the grown length.
pub open spec fn spec_grow(img: Seq<u8>, recs: Seq<RecordModel>) -> Seq<u8> {
    img + Seq::new((spec_grown_len(img.len() as int, recs) - img.len()) as nat, |i: int| 0u8)
}

/// Whether every record writes only positions below `len`.
pub open spec fn records_fit(recs: Seq<RecordModel>, len: int) -> bool {
    forall|i: int| 0 <= i < recs.len() ==> record_end(#[trigger] recs[i]) <= len
}

/// The whole pipeline on a source image and a patch container: validate the
/// framing, decode the records, grow the image to the last record's reach,
/// and apply every record in file order.
pub open spec fn spec_apply_patch(src: Seq<u8>, patch: Seq<u8>) -> Result<Seq<u8>, PatchError> {
    if patch.len() < 8 {
        Err(PatchError::TooSmall)
    } else if patch.subrange(0, 5) != magic_header() {
        Err(PatchError::BadHeader)
    } else if patch.subrange(patch.len() - 3, patch.len() as int) != magic_trailer() {
        Err(PatchError::BadTrailer)
    } else {
        match spec_decode_from(patch, 5) {
            None => Err(PatchError::Truncated),
            Some(recs) => {
                let grown = spec_grow(src, recs);
                if records_fit(recs, grown.len() as int) {
                    Ok(spec_apply_all(grown, recs))
                } else {
                    Err(PatchError::OutOfBounds)
                }
            },
        }
    }
}

/// Holds the target image, the patch container, the decode cursor, and the
/// records decoded so far.
pub struct Patcher {
    /// The target image: the source image's bytes, then possibly grown and
    /// patched in place.
    pub rom_data: Vec<u8>,
    /// The patch container's bytes.
    pub patch_data: Vec<u8>,
    /// The position in `patch_data` where the next record starts.
    pub patch_pointer: usize,
    /// The records decoded from `patch_data`, in file order.
    pub records: Vec<Record>,
}

impl Default for Patcher {
    /// An empty patcher: no image, no patch, no records.
    fn default() -> (r: Patcher)
        ensures
            r.rom_data@ == Seq::<u8>::empty(),
            r.patch_data@ == Seq::<u8>::empty(),
            r.patch_pointer == 0,
            r.records@ == Seq::<Record>::empty(),
    {
        Patcher { rom_data: Vec::new(), patch_data: Vec::new(), patch_pointer: 0, records: Vec::new() }
    }
}

impl Patcher {
    /// Checks the container framing: at least 8 bytes, the magic header at
    /// the front, the magic terminator at the back. Says exactly which of
    /// the three checks failed, trying them in that order.
    pub fn verify_patch(&self) -> (r: Result<(), PatchError>)
        ensures
            r is Ok <==> spec_container_ok(self.patch_data@),
            r == Err::<(), PatchError>(PatchError::TooSmall) <==> self.patch_data@.len() < 8,
            r == Err::<(), PatchError>(PatchError::BadHeader) <==> (self.patch_data@.len() >= 8
                && self.patch_data@.subrange(0, 5) != magic_header()),
            r == Err::<(), PatchError>(PatchError::BadTrailer) <==> (self.patch_data@.len() >= 8
                && self.patch_data@.subrange(0, 5) == magic_header()
                && self.patch_data@.subrange(
                self.patch_data@.len() - 3,
                self.patch_data@.len() as int,
            ) != magic_trailer()),
    {
        let len = self.patch_data.len();
        if len < 8 {
            return Err(PatchError::TooSmall);
        }
        let header_ok = self.patch_data[0] == 0x50 && self.patch_data[1] == 0x41
            && self.patch_data[2] == 0x54 && self.patch_data[3] == 0x43
            && self.patch_data[4] == 0x48;
        proof {
            assert(header_ok ==> self.patch_data@.subrange(0, 5) =~= magic_header());
            assert(self.patch_data@.subrange(0, 5) == magic_header() ==> {
                &&& self.patch_data@[0] == 0x50
                &&& self.patch_data@[1] == 0x41
                &&& self.patch_data@[2] == 0x54
                &&& self.patch_data@[3] == 0x43
                &&& self.patch_data@[4] == 0x48
            }) by {
                if self.patch_data@.subrange(0, 5) == magic_header() {
                    assert(forall|i: int|
                        0 <= i < 5 ==> self.patch_data@[i] == #[trigger] magic_header()[i]);
                }
            }
        }
        if !header_ok {
            return Err(PatchError::BadHeader);
        }
        let trailer_ok = self.patch_data[len - 3] == 0x45 && self.patch_data[len - 2] == 0x4f
            && self.patch_data[len - 1] == 0x46;
        proof {
            let t = self.patch_data@.subrange(
                self.patch_data@.len() - 3,
                self.patch_data@.len() as int,
            );
            assert(trailer_ok ==> t =~= magic_trailer());
            assert(t == magic_trailer() ==> {
                &&& self.patch_data@[len - 3] == 0x45
                &&& self.patch_data@[len - 2] == 0x4f
                &&& self.patch_data@[len - 1] == 0x46
            }) by {
                if t == magic_trailer() {
                    assert(forall|i: int| 0 <= i < 3 ==> t[i] == #[trigger] magic_trailer()[i]);
                }
            }
        }
        if !trailer_ok {
            return Err(PatchError::BadTrailer);
        }
        Ok(())
    }

    /// Decodes the record at the current cursor position. Returns `Ok(None)`
    /// and leaves the cursor alone when the cursor sits at the terminator or
    /// fewer than 3 bytes remain; returns the record and moves the cursor
    /// past it otherwise; returns `Truncated` when the record's declared
    /// fields or payload run past the container's end.
    pub fn read_record(&mut self) -> (r: Result<Option<Record>, PatchError>)
        ensures
            final(self).rom_data == old(self).rom_data,
            final(self).patch_data == old(self).patch_data,
            final(self).records == old(self).records,
            spec_at_end(old(self).patch_data@, old(self).patch_pointer as int) ==> r
                == Ok::<Option<Record>, PatchError>(None)
                && final(self).patch_pointer == old(self).patch_pointer,
            !spec_at_end(old(self).patch_data@, old(self).patch_pointer as int)
                ==> match spec_read_record_at(old(self).patch_data@, old(self).patch_pointer as int) {
                None => r == Err::<Option<Record>, PatchError>(PatchError::Truncated)
                    && final(self).patch_pointer == old(self).patch_pointer,
                Some((m, q)) => match r {
                    Ok(Some(rec)) => rec@ == m && final(self).patch_pointer == q,
                    _ => false,
                },
            },
    {
        let len = self.patch_data.len();
        let p = self.patch_pointer;
        let ghost s = self.patch_data@;
        if p > len || len - p < 3 {
            return Ok(None);
        }
        if len - p == 3 && self.patch_data[p] == 0x45 && self.patch_data[p + 1] == 0x4f
            && self.patch_data[p + 2] == 0x46 {
            proof {
                assert(s.subrange(p as int, s.len() as int) =~= magic_trailer());
            }
            return Ok(None);
        }
        proof {
            let t = s.subrange(p as int, s.len() as int);
            if t == magic_trailer() {
                assert(t.len() == 3);
                assert(t[0] == 0x45 && t[1] == 0x4f && t[2] == 0x46);
                assert(s[p as int] == t[0] && s[p + 1] == t[1] && s[p + 2] == t[2]);
                assert(false);
            }
        }
        if len - p < 5 {
            return Err(PatchError::Truncated);
        }
        let b0 = self.patch_data[p];
        let b1 = self.patch_data[p + 1];
        let b2 = self.patch_data[p + 2];
        let offset: u32 = (b0 as u32) * 0x10000 + (b1 as u32) * 0x100 + (b2 as u32);
        let size: u16 = (self.patch_data[p + 3] as u16) * 0x100 + (self.patch_data[p + 4] as u16);
        if size == 0 {
            if len - p < 8 {
                return Err(PatchError::Truncated);
            }
            let length: u16 = (self.patch_data[p + 5] as u16) * 0x100 + (self.patch_data[p
                + 6] as u16);
            let value = self.patch_data[p + 7];
            self.patch_pointer = p + 8;
            Ok(Some(Record::RLE { offset, length, value }))
        } else {
            if len - p - 5 < size as usize {
                return Err(PatchError::Truncated);
            }
            let mut data: Vec<u8> = Vec::new();
            let end: usize = p + 5 + size as usize;
            let mut idx: usize = p + 5;
            while idx < end
                invariant
                    *self == *old(self),
                    s == self.patch_data@,
                    p + 5 <= idx <= end,
                    end <= s.len(),
                    data@ == s.subrange(p + 5, idx as int),
                decreases end - idx,
            {
                data.push(self.patch_data[idx]);
                idx = idx + 1;
                proof {
                    assert(data@ =~= s.subrange(p + 5, idx as int));
                }
            }
            self.patch_pointer = p + 5 + size as usize;
            proof {
                assert(data@ =~= s.subrange(p + 5, p + 5 + size as int));
            }
            Ok(Some(Record::Standard { offset, size, data }))
        }
    }

    /// Decodes every record from position 5 up to the terminator into
    /// `records`, in file order, then grows the image with zero bytes up to
    /// the last record's reach when that reach exceeds the current length.
    /// Returns `Truncated`, leaving the image alone, when a record runs past
    /// the container's end; the cursor then stands at that record's start.
    pub fn read_records(&mut self) -> (r: Result<(), PatchError>)
        ensures
            final(self).patch_data@ == old(self).patch_data@,
            match spec_decode_from(old(self).patch_data@, 5) {
                None => r == Err::<(), PatchError>(PatchError::Truncated)
                    && final(self).rom_data@ == old(self).rom_data@
                    && !spec_at_end(old(self).patch_data@, final(self).patch_pointer as int)
                    && spec_read_record_at(
                    old(self).patch_data@,
                    final(self).patch_pointer as int,
                ) is None,
                Some(recs) => {
                    &&& r == Ok::<(), PatchError>(())
                    &&& final(self).records@.map_values(|rec: Record| rec@) == recs
                    &&& final(self).rom_data@ == spec_grow(old(self).rom_data@, recs)
                    &&& forall|i: int| 0 <= i < recs.len() ==> wf_record(#[trigger] recs[i])
                },
            },
    {
        let ghost s = self.patch_data@;
        let ghost rom0 = self.rom_data@;
        self.patch_pointer = 5;
        self.records = Vec::new();
        loop
            invariant
                s == old(self).patch_data@,
                rom0 == old(self).rom_data@,
                self.patch_data@ == s,
                self.rom_data@ == rom0,
                spec_decode_from(s, 5) == match spec_decode_from(s, self.patch_pointer as int) {
                    None => None::<Seq<RecordModel>>,
                    Some(rest) => Some(self.records@.map_values(|rec: Record| rec@) + rest),
                },
                forall|i: int| 0 <= i < self.records@.len() ==> wf_record(
                    #[trigger] self.records@[i]@,
                ),
            ensures
                self.patch_data@ == s,
                self.rom_data@ == rom0,
                spec_decode_from(s, 5) == Some(self.records@.map_values(|rec: Record| rec@)),
                forall|i: int| 0 <= i < self.records@.len() ==> wf_record(
                    #[trigger] self.records@[i]@,
                ),
            decreases s.len() - self.patch_pointer,
        {
            let ghost p_prev = self.patch_pointer as int;
            let ghost rv_prev = self.records@.map_values(|rec: Record| rec@);
            let step = self.read_record();
            match step {
                Err(e) => {
                    return Err(e);
                },
                Ok(None) => {
                    proof {
                        assert(spec_decode_from(s, p_prev) == Some(Seq::<RecordModel>::empty()));
                        assert(rv_prev + Seq::<RecordModel>::empty() =~= rv_prev);
                    }
                    break;
                },
                Ok(Some(rec)) => {
                    proof {
                        let step_spec = spec_read_record_at(s, p_prev);
                        let (m0, q0) = step_spec.unwrap();
                        assert(rec@ == m0 && self.patch_pointer == q0);
                        assert(wf_record(m0));
                        let rv_new = rv_prev.push(m0);
                        assert((self.records@.push(rec)).map_values(|r2: Record| r2@) =~= rv_new);
                        match spec_decode_from(s, q0) {
                            None => {},
                            Some(rest) => {
                                assert(rv_prev + (seq![m0] + rest) =~= rv_new + rest);
                            },
                        }
                    }
                    self.records.push(rec);
                },
            }
        }
        if self.records.len() > 0 {
            let ghost recs = self.records@.map_values(|rec: Record| rec@);
            let n = self.records.len();
            proof {
                assert(wf_record(self.records@[n - 1]@));
            }
            let last_offset: u32 = match &self.records[n - 1] {
                Record::Standard { offset, size, .. } => *offset + (*size as u32),
                Record::RLE { offset, length, .. } => *offset + (*length as u32),
            };
            proof {
                assert(recs.last() == self.records@[n - 1]@);
                assert(last_offset == record_end(recs.last()));
            }
            if last_offset as usize > self.rom_data.len() {
                let target = last_offset as usize;
                let ghost records_snap = self.records@;
                while self.rom_data.len() < target
                    invariant
                        self.patch_data@ == s,
                        self.records@ == records_snap,
                        rom0.len() <= self.rom_data@.len() <= target,
                        self.rom_data@.subrange(0, rom0.len() as int) == rom0,
                        forall|k: int| rom0.len() <= k < self.rom_data@.len()
                            ==> self.rom_data@[k] == 0,
                    decreases target - self.rom_data@.len(),
                {
                    let ghost before = self.rom_data@;
                    self.rom_data.push(0);
                    proof {
                        assert(self.rom_data@.subrange(0, rom0.len() as int) =~= before.subrange(
                            0,
                            rom0.len() as int,
                        ));
                    }
                }
                proof {
                    assert(self.rom_data@ =~= spec_grow(rom0, recs));
                }
            } else {
                proof {
                    assert(self.rom_data@ =~= spec_grow(rom0, recs));
                }
            }
        } else {
            proof {
                let recs = self.records@.map_values(|rec: Record| rec@);
                assert(recs.len() == 0);
                assert(self.rom_data@ =~= spec_grow(rom0, recs));
            }
        }
        Ok(())
    }

    /// The whole run on the held buffers: validates the container framing,
    /// decodes every record, grows the image to the last record's reach, and
    /// writes every record into the image in file order, so that a later
    /// record overwrites an earlier one where they overlap. On any error the
    /// run stops with that error; a record that targets positions past the
    /// grown image's end stops it with `OutOfBounds`. After a `Truncated`
    /// error the cursor stands at the start of the record that ran past the
    /// container's end.
    pub fn patch(&mut self) -> (r: Result<(), PatchError>)
        ensures
            final(self).patch_data@ == old(self).patch_data@,
            match spec_apply_patch(old(self).rom_data@, old(self).patch_data@) {
                Ok(out) => r == Ok::<(), PatchError>(()) && final(self).rom_data@ == out,
                Err(e) => r == Err::<(), PatchError>(e),
            },
            r == Err::<(), PatchError>(PatchError::Truncated) ==> !spec_at_end(
                old(self).patch_data@,
                final(self).patch_pointer as int,
            ) && spec_read_record_at(
                old(self).patch_data@,
                final(self).patch_pointer as int,
            ) is None,
    {
        let ghost rom0 = self.rom_data@;
        let ghost patch0 = self.patch_data@;
        match self.verify_patch() {
            Err(e) => {
                return Err(e);
            },
            Ok(()) => {},
        }
        match self.read_records() {
            Err(e) => {
                return Err(e);
            },
            Ok(()) => {},
        }
        let ghost grown = self.rom_data@;
        let ghost records_snap = self.records@;
        let ghost recs = self.records@.map_values(|rec: Record| rec@);
        proof {
            assert(grown == spec_grow(rom0, recs));
        }
        let n = self.records.len();
        let mut i: usize = 0;
        while i < n
            invariant
                rom0 == old(self).rom_data@,
                patch0 == old(self).patch_data@,
                self.patch_data@ == patch0,
                self.records@ == records_snap,
                n == self.records.len(),
                i <= n,
                recs == self.records@.map_values(|rec: Record| rec@),
                forall|k: int| 0 <= k < recs.len() ==> wf_record(#[trigger] recs[k]),
                grown == spec_grow(rom0, recs),
                self.rom_data@.len() == grown.len(),
                records_fit(recs.subrange(0, i as int), grown.len() as int),
                self.rom_data@ == spec_apply_all(grown, recs.subrange(0, i as int)),
                spec_decode_from(patch0, 5) == Some(recs),
                spec_container_ok(patch0),
            decreases n - i,
        {
            proof {
                assert(self.records@[i as int]@ == recs[i as int]);
                assert(wf_record(recs[i as int]));
            }
            let fits: bool = match &self.records[i] {
                Record::Standard { offset, size, .. } => (*offset as u64 + *size as u64)
                    <= self.rom_data.len() as u64,
                Record::RLE { offset, length, .. } => (*offset as u64 + *length as u64)
                    <= self.rom_data.len() as u64,
            };
            if !fits {
                proof {
                    assert(record_end(recs[i as int]) > grown.len());
                    assert(!records_fit(recs, grown.len() as int));
                }
                return Err(PatchError::OutOfBounds);
            }
            let ghost pre = self.rom_data@;
            match &self.records[i] {
                Record::Standard { offset, size, data } => {
                    let off = *offset as usize;
                    let sz = *size as usize;
                    let end: usize = off + sz;
                    let mut j: usize = 0;
                    while j < sz
                        invariant
                            self.patch_data@ == patch0,
                            self.records@ == records_snap,
                            j <= sz,
                            data@.len() == sz,
                            end == off + sz,
                            end <= self.rom_data@.len(),
                            self.rom_data@.len() == pre.len(),
                            forall|k: int| 0 <= k < off ==> self.rom_data@[k] == pre[k],
                            forall|k: int| off <= k < off + j ==> self.rom_data@[k] == data@[
                                k - off
                            ],
                            forall|k: int| off + j <= k < pre.len() ==> self.rom_data@[k]
                                == pre[k],
                        decreases sz - j,
                    {
                        self.rom_data[off + j] = data[j];
                        j = j + 1;
                    }
                    proof {
                        assert(self.rom_data@ =~= spec_write_bytes(pre, off as int, data@));
                    }
                },
                Record::RLE { offset, length, value } => {
                    let off = *offset as usize;
                    let ln = *length as usize;
                    let val = *value;
                    let end: usize = off + ln;
                    let mut j: usize = 0;
                    while j < ln
                        invariant
                            self.patch_data@ == patch0,
                            self.records@ == records_snap,
                            j <= ln,
                            end == off + ln,
                            end <= self.rom_data@.len(),
                            self.rom_data@.len() == pre.len(),
                            forall|k: int| 0 <= k < off ==> self.rom_data@[k] == pre[k],
                            forall|k: int| off <= k < off + j ==> self.rom_data@[k] == val,
                            forall|k: int| off + j <= k < pre.len() ==> self.rom_data@[k]
                                == pre[k],
                        decreases ln - j,
                    {
                        self.rom_data[off + j] = val;
                        j = j + 1;
                    }
                    proof {
                        assert(self.rom_data@ =~= spec_write_bytes(
                            pre,
                            off as int,
                            Seq::new(ln as nat, |t: int| val),
                        ));
                    }
                },
            }
            proof {
                assert(self.rom_data@ == spec_apply_record(pre, recs[i as int]));
                assert(recs.subrange(0, i + 1).drop_last() =~= recs.subrange(0, i as int));
                assert(recs.subrange(0, i + 1).last() == recs[i as int]);
                assert(records_fit(recs.subrange(0, i + 1), grown.len() as int));
            }
            i = i + 1;
        }
        proof {
            assert(recs.subrange(0, n as int) =~= recs);
        }
        Ok(())
    }
}

/// Applies an IPS patch container to a source image and returns the patched
/// image: the source's bytes, grown at the tail with zero bytes to the last
/// record's reach when that reach exceeds the source's length, with every
/// record's writes laid over them in file order. On a malformed container or
/// a record past the grown image's end, the error comes back and no image.
pub fn apply_patch(source_image: Vec<u8>, patch: Vec<u8>) -> (r: Result<Vec<u8>, PatchError>)
    ensures
        match r {
            Ok(out) => spec_apply_patch(source_image@, patch@) == Ok::<Seq<u8>, PatchError>(out@),
            Err(e) => spec_apply_patch(source_image@, patch@) == Err::<Seq<u8>, PatchError>(e),
        },
{
    let mut patcher = Patcher {
        rom_data: source_image,
        patch_data: patch,
        patch_pointer: 0,
        records: Vec::new(),
    };
    match patcher.patch() {
        Ok(()) => Ok(patcher.rom_data),
        Err(e) => Err(e),
    }
}

/// Encodes records into the container body bytes that stand between the
/// header and the terminator. Decoding a container built around these bytes
/// gives the records back, field for field.
pub fn encode_records(records: &Vec<Record>) -> (r: Vec<u8>)
    requires
        forall|i: int| 0 <= i < records@.len() ==> wf_record(#[trigger] records@[i]@),
    ensures
        r@ == spec_encode_records(records@.map_values(|rec: Record| rec@)),
{
    let ghost recs = records@.map_values(|rec: Record| rec@);
    let mut body: Vec<u8> = Vec::new();
    let n = records.len();
    let mut i: usize = 0;
    while i < n
        invariant
            n == records@.len(),
            i <= n,
            recs == records@.map_values(|rec: Record| rec@),
            forall|k: int| 0 <= k < records@.len() ==> wf_record(#[trigger] records@[k]@),
            body@ == spec_encode_records(recs.subrange(0, i as int)),
        decreases n - i,
    {
        proof {
            assert(records@[i as int]@ == recs[i as int]);
            assert(wf_record(recs[i as int]));
        }
        let ghost body_prev = body@;
        match &records[i] {
            Record::Standard { offset, size, data } => {
                body.push((*offset / 0x10000) as u8);
                body.push(((*offset / 0x100) % 0x100) as u8);
                body.push((*offset % 0x100) as u8);
                body.push((*size / 0x100) as u8);
                body.push((*size % 0x100) as u8);
                let mut j: usize = 0;
                let ghost with_fields = body@;
                while j < data.len()
                    invariant
                        j <= data@.len(),
                        body@ == with_fields + data@.subrange(0, j as int),
                    decreases data@.len() - j,
                {
                    body.push(data[j]);
                    proof {
                        assert(body@ =~= with_fields + data@.subrange(0, j + 1));
                    }
                    j = j + 1;
                }
                proof {
                    assert(data@.subrange(0, data@.len() as int) =~= data@);
                    assert(body@ =~= body_prev + spec_encode_record(recs[i as int]));
                }
            },
            Record::RLE { offset, length, value } => {
                body.push((*offset / 0x10000) as u8);
                body.push(((*offset / 0x100) % 0x100) as u8);
                body.push((*offset % 0x100) as u8);
                body.push(0);
                body.push(0);
                body.push((*length / 0x100) as u8);
                body.push((*length % 0x100) as u8);
                body.push(*value);
                proof {
                    assert(body@ =~= body_prev + spec_encode_record(recs[i as int]));
                }
            },
        }
        proof {
            assert(recs.subrange(0, i + 1) =~= recs.subrange(0, i as int).push(recs[i as int]));
            lemma_encode_records_push(recs.subrange(0, i as int), recs[i as int]);
        }
        i = i + 1;
    }
    proof {
        assert(recs.subrange(0, n as int) =~= recs);
    }
    body
}

} // verus!
