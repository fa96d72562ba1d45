//! Laws of the container format and of patch application, stated and proved
//! once over all inputs.

use vstd::arithmetic::div_mod::lemma_div_denominator;
use vstd::arithmetic::div_mod::lemma_div_is_ordered;
use vstd::arithmetic::div_mod::lemma_fundamental_div_mod;
use vstd::arithmetic::div_mod::lemma_mod_bound;
use vstd::prelude::*;

use crate::patcher::be16;
use crate::patcher::be24;
use crate::patcher::magic_header;
use crate::patcher::magic_trailer;
use crate::patcher::record_end;
use crate::patcher::records_fit;
use crate::patcher::spec_apply_all;
use crate::patcher::spec_apply_patch;
use crate::patcher::spec_apply_record;
use crate::patcher::spec_at_end;
use crate::patcher::spec_container_ok;
use crate::patcher::spec_decode_from;
use crate::patcher::spec_encode_record;
use crate::patcher::spec_encode_records;
use crate::patcher::spec_grow;
use crate::patcher::spec_read_record_at;
use crate::patcher::spec_write_bytes;
use crate::patcher::wf_record;
use crate::patcher::PatchError;
use crate::patcher::RecordModel;

verus! {

/// Law: the 8-byte container holding only the header and the terminator is
/// valid, decodes to no records, and applying it leaves any source image
/// unchanged, byte for byte.
pub proof fn lemma_empty_patch_is_noop(src: Seq<u8>)
    ensures
        spec_container_ok(magic_header() + magic_trailer()),
        spec_decode_from(magic_header() + magic_trailer(), 5) == Some(Seq::<RecordModel>::empty()),
        spec_apply_patch(src, magic_header() + magic_trailer()) == Ok::<Seq<u8>, PatchError>(src),
{
    let s = magic_header() + magic_trailer();
    assert(s.len() == 8);
    assert(s.subrange(0, 5) =~= magic_header());
    assert(s.subrange(5, 8) =~= magic_trailer());
    assert(spec_at_end(s, 5));
    let recs = Seq::<RecordModel>::empty();
    assert(spec_grow(src, recs) =~= src);
    assert(spec_apply_all(src, recs) == src);
    assert(records_fit(recs, src.len() as int));
}

/// Law: applying one literal record writing `0xAA 0xBB 0xCC` at offset 2 to
/// an image of `n` zero bytes yields an image at least as long, with those
/// bytes at positions 2, 3 and 4 and a zero byte at every other position.
pub proof fn lemma_literal_application(n: nat)
    ensures
        ({
            let src = Seq::new(n, |i: int| 0u8);
            let recs = seq![
                RecordModel::Standard { offset: 2, size: 3, data: seq![0xaau8, 0xbbu8, 0xccu8] },
            ];
            let out = spec_apply_all(spec_grow(src, recs), recs);
            &&& out.len() == if n < 5 {
                5nat
            } else {
                n
            }
            &&& out[2] == 0xaa && out[3] == 0xbb && out[4] == 0xcc
            &&& forall|i: int| 0 <= i < out.len() && !(2 <= i < 5) ==> out[i] == 0
            &&& forall|i: int| 0 <= i < n && !(2 <= i < 5) ==> out[i] == src[i]
        }),
{
    let src = Seq::new(n, |i: int| 0u8);
    let recs = seq![
        RecordModel::Standard { offset: 2, size: 3, data: seq![0xaau8, 0xbbu8, 0xccu8] },
    ];
    let grown = spec_grow(src, recs);
    assert(record_end(recs.last()) == 5);
    assert(grown.len() == if n < 5 {
        5nat
    } else {
        n
    });
    assert(recs.drop_last() =~= Seq::<RecordModel>::empty());
    assert(spec_apply_all(grown, Seq::<RecordModel>::empty()) == grown);
    let out = spec_apply_all(grown, recs);
    assert(out == spec_apply_record(grown, recs.last()));
    assert(out =~= spec_write_bytes(grown, 2, seq![0xaau8, 0xbbu8, 0xccu8]));
}

/// The three big-endian bytes of a 24-bit value decode back to it.
proof fn lemma_be24_round(v: u32)
    requires
        v < 0x1000000,
    ensures
        0 <= v / 0x10000 < 0x100,
        0 <= (v / 0x100) % 0x100 < 0x100,
        0 <= v % 0x100 < 0x100,
        be24((v / 0x10000) as u8, ((v / 0x100) % 0x100) as u8, (v % 0x100) as u8) == v,
{
    let x = v as int;
    lemma_fundamental_div_mod(x, 0x100);
    lemma_fundamental_div_mod(x / 0x100, 0x100);
    lemma_div_denominator(x, 0x100, 0x100);
    lemma_mod_bound(x, 0x100);
    lemma_mod_bound(x / 0x100, 0x100);
    lemma_div_is_ordered(0, x, 0x10000);
    lemma_div_is_ordered(x, 0xffffff, 0x10000);
}

/// The two big-endian bytes of a 16-bit value decode back to it.
proof fn lemma_be16_round(v: u16)
    ensures
        0 <= v / 0x100 < 0x100,
        0 <= v % 0x100 < 0x100,
        be16((v / 0x100) as u8, (v % 0x100) as u8) == v,
{
    let x = v as int;
    lemma_fundamental_div_mod(x, 0x100);
    lemma_mod_bound(x, 0x100);
    lemma_div_is_ordered(0, x, 0x100);
    lemma_div_is_ordered(x, 0xffff, 0x100);
}

/// Decoding an encoded record sequence followed by the terminator, from the
/// position where the sequence starts, gives the records back.
proof fn lemma_decode_encoded_at(s: Seq<u8>, p: int, recs: Seq<RecordModel>)
    requires
        0 <= p <= s.len(),
        forall|i: int| 0 <= i < recs.len() ==> wf_record(#[trigger] recs[i]),
        s.subrange(p, s.len() as int) == spec_encode_records(recs) + magic_trailer(),
    ensures
        spec_decode_from(s, p) == Some(recs),
    decreases recs.len(),
{
    let rem = s.subrange(p, s.len() as int);
    if recs.len() == 0 {
        assert(spec_encode_records(recs) == Seq::<u8>::empty());
        assert(rem =~= magic_trailer());
        assert(spec_at_end(s, p));
        assert(recs =~= Seq::<RecordModel>::empty());
    } else {
        let r0 = recs[0];
        let rest = recs.subrange(1, recs.len() as int);
        let e0 = spec_encode_record(r0);
        let etail = spec_encode_records(rest);
        assert(spec_encode_records(recs) == e0 + etail);
        assert(wf_record(r0));
        assert(rem.len() == e0.len() + etail.len() + 3);
        let n0 = e0.len() as int;
        assert(n0 >= 6) by {
            match r0 {
                RecordModel::Standard { .. } => {},
                RecordModel::RLE { .. } => {},
            }
        }
        assert(forall|k: int| 0 <= k < n0 ==> s[p + k] == e0[k]) by {
            assert(forall|k: int| 0 <= k < rem.len() ==> rem[k] == s[p + k]);
            assert(forall|k: int| 0 <= k < n0 ==> rem[k] == e0[k]);
        }
        assert(!spec_at_end(s, p)) by {
            assert(p + 3 <= s.len());
            if s.subrange(p, s.len() as int) == magic_trailer() {
                assert(rem.len() == 3);
            }
        }
        let q = p + n0;
        match r0 {
            RecordModel::Standard { offset, size, data } => {
                assert(e0[0] == (offset / 0x10000) as u8 && e0[1] == ((offset / 0x100)
                    % 0x100) as u8 && e0[2] == (offset % 0x100) as u8 && e0[3] == (size
                    / 0x100) as u8 && e0[4] == (size % 0x100) as u8);
                lemma_be24_round(offset);
                lemma_be16_round(size);
                assert(be24(s[p], s[p + 1], s[p + 2]) == offset);
                assert(be16(s[p + 3], s[p + 4]) == size);
                assert(n0 == 5 + size);
                assert(s.subrange(p + 5, p + 5 + size) =~= data) by {
                    assert(forall|k: int| 0 <= k < data.len() ==> e0[5 + k] == data[k]);
                }
                assert(spec_read_record_at(s, p) == Some((r0, q)));
            },
            RecordModel::RLE { offset, length, value } => {
                assert(e0[0] == (offset / 0x10000) as u8 && e0[1] == ((offset / 0x100)
                    % 0x100) as u8 && e0[2] == (offset % 0x100) as u8 && e0[3] == 0u8 && e0[4]
                    == 0u8 && e0[5] == (length / 0x100) as u8 && e0[6] == (length
                    % 0x100) as u8 && e0[7] == value);
                lemma_be24_round(offset);
                lemma_be16_round(length);
                assert(be24(s[p], s[p + 1], s[p + 2]) == offset);
                assert(be16(s[p + 3], s[p + 4]) == 0);
                assert(be16(s[p + 5], s[p + 6]) == length);
                assert(n0 == 8);
                assert(spec_read_record_at(s, p) == Some((r0, q)));
            },
        }
        assert(s.subrange(q, s.len() as int) =~= etail + magic_trailer()) by {
            assert(forall|k: int| 0 <= k < etail.len() + 3 ==> rem[n0 + k] == (etail
                + magic_trailer())[k]);
            assert(forall|k: int| 0 <= k < etail.len() + 3 ==> #[trigger] s[q + k] == rem[n0 + k]);
        }
        assert(forall|i: int| 0 <= i < rest.len() ==> wf_record(#[trigger] rest[i])) by {
            assert(forall|i: int| 0 <= i < rest.len() ==> rest[i] == #[trigger] recs[i + 1]);
        }
        lemma_decode_encoded_at(s, q, rest);
        assert(seq![r0] + rest =~= recs);
    }
}

/// Law: encoding records into a container with the magic framing and then
/// decoding that container gives the records back, field for field and in
/// order.
pub proof fn lemma_round_trip(recs: Seq<RecordModel>)
    requires
        forall|i: int| 0 <= i < recs.len() ==> wf_record(#[trigger] recs[i]),
    ensures
        spec_container_ok(magic_header() + spec_encode_records(recs) + magic_trailer()),
        spec_decode_from(magic_header() + spec_encode_records(recs) + magic_trailer(), 5)
            == Some(recs),
{
    let container = magic_header() + spec_encode_records(recs) + magic_trailer();
    assert(container.subrange(0, 5) =~= magic_header());
    assert(container.subrange(container.len() - 3, container.len() as int) =~= magic_trailer());
    assert(container.subrange(5, container.len() as int) =~= spec_encode_records(recs)
        + magic_trailer());
    lemma_decode_encoded_at(container, 5, recs);
}

/// Law: a literal record whose declared size runs past the container's end
/// makes decoding fail from its position on.
pub proof fn lemma_truncated_size_fails(s: Seq<u8>, p: int)
    requires
        0 <= p,
        !spec_at_end(s, p),
        p + 5 <= s.len(),
        be16(s[p + 3], s[p + 4]) != 0,
        p + 5 + be16(s[p + 3], s[p + 4]) > s.len(),
    ensures
        spec_read_record_at(s, p) is None,
        spec_decode_from(s, p) is None,
{
}

/// Law: a container whose framing is intact but whose records fail to decode
/// makes the whole run fail with `Truncated`, whatever the source image: no
/// output is produced.
pub proof fn lemma_truncated_patch_no_output(src: Seq<u8>, s: Seq<u8>)
    requires
        spec_container_ok(s),
        spec_decode_from(s, 5) is None,
    ensures
        spec_apply_patch(src, s) == Err::<Seq<u8>, PatchError>(PatchError::Truncated),
{
}

} // verus!

