//! Properties of the format that hold across encode and decode.
use vstd::prelude::*;
use vstd::seq_lib::lemma_flatten_concat;

use crate::format::{
    be_bytes, be_value, cut, decode_outcome, encode_outcome, encoding, field_bytes, field_value,
    decoded, length_fields, prepend_all, prepend_len, scan_table, total, FrameError, Policy, Width,
};

verus! {

/// The raw length of each segment.
pub open spec fn lens_of(segs: Seq<Seq<u8>>) -> Seq<nat> {
    segs.map_values(|s: Seq<u8>| s.len())
}

/// Every segment fits a field of `w`.
pub open spec fn fits(w: Width, segs: Seq<Seq<u8>>) -> bool {
    forall|i: int| 0 <= i < segs.len() ==> #[trigger] segs[i].len() <= w.max_segment_len()
}

/// `segs` may be encoded under `p`: empty segments only where `p` allows them.
pub open spec fn allowed(p: Policy, segs: Seq<Seq<u8>>) -> bool {
    p.permit_empty_segments || forall|i: int| 0 <= i < segs.len() ==> #[trigger] segs[i].len() > 0
}

proof fn lemma_be_round_trip(v: u64)
    ensures
        be_value(be_bytes(v)) == v,
{
    let b = be_bytes(v);
    assert(((((v >> 56u64) as u8) as u64) << 56u64) | ((((v >> 48u64) as u8) as u64) << 48u64) | ((
    ((v >> 40u64) as u8) as u64) << 40u64) | ((((v >> 32u64) as u8) as u64) << 32u64) | ((((v
        >> 24u64) as u8) as u64) << 24u64) | ((((v >> 16u64) as u8) as u64) << 16u64) | ((((v
        >> 8u64) as u8) as u64) << 8u64) | ((v as u8) as u64) == v) by (bit_vector);
}

proof fn lemma_field(w: Width, v: nat)
    requires
        v <= w.max_segment_len() + 1,
    ensures
        field_bytes(w, v).len() == w.field_len(),
        field_value(w, field_bytes(w, v)) == v,
{
    match w {
        Width::Narrow => {},
        Width::Wide => {
            lemma_be_round_trip(v as u64);
        },
    }
}

proof fn lemma_fields_front(w: Width, segs: Seq<Seq<u8>>)
    requires
        segs.len() > 0,
    ensures
        length_fields(w, segs) == field_bytes(w, segs[0].len() + 1) + length_fields(
            w,
            segs.drop_first(),
        ),
    decreases segs.len(),
{
    if segs.len() == 1 {
        assert(segs.drop_last() =~= Seq::<Seq<u8>>::empty());
        assert(segs.drop_first() =~= Seq::<Seq<u8>>::empty());
        assert(length_fields(w, segs) =~= field_bytes(w, segs[0].len() + 1) + length_fields(
            w,
            segs.drop_first(),
        ));
    } else {
        lemma_fields_front(w, segs.drop_last());
        assert(segs.drop_last().drop_first() =~= segs.drop_first().drop_last());
        assert(length_fields(w, segs) =~= field_bytes(w, segs[0].len() + 1) + length_fields(
            w,
            segs.drop_first(),
        ));
    }
}

proof fn lemma_scan_fields(w: Width, buf: Seq<u8>, pos: nat, segs: Seq<Seq<u8>>)
    requires
        fits(w, segs),
        pos + length_fields(w, segs).len() <= buf.len(),
        buf.subrange(pos as int, (pos + length_fields(w, segs).len()) as int) == length_fields(w, segs),
    ensures
        scan_table(w, buf, pos) == prepend_all(
            lens_of(segs),
            scan_table(w, buf, pos + length_fields(w, segs).len()),
        ),
    decreases segs.len(),
{
    let rest = scan_table(w, buf, pos + length_fields(w, segs).len());
    if segs.len() == 0 {
        match rest {
            Ok((l, s)) => {
                assert(lens_of(segs) + l =~= l);
            },
            Err(e) => {},
        }
    } else {
        let f = field_bytes(w, segs[0].len() + 1);
        let tail = segs.drop_first();
        lemma_fields_front(w, segs);
        lemma_field(w, segs[0].len() + 1);
        let fl = w.field_len();
        assert(buf.subrange(pos as int, (pos + fl) as int) =~= f) by {
            assert(buf.subrange(pos as int, (pos + fl) as int) =~= buf.subrange(pos as int, (pos + length_fields(w, segs).len()) as int).subrange(0, fl as int));
        }
        assert(buf.subrange((pos + fl) as int, (pos + fl + length_fields(w, tail).len()) as int)
            =~= length_fields(w, tail)) by {
            assert(buf.subrange((pos + fl) as int, (pos + fl + length_fields(w, tail).len()) as int)
                =~= buf.subrange(pos as int, (pos + length_fields(w, segs).len()) as int).subrange(fl as int, length_fields(w, segs).len() as int));
        }
        assert forall|i: int| 0 <= i < tail.len() implies #[trigger] tail[i].len()
            <= w.max_segment_len() by {
            assert(tail[i] == segs[i + 1]);
        }
        lemma_scan_fields(w, buf, pos + fl, tail);
        assert(scan_table(w, buf, pos) == prepend_len(segs[0].len(), scan_table(w, buf, pos + fl)));
        match rest {
            Ok((l, s)) => {
                assert(seq![segs[0].len()] + (lens_of(tail) + l) =~= lens_of(segs) + l);
            },
            Err(e) => {},
        }
    }
}

proof fn lemma_total_lens(segs: Seq<Seq<u8>>)
    ensures
        total(lens_of(segs)) == segs.flatten().len(),
    decreases segs.len(),
{
    if segs.len() > 0 {
        lemma_total_lens(segs.drop_last());
        assert(lens_of(segs).drop_last() =~= lens_of(segs.drop_last()));
        segs.drop_last().lemma_flatten_push(segs.last());
        assert(segs.drop_last().push(segs.last()) =~= segs);
    }
}

proof fn lemma_cut(buf: Seq<u8>, start: nat, segs: Seq<Seq<u8>>)
    requires
        start + segs.flatten().len() <= buf.len(),
        buf.subrange(start as int, (start + segs.flatten().len()) as int) == segs.flatten(),
    ensures
        cut(buf, start, lens_of(segs)) == segs,
{
    let lens = lens_of(segs);
    let flat = segs.flatten();
    assert forall|k: int| 0 <= k < segs.len() implies #[trigger] cut(buf, start, lens)[k]
        == segs[k] by {
        let front = segs.take(k);
        let back = segs.skip(k);
        assert(segs =~= front + back);
        lemma_flatten_concat(front, back);
        assert(lens.take(k) =~= lens_of(front));
        lemma_total_lens(front);
        let t = front.flatten().len();
        assert(back.flatten() == back[0] + back.drop_first().flatten());
        assert(flat.subrange(t as int, (t + segs[k].len()) as int) =~= segs[k]);
        assert(buf.subrange((start + t) as int, (start + t + segs[k].len()) as int) =~= flat.subrange(t as int, (t + segs[k].len()) as int));
    }
    assert(cut(buf, start, lens) =~= segs);
}

/// The table of an encoding of fitting segments reads back as their lengths,
/// with the payload starting right after the terminator.
proof fn lemma_scan_encoding(w: Width, segs: Seq<Seq<u8>>)
    requires
        fits(w, segs),
    ensures
        scan_table(w, encoding(w, segs), 0) == Ok::<(Seq<nat>, nat), FrameError>(
            (lens_of(segs), length_fields(w, segs).len() + w.field_len()),
        ),
{
    let buf = encoding(w, segs);
    let lf = length_fields(w, segs);
    lemma_field(w, 0);
    assert(buf.subrange(0, lf.len() as int) =~= lf);
    lemma_scan_fields(w, buf, 0, segs);
    assert(buf.subrange(lf.len() as int, (lf.len() + w.field_len()) as int) =~= field_bytes(w, 0));
    assert(lens_of(segs) + Seq::<nat>::empty() =~= lens_of(segs));
}

/// Decoding what was encoded gives back the segments, for both widths and
/// every policy under which the segments may be encoded.
pub proof fn round_trip(w: Width, p: Policy, segs: Seq<Seq<u8>>)
    requires
        segs.len() > 0,
        fits(w, segs),
        allowed(p, segs),
    ensures
        encode_outcome(w, p, segs) == Ok::<Seq<u8>, FrameError>(encoding(w, segs)),
        decode_outcome(w, p, encoding(w, segs)) == Ok::<Seq<Seq<u8>>, FrameError>(segs),
{
    let buf = encoding(w, segs);
    let start = length_fields(w, segs).len() + w.field_len();
    lemma_field(w, 0);
    lemma_scan_encoding(w, segs);
    lemma_total_lens(segs);
    assert(buf.subrange(start as int, buf.len() as int) =~= segs.flatten());
    lemma_cut(buf, start, segs);
    if !p.permit_empty_segments {
        assert forall|k: int| 0 <= k < lens_of(segs).len() implies #[trigger] lens_of(segs)[k]
            != 0 by {
            assert(segs[k].len() > 0);
        }
    }
}

/// Encoding an empty list of segments fails with `EmptyInput`, whatever the
/// width and policy.
pub proof fn empty_input_rejected(w: Width, p: Policy)
    ensures
        encode_outcome(w, p, Seq::empty()) == Err::<Seq<u8>, FrameError>(FrameError::EmptyInput),
{
}

/// A segment of the longest length a field allows encodes and decodes back;
/// one byte more and encoding fails with `SegmentTooLarge`.
pub proof fn capacity_boundary(w: Width, p: Policy, s: Seq<u8>)
    ensures
        s.len() == w.max_segment_len() ==> encode_outcome(w, p, seq![s]) == Ok::<
            Seq<u8>,
            FrameError,
        >(encoding(w, seq![s])) && decode_outcome(w, p, encoding(w, seq![s])) == Ok::<
            Seq<Seq<u8>>,
            FrameError,
        >(seq![s]),
        s.len() == w.max_segment_len() + 1 ==> encode_outcome(w, p, seq![s]) == Err::<
            Seq<u8>,
            FrameError,
        >(FrameError::SegmentTooLarge),
{
    let segs = seq![s];
    if s.len() == w.max_segment_len() {
        assert(segs[0] == s);
        round_trip(w, p, segs);
    }
    if s.len() == w.max_segment_len() + 1 {
        assert(segs[0].len() > w.max_segment_len());
    }
}

/// Dropping the last byte of an encoding makes decoding fail: with
/// `IncompleteData` when the payload is not empty, else because the
/// terminator is cut (`MissingTerminator` for one-byte fields,
/// `TruncatedTable` for eight-byte ones).
pub proof fn truncated_encoding_fails(w: Width, p: Policy, segs: Seq<Seq<u8>>)
    requires
        segs.len() > 0,
        fits(w, segs),
        allowed(p, segs),
    ensures
        decode_outcome(w, p, encoding(w, segs).drop_last()) == if segs.flatten().len() > 0 {
            Err::<Seq<Seq<u8>>, FrameError>(FrameError::IncompleteData)
        } else if w == Width::Narrow {
            Err::<Seq<Seq<u8>>, FrameError>(FrameError::MissingTerminator)
        } else {
            Err::<Seq<Seq<u8>>, FrameError>(FrameError::TruncatedTable)
        },
{
    let full = encoding(w, segs);
    let t = full.drop_last();
    let lf = length_fields(w, segs);
    let fl = w.field_len();
    lemma_field(w, 0);
    assert(t.subrange(0, lf.len() as int) =~= lf);
    lemma_scan_fields(w, t, 0, segs);
    if segs.flatten().len() > 0 {
        assert(t.subrange(lf.len() as int, (lf.len() + fl) as int) =~= field_bytes(w, 0));
        assert(lens_of(segs) + Seq::<nat>::empty() =~= lens_of(segs));
        lemma_total_lens(segs);
        if !p.permit_empty_segments {
            assert forall|k: int| 0 <= k < lens_of(segs).len() implies #[trigger] lens_of(segs)[k]
                != 0 by {
                assert(segs[k].len() > 0);
            }
        }
    }
}

/// A buffer of shifted-length fields alone, with no terminator after them,
/// fails to decode with `MissingTerminator`.
pub proof fn unterminated_table_fails(w: Width, p: Policy, segs: Seq<Seq<u8>>)
    requires
        fits(w, segs),
    ensures
        decode_outcome(w, p, length_fields(w, segs)) == Err::<Seq<Seq<u8>>, FrameError>(
            FrameError::MissingTerminator,
        ),
{
    let buf = length_fields(w, segs);
    assert(buf.subrange(0, buf.len() as int) =~= buf);
    lemma_scan_fields(w, buf, 0, segs);
}

/// Any two results that decoding one buffer may give agree; in particular a
/// failure comes back as the same error every time.
pub proof fn decode_failure_is_stable(
    w: Width,
    p: Policy,
    buf: Seq<u8>,
    r1: Result<Vec<Vec<u8>>, FrameError>,
    r2: Result<Vec<Vec<u8>>, FrameError>,
)
    requires
        decoded(w, p, buf, r1),
        decoded(w, p, buf, r2),
    ensures
        r1 is Err ==> r2 == r1,
{
}

} // verus!
