//! Encoding and decoding of framed buffers.
use vstd::prelude::*;

use crate::format::{
    cut, decoded, encoded, encoding, field_bytes, field_value, length_fields, prepend_all,
    scan_table, slices_view, tolerant, total, vecs_view, FrameError, Policy, Width,
};

verus! {

/// Appends the field holding `v`.
fn push_field(out: &mut Vec<u8>, w: Width, v: u64)
    requires
        w == Width::Narrow ==> v <= 255,
    ensures
        final(out)@ == old(out)@ + field_bytes(w, v as nat),
{
    match w {
        Width::Narrow => {
            out.push(v as u8);
        },
        Width::Wide => {
            out.push((v >> 56u64) as u8);
            out.push((v >> 48u64) as u8);
            out.push((v >> 40u64) as u8);
            out.push((v >> 32u64) as u8);
            out.push((v >> 24u64) as u8);
            out.push((v >> 16u64) as u8);
            out.push((v >> 8u64) as u8);
            out.push(v as u8);
        },
    }
    proof {
        assert(final(out)@ =~= old(out)@ + field_bytes(w, v as nat));
    }
}

/// Appends the bytes of `s`.
fn push_bytes(out: &mut Vec<u8>, s: &[u8])
    ensures
        final(out)@ == old(out)@ + s@,
{
    let ghost start = out@;
    let mut i: usize = 0;
    while i < s.len()
        invariant
            i <= s@.len(),
            out@ == start + s@.take(i as int),
        decreases s@.len() - i,
    {
        out.push(s[i]);
        i += 1;
        proof {
            assert(out@ =~= start + s@.take(i as int));
        }
    }
    proof {
        assert(s@.take(i as int) =~= s@);
    }
}

/// Whether a segment of `n` bytes is too long for a field of `w`.
fn too_long(w: Width, n: usize) -> (r: bool)
    ensures
        r == (n > w.max_segment_len()),
{
    match w {
        Width::Narrow => n > 254,
        Width::Wide => (n as u64) > 0xffff_ffff_ffff_fffeu64,
    }
}

/// Encodes `data` under `width` and `policy`.
pub fn encode(data: &[&[u8]], width: Width, policy: Policy) -> (r: Result<Vec<u8>, FrameError>)
    ensures
        encoded(width, policy, data@, r),
{
    let ghost segs = slices_view(data@);
    if data.len() == 0 {
        return Err(FrameError::EmptyInput);
    }
    let mut oversized = false;
    let mut has_empty = false;
    let mut i: usize = 0;
    while i < data.len()
        invariant
            i <= data@.len(),
            segs == slices_view(data@),
            oversized == exists|j: int| 0 <= j < i && #[trigger] segs[j].len() > width.max_segment_len(),
            has_empty == exists|j: int| 0 <= j < i && #[trigger] segs[j].len() == 0,
        decreases data@.len() - i,
    {
        let n = data[i].len();
        assert(segs[i as int] == data@[i as int]@);
        if too_long(width, n) {
            oversized = true;
        }
        if n == 0 {
            has_empty = true;
        }
        i += 1;
    }
    if oversized {
        return Err(FrameError::SegmentTooLarge);
    }
    if !policy.permit_empty_segments && has_empty {
        return Err(FrameError::EmptySegment);
    }
    let mut out: Vec<u8> = Vec::new();
    let mut k: usize = 0;
    while k < data.len()
        invariant
            k <= data@.len(),
            segs == slices_view(data@),
            forall|j: int| 0 <= j < segs.len() ==> #[trigger] segs[j].len() <= width.max_segment_len(),
            out@ == length_fields(width, segs.take(k as int)),
        decreases data@.len() - k,
    {
        let n = data[k].len();
        assert(segs[k as int] == data@[k as int]@);
        assert(segs.take(k + 1).drop_last() =~= segs.take(k as int));
        push_field(&mut out, width, (n as u64) + 1);
        k += 1;
    }
    assert(segs.take(k as int) =~= segs);
    push_field(&mut out, width, 0);
    let ghost table = out@;
    k = 0;
    assert(segs.take(0).flatten() =~= Seq::<u8>::empty());
    while k < data.len()
        invariant
            k <= data@.len(),
            segs == slices_view(data@),
            out@ == table + segs.take(k as int).flatten(),
        decreases data@.len() - k,
    {
        assert(segs[k as int] == data@[k as int]@);
        push_bytes(&mut out, data[k]);
        proof {
            assert(segs.take(k + 1) =~= segs.take(k as int).push(segs[k as int]));
            segs.take(k as int).lemma_flatten_push(segs[k as int]);
        }
        k += 1;
    }
    assert(segs.take(k as int) =~= segs);
    assert(out@ =~= encoding(width, segs));
    Ok(out)
}

/// The value of the field of `w` at `pos`.
fn read_field(buf: &[u8], pos: usize, w: Width) -> (r: u64)
    requires
        pos + w.field_len() <= buf@.len(),
    ensures
        r as nat == field_value(w, buf@.subrange(pos as int, pos + w.field_len())),
{
    let ghost sub = buf@.subrange(pos as int, pos + w.field_len());
    match w {
        Width::Narrow => buf[pos] as u64,
        Width::Wide => {
            assert(sub[0] == buf@[pos as int] && sub[1] == buf@[pos + 1] && sub[2] == buf@[pos + 2]
                && sub[3] == buf@[pos + 3] && sub[4] == buf@[pos + 4] && sub[5] == buf@[pos + 5]
                && sub[6] == buf@[pos + 6] && sub[7] == buf@[pos + 7]);
            ((buf[pos] as u64) << 56u64) | ((buf[pos + 1] as u64) << 48u64) | ((buf[pos + 2] as u64)
                << 40u64) | ((buf[pos + 3] as u64) << 32u64) | ((buf[pos + 4] as u64) << 24u64) | ((
            buf[pos + 5] as u64) << 16u64) | ((buf[pos + 6] as u64) << 8u64) | (buf[pos + 7] as u64)
        },
    }
}

/// The lengths in `s`, as natural numbers.
pub open spec fn nat_lens(s: Seq<u64>) -> Seq<nat> {
    s.map_values(|x: u64| x as nat)
}

proof fn lemma_total_step(l: Seq<nat>, k: int)
    requires
        0 <= k < l.len(),
    ensures
        total(l.take(k + 1)) == total(l.take(k)) + l[k],
{
    assert(l.take(k + 1).drop_last() =~= l.take(k));
}

proof fn lemma_total_prefix(l: Seq<nat>, k: int)
    requires
        0 <= k <= l.len(),
    ensures
        total(l.take(k)) <= total(l),
    decreases l.len() - k,
{
    if k == l.len() {
        assert(l.take(k) =~= l);
    } else {
        lemma_total_step(l, k);
        lemma_total_prefix(l, k + 1);
    }
}

/// Decodes `buf` under `width` and `policy`.
pub fn decode(buf: &[u8], width: Width, policy: Policy) -> (r: Result<Vec<Vec<u8>>, FrameError>)
    ensures
        decoded(width, policy, buf@, r),
{
    let ghost b = buf@;
    let fl = width.field_size();
    let mut lens: Vec<u64> = Vec::new();
    let mut has_empty = false;
    let mut pos: usize = 0;
    assert(prepend_all(Seq::empty(), scan_table(width, b, 0)) == scan_table(width, b, 0)) by {
        match scan_table(width, b, 0) {
            Ok((l, s)) => {
                assert(Seq::<nat>::empty() + l =~= l);
            },
            Err(e) => {},
        }
    }
    loop
        invariant_except_break
            pos <= b.len(),
            b == buf@,
            fl == width.field_len(),
            scan_table(width, b, 0) == prepend_all(nat_lens(lens@), scan_table(width, b, pos as nat)),
            has_empty == exists|k: int| 0 <= k < lens@.len() && #[trigger] lens@[k] == 0,
        ensures
            pos <= b.len(),
            scan_table(width, b, 0) == Ok::<(Seq<nat>, nat), FrameError>((nat_lens(lens@), pos as nat)),
            has_empty == exists|k: int| 0 <= k < lens@.len() && #[trigger] lens@[k] == 0,
        decreases b.len() - pos,
    {
        if pos == buf.len() {
            return Err(FrameError::MissingTerminator);
        }
        if buf.len() - pos < fl {
            return Err(FrameError::TruncatedTable);
        }
        let v = read_field(buf, pos, width);
        let ghost old_lens = nat_lens(lens@);
        let ghost rest = scan_table(width, b, (pos + fl) as nat);
        if v == 0 {
            assert(old_lens + Seq::<nat>::empty() =~= old_lens);
            pos += fl;
            break;
        }
        let ghost prev = lens@;
        lens.push(v - 1);
        proof {
            assert(nat_lens(lens@) =~= old_lens.push((v - 1) as nat));
            match rest {
                Ok((l, s)) => {
                    assert(old_lens + (seq![(v - 1) as nat] + l) =~= old_lens.push((v - 1) as nat)
                        + l);
                },
                Err(e) => {},
            }
            if v - 1 == 0 {
                assert(lens@[lens@.len() - 1] == 0);
            }
            if has_empty {
                let k = choose|k: int| 0 <= k < prev.len() && #[trigger] prev[k] == 0;
                assert(lens@[k] == 0);
            }
        }
        has_empty = has_empty || v == 1;
        pos += fl;
    }
    let ghost lv = nat_lens(lens@);
    let ghost start = pos as nat;
    assert(has_empty == exists|k: int| 0 <= k < lv.len() && #[trigger] lv[k] == 0) by {
        if has_empty {
            let k = choose|k: int| 0 <= k < lens@.len() && #[trigger] lens@[k] == 0;
            assert(lv[k] == 0);
        }
        if exists|k: int| 0 <= k < lv.len() && #[trigger] lv[k] == 0 {
            let k = choose|k: int| 0 <= k < lv.len() && #[trigger] lv[k] == 0;
            assert(lens@[k] == 0);
        }
    }
    if !policy.permit_empty_segments && has_empty {
        return Err(FrameError::EmptySegment);
    }
    let mut out: Vec<Vec<u8>> = Vec::new();
    let mut k: usize = 0;
    while k < lens.len()
        invariant
            b == buf@,
            lv == nat_lens(lens@),
            scan_table(width, b, 0) == Ok::<(Seq<nat>, nat), FrameError>((lv, start)),
            !(!policy.permit_empty_segments && exists|k: int| 0 <= k < lv.len() && #[trigger] lv[k] == 0),
            k <= lens@.len(),
            pos == start + total(lv.take(k as int)),
            pos <= b.len(),
            vecs_view(out@) == cut(b, start, lv).take(k as int),
        decreases lens@.len() - k,
    {
        let n = lens[k];
        proof {
            lemma_total_step(lv, k as int);
        }
        if n > (buf.len() - pos) as u64 {
            proof {
                lemma_total_prefix(lv, k + 1);
            }
            return Err(FrameError::IncompleteData);
        }
        let piece = vstd::slice::slice_to_vec(vstd::slice::slice_subrange(buf, pos, pos + n as usize));
        let ghost prev_out = out@;
        assert(vecs_view(prev_out).len() == k);
        out.push(piece);
        proof {
            assert(out@ == prev_out.push(piece));
            assert(out@[k as int] == piece);
            assert(lv[k as int] == n as nat);
            assert(cut(b, start, lv)[k as int] == b.subrange(pos as int, pos + n));
            assert(vecs_view(out@)[k as int] == piece@);
            assert(vecs_view(out@) =~= cut(b, start, lv).take(k + 1));
        }
        pos += n as usize;
        k += 1;
    }
    assert(lv.take(k as int) =~= lv);
    if policy.reject_trailing_data && pos < buf.len() {
        return Err(FrameError::TrailingData);
    }
    assert(vecs_view(out@) =~= cut(b, start, lv));
    Ok(out)
}

/// Encodes `data` with one-byte length fields; empty segments are allowed.
pub fn serialize_le(data: &[&[u8]]) -> (r: Result<Vec<u8>, FrameError>)
    ensures
        encoded(Width::Narrow, tolerant(), data@, r),
{
    encode(data, Width::Narrow, Policy::default())
}

/// Encodes `data` with eight-byte big-endian length fields; empty segments
/// are allowed.
pub fn serialize_be(data: &[&[u8]]) -> (r: Result<Vec<u8>, FrameError>)
    ensures
        encoded(Width::Wide, tolerant(), data@, r),
{
    encode(data, Width::Wide, Policy::default())
}

/// Decodes a buffer with one-byte length fields; bytes after the last
/// segment are ignored.
pub fn deserialize_le(data: &[u8]) -> (r: Result<Vec<Vec<u8>>, FrameError>)
    ensures
        decoded(Width::Narrow, tolerant(), data@, r),
{
    decode(data, Width::Narrow, Policy::default())
}

/// Decodes a buffer with eight-byte big-endian length fields; bytes after the
/// last segment are ignored.
pub fn deserialize_be(data: &[u8]) -> (r: Result<Vec<Vec<u8>>, FrameError>)
    ensures
        decoded(Width::Wide, tolerant(), data@, r),
{
    decode(data, Width::Wide, Policy::default())
}

} // verus!
