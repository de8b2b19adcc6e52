//! The wire format as mathematics: what a buffer holds for a list of
//! segments, and what a buffer decodes to.
use vstd::prelude::*;

verus! {

/// Which length field a buffer uses.
#[derive(Clone, Copy, Debug, PartialEq, Eq, Structural)]
pub enum Width {
    /// One byte per field.
    Narrow,
    /// Eight big-endian bytes per field.
    Wide,
}

/// Why a buffer could not be produced or read.
#[derive(Clone, Copy, Debug, PartialEq, Eq, Structural)]
pub enum FrameError {
    /// No segment was given to encode.
    EmptyInput,
    /// A segment's shifted length does not fit in a length field.
    SegmentTooLarge,
    /// A zero-length segment, where the policy forbids them.
    EmptySegment,
    /// The buffer ends part-way through a length field.
    TruncatedTable,
    /// The table runs to the end of the buffer with no terminator field.
    MissingTerminator,
    /// The payload region is shorter than the table says.
    IncompleteData,
    /// Bytes follow the last segment, where the policy forbids them.
    TrailingData,
}

/// Choices that the format leaves to its users.
#[derive(Clone, Copy, Debug, PartialEq, Eq, Structural)]
pub struct Policy {
    /// Whether zero-length segments may be encoded and decoded.
    pub permit_empty_segments: bool,
    /// Whether decoding fails on bytes beyond the last segment.
    pub reject_trailing_data: bool,
}

impl Default for Policy {
    /// Empty segments allowed, trailing bytes ignored.
    fn default() -> (p: Policy)
        ensures
            p == tolerant(),
    {
        Policy { permit_empty_segments: true, reject_trailing_data: false }
    }
}

impl Width {
    /// Bytes in one length field.
    pub open spec fn field_len(self) -> nat {
        match self {
            Width::Narrow => 1,
            Width::Wide => 8,
        }
    }

    /// The longest segment whose shifted length still fits in a field.
    pub open spec fn max_segment_len(self) -> nat {
        match self {
            Width::Narrow => 254,
            Width::Wide => 0xffff_ffff_ffff_fffe,
        }
    }

    /// Bytes in one length field.
    pub fn field_size(&self) -> (r: usize)
        ensures
            r == self.field_len(),
    {
        match self {
            Width::Narrow => 1,
            Width::Wide => 8,
        }
    }
}

impl FrameError {
    /// A sentence describing the error.
    pub fn message(&self) -> (r: &'static str) {
        match self {
            FrameError::EmptyInput => "Input data is empty.",
            FrameError::SegmentTooLarge => "Input data contains a slice that is too large to be serialized.",
            FrameError::EmptySegment => "Input data contains an empty slice.",
            FrameError::TruncatedTable => "Input data ends inside a length field.",
            FrameError::MissingTerminator => "Input data is missing the terminating null byte.",
            FrameError::IncompleteData => "Input data is incomplete.",
            FrameError::TrailingData => "Input data has bytes after the last slice.",
        }
    }
}

/// The eight big-endian bytes of `v`.
pub open spec fn be_bytes(v: u64) -> Seq<u8> {
    seq![
        (v >> 56u64) as u8,
        (v >> 48u64) as u8,
        (v >> 40u64) as u8,
        (v >> 32u64) as u8,
        (v >> 24u64) as u8,
        (v >> 16u64) as u8,
        (v >> 8u64) as u8,
        v as u8,
    ]
}

/// The integer that eight big-endian bytes spell.
pub open spec fn be_value(b: Seq<u8>) -> u64 {
    ((b[0] as u64) << 56u64) | ((b[1] as u64) << 48u64) | ((b[2] as u64) << 40u64) | ((
    b[3] as u64) << 32u64) | ((b[4] as u64) << 24u64) | ((b[5] as u64) << 16u64) | ((b[6] as u64)
        << 8u64) | (b[7] as u64)
}

/// The bytes of a field holding `v`.
pub open spec fn field_bytes(w: Width, v: nat) -> Seq<u8> {
    match w {
        Width::Narrow => seq![v as u8],
        Width::Wide => be_bytes(v as u64),
    }
}

/// The value of the field whose bytes are `b`.
pub open spec fn field_value(w: Width, b: Seq<u8>) -> nat {
    match w {
        Width::Narrow => b[0] as nat,
        Width::Wide => be_value(b) as nat,
    }
}

/// The shifted-length fields of `segs`, in order, without the terminator.
pub open spec fn length_fields(w: Width, segs: Seq<Seq<u8>>) -> Seq<u8>
    decreases segs.len(),
{
    if segs.len() == 0 {
        Seq::empty()
    } else {
        length_fields(w, segs.drop_last()) + field_bytes(w, segs.last().len() + 1)
    }
}

/// The buffer that holds `segs`: length table, terminator, payload.
pub open spec fn encoding(w: Width, segs: Seq<Seq<u8>>) -> Seq<u8> {
    length_fields(w, segs) + field_bytes(w, 0) + segs.flatten()
}

/// What encoding `segs` gives under `w` and `p`.
pub open spec fn encode_outcome(w: Width, p: Policy, segs: Seq<Seq<u8>>) -> Result<
    Seq<u8>,
    FrameError,
> {
    if segs.len() == 0 {
        Err(FrameError::EmptyInput)
    } else if exists|i: int| 0 <= i < segs.len() && #[trigger] segs[i].len() > w.max_segment_len() {
        Err(FrameError::SegmentTooLarge)
    } else if !p.permit_empty_segments && exists|i: int|
        0 <= i < segs.len() && #[trigger] segs[i].len() == 0 {
        Err(FrameError::EmptySegment)
    } else {
        Ok(encoding(w, segs))
    }
}

/// Reading the length table from offset `pos` on: the raw lengths up to the
/// terminator and the offset just past it, or where the scan fails.
pub open spec fn scan_table(w: Width, buf: Seq<u8>, pos: nat) -> Result<
    (Seq<nat>, nat),
    FrameError,
>
    decreases buf.len() - pos,
{
    if pos >= buf.len() {
        Err(FrameError::MissingTerminator)
    } else if pos + w.field_len() > buf.len() {
        Err(FrameError::TruncatedTable)
    } else {
        let v = field_value(w, buf.subrange(pos as int, (pos + w.field_len()) as int));
        if v == 0 {
            Ok((Seq::empty(), pos + w.field_len()))
        } else {
            prepend_len((v - 1) as nat, scan_table(w, buf, pos + w.field_len()))
        }
    }
}

/// `r` with `n` put before its lengths.
pub open spec fn prepend_len(n: nat, r: Result<(Seq<nat>, nat), FrameError>) -> Result<
    (Seq<nat>, nat),
    FrameError,
> {
    match r {
        Ok((lens, start)) => Ok((seq![n] + lens, start)),
        Err(e) => Err(e),
    }
}

/// The sum of `lens`.
pub open spec fn total(lens: Seq<nat>) -> nat
    decreases lens.len(),
{
    if lens.len() == 0 {
        0
    } else {
        total(lens.drop_last()) + lens.last()
    }
}

/// The segments cut from `buf` at `start` by `lens`, back to back.
pub open spec fn cut(buf: Seq<u8>, start: nat, lens: Seq<nat>) -> Seq<Seq<u8>> {
    Seq::new(
        lens.len(),
        |k: int|
            buf.subrange(
                (start + total(lens.take(k))) as int,
                (start + total(lens.take(k)) + lens[k]) as int,
            ),
    )
}

/// What decoding `buf` gives under `w` and `p`.
pub open spec fn decode_outcome(w: Width, p: Policy, buf: Seq<u8>) -> Result<
    Seq<Seq<u8>>,
    FrameError,
> {
    match scan_table(w, buf, 0) {
        Err(e) => Err(e),
        Ok((lens, start)) => {
            let end = start + total(lens);
            if !p.permit_empty_segments && exists|k: int| 0 <= k < lens.len() && #[trigger] lens[k] == 0 {
                Err(FrameError::EmptySegment)
            } else if end > buf.len() {
                Err(FrameError::IncompleteData)
            } else if p.reject_trailing_data && end < buf.len() {
                Err(FrameError::TrailingData)
            } else {
                Ok(cut(buf, start, lens))
            }
        }
    }
}

/// `r` with `p` put before its lengths.
pub open spec fn prepend_all(p: Seq<nat>, r: Result<(Seq<nat>, nat), FrameError>) -> Result<
    (Seq<nat>, nat),
    FrameError,
> {
    match r {
        Ok((lens, start)) => Ok((p + lens, start)),
        Err(e) => Err(e),
    }
}

/// The policy of [`Policy::default`].
pub open spec fn tolerant() -> Policy {
    Policy { permit_empty_segments: true, reject_trailing_data: false }
}

/// `r` is what encoding `data` under `w` and `p` gives.
pub open spec fn encoded(w: Width, p: Policy, data: Seq<&[u8]>, r: Result<Vec<u8>, FrameError>) -> bool {
    match r {
        Ok(b) => encode_outcome(w, p, slices_view(data)) == Ok::<Seq<u8>, FrameError>(b@),
        Err(e) => encode_outcome(w, p, slices_view(data)) == Err::<Seq<u8>, FrameError>(e),
    }
}

/// `r` is what decoding `buf` under `w` and `p` gives.
pub open spec fn decoded(w: Width, p: Policy, buf: Seq<u8>, r: Result<Vec<Vec<u8>>, FrameError>) -> bool {
    match r {
        Ok(v) => decode_outcome(w, p, buf) == Ok::<Seq<Seq<u8>>, FrameError>(vecs_view(v@)),
        Err(e) => decode_outcome(w, p, buf) == Err::<Seq<Seq<u8>>, FrameError>(e),
    }
}

/// The contents of a list of slices.
pub open spec fn slices_view(data: Seq<&[u8]>) -> Seq<Seq<u8>> {
    data.map_values(|s: &[u8]| s@)
}

/// The contents of a list of vectors.
pub open spec fn vecs_view(data: Seq<Vec<u8>>) -> Seq<Seq<u8>> {
    data.map_values(|s: Vec<u8>| s@)
}

} // verus!
