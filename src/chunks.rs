use vstd::prelude::*;
use vstd::slice::slice_subrange;

use crate::error::DecodeError;

verus! {

/// Full-byte tag of a chunk holding an opaque RGB color.
pub const QOI_OP_RGB_HEADER: u8 = 0b11111110;
/// Full-byte tag of a chunk holding an RGBA color.
pub const QOI_OP_RGBA_HEADER: u8 = 0b11111111;
/// Two-bit tag of a cache reference.
pub const QOI_OP_INDEX_HEADER: u8 = 0b00;
/// Two-bit tag of a small per-channel difference.
pub const QOI_OP_DIFF_HEADER: u8 = 0b01;
/// Two-bit tag of a green-relative difference.
pub const QOI_OP_LUMA_HEADER: u8 = 0b10;
/// Two-bit tag of a run of the previous pixel.
pub const QOI_OP_RUN_HEADER: u8 = 0b11;

#[derive(Clone, Copy, Debug, PartialEq, Eq, Structural)]
pub struct RGBChunk {
    pub r: u8,
    pub g: u8,
    pub b: u8,
}

#[derive(Clone, Copy, Debug, PartialEq, Eq, Structural)]
pub struct RGBAChunk {
    pub r: u8,
    pub g: u8,
    pub b: u8,
    pub a: u8,
}

/// A reference to one of the 64 cache slots.
#[derive(Clone, Copy, Debug, PartialEq, Eq, Structural)]
pub struct IndexChunk {
    pub index: u8,
}

/// Channel differences, each stored with a bias of 2.
#[derive(Clone, Copy, Debug, PartialEq, Eq, Structural)]
pub struct DiffChunk {
    pub dr: u8,
    pub dg: u8,
    pub db: u8,
}

/// Green difference (bias 32) and red and blue relative to it (bias 8).
#[derive(Clone, Copy, Debug, PartialEq, Eq, Structural)]
pub struct LumaChunk {
    pub dg: u8,
    pub dr_dg: u8,
    pub db_dg: u8,
}

/// A run of the previous pixel, its length stored with a bias of 1.
#[derive(Clone, Copy, Debug, PartialEq, Eq, Structural)]
pub struct RunChunk {
    pub run: u8,
}

/// One unit of the compressed stream.
#[derive(Clone, Copy, Debug, PartialEq, Eq, Structural)]
pub enum CHUNK {
    RGBChunk(RGBChunk),
    RGBAChunk(RGBAChunk),
    IndexChunk(IndexChunk),
    DiffChunk(DiffChunk),
    LumaChunk(LumaChunk),
    RunChunk(RunChunk),
}

/// The fields of a chunk lie in the ranges that their bit widths allow.
pub open spec fn chunk_wf(c: CHUNK) -> bool {
    match c {
        CHUNK::RGBChunk(_) => true,
        CHUNK::RGBAChunk(_) => true,
        CHUNK::IndexChunk(i) => i.index < 64,
        CHUNK::DiffChunk(d) => d.dr < 4 && d.dg < 4 && d.db < 4,
        CHUNK::LumaChunk(l) => l.dg < 64 && l.dr_dg < 16 && l.db_dg < 16,
        CHUNK::RunChunk(r) => r.run < 64,
    }
}

/// The two leading bits of a byte.
pub open spec fn tag2(b: u8) -> u8 {
    b / 64
}

pub open spec fn rgb_of(s: Seq<u8>) -> CHUNK {
    CHUNK::RGBChunk(RGBChunk { r: s[1], g: s[2], b: s[3] })
}

pub open spec fn rgba_of(s: Seq<u8>) -> CHUNK {
    CHUNK::RGBAChunk(RGBAChunk { r: s[1], g: s[2], b: s[3], a: s[4] })
}

/// Bits 2..8 of the first byte.
pub open spec fn index_of(s: Seq<u8>) -> CHUNK {
    CHUNK::IndexChunk(IndexChunk { index: s[0] % 64 })
}

/// Bits 2..4, 4..6 and 6..8 of the first byte.
pub open spec fn diff_of(s: Seq<u8>) -> CHUNK {
    CHUNK::DiffChunk(DiffChunk { dr: (s[0] / 16) % 4, dg: (s[0] / 4) % 4, db: s[0] % 4 })
}

/// Bits 2..8 of the first byte, then the high and the low half of the second.
pub open spec fn luma_of(s: Seq<u8>) -> CHUNK {
    CHUNK::LumaChunk(LumaChunk { dg: s[0] % 64, dr_dg: s[1] / 16, db_dg: s[1] % 16 })
}

/// Bits 2..8 of the first byte.
pub open spec fn run_of(s: Seq<u8>) -> CHUNK {
    CHUNK::RunChunk(RunChunk { run: s[0] % 64 })
}

/// Number of bytes of the chunk that starts with byte `b`.
pub open spec fn chunk_size(b: u8) -> nat {
    if b == QOI_OP_RGB_HEADER {
        4
    } else if b == QOI_OP_RGBA_HEADER {
        5
    } else if tag2(b) == QOI_OP_LUMA_HEADER {
        2
    } else {
        1
    }
}

/// The chunk at the front of `s`, the full-byte tags taking priority.
pub open spec fn chunk_of(s: Seq<u8>) -> CHUNK {
    let b = s[0];
    if b == QOI_OP_RGB_HEADER {
        rgb_of(s)
    } else if b == QOI_OP_RGBA_HEADER {
        rgba_of(s)
    } else if tag2(b) == QOI_OP_INDEX_HEADER {
        index_of(s)
    } else if tag2(b) == QOI_OP_DIFF_HEADER {
        diff_of(s)
    } else if tag2(b) == QOI_OP_LUMA_HEADER {
        luma_of(s)
    } else {
        run_of(s)
    }
}

/// The result of a chunk parser, with the unconsumed bytes as a sequence.
pub open spec fn parse_view(r: Result<(&[u8], CHUNK), DecodeError>) -> Result<(Seq<u8>, CHUNK), DecodeError> {
    match r {
        Ok((rest, c)) => Ok((rest@, c)),
        Err(e) => Err(e),
    }
}

/// What a parser for one kind of chunk owes on `s`: the chunk `c` of `size`
/// bytes when the tag matches and the bytes are all there.
pub open spec fn expect_chunk(s: Seq<u8>, tag_matches: bool, size: nat, c: CHUNK) -> Result<(Seq<u8>, CHUNK), DecodeError> {
    if s.len() == 0 {
        Err(DecodeError::Truncated)
    } else if !tag_matches {
        Err(DecodeError::UnknownChunkTag)
    } else if s.len() < size {
        Err(DecodeError::Truncated)
    } else {
        Ok((s.skip(size as int), c))
    }
}

/// The next chunk of the stream `s` and the bytes after it.
pub open spec fn next_chunk(s: Seq<u8>) -> Result<(Seq<u8>, CHUNK), DecodeError> {
    if s.len() == 0 || s.len() < chunk_size(s[0]) {
        Err(DecodeError::Truncated)
    } else {
        Ok((s.skip(chunk_size(s[0]) as int), chunk_of(s)))
    }
}

/// Parses an RGB chunk: its tag byte, then red, green and blue.
pub fn parse_rgb(input: &[u8]) -> (r: Result<(&[u8], CHUNK), DecodeError>)
    ensures
        parse_view(r) == expect_chunk(
            input@,
            input@.len() > 0 && input@[0] == QOI_OP_RGB_HEADER,
            4,
            rgb_of(input@),
        ),
{
    if input.len() == 0 {
        return Err(DecodeError::Truncated);
    }
    if input[0] != QOI_OP_RGB_HEADER {
        return Err(DecodeError::UnknownChunkTag);
    }
    if input.len() < 4 {
        return Err(DecodeError::Truncated);
    }
    let chunk = CHUNK::RGBChunk(RGBChunk { r: input[1], g: input[2], b: input[3] });
    Ok((slice_subrange(input, 4, input.len()), chunk))
}

/// Parses an RGBA chunk: its tag byte, then red, green, blue and alpha.
pub fn parse_rgba(input: &[u8]) -> (r: Result<(&[u8], CHUNK), DecodeError>)
    ensures
        parse_view(r) == expect_chunk(
            input@,
            input@.len() > 0 && input@[0] == QOI_OP_RGBA_HEADER,
            5,
            rgba_of(input@),
        ),
{
    if input.len() == 0 {
        return Err(DecodeError::Truncated);
    }
    if input[0] != QOI_OP_RGBA_HEADER {
        return Err(DecodeError::UnknownChunkTag);
    }
    if input.len() < 5 {
        return Err(DecodeError::Truncated);
    }
    let chunk = CHUNK::RGBAChunk(RGBAChunk { r: input[1], g: input[2], b: input[3], a: input[4] });
    Ok((slice_subrange(input, 5, input.len()), chunk))
}

/// The two leading bits of `b`, most significant bit first.
fn leading_tag(b: u8) -> (r: u8)
    ensures
        r == tag2(b),
        r < 4,
{
    assert(b >> 6u8 == b / 64 && b / 64 < 4) by (bit_vector);
    b >> 6
}

/// The six low bits of `b`.
fn low6(b: u8) -> (r: u8)
    ensures
        r == b % 64,
{
    assert(b & 0x3fu8 == b % 64) by (bit_vector);
    b & 0x3f
}

/// Parses a cache reference: tag `00`, then a six-bit index.
pub fn parse_index(input: &[u8]) -> (r: Result<(&[u8], CHUNK), DecodeError>)
    ensures
        parse_view(r) == expect_chunk(
            input@,
            input@.len() > 0 && tag2(input@[0]) == QOI_OP_INDEX_HEADER,
            1,
            index_of(input@),
        ),
{
    if input.len() == 0 {
        return Err(DecodeError::Truncated);
    }
    let b = input[0];
    if leading_tag(b) != QOI_OP_INDEX_HEADER {
        return Err(DecodeError::UnknownChunkTag);
    }
    let chunk = CHUNK::IndexChunk(IndexChunk { index: low6(b) });
    Ok((slice_subrange(input, 1, input.len()), chunk))
}

/// Parses a small difference: tag `01`, then three two-bit fields.
pub fn parse_diff(input: &[u8]) -> (r: Result<(&[u8], CHUNK), DecodeError>)
    ensures
        parse_view(r) == expect_chunk(
            input@,
            input@.len() > 0 && tag2(input@[0]) == QOI_OP_DIFF_HEADER,
            1,
            diff_of(input@),
        ),
{
    if input.len() == 0 {
        return Err(DecodeError::Truncated);
    }
    let b = input[0];
    if leading_tag(b) != QOI_OP_DIFF_HEADER {
        return Err(DecodeError::UnknownChunkTag);
    }
    let dr = (b >> 4) & 0b11;
    let dg = (b >> 2) & 0b11;
    let db = b & 0b11;
    assert(dr == (b / 16) % 4 && dg == (b / 4) % 4 && db == b % 4) by (bit_vector)
        requires
            dr == (b >> 4u8) & 3u8,
            dg == (b >> 2u8) & 3u8,
            db == b & 3u8,
    ;
    let chunk = CHUNK::DiffChunk(DiffChunk { dr, dg, db });
    Ok((slice_subrange(input, 1, input.len()), chunk))
}

/// Parses a green-relative difference: tag `10` and a six-bit green
/// difference, then two four-bit fields in the second byte.
pub fn parse_luma(input: &[u8]) -> (r: Result<(&[u8], CHUNK), DecodeError>)
    ensures
        parse_view(r) == expect_chunk(
            input@,
            input@.len() > 0 && tag2(input@[0]) == QOI_OP_LUMA_HEADER,
            2,
            luma_of(input@),
        ),
{
    if input.len() == 0 {
        return Err(DecodeError::Truncated);
    }
    let b0 = input[0];
    if leading_tag(b0) != QOI_OP_LUMA_HEADER {
        return Err(DecodeError::UnknownChunkTag);
    }
    if input.len() < 2 {
        return Err(DecodeError::Truncated);
    }
    let b1 = input[1];
    let dg = low6(b0);
    let dr_dg = b1 >> 4;
    let db_dg = b1 & 0x0f;
    assert(dr_dg == b1 / 16 && db_dg == b1 % 16) by (bit_vector)
        requires
            dr_dg == b1 >> 4u8,
            db_dg == b1 & 15u8,
    ;
    let chunk = CHUNK::LumaChunk(LumaChunk { dg, dr_dg, db_dg });
    Ok((slice_subrange(input, 2, input.len()), chunk))
}

/// Parses a run: tag `11`, then the six-bit run length less one.
pub fn parse_run(input: &[u8]) -> (r: Result<(&[u8], CHUNK), DecodeError>)
    ensures
        parse_view(r) == expect_chunk(
            input@,
            input@.len() > 0 && tag2(input@[0]) == QOI_OP_RUN_HEADER,
            1,
            run_of(input@),
        ),
{
    if input.len() == 0 {
        return Err(DecodeError::Truncated);
    }
    let b = input[0];
    if leading_tag(b) != QOI_OP_RUN_HEADER {
        return Err(DecodeError::UnknownChunkTag);
    }
    let chunk = CHUNK::RunChunk(RunChunk { run: low6(b) });
    Ok((slice_subrange(input, 1, input.len()), chunk))
}

/// Parses the next chunk of the stream. The full-byte tags are tried
/// before the two-bit ones, since a run's tag and length can also be all ones.
pub fn parse_chunks(input: &[u8]) -> (r: Result<(&[u8], CHUNK), DecodeError>)
    ensures
        parse_view(r) == next_chunk(input@),
        r is Ok ==> chunk_wf(r->Ok_0.1),
{
    if input.len() == 0 {
        return Err(DecodeError::Truncated);
    }
    let b = input[0];
    proof {
        assert(b % 64 < 64 && (b / 16) % 4 < 4 && (b / 4) % 4 < 4 && b % 4 < 4);
    }
    if b == QOI_OP_RGB_HEADER {
        parse_rgb(input)
    } else if b == QOI_OP_RGBA_HEADER {
        parse_rgba(input)
    } else {
        let t = leading_tag(b);
        if t == QOI_OP_INDEX_HEADER {
            parse_index(input)
        } else if t == QOI_OP_DIFF_HEADER {
            parse_diff(input)
        } else if t == QOI_OP_LUMA_HEADER {
            proof {
                if input@.len() >= 2 {
                    let b1 = input@[1];
                    assert(b1 / 16 < 16 && b1 % 16 < 16);
                }
            }
            parse_luma(input)
        } else {
            parse_run(input)
        }
    }
}

/// The whole stream `s` read as chunks, front to back; `Truncated` when the
/// bytes end inside a chunk.
pub open spec fn chunks_of(s: Seq<u8>) -> Result<Seq<CHUNK>, DecodeError>
    decreases s.len(),
{
    if s.len() == 0 {
        Ok(Seq::empty())
    } else if s.len() < chunk_size(s[0]) {
        Err(DecodeError::Truncated)
    } else {
        match chunks_of(s.skip(chunk_size(s[0]) as int)) {
            Ok(cs) => Ok(seq![chunk_of(s)] + cs),
            Err(e) => Err(e),
        }
    }
}

/// `done` followed by the chunks of `r`, or the error of `r`.
pub open spec fn prepend_chunks(done: Seq<CHUNK>, r: Result<Seq<CHUNK>, DecodeError>) -> Result<Seq<CHUNK>, DecodeError> {
    match r {
        Ok(cs) => Ok(done + cs),
        Err(e) => Err(e),
    }
}

/// A stream that breaks off inside a chunk fails with `Truncated`: a valid
/// stream `good`, followed by the first `k` bytes of a chunk `c` that is
/// longer than `k`, never parses.
pub proof fn lemma_truncated_chunk(good: Seq<u8>, c: Seq<u8>, k: int)
    requires
        chunks_of(good) is Ok,
        0 < k < c.len(),
        c.len() == chunk_size(c[0]),
    ensures
        chunks_of(good + c.take(k)) == Err::<Seq<CHUNK>, DecodeError>(DecodeError::Truncated),
    decreases good.len(),
{
    let s = good + c.take(k);
    if good.len() == 0 {
        assert(s =~= c.take(k));
    } else {
        let n = chunk_size(good[0]) as int;
        assert(s[0] == good[0]);
        assert(s.skip(n) =~= good.skip(n) + c.take(k));
        lemma_truncated_chunk(good.skip(n), c, k);
    }
}

/// Reads the whole stream as chunks, failing with `Truncated` when it ends
/// inside a chunk.
pub fn parse_all_chunks(input: &[u8]) -> (r: Result<Vec<CHUNK>, DecodeError>)
    ensures
        match r {
            Ok(cs) => chunks_of(input@) == Ok::<Seq<CHUNK>, DecodeError>(cs@),
            Err(e) => chunks_of(input@) == Err::<Seq<CHUNK>, DecodeError>(e),
        },
{
    let mut rest: &[u8] = input;
    let mut out: Vec<CHUNK> = Vec::new();
    while rest.len() > 0
        invariant
            chunks_of(input@) == prepend_chunks(out@, chunks_of(rest@)),
        decreases rest@.len(),
    {
        match parse_chunks(rest) {
            Ok((next, c)) => {
                proof {
                    let tail = chunks_of(next@);
                    if tail is Ok {
                        assert(out@ + (seq![c] + tail->Ok_0) =~= out@.push(c) + tail->Ok_0);
                    }
                }
                out.push(c);
                rest = next;
            },
            Err(e) => {
                return Err(e);
            },
        }
    }
    proof {
        assert(out@ + Seq::<CHUNK>::empty() =~= out@);
    }
    Ok(out)
}

/// Number of bytes of the end marker.
pub const END_MARKER_SIZE: usize = 8;

/// The eight bytes that close a stream: seven zeros and a one.
pub open spec fn end_marker() -> Seq<u8> {
    seq![0u8, 0u8, 0u8, 0u8, 0u8, 0u8, 0u8, 1u8]
}

/// The chunks of a stream up to its end: the end of the bytes, or the end
/// marker where exactly it remains at a chunk boundary.
pub open spec fn stream_chunks_of(s: Seq<u8>) -> Result<Seq<CHUNK>, DecodeError>
    decreases s.len(),
{
    if s.len() == 0 || s == end_marker() {
        Ok(Seq::empty())
    } else if s.len() < chunk_size(s[0]) {
        Err(DecodeError::Truncated)
    } else {
        match stream_chunks_of(s.skip(chunk_size(s[0]) as int)) {
            Ok(cs) => Ok(seq![chunk_of(s)] + cs),
            Err(e) => Err(e),
        }
    }
}

/// Whether `rest` is exactly the end marker.
fn is_end_marker(rest: &[u8]) -> (r: bool)
    ensures
        r == (rest@ == end_marker()),
{
    let marker: [u8; 8] = [0, 0, 0, 0, 0, 0, 0, 1];
    if rest.len() != END_MARKER_SIZE {
        return false;
    }
    let mut i: usize = 0;
    while i < END_MARKER_SIZE
        invariant
            i <= END_MARKER_SIZE,
            rest@.len() == END_MARKER_SIZE,
            marker@ == end_marker(),
            forall|j: int| 0 <= j < i ==> rest@[j] == #[trigger] end_marker()[j],
        decreases END_MARKER_SIZE - i,
    {
        if rest[i] != marker[i] {
            return false;
        }
        i = i + 1;
    }
    assert(rest@ =~= end_marker());
    true
}

/// Reads the chunks of a stream up to the end of the bytes or up to an end
/// marker that stands at a chunk boundary; `Truncated` when the bytes end
/// inside a chunk.
pub fn parse_stream_chunks(input: &[u8]) -> (r: Result<Vec<CHUNK>, DecodeError>)
    ensures
        match r {
            Ok(cs) => stream_chunks_of(input@) == Ok::<Seq<CHUNK>, DecodeError>(cs@),
            Err(e) => stream_chunks_of(input@) == Err::<Seq<CHUNK>, DecodeError>(e),
        },
{
    let mut rest: &[u8] = input;
    let mut out: Vec<CHUNK> = Vec::new();
    while rest.len() > 0 && !is_end_marker(rest)
        invariant
            stream_chunks_of(input@) == prepend_chunks(out@, stream_chunks_of(rest@)),
        decreases rest@.len(),
    {
        match parse_chunks(rest) {
            Ok((next, c)) => {
                proof {
                    let tail = stream_chunks_of(next@);
                    if tail is Ok {
                        assert(out@ + (seq![c] + tail->Ok_0) =~= out@.push(c) + tail->Ok_0);
                    }
                }
                out.push(c);
                rest = next;
            },
            Err(e) => {
                return Err(e);
            },
        }
    }
    proof {
        assert(out@ + Seq::<CHUNK>::empty() =~= out@);
    }
    Ok(out)
}

/// Every chunk read from a stream up to its end marker has its fields in range.
pub proof fn lemma_stream_chunks_wf(s: Seq<u8>)
    requires
        stream_chunks_of(s) is Ok,
    ensures
        forall|i: int|
            0 <= i < stream_chunks_of(s)->Ok_0.len() ==> chunk_wf(
                #[trigger] stream_chunks_of(s)->Ok_0[i],
            ),
    decreases s.len(),
{
    if s.len() > 0 && s != end_marker() {
        let b = s[0];
        let rest = s.skip(chunk_size(b) as int);
        lemma_stream_chunks_wf(rest);
        assert(b % 64 < 64 && (b / 16) % 4 < 4 && (b / 4) % 4 < 4 && b % 4 < 4);
        if tag2(b) == QOI_OP_LUMA_HEADER && b != QOI_OP_RGB_HEADER && b != QOI_OP_RGBA_HEADER {
            assert(s[1] / 16 < 16 && s[1] % 16 < 16);
        }
        assert(chunk_wf(chunk_of(s)));
        let cs = stream_chunks_of(s)->Ok_0;
        assert forall|i: int| 0 <= i < cs.len() implies chunk_wf(#[trigger] cs[i]) by {
            if i > 0 {
                assert(cs[i] == stream_chunks_of(rest)->Ok_0[i - 1]);
            }
        }
    }
}

/// A stream that breaks off inside a chunk fails with `Truncated` also where
/// the end marker is recognised: the bytes of a cut chunk never make the
/// marker, since every byte of the marker starts a one-byte chunk.
pub proof fn lemma_truncated_stream(good: Seq<u8>, c: Seq<u8>, k: int)
    requires
        chunks_of(good) is Ok,
        0 < k < c.len(),
        c.len() == chunk_size(c[0]),
    ensures
        stream_chunks_of(good + c.take(k)) == Err::<Seq<CHUNK>, DecodeError>(DecodeError::Truncated),
    decreases good.len(),
{
    let s = good + c.take(k);
    assert(s[s.len() - k] == c[0]);
    if s == end_marker() {
        assert(end_marker()[s.len() - k] == 0 || end_marker()[s.len() - k] == 1);
        assert(false);
    }
    if good.len() == 0 {
        assert(s =~= c.take(k));
    } else {
        let n = chunk_size(good[0]) as int;
        assert(s[0] == good[0]);
        assert(s.skip(n) =~= good.skip(n) + c.take(k));
        lemma_truncated_stream(good.skip(n), c, k);
    }
}

} // verus!
