use vstd::prelude::*;

use crate::chunks::{
    chunk_wf, lemma_stream_chunks_wf, parse_stream_chunks, stream_chunks_of, RunChunk, CHUNK,
};
use crate::error::DecodeError;
use crate::header::{header_result, parse_header, QOIHeader};
use crate::pixel::{
    hash, hash_of, lemma_wrap_shift, lemma_wrapping_add_u8, lemma_wrapping_sub_u8, wrap, RgbaPixel,
    CACHE_SIZE,
};

verus! {

/// Bias of each channel difference of a diff chunk.
pub const DIFF_BIAS: u8 = 2;
/// Bias of the green difference of a luma chunk.
pub const LUMA_DG_BIAS: u8 = 32;
/// Bias of the red and blue differences of a luma chunk, taken relative to green.
pub const LUMA_DR_DB_BIAS: u8 = 8;
/// Bias of a run's stored length.
pub const RUN_BIAS: u8 = 1;

/// The decoded image: `width * height` pixels in row-major order.
pub struct PixelGrid {
    pub width: u32,
    pub height: u32,
    pub pixels: Vec<RgbaPixel>,
}

impl PixelGrid {
    /// The grid holds exactly one pixel per position.
    pub open spec fn wf(&self) -> bool {
        self.pixels@.len() == self.width * self.height
    }

    /// The pixel in row `row`, column `col`.
    pub open spec fn pixel_at(&self, row: int, col: int) -> RgbaPixel {
        self.pixels@[row * self.width + col]
    }
}

/// The previous pixel at the start of every decode.
pub open spec fn initial_pixel() -> RgbaPixel {
    RgbaPixel { r: 0, g: 0, b: 0, a: 255 }
}

/// The color cache at the start of every decode: 64 zero pixels.
pub open spec fn empty_cache() -> Seq<RgbaPixel> {
    Seq::new(CACHE_SIZE as nat, |i: int| RgbaPixel { r: 0, g: 0, b: 0, a: 0 })
}

/// The pixel that a chunk other than a run produces from the previous pixel
/// and the cache; a run repeats the previous pixel.
pub open spec fn produced(prev: RgbaPixel, cache: Seq<RgbaPixel>, c: CHUNK) -> RgbaPixel {
    match c {
        CHUNK::RGBChunk(x) => RgbaPixel { r: x.r, g: x.g, b: x.b, a: prev.a },
        CHUNK::RGBAChunk(x) => RgbaPixel { r: x.r, g: x.g, b: x.b, a: x.a },
        CHUNK::IndexChunk(x) => cache[x.index as int],
        CHUNK::DiffChunk(d) => RgbaPixel {
            r: wrap(prev.r + d.dr - DIFF_BIAS),
            g: wrap(prev.g + d.dg - DIFF_BIAS),
            b: wrap(prev.b + d.db - DIFF_BIAS),
            a: prev.a,
        },
        CHUNK::LumaChunk(l) => RgbaPixel {
            r: wrap(prev.r + (l.dg - LUMA_DG_BIAS) + (l.dr_dg - LUMA_DR_DB_BIAS)),
            g: wrap(prev.g + (l.dg - LUMA_DG_BIAS)),
            b: wrap(prev.b + (l.dg - LUMA_DG_BIAS) + (l.db_dg - LUMA_DR_DB_BIAS)),
            a: prev.a,
        },
        CHUNK::RunChunk(_) => prev,
    }
}

/// Number of pixels of a run, the stored length plus one, wrapping at 256.
pub open spec fn run_length(run: u8) -> nat {
    wrap(run + RUN_BIAS) as nat
}

/// The chunk stores its pixel in the cache: all but index and run chunks do.
pub open spec fn updates_cache(c: CHUNK) -> bool {
    !(c is IndexChunk || c is RunChunk)
}

/// The pixels that chunk `c` writes.
pub open spec fn written(prev: RgbaPixel, cache: Seq<RgbaPixel>, c: CHUNK) -> Seq<RgbaPixel> {
    match c {
        CHUNK::RunChunk(x) => Seq::new(run_length(x.run), |i: int| prev),
        _ => seq![produced(prev, cache, c)],
    }
}

/// The state of a decode: previous pixel, cache, and the pixels written so far.
pub struct ReplayState {
    pub prev: RgbaPixel,
    pub cache: Seq<RgbaPixel>,
    pub out: Seq<RgbaPixel>,
}

pub open spec fn initial_state() -> ReplayState {
    ReplayState { prev: initial_pixel(), cache: empty_cache(), out: Seq::empty() }
}

/// The effect of one chunk on the state of a decode.
pub open spec fn step(st: ReplayState, c: CHUNK) -> ReplayState {
    let p = produced(st.prev, st.cache, c);
    ReplayState {
        prev: p,
        cache: if updates_cache(c) {
            st.cache.update(hash_of(p) as int, p)
        } else {
            st.cache
        },
        out: st.out + written(st.prev, st.cache, c),
    }
}

/// The state after the chunks `cs`, applied in order.
pub open spec fn replay(cs: Seq<CHUNK>) -> ReplayState
    decreases cs.len(),
{
    if cs.len() == 0 {
        initial_state()
    } else {
        step(replay(cs.drop_last()), cs.last())
    }
}

/// Number of pixels of an image with header dimensions `width` and `height`.
pub open spec fn pixel_count(width: u32, height: u32) -> int {
    width * height
}

/// The pixels that the chunks `cs` make of a `width` by `height` image.
pub open spec fn reconstruct_result(width: u32, height: u32, cs: Seq<CHUNK>) -> Result<Seq<RgbaPixel>, DecodeError> {
    let out = replay(cs).out;
    if out.len() > pixel_count(width, height) {
        Err(DecodeError::BufferOverrun)
    } else if out.len() < pixel_count(width, height) {
        Err(DecodeError::IncompleteImage)
    } else {
        Ok(out)
    }
}

/// Replaying a prefix of the chunks writes a prefix of the pixels.
pub proof fn lemma_replay_prefix(cs: Seq<CHUNK>, j: int)
    requires
        0 <= j <= cs.len(),
    ensures
        replay(cs.take(j)).out.len() <= replay(cs).out.len(),
        replay(cs.take(j)).out =~= replay(cs).out.take(replay(cs.take(j)).out.len() as int),
    decreases cs.len(),
{
    if j == cs.len() {
        assert(cs.take(j) =~= cs);
    } else {
        assert(cs.drop_last().take(j) =~= cs.take(j));
        lemma_replay_prefix(cs.drop_last(), j);
    }
}

proof fn lemma_pixel_count_fits(width: u32, height: u32)
    ensures
        0 <= pixel_count(width, height) <= u64::MAX,
{
    let (w, h) = (width as int, height as int);
    assert(0 <= w * h <= 0xffff_ffff * 0xffff_ffff) by (nonlinear_arith)
        requires
            0 <= w <= 0xffff_ffff,
            0 <= h <= 0xffff_ffff,
    ;
}

/// The pixel produced by a chunk other than a run.
fn produce(prev: RgbaPixel, cache: &Vec<RgbaPixel>, chunk: &CHUNK) -> (r: RgbaPixel)
    requires
        chunk_wf(*chunk),
        cache@.len() == CACHE_SIZE,
    ensures
        r == produced(prev, cache@, *chunk),
{
    match chunk {
        CHUNK::RGBChunk(x) => RgbaPixel { r: x.r, g: x.g, b: x.b, a: prev.a },
        CHUNK::RGBAChunk(x) => RgbaPixel { r: x.r, g: x.g, b: x.b, a: x.a },
        CHUNK::IndexChunk(x) => cache[x.index as usize],
        CHUNK::DiffChunk(d) => {
            let r = prev.r.wrapping_add(d.dr).wrapping_sub(DIFF_BIAS);
            let g = prev.g.wrapping_add(d.dg).wrapping_sub(DIFF_BIAS);
            let b = prev.b.wrapping_add(d.db).wrapping_sub(DIFF_BIAS);
            proof {
                lemma_diff_channel(prev.r, d.dr);
                lemma_diff_channel(prev.g, d.dg);
                lemma_diff_channel(prev.b, d.db);
            }
            RgbaPixel { r, g, b, a: prev.a }
        },
        CHUNK::LumaChunk(l) => {
            let dg = l.dg.wrapping_sub(LUMA_DG_BIAS);
            let dr_dg = l.dr_dg.wrapping_sub(LUMA_DR_DB_BIAS);
            let db_dg = l.db_dg.wrapping_sub(LUMA_DR_DB_BIAS);
            let g = dg.wrapping_add(prev.g);
            let r = dr_dg.wrapping_add(prev.r).wrapping_add(dg);
            let b = db_dg.wrapping_add(prev.b).wrapping_add(dg);
            proof {
                lemma_wrapping_sub_u8(l.dg, LUMA_DG_BIAS);
                lemma_wrapping_sub_u8(l.dr_dg, LUMA_DR_DB_BIAS);
                lemma_wrapping_sub_u8(l.db_dg, LUMA_DR_DB_BIAS);
                let xg = l.dg - LUMA_DG_BIAS;
                lemma_wrapping_add_u8(dg, prev.g);
                lemma_wrap_shift(xg, prev.g as int);
                lemma_luma_channel(prev.r, xg, l.dr_dg - LUMA_DR_DB_BIAS, dr_dg, dg);
                lemma_luma_channel(prev.b, xg, l.db_dg - LUMA_DR_DB_BIAS, db_dg, dg);
            }
            RgbaPixel { r, g, b, a: prev.a }
        },
        CHUNK::RunChunk(_) => prev,
    }
}

proof fn lemma_diff_channel(p: u8, d: u8)
    ensures
        p.wrapping_add(d).wrapping_sub(DIFF_BIAS) == wrap(p + d - DIFF_BIAS),
{
    lemma_wrapping_add_u8(p, d);
    lemma_wrapping_sub_u8(p.wrapping_add(d), DIFF_BIAS);
    lemma_wrap_shift(p + d, -(DIFF_BIAS as int));
}

proof fn lemma_luma_channel(p: u8, xg: int, xc: int, dc: u8, dg: u8)
    requires
        dc == wrap(xc),
        dg == wrap(xg),
    ensures
        dc.wrapping_add(p).wrapping_add(dg) == wrap(p + xg + xc),
{
    lemma_wrapping_add_u8(dc, p);
    lemma_wrap_shift(xc, p as int);
    lemma_wrapping_add_u8(dc.wrapping_add(p), dg);
    lemma_wrap_shift(xc + p, dg as int);
    lemma_wrap_shift(xg, xc + p);
}

/// Replays `chunks` in order into a `header.width` by `header.height` grid.
/// Fails with `BufferOverrun` as soon as a pixel would fall beyond the grid,
/// and with `IncompleteImage` when the chunks end before the grid is full.
pub fn reconstruct(header: &QOIHeader, chunks: &[CHUNK]) -> (r: Result<PixelGrid, DecodeError>)
    requires
        forall|i: int| 0 <= i < chunks@.len() ==> chunk_wf(#[trigger] chunks@[i]),
    ensures
        match r {
            Ok(g) => {
                &&& reconstruct_result(header.width, header.height, chunks@) == Ok::<Seq<RgbaPixel>, DecodeError>(g.pixels@)
                &&& g.width == header.width
                &&& g.height == header.height
                &&& g.wf()
            },
            Err(e) => reconstruct_result(header.width, header.height, chunks@) == Err::<Seq<RgbaPixel>, DecodeError>(e),
        },
{
    proof {
        lemma_pixel_count_fits(header.width, header.height);
    }
    let total: u64 = header.width as u64 * header.height as u64;
    let mut prev = RgbaPixel { r: 0, g: 0, b: 0, a: 255 };
    let mut cache: Vec<RgbaPixel> = Vec::new();
    while cache.len() < CACHE_SIZE
        invariant
            cache@.len() <= CACHE_SIZE,
            forall|j: int| 0 <= j < cache@.len() ==> #[trigger] cache@[j] == empty_cache()[j],
        decreases CACHE_SIZE - cache@.len(),
    {
        cache.push(RgbaPixel { r: 0, g: 0, b: 0, a: 0 });
    }
    let mut pixels: Vec<RgbaPixel> = Vec::new();
    proof {
        assert(cache@ =~= empty_cache());
        assert(chunks@.take(0) =~= Seq::<CHUNK>::empty());
    }
    let mut i: usize = 0;
    while i < chunks.len()
        invariant
            i <= chunks@.len(),
            total == pixel_count(header.width, header.height),
            forall|j: int| 0 <= j < chunks@.len() ==> chunk_wf(#[trigger] chunks@[j]),
            replay(chunks@.take(i as int)) == (ReplayState { prev, cache: cache@, out: pixels@ }),
            cache@.len() == CACHE_SIZE,
            pixels@.len() <= total,
        decreases chunks@.len() - i,
    {
        let chunk = &chunks[i];
        proof {
            assert(chunks@.take(i + 1).drop_last() =~= chunks@.take(i as int));
            assert(chunks@.take(i + 1).last() == chunks@[i as int]);
            lemma_replay_prefix(chunks@, i + 1);
        }
        let ghost st = replay(chunks@.take(i as int));
        let ghost next = replay(chunks@.take(i + 1));
        assert(next == step(st, *chunk));
        match chunk {
            CHUNK::RunChunk(x) => {
                let n = x.run.wrapping_add(RUN_BIAS);
                proof {
                    lemma_wrapping_add_u8(x.run, RUN_BIAS);
                }
                let ghost start = pixels@;
                let mut k: u8 = 0;
                while k < n
                    invariant
                        k <= n,
                        n == run_length(x.run),
                        pixels@ =~= start + Seq::new(k as nat, |j: int| prev),
                        pixels@.len() <= total,
                        total == pixel_count(header.width, header.height),
                        next == step(st, *chunk),
                        st.out == start,
                        st.prev == prev,
                        *chunk == CHUNK::RunChunk(*x),
                        next.out.len() <= replay(chunks@).out.len(),
                    decreases n - k,
                {
                    if pixels.len() as u64 >= total {
                        assert(next.out.len() == start.len() + n);
                        return Err(DecodeError::BufferOverrun);
                    }
                    pixels.push(prev);
                    k = k + 1;
                }
                assert(written(st.prev, st.cache, *chunk) =~= Seq::new(k as nat, |j: int| prev));
                assert(next.out =~= pixels@);
            },
            _ => {
                let p = produce(prev, &cache, chunk);
                if pixels.len() as u64 >= total {
                    assert(next.out.len() == pixels@.len() + 1);
                    return Err(DecodeError::BufferOverrun);
                }
                pixels.push(p);
                match chunk {
                    CHUNK::IndexChunk(_) => {},
                    _ => {
                        let slot = hash(&p);
                        cache.set(slot as usize, p);
                    },
                }
                prev = p;
                assert(next.out =~= pixels@);
            },
        }
        i = i + 1;
    }
    proof {
        assert(chunks@.take(i as int) =~= chunks@);
    }
    if (pixels.len() as u64) < total {
        return Err(DecodeError::IncompleteImage);
    }
    Ok(PixelGrid { width: header.width, height: header.height, pixels })
}

/// The header and the pixels that the whole byte stream `s` decodes to.
pub open spec fn decode_result(s: Seq<u8>) -> Result<(QOIHeader, Seq<RgbaPixel>), DecodeError> {
    match header_result(s) {
        Err(e) => Err(e),
        Ok((rest, h)) => match stream_chunks_of(rest) {
            Err(e) => Err(e),
            Ok(cs) => match reconstruct_result(h.width, h.height, cs) {
                Err(e) => Err(e),
                Ok(px) => Ok((h, px)),
            },
        },
    }
}

/// Decodes a whole stream: the header, then the chunks up to the end marker
/// or the end of the bytes,
/// replayed into the pixel grid.
pub fn decode_image(input: &[u8]) -> (r: Result<PixelGrid, DecodeError>)
    ensures
        match r {
            Ok(g) => {
                &&& decode_result(input@) matches Ok((h, px))
                &&& g.width == h.width
                &&& g.height == h.height
                &&& g.pixels@ == px
                &&& g.wf()
            },
            Err(e) => decode_result(input@) == Err::<(QOIHeader, Seq<RgbaPixel>), DecodeError>(e),
        },
{
    let (rest, header) = match parse_header(input) {
        Ok(v) => v,
        Err(e) => {
            return Err(e);
        },
    };
    let chunks = match parse_stream_chunks(rest) {
        Ok(cs) => cs,
        Err(e) => {
            return Err(e);
        },
    };
    proof {
        lemma_stream_chunks_wf(rest@);
    }
    reconstruct(&header, chunks.as_slice())
}

impl PixelGrid {
    /// The pixel in row `row`, column `col`; position `row * width + col` of
    /// the row-major pixel sequence.
    pub fn get(&self, row: u32, col: u32) -> (r: RgbaPixel)
        requires
            self.wf(),
            row < self.height,
            col < self.width,
        ensures
            r == self.pixel_at(row as int, col as int),
    {
        proof {
            lemma_pixel_count_fits(self.width, self.height);
            let (w, h, y, x) = (self.width as int, self.height as int, row as int, col as int);
            assert(0 <= y * w && y * w + x < w * h) by (nonlinear_arith)
                requires
                    0 <= y < h,
                    0 <= x < w,
            ;
        }
        let n = self.pixels.len();
        let pos = row as u64 * self.width as u64 + col as u64;
        assert(pos < n);
        self.pixels[pos as usize]
    }
}

/// A successful reconstruction writes exactly `width * height` pixels;
/// more fail with `BufferOverrun`, fewer with `IncompleteImage`.
pub proof fn lemma_reconstruct_exact_count(width: u32, height: u32, cs: Seq<CHUNK>)
    ensures
        reconstruct_result(width, height, cs) is Ok
            <==> replay(cs).out.len() == pixel_count(width, height),
        reconstruct_result(width, height, cs) is Ok
            ==> reconstruct_result(width, height, cs)->Ok_0.len() == pixel_count(width, height),
        replay(cs).out.len() > pixel_count(width, height)
            ==> reconstruct_result(width, height, cs) == Err::<Seq<RgbaPixel>, DecodeError>(DecodeError::BufferOverrun),
        replay(cs).out.len() < pixel_count(width, height)
            ==> reconstruct_result(width, height, cs) == Err::<Seq<RgbaPixel>, DecodeError>(DecodeError::IncompleteImage),
{
}

/// Decoding is a function of the bytes alone: equal streams decode to
/// equal headers and equal grids, or fail with the same error.
pub proof fn lemma_decode_deterministic(a: Seq<u8>, b: Seq<u8>)
    requires
        a == b,
    ensures
        decode_result(a) == decode_result(b),
{
}

/// A run chunk writes its stored length plus one copies of the previous
/// pixel, and leaves the previous pixel and the cache as they were.
pub proof fn lemma_run_expansion(st: ReplayState, run: u8)
    requires
        run < 64,
    ensures
        ({
            let next = step(st, CHUNK::RunChunk(RunChunk { run }));
            &&& next.out.len() == st.out.len() + run + 1
            &&& next.out.take(st.out.len() as int) == st.out
            &&& forall|i: int| st.out.len() <= i < next.out.len() ==> #[trigger] next.out[i] == st.prev
            &&& next.prev == st.prev
            &&& next.cache == st.cache
        }),
{
    let next = step(st, CHUNK::RunChunk(RunChunk { run }));
    assert(run_length(run) == run + 1);
    assert(next.out.take(st.out.len() as int) =~= st.out);
}

/// Inserting a run after the chunks `a` adds its copies of the pixel before
/// it right after the pixels of `a`, and changes nothing else: the chunks `b`
/// that follow write what they wrote without it, and leave the same previous
/// pixel and cache.
pub proof fn lemma_run_insertion(a: Seq<CHUNK>, run: u8, b: Seq<CHUNK>)
    requires
        run < 64,
    ensures
        ({
            let with_run = replay(a + seq![CHUNK::RunChunk(RunChunk { run })] + b);
            let without = replay(a + b);
            let before = replay(a);
            &&& with_run.prev == without.prev
            &&& with_run.cache == without.cache
            &&& with_run.out == before.out + Seq::new((run + 1) as nat, |i: int| before.prev)
                + without.out.skip(before.out.len() as int)
        }),
    decreases b.len(),
{
    let r = CHUNK::RunChunk(RunChunk { run });
    let before = replay(a);
    let len = before.out.len() as int;
    assert((a + b).take(a.len() as int) =~= a);
    lemma_replay_prefix(a + b, a.len() as int);
    assert(run_length(run) == run + 1);
    if b.len() == 0 {
        assert((a + seq![r] + b).drop_last() =~= a);
        assert(a + b =~= a);
        assert(replay(a).out.skip(len) =~= Seq::<RgbaPixel>::empty());
        assert(replay(a + seq![r] + b).out =~= before.out + Seq::new((run + 1) as nat, |i: int| before.prev)
            + replay(a + b).out.skip(len));
    } else {
        let b2 = b.drop_last();
        let c = b.last();
        lemma_run_insertion(a, run, b2);
        assert((a + seq![r] + b).drop_last() =~= a + seq![r] + b2);
        assert((a + b).drop_last() =~= a + b2);
        assert((a + b2).take(a.len() as int) =~= a);
        lemma_replay_prefix(a + b2, a.len() as int);
        let with2 = replay(a + seq![r] + b2);
        let without2 = replay(a + b2);
        assert(replay(a + seq![r] + b) == step(with2, c));
        assert(replay(a + b) == step(without2, c));
        let w = written(without2.prev, without2.cache, c);
        assert(replay(a + b).out.skip(len) =~= without2.out.skip(len) + w);
        assert(replay(a + seq![r] + b).out =~= before.out + Seq::new((run + 1) as nat, |i: int| before.prev)
            + replay(a + b).out.skip(len));
    }
}

} // verus!
