//! Integer pixel work of the renderers: backend selection, box-filtered
//! halving, premultiplication, row copies between a frame and a scratch
//! buffer, and the glyph atlas allocators.

use vstd::prelude::*;
use vstd::std_specs::cmp::PartialEqSpec;
use crate::theme::{Color, trim_end, trim_start, eq_ignore_ascii_case, trim_range, caseless_matches};

verus! {

/// Which renderer turns a window's display lists into pixels.
#[derive(Clone, Copy, Debug, PartialEq, Eq, Structural)]
pub enum RenderBackend {
    /// Draw on the GPU (the default), falling back to the CPU when no
    /// usable adapter exists.
    Gpu,
    /// Rasterize damaged regions on the CPU and present them without any
    /// GPU device.
    Cpu,
}

impl Default for RenderBackend {
    fn default() -> (r: Self)
        ensures
            r == RenderBackend::Gpu,
    {
        RenderBackend::Gpu
    }
}

/// The backend an override value names: `gpu` or `cpu`, ignoring
/// surrounding whitespace and ASCII case.
pub open spec fn backend_named(text: Seq<char>) -> Option<RenderBackend> {
    let t = trim_end(trim_start(text));
    if eq_ignore_ascii_case(t, seq!['g', 'p', 'u']) {
        Some(RenderBackend::Gpu)
    } else if eq_ignore_ascii_case(t, seq!['c', 'p', 'u']) {
        Some(RenderBackend::Cpu)
    } else {
        None
    }
}

impl RenderBackend {
    /// Reads an override value: `gpu` or `cpu`, case-insensitive.
    pub fn from_env_str(s: &str) -> (r: Option<RenderBackend>)
        ensures
            r == backend_named(s@),
    {
        let (lo, hi) = trim_range(s);
        let gpu = ['g', 'p', 'u'];
        let cpu = ['c', 'p', 'u'];
        assert(gpu@ =~= seq!['g', 'p', 'u']);
        assert(cpu@ =~= seq!['c', 'p', 'u']);
        if caseless_matches(s, lo, hi, &gpu) {
            Some(RenderBackend::Gpu)
        } else if caseless_matches(s, lo, hi, &cpu) {
            Some(RenderBackend::Cpu)
        } else {
            None
        }
    }

    /// The backend to use: the override value (the text of
    /// `CUI_OVERRIDE_RENDER_BACKEND`, if set) when it names one, else the
    /// requested backend; an unrecognized override is ignored.
    pub fn resolve(requested: RenderBackend, override_value: Option<&str>) -> (r: RenderBackend)
        ensures
            r == match override_value {
                Some(text) => match backend_named(text@) {
                    Some(b) => b,
                    None => requested,
                },
                None => requested,
            },
    {
        match override_value {
            Some(text) => match RenderBackend::from_env_str(text) {
                Some(b) => b,
                None => requested,
            },
            None => requested,
        }
    }
}

/// The smaller of two integers.
pub open spec fn min_int(a: int, b: int) -> int {
    if a < b { a } else { b }
}

/// Channel `c` of output pixel (`x`, `y`) when halving a `width` x
/// `height` RGBA image: the rounded mean of the 2x2 source block, edge
/// pixels repeated where the block runs past the last row or column.
pub open spec fn box_sample(width: int, height: int, pixels: Seq<u8>, x: int, y: int, c: int) -> int {
    let stride = width * 4;
    let r0 = min_int(2 * y, height - 1) * stride;
    let r1 = min_int(2 * y + 1, height - 1) * stride;
    let c0 = min_int(2 * x, width - 1) * 4;
    let c1 = min_int(2 * x + 1, width - 1) * 4;
    (pixels[r0 + c0 + c] + pixels[r0 + c1 + c] + pixels[r1 + c0 + c] + pixels[r1 + c1 + c] + 2) / 4
}

/// Half of a dimension, but at least one.
pub open spec fn half_dim(n: u32) -> u32 {
    if n / 2 > 0 { (n / 2) as u32 } else { 1 }
}

proof fn lemma_sample_in_bounds(width: int, height: int, x: int, y: int, c: int)
    requires
        width > 0,
        height > 0,
        0 <= x,
        0 <= y,
        0 <= c < 4,
    ensures
        ({
            let stride = width * 4;
            let r = min_int(2 * y + 1, height - 1) * stride;
            let q = min_int(2 * y, height - 1) * stride;
            let k = min_int(2 * x + 1, width - 1) * 4;
            let j = min_int(2 * x, width - 1) * 4;
            &&& 0 <= q + j + c
            &&& q + j + c < width * height * 4
            &&& 0 <= q + k + c
            &&& q + k + c < width * height * 4
            &&& 0 <= r + j + c
            &&& r + j + c < width * height * 4
            &&& 0 <= r + k + c
            &&& r + k + c < width * height * 4
        }),
{
    let stride = width * 4;
    let ry = min_int(2 * y + 1, height - 1);
    let qy = min_int(2 * y, height - 1);
    let kx = min_int(2 * x + 1, width - 1);
    let jx = min_int(2 * x, width - 1);
    assert(0 <= ry * stride <= (height - 1) * stride) by (nonlinear_arith)
        requires 0 <= ry <= height - 1, stride > 0;
    assert(0 <= qy * stride <= (height - 1) * stride) by (nonlinear_arith)
        requires 0 <= qy <= height - 1, stride > 0;
    assert((height - 1) * stride + stride == width * height * 4) by (nonlinear_arith)
        requires stride == width * 4;
}

/// Box-filters premultiplied RGBA pixels down to half size (each side
/// halved, but at least one pixel).
pub fn halve(width: u32, height: u32, pixels: &[u8]) -> (r: (u32, u32, Vec<u8>))
    requires
        width > 0,
        height > 0,
        width as int * height as int * 4 <= pixels@.len(),
    ensures
        r.0 == half_dim(width),
        r.1 == half_dim(height),
        r.2@.len() == r.0 as int * r.1 as int * 4,
        forall|k: int, c: int| 0 <= k < r.0 as int * r.1 as int && 0 <= c < 4
            ==> #[trigger] r.2@[4 * k + c] == box_sample(width as int, height as int, pixels@, k % r.0 as int, k / r.0 as int, c),
{
    let w: u32 = if width / 2 > 0 { width / 2 } else { 1 };
    let h: u32 = if height / 2 > 0 { height / 2 } else { 1 };
    let wu = w as usize;
    let hu = h as usize;
    let widthu = width as usize;
    let heightu = height as usize;
    assert(wu * hu <= widthu * heightu) by (nonlinear_arith)
        requires 1 <= wu <= widthu, 1 <= hu <= heightu;
    assert(widthu * heightu * 4 <= pixels@.len());
    let plen = pixels.len();
    assert(plen == pixels@.len());
    let n = wu * hu;
    let mut out: Vec<u8> = Vec::new();
    let mut k: usize = 0;
    while k < n
        invariant
            widthu == width as usize,
            heightu == height as usize,
            wu == w as usize,
            hu == h as usize,
            w == half_dim(width),
            h == half_dim(height),
            width > 0,
            height > 0,
            n == wu * hu,
            wu * hu <= widthu * heightu,
            widthu * heightu * 4 <= pixels@.len(),
            pixels@.len() <= usize::MAX,
            k <= n,
            out@.len() == 4 * k,
            forall|j: int, c: int| 0 <= j < k && 0 <= c < 4
                ==> #[trigger] out@[4 * j + c] == box_sample(width as int, height as int, pixels@, j % wu as int, j / wu as int, c),
        decreases n - k,
    {
        let x = k % wu;
        let y = k / wu;
        assert(2 * y < usize::MAX && 2 * x < usize::MAX) by (nonlinear_arith)
            requires y == k / wu, x == k % wu, k < wu * hu, wu >= 1, wu * hu <= widthu * heightu, widthu * heightu * 4 <= pixels@.len(), pixels@.len() <= usize::MAX;
        assert(widthu * 4 <= widthu * heightu * 4) by (nonlinear_arith)
            requires heightu >= 1;
        let stride = widthu * 4;
        let y0 = if 2 * y < heightu - 1 { 2 * y } else { heightu - 1 };
        let y1 = if 2 * y + 1 < heightu - 1 { 2 * y + 1 } else { heightu - 1 };
        assert(y0 * stride <= widthu * heightu * 4 && y1 * stride <= widthu * heightu * 4) by (nonlinear_arith)
            requires y0 <= heightu - 1, y1 <= heightu - 1, stride == widthu * 4, heightu >= 1;
        let r0 = y0 * stride;
        let r1 = y1 * stride;
        let c0 = (if 2 * x < widthu - 1 { 2 * x } else { widthu - 1 }) * 4;
        let c1 = (if 2 * x + 1 < widthu - 1 { 2 * x + 1 } else { widthu - 1 }) * 4;
        let ghost before = out@;
        let mut c: usize = 0;
        while c < 4
            invariant
                c <= 4,
                0 <= c0 + c1,
                out@.len() == 4 * k + c,
                out@.subrange(0, 4 * k) == before,
                forall|j: int| 0 <= j < c ==> #[trigger] out@[4 * k + j] == box_sample(width as int, height as int, pixels@, x as int, y as int, j),
                widthu == width as usize,
                heightu == height as usize,
                width > 0,
                height > 0,
                stride == widthu * 4,
                r0 == min_int(2 * y, heightu - 1) * stride,
                r1 == min_int(2 * y + 1, heightu - 1) * stride,
                c0 == min_int(2 * x, widthu - 1) * 4,
                c1 == min_int(2 * x + 1, widthu - 1) * 4,
                widthu * heightu * 4 <= pixels@.len(),
                pixels@.len() <= usize::MAX,
            decreases 4 - c,
        {
            proof { lemma_sample_in_bounds(width as int, height as int, x as int, y as int, c as int); }
            let sum: u32 = pixels[r0 + c0 + c] as u32 + pixels[r0 + c1 + c] as u32 + pixels[r1 + c0 + c] as u32
                + pixels[r1 + c1 + c] as u32;
            out.push(((sum + 2) / 4) as u8);
            proof {
                assert forall|j: int| 0 <= j < c + 1 implies #[trigger] out@[4 * k + j] == box_sample(width as int, height as int, pixels@, x as int, y as int, j) by {
                    if j < c {
                        assert(out@[4 * k + j] == out@.drop_last()[4 * k + j]);
                    }
                }
                assert(out@.subrange(0, 4 * k) =~= out@.drop_last().subrange(0, 4 * k));
            }
            c = c + 1;
        }
        proof {
            assert forall|j: int, cc: int| 0 <= j < k + 1 && 0 <= cc < 4
                implies #[trigger] out@[4 * j + cc] == box_sample(width as int, height as int, pixels@, j % wu as int, j / wu as int, cc) by {
                if j < k {
                    assert(out@[4 * j + cc] == out@.subrange(0, 4 * k)[4 * j + cc]);
                    assert(before[4 * j + cc] == box_sample(width as int, height as int, pixels@, j % wu as int, j / wu as int, cc));
                }
            }
        }
        k = k + 1;
    }
    (w, h, out)
}

/// `channel` scaled by `alpha / 255`, rounded to nearest, as a byte.
pub open spec fn scaled(channel: u8, alpha: u32) -> u8 {
    ((channel * alpha + 127) / 255) as u8
}

/// Scales `channel` by `alpha / 255`, rounding to nearest (the result
/// wraps to a byte when `alpha` exceeds 255).
pub fn mul(channel: u8, alpha: u32) -> (r: u8)
    requires
        channel * alpha + 127 <= u32::MAX,
    ensures
        r == scaled(channel, alpha),
{
    ((channel as u32 * alpha + 127) / 255) as u8
}

/// A colour's premultiplied RGBA bytes.
pub fn premultiply(color: Color) -> (r: [u8; 4])
    ensures
        r@ == seq![scaled(color.r, color.a as u32), scaled(color.g, color.a as u32), scaled(color.b, color.a as u32), color.a],
{
    let a = color.a as u32;
    assert(color.r * a + 127 <= u32::MAX) by (nonlinear_arith) requires color.r <= 255, a <= 255;
    assert(color.g * a + 127 <= u32::MAX) by (nonlinear_arith) requires color.g <= 255, a <= 255;
    assert(color.b * a + 127 <= u32::MAX) by (nonlinear_arith) requires color.b <= 255, a <= 255;
    let r = [self::mul(color.r, a), self::mul(color.g, a), self::mul(color.b, a), color.a];
    assert(r@ =~= seq![scaled(color.r, color.a as u32), scaled(color.g, color.a as u32), scaled(color.b, color.a as u32), color.a]);
    r
}

/// Premultiplied alpha never exceeds its alpha: every channel scaled by
/// `alpha / 255` is at most `alpha`.
pub proof fn lemma_scaled_at_most_alpha(channel: u8, alpha: u8)
    ensures
        scaled(channel, alpha as u32) <= alpha,
{
    assert((channel * alpha + 127) / 255 <= alpha) by (nonlinear_arith)
        requires channel <= 255, alpha <= 255;
}

/// `dst` with the `len` bytes of `src` from `from` on written at `at`.
pub open spec fn write_run(dst: Seq<u8>, at: int, src: Seq<u8>, from: int, len: int) -> Seq<u8> {
    Seq::new(dst.len(), |i: int| if at <= i < at + len { src[from + i - at] } else { dst[i] })
}

/// Byte offset in the frame of row `row` of the `w`-pixel-wide region at
/// (`x0`, `y0`).
pub open spec fn frame_offset(frame_width: int, x0: int, y0: int, row: int) -> int {
    ((y0 + row) * frame_width + x0) * 4
}

/// The scratch buffer after the first `rows` rows of the region were
/// copied into it, row `r` going to offset `r * w * 4`.
pub open spec fn rows_to_scratch(
    frame: Seq<u8>,
    scratch: Seq<u8>,
    frame_width: int,
    w: int,
    x0: int,
    y0: int,
    rows: nat,
) -> Seq<u8>
    decreases rows,
{
    if rows == 0 {
        scratch
    } else {
        let r = rows - 1;
        write_run(
            rows_to_scratch(frame, scratch, frame_width, w, x0, y0, r as nat),
            r * w * 4,
            frame,
            frame_offset(frame_width, x0, y0, r),
            w * 4,
        )
    }
}

/// The frame after the first `rows` rows of the region were copied back
/// from the scratch buffer, in row order.
pub open spec fn rows_to_frame(
    frame: Seq<u8>,
    scratch: Seq<u8>,
    frame_width: int,
    w: int,
    x0: int,
    y0: int,
    rows: nat,
) -> Seq<u8>
    decreases rows,
{
    if rows == 0 {
        frame
    } else {
        let r = rows - 1;
        write_run(
            rows_to_frame(frame, scratch, frame_width, w, x0, y0, r as nat),
            frame_offset(frame_width, x0, y0, r),
            scratch,
            r * w * 4,
            w * 4,
        )
    }
}

/// Copies the `w` x `h` pixel region at (`x0`, `y0`) of a frame
/// `frame_width` pixels wide into the packed scratch buffer, or back when
/// `into_scratch` is false, one row at a time.
pub fn copy_rows(
    frame: &mut [u8],
    frame_width: usize,
    scratch: &mut [u8],
    w: usize,
    x0: usize,
    y0: usize,
    h: usize,
    into_scratch: bool,
)
    requires
        h == 0 || y0 + h - 1 <= usize::MAX,
        h == 0 || frame_offset(frame_width as int, x0 as int, y0 as int, h - 1) + w * 4 <= old(frame)@.len(),
        h * w * 4 <= old(scratch)@.len(),
    ensures
        into_scratch ==> final(frame)@ == old(frame)@ && final(scratch)@ == rows_to_scratch(
            old(frame)@, old(scratch)@, frame_width as int, w as int, x0 as int, y0 as int, h as nat),
        !into_scratch ==> final(scratch)@ == old(scratch)@ && final(frame)@ == rows_to_frame(
            old(frame)@, old(scratch)@, frame_width as int, w as int, x0 as int, y0 as int, h as nat),
{
    let flen = frame.len();
    let slen = scratch.len();
    let ghost frame0 = frame@;
    let ghost scratch0 = scratch@;
    let mut row: usize = 0;
    while row < h
        invariant
            flen == frame@.len(),
            slen == scratch@.len(),
            frame0.len() == flen,
            scratch0.len() == slen,
            row <= h,
            h == 0 || y0 + h - 1 <= usize::MAX,
            h == 0 || frame_offset(frame_width as int, x0 as int, y0 as int, h - 1) + w * 4 <= flen,
            h * w * 4 <= slen,
            into_scratch ==> frame@ == frame0 && scratch@ == rows_to_scratch(
                frame0, scratch0, frame_width as int, w as int, x0 as int, y0 as int, row as nat),
            !into_scratch ==> scratch@ == scratch0 && frame@ == rows_to_frame(
                frame0, scratch0, frame_width as int, w as int, x0 as int, y0 as int, row as nat),
        decreases h - row,
    {
        assert(frame_offset(frame_width as int, x0 as int, y0 as int, row as int)
            <= frame_offset(frame_width as int, x0 as int, y0 as int, h - 1)) by (nonlinear_arith)
            requires row <= h - 1, frame_width >= 0;
        assert(row * w * 4 + w * 4 <= h * w * 4) by (nonlinear_arith)
            requires row + 1 <= h;
        assert(0 <= row * w * 4) by (nonlinear_arith);
        assert(0 <= frame_offset(frame_width as int, x0 as int, y0 as int, row as int)) by (nonlinear_arith)
            requires frame_width >= 0, x0 >= 0, y0 >= 0, row >= 0;
        let yr = y0 + row;
        assert(yr * frame_width + x0 <= frame_offset(frame_width as int, x0 as int, y0 as int, row as int)) by (nonlinear_arith)
            requires yr == y0 + row, frame_width >= 0, x0 >= 0;
        assert(yr * frame_width <= yr * frame_width + x0);
        let src = (yr * frame_width + x0) * 4;
        let dst = row * w * 4;
        let n = w * 4;
        let ghost start_frame = frame@;
        let ghost start_scratch = scratch@;
        let mut i: usize = 0;
        while i < n
            invariant
                flen == frame@.len(),
                slen == scratch@.len(),
                i <= n,
                n == w * 4,
                src + n <= flen,
                dst + n <= slen,
                into_scratch ==> frame@ == start_frame && scratch@ == write_run(start_scratch, dst as int, start_frame, src as int, i as int),
                !into_scratch ==> scratch@ == start_scratch && frame@ == write_run(start_frame, src as int, start_scratch, dst as int, i as int),
                start_frame.len() == flen,
                start_scratch.len() == slen,
            decreases n - i,
        {
            if into_scratch {
                let v = frame[src + i];
                scratch[dst + i] = v;
                assert(scratch@ =~= write_run(start_scratch, dst as int, start_frame, src as int, i + 1));
            } else {
                let v = scratch[dst + i];
                frame[src + i] = v;
                assert(frame@ =~= write_run(start_frame, src as int, start_scratch, dst as int, i + 1));
            }
            i = i + 1;
        }
        proof {
            if into_scratch {
                assert(frame0 == start_frame);
            } else {
                assert(scratch0 == start_scratch);
            }
        }
        row = row + 1;
    }
}

/// One row of a shelf-packed atlas: it starts at `y`, is `height` texels
/// tall and is filled from the left up to `x`.
#[derive(Clone, Copy, Debug, PartialEq, Eq, Structural)]
pub struct Shelf {
    pub y: u32,
    pub height: u32,
    pub x: u32,
}

/// A region handed out by a [`ShelfAllocator`], glyph padding included:
/// `(x, y, width, height)`.
pub type Region = (int, int, int, int);

/// Whether two regions share no texel.
pub open spec fn disjoint(a: Region, b: Region) -> bool {
    a.0 + a.2 <= b.0 || b.0 + b.2 <= a.0 || a.1 + a.3 <= b.1 || b.1 + b.3 <= a.1
}

/// Whether shelf `s` can take a padded `w` x `h` glyph: tall enough, at
/// most half again as tall, and with room left in an atlas of side `size`.
pub open spec fn shelf_fits(s: Shelf, w: int, h: int, size: int) -> bool {
    &&& s.height >= h
    &&& s.height <= h + h / 2
    &&& s.x + w <= size
}

/// Among the first `n` shelves, the first of the lowest ones that fit.
pub open spec fn best_shelf(shelves: Seq<Shelf>, w: int, h: int, size: int, n: int) -> Option<int>
    decreases n,
{
    if n <= 0 {
        None
    } else {
        let best = best_shelf(shelves, w, h, size, n - 1);
        if shelf_fits(shelves[n - 1], w, h, size) && (best is None || shelves[n - 1].height < shelves[best->0].height) {
            Some(n - 1)
        } else {
            best
        }
    }
}

proof fn lemma_best_shelf(shelves: Seq<Shelf>, w: int, h: int, size: int, n: int)
    requires
        0 <= n <= shelves.len(),
    ensures
        best_shelf(shelves, w, h, size, n) matches Some(k) ==> {
            &&& 0 <= k < n
            &&& shelf_fits(shelves[k], w, h, size)
            &&& forall|j: int| 0 <= j < n && shelf_fits(shelves[j], w, h, size) ==> shelves[k].height <= #[trigger] shelves[j].height
        },
        best_shelf(shelves, w, h, size, n) is None ==> forall|j: int| 0 <= j < n ==> !shelf_fits(#[trigger] shelves[j], w, h, size),
    decreases n,
{
    if n > 0 {
        lemma_best_shelf(shelves, w, h, size, n - 1);
    }
}

/// Where the next shelf starts: below the last one.
pub open spec fn next_shelf_y(shelves: Seq<Shelf>) -> int {
    if shelves.len() == 0 { 0 } else { shelves.last().y + shelves.last().height }
}

/// Where a shelf allocator with `shelves`, in a square of side `size`,
/// puts a `width` x `height` glyph padded by one texel, and its shelves
/// afterwards: on the best shelf with room, else on a new shelf below the
/// last, else nowhere.
pub open spec fn allocation(shelves: Seq<Shelf>, size: int, width: u32, height: u32) -> (Option<[u32; 2]>, Seq<Shelf>) {
    let w = width + 1;
    let h = height + 1;
    if w > size || h > size {
        (None, shelves)
    } else if best_shelf(shelves, w, h, size, shelves.len() as int) is Some {
        let k = best_shelf(shelves, w, h, size, shelves.len() as int)->0;
        (Some([shelves[k].x, shelves[k].y]), shelves.update(k, Shelf { x: (shelves[k].x + w) as u32, ..shelves[k] }))
    } else if next_shelf_y(shelves) + h <= size {
        (Some([0u32, next_shelf_y(shelves) as u32]),
            shelves.push(Shelf { y: next_shelf_y(shelves) as u32, height: h as u32, x: w as u32 }))
    } else {
        (None, shelves)
    }
}

/// Shelves of an atlas of side `size`: stacked from the top without gaps,
/// each at least one texel tall and filled no further than the edge.
#[verifier::opaque]
pub open spec fn shelves_valid(size: int, sh: Seq<Shelf>) -> bool {
    &&& size <= 0x7fff_ffff
    &&& forall|i: int| 0 <= i < sh.len() ==> (#[trigger] sh[i]).x <= size && sh[i].height >= 1
    &&& sh.len() > 0 ==> sh[0].y == 0
    &&& forall|i: int| 0 < i < sh.len() ==> #[trigger] sh[i].y == sh[i - 1].y + sh[i - 1].height
    &&& forall|i: int, j: int| 0 <= i < j < sh.len() ==> #[trigger] sh[i].y + sh[i].height <= #[trigger] sh[j].y
    &&& next_shelf_y(sh) <= size
}

/// Region `r` lies on shelf `k`, left of its fill mark.
pub open spec fn on_shelf(sh: Seq<Shelf>, r: Region, k: int) -> bool {
    &&& 0 <= k < sh.len()
    &&& r.1 == sh[k].y
    &&& r.0 >= 0
    &&& r.0 + r.2 <= sh[k].x
    &&& 1 <= r.2
    &&& 1 <= r.3 <= sh[k].height
}

/// Region `r` lies on some shelf.
pub open spec fn placed(sh: Seq<Shelf>, r: Region) -> bool {
    exists|k: int| #[trigger] on_shelf(sh, r, k)
}

/// Every region lies on some shelf, and no two overlap.
#[verifier::opaque]
pub open spec fn regions_valid(sh: Seq<Shelf>, g: Seq<Region>) -> bool {
    &&& forall|r: int| 0 <= r < g.len() ==> placed(sh, #[trigger] g[r])
    &&& forall|a: int, b: int| 0 <= a < b < g.len() ==> disjoint(#[trigger] g[a], #[trigger] g[b])
}

/// Placing a glyph at the fill mark of a shelf that fits it keeps the
/// shelves valid and the regions disjoint.
proof fn lemma_place_on_shelf(size: int, sh: Seq<Shelf>, g: Seq<Region>, k: int, w: int, h: int)
    requires
        shelves_valid(size, sh),
        regions_valid(sh, g),
        0 <= k < sh.len(),
        shelf_fits(sh[k], w, h, size),
        1 <= w,
        1 <= h,
    ensures
        shelves_valid(size, sh.update(k, Shelf { x: (sh[k].x + w) as u32, ..sh[k] })),
        regions_valid(sh.update(k, Shelf { x: (sh[k].x + w) as u32, ..sh[k] }), g.push((sh[k].x as int, sh[k].y as int, w, h))),
{
    reveal(shelves_valid);
    reveal(regions_valid);
    let nsh = sh.update(k, Shelf { x: (sh[k].x + w) as u32, ..sh[k] });
    let region: Region = (sh[k].x as int, sh[k].y as int, w, h);
    let ng = g.push(region);
    assert forall|r: int| 0 <= r < g.len() implies disjoint(#[trigger] g[r], region) by {
        let j = choose|j: int| #[trigger] on_shelf(sh, g[r], j);
        if j < k {
            assert(sh[j].y + sh[j].height <= sh[k].y);
        } else if j > k {
            assert(sh[k].y + sh[k].height <= sh[j].y);
        }
    }
    assert forall|r: int| 0 <= r < ng.len() implies placed(nsh, #[trigger] ng[r]) by {
        if r < g.len() {
            let j = choose|j: int| #[trigger] on_shelf(sh, g[r], j);
            assert(on_shelf(nsh, ng[r], j));
        } else {
            assert(on_shelf(nsh, ng[r], k));
        }
    }
    assert forall|a: int, b: int| 0 <= a < b < ng.len() implies disjoint(#[trigger] ng[a], #[trigger] ng[b]) by {
        if b == g.len() {
            assert(ng[a] == g[a]);
        } else {
            assert(ng[a] == g[a] && ng[b] == g[b]);
        }
    }
    assert forall|i: int, j: int| 0 <= i < j < nsh.len() implies #[trigger] nsh[i].y + nsh[i].height <= #[trigger] nsh[j].y by {
        assert(sh[i].y + sh[i].height <= sh[j].y);
    }
    assert forall|i: int| 0 < i < nsh.len() implies #[trigger] nsh[i].y == nsh[i - 1].y + nsh[i - 1].height by {
        assert(sh[i].y == sh[i - 1].y + sh[i - 1].height);
    }
}

/// Opening a shelf below the last one for a glyph keeps the shelves valid
/// and the regions disjoint.
proof fn lemma_open_shelf(size: int, sh: Seq<Shelf>, g: Seq<Region>, w: int, h: int)
    requires
        shelves_valid(size, sh),
        regions_valid(sh, g),
        1 <= w <= size,
        1 <= h,
        next_shelf_y(sh) + h <= size,
    ensures
        shelves_valid(size, sh.push(Shelf { y: next_shelf_y(sh) as u32, height: h as u32, x: w as u32 })),
        regions_valid(sh.push(Shelf { y: next_shelf_y(sh) as u32, height: h as u32, x: w as u32 }),
            g.push((0, next_shelf_y(sh), w, h))),
{
    reveal(shelves_valid);
    reveal(regions_valid);
    let y = next_shelf_y(sh);
    let n = sh.len() as int;
    let nsh = sh.push(Shelf { y: y as u32, height: h as u32, x: w as u32 });
    let region: Region = (0, y, w, h);
    let ng = g.push(region);
    assert forall|r: int| 0 <= r < g.len() implies disjoint(#[trigger] g[r], region) by {
        let j = choose|j: int| #[trigger] on_shelf(sh, g[r], j);
        if j < n - 1 {
            assert(sh[j].y + sh[j].height <= sh[n - 1].y);
        }
    }
    assert forall|r: int| 0 <= r < ng.len() implies placed(nsh, #[trigger] ng[r]) by {
        if r < g.len() {
            let j = choose|j: int| #[trigger] on_shelf(sh, g[r], j);
            assert(on_shelf(nsh, ng[r], j));
        } else {
            assert(on_shelf(nsh, ng[r], n));
        }
    }
    assert forall|a: int, b: int| 0 <= a < b < ng.len() implies disjoint(#[trigger] ng[a], #[trigger] ng[b]) by {
        if b == g.len() {
            assert(ng[a] == g[a]);
        } else {
            assert(ng[a] == g[a] && ng[b] == g[b]);
        }
    }
    assert forall|i: int, j: int| 0 <= i < j < nsh.len() implies #[trigger] nsh[i].y + nsh[i].height <= #[trigger] nsh[j].y by {
        if j == n {
            if i < n - 1 {
                assert(sh[i].y + sh[i].height <= sh[n - 1].y);
            }
        } else {
            assert(sh[i].y + sh[i].height <= sh[j].y);
        }
    }
    assert forall|i: int| 0 < i < nsh.len() implies #[trigger] nsh[i].y == nsh[i - 1].y + nsh[i - 1].height by {
        if i < n {
            assert(sh[i].y == sh[i - 1].y + sh[i - 1].height);
        }
    }
}

/// No two of the regions `g` overlap, and each lies inside an atlas of
/// side `size`.
pub open spec fn packed_regions(size: int, g: Seq<Region>) -> bool {
    &&& forall|a: int, b: int| 0 <= a < b < g.len() ==> disjoint(#[trigger] g[a], #[trigger] g[b])
    &&& forall|a: int| 0 <= a < g.len() ==> {
        let r = #[trigger] g[a];
        0 <= r.0 && r.0 + r.2 <= size && 0 <= r.1 && r.1 + r.3 <= size
    }
}

/// Valid shelves and regions are packed.
proof fn lemma_regions_inside(size: int, sh: Seq<Shelf>, g: Seq<Region>)
    requires
        shelves_valid(size, sh),
        regions_valid(sh, g),
    ensures
        packed_regions(size, g),
{
    reveal(shelves_valid);
    reveal(regions_valid);
    assert forall|a: int| 0 <= a < g.len() implies {
        let r = #[trigger] g[a];
        0 <= r.0 && r.0 + r.2 <= size && 0 <= r.1 && r.1 + r.3 <= size
    } by {
        let k = choose|k: int| #[trigger] on_shelf(sh, g[a], k);
        if k < sh.len() - 1 {
            assert(sh[k].y + sh[k].height <= sh[sh.len() - 1].y);
        }
    }
}

proof fn lemma_shelves_bounded(size: int, sh: Seq<Shelf>)
    requires
        shelves_valid(size, sh),
    ensures
        size <= 0x7fff_ffff,
        next_shelf_y(sh) <= size,
{
    reveal(shelves_valid);
}

/// The first of the lowest shelves that fit a padded `w` x `h` glyph.
fn find_shelf(shelves: &Vec<Shelf>, w: u32, h: u32, size: u32) -> (r: Option<usize>)
    requires
        shelves_valid(size as int, shelves@),
        w <= size,
        h <= size,
    ensures
        r matches Some(k) ==> best_shelf(shelves@, w as int, h as int, size as int, shelves@.len() as int) == Some(k as int),
        r is None ==> best_shelf(shelves@, w as int, h as int, size as int, shelves@.len() as int) is None,
{
    reveal(shelves_valid);
    let ghost sh = shelves@;
    let mut best: Option<usize> = None;
    let mut i: usize = 0;
    while i < shelves.len()
        invariant
            sh == shelves@,
            shelves_valid(size as int, sh),
            w <= size,
            h <= size,
            i <= sh.len(),
            best matches Some(k) ==> best_shelf(sh, w as int, h as int, size as int, i as int) == Some(k as int),
            best is None ==> best_shelf(sh, w as int, h as int, size as int, i as int) is None,
            best matches Some(k) ==> k < i,
        decreases sh.len() - i,
    {
        proof { reveal(shelves_valid); }
        let s = shelves[i];
        let fits = s.height >= h && s.height <= h + h / 2 && s.x + w <= size;
        let better = match best {
            None => true,
            Some(k) => s.height < shelves[k].height,
        };
        proof {
            lemma_best_shelf(sh, w as int, h as int, size as int, i as int);
            assert(fits == shelf_fits(sh[i as int], w as int, h as int, size as int));
        }
        if fits && better {
            best = Some(i);
        }
        i = i + 1;
    }
    best
}

/// Packs glyph bitmaps into a square atlas in shelves, each glyph padded by
/// one texel on the right and bottom. A glyph goes on the lowest shelf
/// that fits it (the first such, on a tie) and is at most half again as
/// tall; otherwise a new shelf opens below the last.
pub struct ShelfAllocator {
    size: u32,
    shelves: Vec<Shelf>,
    given: Ghost<Seq<Region>>,
}

impl ShelfAllocator {
    pub closed spec fn side(&self) -> u32 {
        self.size
    }

    pub closed spec fn shelves(&self) -> Seq<Shelf> {
        self.shelves@
    }

    /// Every region handed out so far, padding included.
    pub closed spec fn regions(&self) -> Seq<Region> {
        self.given@
    }

    #[verifier::type_invariant]
    spec fn inv(&self) -> bool {
        shelves_valid(self.size as int, self.shelves@) && regions_valid(self.shelves@, self.given@)
    }

    /// No two regions overlap, and each lies inside the atlas.
    pub open spec fn packed(&self) -> bool {
        packed_regions(self.side() as int, self.regions())
    }

    /// An empty atlas of side `size`.
    pub fn new(size: u32) -> (r: Self)
        requires
            size <= 0x7fff_ffff,
        ensures
            r.side() == size,
            r.shelves() == Seq::<Shelf>::empty(),
            r.regions() == Seq::<Region>::empty(),
            r.packed(),
    {
        proof {
            reveal(shelves_valid);
            reveal(regions_valid);
        }
        ShelfAllocator { size, shelves: Vec::new(), given: Ghost(Seq::empty()) }
    }

    /// Finds room for a `width` x `height` glyph, returning its top-left
    /// corner, or `None` when the atlas is full.
    pub fn allocate(&mut self, width: u32, height: u32) -> (r: Option<[u32; 2]>)
        requires
            width < u32::MAX,
            height < u32::MAX,
        ensures
            final(self).side() == old(self).side(),
            ({
                let w = width + 1;
                let h = height + 1;
                let size = old(self).side() as int;
                let sh = old(self).shelves();
                if w > size || h > size {
                    r is None && final(self).shelves() == sh
                } else if best_shelf(sh, w, h, size, sh.len() as int) is Some {
                    let k = best_shelf(sh, w, h, size, sh.len() as int)->0;
                    &&& r == Some([sh[k].x, sh[k].y])
                    &&& final(self).shelves() == sh.update(k, Shelf { x: (sh[k].x + w) as u32, ..sh[k] })
                } else if next_shelf_y(sh) + h <= size {
                    &&& r == Some([0u32, next_shelf_y(sh) as u32])
                    &&& final(self).shelves() == sh.push(Shelf { y: next_shelf_y(sh) as u32, height: h as u32, x: w as u32 })
                } else {
                    r is None && final(self).shelves() == sh
                }
            }),
            r matches Some(at) ==> final(self).regions() == old(self).regions().push((at[0] as int, at[1] as int, width + 1, height + 1)),
            r is None ==> final(self).regions() == old(self).regions(),
            final(self).packed(),
    {
        proof {
            use_type_invariant(&*self);
            lemma_regions_inside(self.size as int, self.shelves@, self.given@);
            lemma_shelves_bounded(self.size as int, self.shelves@);
        }
        let w = width + 1;
        let h = height + 1;
        if w > self.size || h > self.size {
            return None;
        }
        let mut taken = ShelfAllocator::new(self.size);
        std::mem::swap(&mut taken, self);
        let ShelfAllocator { size, shelves: mut shelves, given } = taken;
        let ghost sh = shelves@;
        proof { lemma_best_shelf(sh, w as int, h as int, size as int, sh.len() as int); }
        match find_shelf(&shelves, w, h, size) {
            Some(k) => {
                let s = shelves[k];
                assert(best_shelf(sh, w as int, h as int, size as int, sh.len() as int) == Some(k as int));
                assert(shelf_fits(sh[k as int], w as int, h as int, size as int));
                proof { lemma_place_on_shelf(size as int, sh, given@, k as int, w as int, h as int); }
                let g = Ghost(given@.push((s.x as int, s.y as int, w as int, h as int)));
                shelves.set(k, Shelf { x: s.x + w, ..s });
                assert(shelves@ =~= sh.update(k as int, Shelf { x: (sh[k as int].x + w) as u32, ..sh[k as int] }));
                proof { lemma_regions_inside(size as int, shelves@, g@); }
                *self = ShelfAllocator { size, shelves, given: g };
                Some([s.x, s.y])
            },
            None => {
                let n = shelves.len();
                let y = if n == 0 { 0 } else { shelves[n - 1].y + shelves[n - 1].height };
                if y + h > size {
                    *self = ShelfAllocator { size, shelves, given };
                    return None;
                }
                proof { lemma_open_shelf(size as int, sh, given@, w as int, h as int); }
                let g = Ghost(given@.push((0int, y as int, w as int, h as int)));
                shelves.push(Shelf { y, height: h, x: w });
                proof { lemma_regions_inside(size as int, shelves@, g@); }
                *self = ShelfAllocator { size, shelves, given: g };
                Some([0, y])
            },
        }
    }
}

/// Where a glyph bitmap sits in an atlas texture.
#[derive(Clone, Copy, Debug, PartialEq, Eq, Structural)]
pub struct AtlasRect {
    pub x: u32,
    pub y: u32,
    pub width: u32,
    pub height: u32,
}

/// Two rects share no texel.
pub open spec fn rects_apart(a: AtlasRect, b: AtlasRect) -> bool {
    ||| a.x + a.width <= b.x
    ||| b.x + b.width <= a.x
    ||| a.y + a.height <= b.y
    ||| b.y + b.height <= a.y
}

/// Every rect of `placed` lies inside a square of side `size`, and no two
/// share a texel.
pub open spec fn rects_packed(placed: Map<u64, AtlasRect>, size: u32) -> bool {
    &&& forall|k: u64| #[trigger] placed.contains_key(k)
        ==> placed[k].x + placed[k].width <= size && placed[k].y + placed[k].height <= size
    &&& forall|k1: u64, k2: u64| #[trigger] placed.contains_key(k1) && #[trigger] placed.contains_key(k2) && k1 != k2
        ==> rects_apart(placed[k1], placed[k2])
}

/// A shelf-packed glyph atlas keyed by glyph: each placed glyph keeps a
/// stable [`AtlasRect`] inside a square of side `size`, so a GPU-side
/// owner uploads it once and refers to it by position afterwards. Glyphs
/// are laid left to right along the current shelf, padded by one texel;
/// a glyph that does not fit the shelf's width opens a new shelf below.
/// Growing forgets every placement rather than moving regions.
pub struct GlyphAtlas {
    size: u32,
    cursor_x: u32,
    cursor_y: u32,
    shelf_height: u32,
    placed: std::collections::HashMap<u64, AtlasRect>,
}

impl GlyphAtlas {
    pub closed spec fn side(&self) -> u32 {
        self.size
    }

    /// The pen: where the next glyph goes on the current shelf, and how
    /// tall that shelf is so far.
    pub closed spec fn pen(&self) -> (u32, u32, u32) {
        (self.cursor_x, self.cursor_y, self.shelf_height)
    }

    /// Every placed glyph's rect, by key.
    pub closed spec fn placements(&self) -> Map<u64, AtlasRect> {
        self.placed@
    }

    /// Rect `r`, padded by one texel, lies above the current shelf or on it
    /// left of the pen.
    spec fn behind_pen(&self, r: AtlasRect) -> bool {
        &&& r.x + r.width + 1 <= self.size
        &&& r.y + r.height + 1 <= self.size
        &&& (r.y + r.height + 1 <= self.cursor_y
            || (r.y == self.cursor_y && r.x + r.width + 1 <= self.cursor_x && r.height + 1 <= self.shelf_height))
    }

    #[verifier::type_invariant]
    spec fn inv(&self) -> bool {
        &&& self.size <= 0x7fff_ffff
        &&& self.cursor_x <= self.size
        &&& self.cursor_y + self.shelf_height <= self.size
        &&& forall|k: u64| #[trigger] self.placed@.contains_key(k) ==> self.behind_pen(self.placed@[k])
        &&& rects_packed(self.placed@, self.size)
    }

    /// An empty atlas of side `size`.
    pub fn new(size: u32) -> (r: Self)
        requires
            size <= 0x7fff_ffff,
        ensures
            r.side() == size,
            r.pen() == (0u32, 0u32, 0u32),
            r.placements() == Map::<u64, AtlasRect>::empty(),
            rects_packed(r.placements(), r.side()),
    {
        GlyphAtlas { size, cursor_x: 0, cursor_y: 0, shelf_height: 0, placed: std::collections::HashMap::new() }
    }

    pub fn size(&self) -> (r: u32)
        ensures
            r == self.side(),
    {
        self.size
    }

    /// The rect of glyph `key`, if it is placed.
    pub fn rect_for(&self, key: u64) -> (r: Option<AtlasRect>)
        ensures
            r == (if self.placements().contains_key(key) { Some(self.placements()[key]) } else { None::<AtlasRect> }),
    {
        broadcast use vstd::std_specs::hash::group_hash_axioms;
        match self.placed.get(&key) {
            Some(rect) => Some(*rect),
            None => None,
        }
    }

    /// Places a `width` x `height` glyph bitmap for `key` and returns its
    /// rect; a glyph already placed keeps its rect. `None` means there is
    /// no room left: grow the atlas and place again.
    pub fn place(&mut self, key: u64, width: u32, height: u32) -> (r: Option<AtlasRect>)
        requires
            width < u32::MAX,
            height < u32::MAX,
        ensures
            final(self).side() == old(self).side(),
            ({
                let (x, y, shelf) = old(self).pen();
                let size = old(self).side();
                let pw = width + 1;
                let ph = height + 1;
                let wraps = x + pw > size;
                let nx: int = if wraps { 0 } else { x as int };
                let ny: int = if wraps { y + shelf } else { y as int };
                let nshelf: int = if wraps { 0 } else { shelf as int };
                if old(self).placements().contains_key(key) {
                    &&& r == Some(old(self).placements()[key])
                    &&& *final(self) == *old(self)
                } else if pw > size || ph > size {
                    &&& r is None
                    &&& *final(self) == *old(self)
                } else if ny + ph > size {
                    &&& r is None
                    &&& final(self).pen() == (nx as u32, ny as u32, nshelf as u32)
                    &&& final(self).placements() == old(self).placements()
                } else {
                    let rect = AtlasRect { x: nx as u32, y: ny as u32, width, height };
                    &&& r == Some(rect)
                    &&& final(self).pen() == ((nx + pw) as u32, ny as u32, (if nshelf > ph { nshelf } else { ph as int }) as u32)
                    &&& final(self).placements() == old(self).placements().insert(key, rect)
                }
            }),
            rects_packed(final(self).placements(), final(self).side()),
    {
        broadcast use vstd::std_specs::hash::group_hash_axioms;
        proof { use_type_invariant(&*self); }
        match self.placed.get(&key) {
            Some(existing) => {
                return Some(*existing);
            },
            None => {},
        }
        let padded_width = width + 1;
        let padded_height = height + 1;
        if padded_width > self.size || padded_height > self.size {
            return None;
        }
        let size = self.size;
        let mut x = self.cursor_x;
        let mut y = self.cursor_y;
        let mut shelf = self.shelf_height;
        if x + padded_width > size {
            y = y + shelf;
            shelf = 0;
            x = 0;
        }
        let ghost old_placed = self.placed@;
        let mut placed = std::collections::HashMap::new();
        std::mem::swap(&mut placed, &mut self.placed);
        if y + padded_height > size {
            proof {
                assert forall|k: u64| #[trigger] placed@.contains_key(k) implies
                    (GlyphAtlas { size, cursor_x: x, cursor_y: y, shelf_height: shelf, placed }).behind_pen(placed@[k]) by {
                    assert(old(self).behind_pen(old_placed[k]));
                }
            }
            *self = GlyphAtlas { size, cursor_x: x, cursor_y: y, shelf_height: shelf, placed };
            return None;
        }
        let rect = AtlasRect { x, y, width, height };
        let next_x = x + padded_width;
        let next_shelf = if padded_height > shelf { padded_height } else { shelf };
        placed.insert(key, rect);
        proof {
            assert forall|k: u64| #[trigger] placed@.contains_key(k) implies
                (GlyphAtlas { size, cursor_x: next_x, cursor_y: y, shelf_height: next_shelf, placed }).behind_pen(placed@[k]) by {
                if k != key {
                    assert(old(self).behind_pen(old_placed[k]));
                }
            }
            assert forall|k1: u64, k2: u64| #[trigger] placed@.contains_key(k1) && #[trigger] placed@.contains_key(k2) && k1 != k2
                implies rects_apart(placed@[k1], placed@[k2]) by {
                if k1 == key {
                    assert(old(self).behind_pen(old_placed[k2]));
                } else if k2 == key {
                    assert(old(self).behind_pen(old_placed[k1]));
                } else {
                    assert(old_placed.contains_key(k1) && old_placed.contains_key(k2));
                }
            }
        }
        *self = GlyphAtlas { size, cursor_x: next_x, cursor_y: y, shelf_height: next_shelf, placed };
        Some(rect)
    }

    /// Doubles the side and forgets every placement.
    pub fn grow(&mut self)
        requires
            old(self).side() <= 0x3fff_ffff,
        ensures
            final(self).side() == 2 * old(self).side(),
            final(self).pen() == (0u32, 0u32, 0u32),
            final(self).placements() == Map::<u64, AtlasRect>::empty(),
            rects_packed(final(self).placements(), final(self).side()),
    {
        proof { use_type_invariant(&*self); }
        let size = self.size * 2;
        *self = GlyphAtlas { size, cursor_x: 0, cursor_y: 0, shelf_height: 0, placed: std::collections::HashMap::new() };
    }
}

/// The slot the `k`-th of a run of inserts takes: freed slots from the
/// most recently freed down, then new slots after the last.
pub open spec fn inserted_slot(free: Seq<u32>, len: nat, k: int) -> u32 {
    if k < free.len() { free[free.len() - 1 - k] } else { (len + (k - free.len())) as u32 }
}

/// A quad instance's slot in a [`SlotStore`] of quads.
#[derive(Clone, Copy, Debug, PartialEq, Eq, Hash, Structural)]
pub struct GpuPrimitiveId(pub u32);

/// A glyph instance's slot in a [`SlotStore`] of glyphs.
#[derive(Clone, Copy, Debug, PartialEq, Eq, Hash, Structural)]
pub struct GlyphPrimitiveId(pub u32);

/// GPU instance data kept in stable slots: removed slots are reused
/// (most recently freed first), and the range of slots written since the
/// last upload is tracked so only that range is uploaded again.
pub struct SlotStore<T> {
    slots: Vec<T>,
    free: Vec<u32>,
    dirty: Option<(u32, u32)>,
    touched: Ghost<Set<int>>,
}

impl<T> SlotStore<T> {
    pub closed spec fn slots(&self) -> Seq<T> {
        self.slots@
    }

    /// Freed slots, the next to be reused last.
    pub closed spec fn free_slots(&self) -> Seq<u32> {
        self.free@
    }

    /// The slots written since the dirty range was last taken.
    pub closed spec fn written(&self) -> Set<int> {
        self.touched@
    }

    /// The range the next upload covers.
    pub closed spec fn dirty_range(&self) -> Option<(u32, u32)> {
        self.dirty
    }

    #[verifier::type_invariant]
    spec fn inv(&self) -> bool {
        &&& self.slots@.len() <= u32::MAX + 1
        &&& forall|i: int| 0 <= i < self.free@.len() ==> #[trigger] self.free@[i] < self.slots@.len()
        &&& self.touched@.finite()
        &&& self.dirty is None <==> self.touched@.is_empty()
        &&& self.dirty matches Some(r) ==> {
            &&& self.touched@.contains(r.0 as int)
            &&& self.touched@.contains(r.1 as int)
            &&& forall|t: int| #[trigger] self.touched@.contains(t) ==> r.0 <= t <= r.1
        }
    }

    /// The dirty range is exactly the tightest range around every slot
    /// written since it was last taken, and every freed slot exists.
    pub open spec fn tracks(&self) -> bool {
        &&& self.dirty_range() is None <==> self.written().is_empty()
        &&& self.dirty_range() matches Some(r) ==> {
            &&& self.written().contains(r.0 as int)
            &&& self.written().contains(r.1 as int)
            &&& forall|t: int| #[trigger] self.written().contains(t) ==> r.0 <= t <= r.1
        }
        &&& forall|i: int| 0 <= i < self.free_slots().len() ==> #[trigger] self.free_slots()[i] < self.slots().len()
    }

    pub fn new() -> (r: Self)
        ensures
            r.slots() == Seq::<T>::empty(),
            r.free_slots() == Seq::<u32>::empty(),
            r.dirty_range() is None,
            r.tracks(),
    {
        SlotStore { slots: Vec::new(), free: Vec::new(), dirty: None, touched: Ghost(Set::empty()) }
    }

    /// `dirty` widened to cover `index`.
    fn widened(dirty: Option<(u32, u32)>, index: u32) -> (r: Option<(u32, u32)>)
        ensures
            r == Some(match dirty {
                Some((lo, hi)) => (if index < lo { index } else { lo }, if index > hi { index } else { hi }),
                None => (index, index),
            }),
    {
        match dirty {
            Some((lo, hi)) => Some((if index < lo { index } else { lo }, if index > hi { index } else { hi })),
            None => Some((index, index)),
        }
    }

    /// Stores `instance` in the most recently freed slot, or a new one at
    /// the end, and returns that slot.
    pub fn insert(&mut self, instance: T) -> (index: u32)
        requires
            old(self).free_slots().len() > 0 || old(self).slots().len() <= u32::MAX,
        ensures
            old(self).free_slots().len() > 0 ==> {
                &&& index == old(self).free_slots().last()
                &&& final(self).free_slots() == old(self).free_slots().drop_last()
                &&& final(self).slots() == old(self).slots().update(index as int, instance)
            },
            old(self).free_slots().len() == 0 ==> {
                &&& index == old(self).slots().len()
                &&& final(self).free_slots() == old(self).free_slots()
                &&& final(self).slots() == old(self).slots().push(instance)
            },
            final(self).written() == old(self).written().insert(index as int),
            final(self).tracks(),
    {
        proof { use_type_invariant(&*self); }
        let mut taken = SlotStore::new();
        std::mem::swap(&mut taken, self);
        let SlotStore { mut slots, mut free, dirty, touched } = taken;
        let index = match free.pop() {
            Some(index) => {
                slots.set(index as usize, instance);
                index
            },
            None => {
                let index = slots.len() as u32;
                slots.push(instance);
                index
            },
        };
        let dirty = Self::widened(dirty, index);
        let touched = Ghost(touched@.insert(index as int));
        *self = SlotStore { slots, free, dirty, touched };
        index
    }

    /// Replaces the instance in slot `id` when it differs from `instance`
    /// (by `==`); an equal instance leaves the slot clean.
    pub fn update(&mut self, id: u32, instance: T)
        where T: PartialEq
        requires
            id < old(self).slots().len(),
        ensures
            final(self).free_slots() == old(self).free_slots(),
            T::obeys_eq_spec() && old(self).slots()[id as int].eq_spec(&instance) ==> *final(self) == *old(self),
            T::obeys_eq_spec() && !old(self).slots()[id as int].eq_spec(&instance) ==> {
                &&& final(self).slots() == old(self).slots().update(id as int, instance)
                &&& final(self).written() == old(self).written().insert(id as int)
            },
            final(self).slots() == old(self).slots() || final(self).slots() == old(self).slots().update(id as int, instance),
            final(self).tracks(),
    {
        proof { use_type_invariant(&*self); }
        if self.slots[id as usize] != instance {
            let mut taken = SlotStore::new();
            std::mem::swap(&mut taken, self);
            let SlotStore { mut slots, mut free, dirty, touched } = taken;
            slots.set(id as usize, instance);
            let dirty = Self::widened(dirty, id);
            let touched = Ghost(touched@.insert(id as int));
            *self = SlotStore { slots, free, dirty, touched };
        }
    }

    /// Clears slot `id` to `blank` and frees it for reuse.
    pub fn remove(&mut self, id: u32, blank: T)
        requires
            id < old(self).slots().len(),
        ensures
            final(self).slots() == old(self).slots().update(id as int, blank),
            final(self).free_slots() == old(self).free_slots().push(id),
            final(self).written() == old(self).written().insert(id as int),
            final(self).tracks(),
    {
        proof { use_type_invariant(&*self); }
        let mut taken = SlotStore::new();
        std::mem::swap(&mut taken, self);
        let SlotStore { mut slots, mut free, dirty, touched } = taken;
        slots.set(id as usize, blank);
        free.push(id);
        let dirty = Self::widened(dirty, id);
        let touched = Ghost(touched@.insert(id as int));
        *self = SlotStore { slots, free, dirty, touched };
    }

    /// The instance in slot `id`.
    pub fn get(&self, id: u32) -> (r: &T)
        requires
            id < self.slots().len(),
        ensures
            *r == self.slots()[id as int],
    {
        &self.slots[id as usize]
    }

    /// Every slot's instance, in slot order.
    pub fn instances(&self) -> (r: &Vec<T>)
        ensures
            r@ == self.slots(),
    {
        &self.slots
    }

    /// Gives a node's new instances slots, reusing the node's old slots in
    /// order: the first `old_ids.len()` instances update the old slots in
    /// place, the rest are inserted (taking freed slots first), and old
    /// slots left over are cleared to `blank` and freed, in order.
    pub fn reassign(&mut self, old_ids: &Vec<u32>, instances: Vec<T>, blank: T) -> (ids: Vec<u32>)
        where T: PartialEq + Clone
        requires
            forall|i: int| 0 <= i < old_ids@.len() ==> #[trigger] old_ids@[i] < old(self).slots().len(),
            old_ids@.no_duplicates(),
            old(self).free_slots().no_duplicates(),
            forall|i: int| 0 <= i < old_ids@.len() ==> !old(self).free_slots().contains(#[trigger] old_ids@[i]),
            old(self).slots().len() + instances@.len() <= u32::MAX,
        ensures
            ids@.len() == instances@.len(),
            forall|i: int| 0 <= i < ids@.len() && i < old_ids@.len() ==> #[trigger] ids@[i] == old_ids@[i],
            forall|i: int| old_ids@.len() <= i < ids@.len()
                ==> #[trigger] ids@[i] == inserted_slot(old(self).free_slots(), old(self).slots().len(), i - old_ids@.len()),
            forall|i: int| 0 <= i < ids@.len() ==> {
                &&& #[trigger] ids@[i] < final(self).slots().len()
                &&& final(self).slots()[ids@[i] as int] == instances@[i]
                    || (i < old_ids@.len() && final(self).slots()[ids@[i] as int] == old(self).slots()[ids@[i] as int]
                        && (T::obeys_eq_spec() ==> old(self).slots()[ids@[i] as int].eq_spec(&instances@[i])))
            },
            forall|i: int| instances@.len() <= i < old_ids@.len()
                ==> cloned::<T>(blank, #[trigger] final(self).slots()[old_ids@[i] as int]),
            instances@.len() <= old_ids@.len() ==> {
                &&& final(self).slots().len() == old(self).slots().len()
                &&& final(self).free_slots() == old(self).free_slots() + old_ids@.skip(instances@.len() as int)
            },
            instances@.len() > old_ids@.len() ==> {
                let m = instances@.len() - old_ids@.len();
                let f = old(self).free_slots().len();
                &&& final(self).slots().len() == old(self).slots().len() + (if m > f { m - f } else { 0 })
                &&& final(self).free_slots() == old(self).free_slots().take(if m > f { 0 } else { f - m })
            },
            final(self).tracks(),
    {
        proof { use_type_invariant(&*self); }
        let ghost pre = *self;
        let ghost f0 = pre.free@;
        let ghost l0 = pre.slots@.len();
        let ghost c = old_ids@.len();
        let ghost all = instances@;
        let n = instances.len();
        let mut rest = instances;
        let mut ids: Vec<u32> = Vec::new();
        let mut i: usize = 0;
        while i < n
            invariant
                n == all.len(),
                i <= n,
                rest@ == all.skip(i as int),
                ids@.len() == i,
                c == old_ids@.len(),
                forall|k: int| 0 <= k < c ==> #[trigger] old_ids@[k] < l0,
                old_ids@.no_duplicates(),
                f0.no_duplicates(),
                forall|k: int| 0 <= k < c ==> !f0.contains(#[trigger] old_ids@[k]),
                forall|k: int| 0 <= k < f0.len() ==> #[trigger] f0[k] < l0,
                l0 + n <= u32::MAX,
                forall|k: int| 0 <= k < i && k < c ==> #[trigger] ids@[k] == old_ids@[k],
                forall|k: int| c <= k < i ==> #[trigger] ids@[k] == inserted_slot(f0, l0, k - c),
                i <= c ==> self.free@ == f0 && self.slots@.len() == l0,
                i > c ==> {
                    let m = i - c;
                    &&& self.free@ == f0.take(if m > f0.len() { 0 } else { f0.len() - m })
                    &&& self.slots@.len() == l0 + (if m > f0.len() { m - f0.len() } else { 0 })
                },
                forall|k: int| 0 <= k < i ==> {
                    &&& #[trigger] ids@[k] < self.slots@.len()
                    &&& self.slots@[ids@[k] as int] == all[k]
                        || (k < c && self.slots@[ids@[k] as int] == pre.slots@[ids@[k] as int]
                            && (T::obeys_eq_spec() ==> pre.slots@[ids@[k] as int].eq_spec(&all[k])))
                },
                forall|q: int| 0 <= q < l0 && !(exists|k: int| 0 <= k < i && #[trigger] ids@[k] == q)
                    ==> #[trigger] self.slots@[q] == pre.slots@[q],
                self.tracks(),
            decreases n - i,
        {
            proof { use_type_invariant(&*self); }
            let ghost before = *self;
            let ghost ids_before = ids@;
            proof {
                assert forall|q: int| 0 <= q < l0 && !(exists|k: int| 0 <= k < i && #[trigger] ids_before[k] == q)
                    implies #[trigger] before.slots@[q] == pre.slots@[q] by {}
            }
            let instance = rest.remove(0);
            proof {
                assert(all.skip(i as int)[0] == all[i as int]);
                assert(rest@ =~= all.skip(i as int + 1));
            }
            if i < old_ids.len() {
                let id = old_ids[i];
                self.update(id, instance);
                ids.push(id);
                proof {
                    assert forall|k: int| 0 <= k < i implies #[trigger] ids@[k] != id by {
                        assert(old_ids@[k] != old_ids@[i as int]);
                    }
                }
            } else {
                let id = self.insert(instance);
                ids.push(id);
                proof {
                    let m = i - c;
                    if m < f0.len() {
                        assert(before.free@ == f0.take(f0.len() - m));
                        assert(id == f0[f0.len() - 1 - m]);
                        assert(self.free@ =~= f0.take(f0.len() - m - 1));
                    }
                    assert forall|k: int| 0 <= k < i implies #[trigger] ids@[k] != id by {
                        if k < c {
                            assert(ids@[k] == old_ids@[k]);
                            if m < f0.len() {
                                assert(f0.contains(id));
                            }
                        } else {
                            assert(ids@[k] == inserted_slot(f0, l0, k - c));
                            if k - c < f0.len() && m < f0.len() {
                                assert(f0[f0.len() - 1 - (k - c)] != f0[f0.len() - 1 - m]);
                            }
                        }
                    }
                }
            }
            proof {
                assert forall|k: int| 0 <= k < i + 1 implies {
                    &&& #[trigger] ids@[k] < self.slots@.len()
                    &&& self.slots@[ids@[k] as int] == all[k]
                        || (k < c && self.slots@[ids@[k] as int] == pre.slots@[ids@[k] as int]
                            && (T::obeys_eq_spec() ==> pre.slots@[ids@[k] as int].eq_spec(&all[k])))
                } by {
                    if k < i {
                        assert(ids@[k] != ids@[i as int]);
                    }
                }
                assert forall|q: int| 0 <= q < l0 && !(exists|k: int| 0 <= k < i + 1 && #[trigger] ids@[k] == q)
                    implies #[trigger] self.slots@[q] == pre.slots@[q] by {
                    assert(ids@[i as int] != q);
                    assert(!(exists|k: int| 0 <= k < i && #[trigger] ids_before[k] == q)) by {
                        if exists|k: int| 0 <= k < i && #[trigger] ids_before[k] == q {
                            let k = choose|k: int| 0 <= k < i && #[trigger] ids_before[k] == q;
                            assert(ids@[k] == ids_before[k]);
                        }
                    }
                    assert(before.slots@[q] == pre.slots@[q]);
                    assert(q < before.slots@.len());
                }
            }
            i = i + 1;
        }
        if n > old_ids.len() {
            return ids;
        }
        let mut j: usize = n;
        proof {
            assert(old_ids@.subrange(n as int, n as int) =~= Seq::<u32>::empty());
            assert(f0 + Seq::<u32>::empty() =~= f0);
        }
        while j < old_ids.len()
            invariant
                n <= j <= old_ids@.len(),
                c == old_ids@.len(),
                n == all.len(),
                n <= c,
                ids@.len() == n,
                forall|k: int| 0 <= k < c ==> #[trigger] old_ids@[k] < l0,
                old_ids@.no_duplicates(),
                forall|k: int| 0 <= k < n ==> #[trigger] ids@[k] == old_ids@[k],
                self.slots@.len() == l0,
                self.free@ == f0 + old_ids@.subrange(n as int, j as int),
                forall|k: int| 0 <= k < n ==> {
                    &&& #[trigger] ids@[k] < self.slots@.len()
                    &&& self.slots@[ids@[k] as int] == all[k]
                        || (self.slots@[ids@[k] as int] == pre.slots@[ids@[k] as int]
                            && (T::obeys_eq_spec() ==> pre.slots@[ids@[k] as int].eq_spec(&all[k])))
                },
                forall|k: int| n <= k < j ==> cloned::<T>(blank, #[trigger] self.slots@[old_ids@[k] as int]),
                self.tracks(),
            decreases old_ids@.len() - j,
        {
            let stale = old_ids[j];
            let cleared = blank.clone();
            self.remove(stale, cleared);
            proof {
                assert(old_ids@.subrange(n as int, j + 1) =~= old_ids@.subrange(n as int, j as int).push(stale));
                assert forall|k: int| 0 <= k < n implies #[trigger] ids@[k] != stale by {
                    assert(old_ids@[k] != old_ids@[j as int]);
                }
                assert forall|k: int| n <= k < j implies old_ids@[k] != stale by {
                    assert(old_ids@[k] != old_ids@[j as int]);
                }
            }
            j = j + 1;
        }
        proof {
            assert(old_ids@.subrange(n as int, c as int) =~= old_ids@.skip(n as int));
        }
        ids
    }

    /// Takes the range of slots written since it was last taken.
    pub fn take_dirty_range(&mut self) -> (r: Option<(u32, u32)>)
        ensures
            r == old(self).dirty_range(),
            final(self).dirty_range() is None,
            final(self).written() == Set::<int>::empty(),
            final(self).slots() == old(self).slots(),
            final(self).free_slots() == old(self).free_slots(),
            final(self).tracks(),
    {
        proof { use_type_invariant(&*self); }
        let r = self.dirty;
        let mut taken = SlotStore::new();
        std::mem::swap(&mut taken, self);
        let SlotStore { mut slots, mut free, dirty, touched } = taken;
        *self = SlotStore { slots, free, dirty: None, touched: Ghost(Set::empty()) };
        r
    }
}

/// Identifies one rasterized glyph: font face, glyph index and pixel size.
#[derive(Clone, Copy, Debug, PartialEq, Eq, Hash, Structural)]
pub struct GlyphKey {
    pub face: u64,
    pub glyph: u16,
    pub px: u32,
}

/// One rasterized glyph coverage mask, shared by every layout using it.
/// `left`/`top` place it relative to the glyph's pen position on the
/// baseline.
#[derive(Clone, Debug, PartialEq, Eq)]
pub struct GlyphBitmap {
    pub key: GlyphKey,
    pub width: u32,
    pub height: u32,
    pub left: i32,
    pub top: i32,
    pub coverage: Vec<u8>,
    /// The GPU atlas (by id) and slot this glyph was last found in.
    pub atlas_slot: Option<(u64, u32)>,
}

/// A glyph positioned in a text block, with the byte offset of the text
/// it renders.
#[derive(Clone, Debug)]
pub struct PlacedGlyph {
    pub bitmap: std::rc::Rc<GlyphBitmap>,
    pub x: i32,
    pub y: i32,
    pub byte_offset: usize,
}

/// What closing a window does: close it for good, or hide it so it can be
/// shown again without being rebuilt.
#[derive(Clone, Copy, Debug, PartialEq, Eq, Structural)]
pub enum CloseBehavior {
    Close,
    Hide,
}

impl Default for CloseBehavior {
    fn default() -> (r: Self)
        ensures
            r == CloseBehavior::Close,
    {
        CloseBehavior::Close
    }
}

/// A panic's message and source location, handed to an app's panic
/// handler.
#[derive(Clone, Debug, PartialEq, Eq)]
pub struct PanicDetails {
    pub message: String,
    pub location: Option<String>,
}

/// The message of a panic whose payload is `text` when it is a string,
/// `None` otherwise.
pub fn panic_payload_message(text: Option<&str>) -> (r: String)
    ensures
        match text {
            Some(t) => r@ == t@,
            None => r@ == "non-string panic payload"@,
        },
{
    match text {
        Some(t) => t.to_owned(),
        None => "non-string panic payload".to_owned(),
    }
}

/// How far ahead [`pair`] looks for an item that one frame added or
/// dropped.
pub const ALIGN_LOOKAHEAD: usize = 8;

/// One outcome of aligning two frames' items: an old item only the old
/// frame has, a new item only the new frame has, or two items at matching
/// positions that differ.
#[derive(Clone, Copy, Debug, PartialEq, Eq, Structural)]
pub enum PairStep {
    Removed(usize),
    Added(usize),
    Changed(usize, usize),
}

/// The first `p < ALIGN_LOOKAHEAD` (counting from `skipped`) with
/// `items[from + p] == target`.
pub open spec fn lookahead_from(items: Seq<u64>, from: int, target: u64, p: int) -> Option<int>
    decreases ALIGN_LOOKAHEAD - p,
{
    if p < 0 || p >= ALIGN_LOOKAHEAD || from + p >= items.len() {
        None
    } else if items[from + p] == target {
        Some(p)
    } else {
        lookahead_from(items, from, target, p + 1)
    }
}

/// Where `target` appears among the next [`ALIGN_LOOKAHEAD`] items from
/// `from`.
pub open spec fn lookahead(items: Seq<u64>, from: int, target: u64) -> Option<int> {
    lookahead_from(items, from, target, 0)
}

/// `Removed(a)`, …, `Removed(b - 1)`.
pub open spec fn removed_run(a: int, b: int) -> Seq<PairStep> {
    Seq::new((b - a) as nat, |k: int| PairStep::Removed((a + k) as usize))
}

/// `Added(a)`, …, `Added(b - 1)`.
pub open spec fn added_run(a: int, b: int) -> Seq<PairStep> {
    Seq::new((b - a) as nat, |k: int| PairStep::Added((a + k) as usize))
}

/// Aligns `old[i..]` with `new[j..]`: equal items pair up silently; an item
/// found again within the lookahead on the other side means the items
/// before it were removed (or added); otherwise the two items changed.
pub open spec fn pairing(old: Seq<u64>, new: Seq<u64>, i: int, j: int) -> Seq<PairStep>
    decreases old.len() - i + new.len() - j,
{
    if 0 <= i < old.len() && 0 <= j < new.len() {
        if old[i] == new[j] {
            pairing(old, new, i + 1, j + 1)
        } else {
            match lookahead(old, i + 1, new[j]) {
                Some(skip) => if 0 <= skip && i + skip + 1 <= old.len() {
                    removed_run(i, i + skip + 1) + pairing(old, new, i + skip + 1, j)
                } else {
                    Seq::empty()
                },
                None => match lookahead(new, j + 1, old[i]) {
                    Some(skip) => if 0 <= skip && j + skip + 1 <= new.len() {
                        added_run(j, j + skip + 1) + pairing(old, new, i, j + skip + 1)
                    } else {
                        Seq::empty()
                    },
                    None => seq![PairStep::Changed(i as usize, j as usize)] + pairing(old, new, i + 1, j + 1),
                },
            }
        }
    } else if 0 <= i <= old.len() && 0 <= j <= new.len() {
        removed_run(i, old.len() as int) + added_run(j, new.len() as int)
    } else {
        Seq::empty()
    }
}

/// The index a step consumes on the old side (`on_old`) or the new side.
pub open spec fn consumed(step: PairStep, on_old: bool) -> Option<usize> {
    match step {
        PairStep::Removed(a) => if on_old { Some(a) } else { None },
        PairStep::Added(b) => if on_old { None } else { Some(b) },
        PairStep::Changed(a, b) => if on_old { Some(a) } else { Some(b) },
    }
}

/// The indices `steps` consume on one side all lie in `lo..hi` and
/// strictly increase: each is consumed at most once, in order.
pub open spec fn consumed_in_order(steps: Seq<PairStep>, on_old: bool, lo: int, hi: int) -> bool {
    &&& forall|k: int| 0 <= k < steps.len() && #[trigger] consumed(steps[k], on_old) is Some
        ==> lo <= consumed(steps[k], on_old)->0 < hi
    &&& forall|k1: int, k2: int| 0 <= k1 < k2 < steps.len()
        && #[trigger] consumed(steps[k1], on_old) is Some && #[trigger] consumed(steps[k2], on_old) is Some
        ==> consumed(steps[k1], on_old)->0 < consumed(steps[k2], on_old)->0
}

proof fn lemma_consumed_concat(a: Seq<PairStep>, b: Seq<PairStep>, on_old: bool, lo: int, mid: int, hi: int)
    requires
        lo <= mid <= hi,
        consumed_in_order(a, on_old, lo, mid),
        consumed_in_order(b, on_old, mid, hi),
    ensures
        consumed_in_order(a + b, on_old, lo, hi),
{
    let c = a + b;
    assert forall|k: int| 0 <= k < c.len() && #[trigger] consumed(c[k], on_old) is Some
        implies lo <= consumed(c[k], on_old)->0 < hi by {
        if k < a.len() {
            assert(c[k] == a[k]);
            assert(consumed(a[k], on_old) == consumed(c[k], on_old));
        } else {
            assert(c[k] == b[k - a.len()]);
            assert(consumed(b[k - a.len()], on_old) == consumed(c[k], on_old));
        }
    }
    assert forall|k1: int, k2: int| 0 <= k1 < k2 < c.len()
        && #[trigger] consumed(c[k1], on_old) is Some && #[trigger] consumed(c[k2], on_old) is Some
        implies consumed(c[k1], on_old)->0 < consumed(c[k2], on_old)->0 by {
        if k2 < a.len() {
            assert(c[k1] == a[k1] && c[k2] == a[k2]);
            assert(consumed(a[k1], on_old) == consumed(c[k1], on_old));
            assert(consumed(a[k2], on_old) == consumed(c[k2], on_old));
        } else if k1 >= a.len() {
            assert(c[k1] == b[k1 - a.len()] && c[k2] == b[k2 - a.len()]);
            assert(consumed(b[k1 - a.len()], on_old) == consumed(c[k1], on_old));
            assert(consumed(b[k2 - a.len()], on_old) == consumed(c[k2], on_old));
        } else {
            assert(c[k1] == a[k1] && c[k2] == b[k2 - a.len()]);
            assert(consumed(a[k1], on_old) == consumed(c[k1], on_old));
            assert(consumed(b[k2 - a.len()], on_old) == consumed(c[k2], on_old));
        }
    }
}

proof fn lemma_runs_consumed(a: int, b: int)
    requires
        0 <= a <= b <= usize::MAX,
    ensures
        consumed_in_order(removed_run(a, b), true, a, b),
        consumed_in_order(removed_run(a, b), false, 0, 0),
        consumed_in_order(added_run(a, b), false, a, b),
        consumed_in_order(added_run(a, b), true, 0, 0),
{
    let r = removed_run(a, b);
    let d = added_run(a, b);
    assert forall|k: int| 0 <= k < r.len() implies #[trigger] consumed(r[k], true) == Some((a + k) as usize)
        && consumed(r[k], false) is None by {
        assert(r[k] == PairStep::Removed((a + k) as usize));
    }
    assert forall|k: int| 0 <= k < d.len() implies #[trigger] consumed(d[k], false) == Some((a + k) as usize)
        && consumed(d[k], true) is None by {
        assert(d[k] == PairStep::Added((a + k) as usize));
    }
    assert forall|k1: int, k2: int| 0 <= k1 < k2 < r.len()
        && #[trigger] consumed(r[k1], true) is Some && #[trigger] consumed(r[k2], true) is Some
        implies consumed(r[k1], true)->0 < consumed(r[k2], true)->0 by {
        assert(consumed(r[k1], true) == Some((a + k1) as usize));
        assert(consumed(r[k2], true) == Some((a + k2) as usize));
    }
    assert forall|k1: int, k2: int| 0 <= k1 < k2 < d.len()
        && #[trigger] consumed(d[k1], false) is Some && #[trigger] consumed(d[k2], false) is Some
        implies consumed(d[k1], false)->0 < consumed(d[k2], false)->0 by {
        assert(consumed(d[k1], false) == Some((a + k1) as usize));
        assert(consumed(d[k2], false) == Some((a + k2) as usize));
    }
}

/// Pairing two item lists consumes each old and each new index at most
/// once, in increasing order, and within range; pairing a list with
/// itself reports nothing.
pub proof fn lemma_pairing_consumes_in_order(old: Seq<u64>, new: Seq<u64>, i: int, j: int)
    requires
        0 <= i <= old.len() <= usize::MAX,
        0 <= j <= new.len() <= usize::MAX,
    ensures
        consumed_in_order(pairing(old, new, i, j), true, i, old.len() as int),
        consumed_in_order(pairing(old, new, i, j), false, j, new.len() as int),
        old == new && i == j ==> pairing(old, new, i, j) == Seq::<PairStep>::empty(),
    decreases old.len() - i + new.len() - j,
{
    if i < old.len() && j < new.len() {
        if old[i] == new[j] {
            lemma_pairing_consumes_in_order(old, new, i + 1, j + 1);
        } else {
            lemma_lookahead(old, i + 1, new[j], 0);
            lemma_lookahead(new, j + 1, old[i], 0);
            match lookahead(old, i + 1, new[j]) {
                Some(skip) => {
                    lemma_pairing_consumes_in_order(old, new, i + skip + 1, j);
                    lemma_runs_consumed(i, i + skip + 1);
                    lemma_consumed_concat(removed_run(i, i + skip + 1), pairing(old, new, i + skip + 1, j), true, i, i + skip + 1, old.len() as int);
                    lemma_consumed_concat(removed_run(i, i + skip + 1), pairing(old, new, i + skip + 1, j), false, j, j, new.len() as int);
                },
                None => match lookahead(new, j + 1, old[i]) {
                    Some(skip) => {
                        lemma_pairing_consumes_in_order(old, new, i, j + skip + 1);
                        lemma_runs_consumed(j, j + skip + 1);
                        lemma_consumed_concat(added_run(j, j + skip + 1), pairing(old, new, i, j + skip + 1), false, j, j + skip + 1, new.len() as int);
                        lemma_consumed_concat(added_run(j, j + skip + 1), pairing(old, new, i, j + skip + 1), true, i, i, old.len() as int);
                    },
                    None => {
                        lemma_pairing_consumes_in_order(old, new, i + 1, j + 1);
                        let one = seq![PairStep::Changed(i as usize, j as usize)];
                        assert(one[0] == PairStep::Changed(i as usize, j as usize));
                        assert(consumed(one[0], true) == Some(i as usize));
                        assert(consumed(one[0], false) == Some(j as usize));
                        assert(consumed_in_order(one, true, i, i + 1));
                        assert(consumed_in_order(one, false, j, j + 1));
                        lemma_consumed_concat(one, pairing(old, new, i + 1, j + 1), true, i, i + 1, old.len() as int);
                        lemma_consumed_concat(one, pairing(old, new, i + 1, j + 1), false, j, j + 1, new.len() as int);
                    },
                },
            }
        }
    } else {
        lemma_runs_consumed(i, old.len() as int);
        lemma_runs_consumed(j, new.len() as int);
        lemma_consumed_concat(removed_run(i, old.len() as int), added_run(j, new.len() as int), true, i, old.len() as int, old.len() as int);
        lemma_consumed_concat(removed_run(i, old.len() as int), added_run(j, new.len() as int), false, j, j, new.len() as int);
        if old == new && i == j {
            assert(removed_run(i, old.len() as int) + added_run(j, new.len() as int) =~= Seq::<PairStep>::empty());
        }
    }
}

/// The pairs of equal items `pairing(old, new, i, j)` walks past silently,
/// as (old index, new index), in order.
pub open spec fn pairing_matches(old: Seq<u64>, new: Seq<u64>, i: int, j: int) -> Seq<(int, int)>
    decreases old.len() - i + new.len() - j,
{
    if 0 <= i < old.len() && 0 <= j < new.len() {
        if old[i] == new[j] {
            seq![(i, j)] + pairing_matches(old, new, i + 1, j + 1)
        } else {
            match lookahead(old, i + 1, new[j]) {
                Some(skip) => if 0 <= skip && i + skip + 1 <= old.len() {
                    pairing_matches(old, new, i + skip + 1, j)
                } else {
                    Seq::empty()
                },
                None => match lookahead(new, j + 1, old[i]) {
                    Some(skip) => if 0 <= skip && j + skip + 1 <= new.len() {
                        pairing_matches(old, new, i, j + skip + 1)
                    } else {
                        Seq::empty()
                    },
                    None => pairing_matches(old, new, i + 1, j + 1),
                },
            }
        }
    } else {
        Seq::empty()
    }
}

/// Some step of `steps` consumes index `a` on the given side.
pub open spec fn step_consumes(steps: Seq<PairStep>, on_old: bool, a: int) -> bool {
    exists|k: int| 0 <= k < steps.len() && #[trigger] consumed(steps[k], on_old) == Some(a as usize)
}

/// The index a matched pair holds on the given side.
pub open spec fn match_side(m: (int, int), on_old: bool) -> int {
    if on_old { m.0 } else { m.1 }
}

/// Some pair of `ms` holds index `a` on the given side.
pub open spec fn matched(ms: Seq<(int, int)>, on_old: bool, a: int) -> bool {
    exists|m: int| 0 <= m < ms.len() && match_side(#[trigger] ms[m], on_old) == a
}

proof fn lemma_step_consumes_concat(a: Seq<PairStep>, b: Seq<PairStep>, on_old: bool, x: int)
    ensures
        step_consumes(a + b, on_old, x) <==> (step_consumes(a, on_old, x) || step_consumes(b, on_old, x)),
{
    let c = a + b;
    if step_consumes(c, on_old, x) {
        let k = choose|k: int| 0 <= k < c.len() && #[trigger] consumed(c[k], on_old) == Some(x as usize);
        if k < a.len() {
            assert(c[k] == a[k]);
        } else {
            assert(c[k] == b[k - a.len()]);
        }
    }
    if step_consumes(a, on_old, x) {
        let k = choose|k: int| 0 <= k < a.len() && #[trigger] consumed(a[k], on_old) == Some(x as usize);
        assert(c[k] == a[k]);
    }
    if step_consumes(b, on_old, x) {
        let k = choose|k: int| 0 <= k < b.len() && #[trigger] consumed(b[k], on_old) == Some(x as usize);
        assert(c[a.len() + k] == b[k]);
    }
}

proof fn lemma_run_consumes(a0: int, b0: int, x: int)
    requires
        0 <= a0 <= b0 <= usize::MAX,
        0 <= x <= usize::MAX,
    ensures
        step_consumes(removed_run(a0, b0), true, x) <==> a0 <= x < b0,
        !step_consumes(removed_run(a0, b0), false, x),
        step_consumes(added_run(a0, b0), false, x) <==> a0 <= x < b0,
        !step_consumes(added_run(a0, b0), true, x),
{
    let r = removed_run(a0, b0);
    let d = added_run(a0, b0);
    if a0 <= x < b0 {
        assert(r[x - a0] == PairStep::Removed(x as usize));
        assert(consumed(r[x - a0], true) == Some(x as usize));
        assert(d[x - a0] == PairStep::Added(x as usize));
        assert(consumed(d[x - a0], false) == Some(x as usize));
    }
    if step_consumes(r, true, x) {
        let k = choose|k: int| 0 <= k < r.len() && #[trigger] consumed(r[k], true) == Some(x as usize);
        assert(r[k] == PairStep::Removed((a0 + k) as usize));
    }
    if step_consumes(r, false, x) {
        let k = choose|k: int| 0 <= k < r.len() && #[trigger] consumed(r[k], false) == Some(x as usize);
        assert(r[k] == PairStep::Removed((a0 + k) as usize));
    }
    if step_consumes(d, false, x) {
        let k = choose|k: int| 0 <= k < d.len() && #[trigger] consumed(d[k], false) == Some(x as usize);
        assert(d[k] == PairStep::Added((a0 + k) as usize));
    }
    if step_consumes(d, true, x) {
        let k = choose|k: int| 0 <= k < d.len() && #[trigger] consumed(d[k], true) == Some(x as usize);
        assert(d[k] == PairStep::Added((a0 + k) as usize));
    }
}

proof fn lemma_matched_front(i: int, j: int, ms: Seq<(int, int)>, on_old: bool, x: int)
    ensures
        matched(seq![(i, j)] + ms, on_old, x) <==> (x == match_side((i, j), on_old) || matched(ms, on_old, x)),
{
    let c = seq![(i, j)] + ms;
    assert(c[0] == (i, j));
    if matched(c, on_old, x) {
        let m = choose|m: int| 0 <= m < c.len() && match_side(#[trigger] c[m], on_old) == x;
        if m > 0 {
            assert(c[m] == ms[m - 1]);
        }
    }
    if matched(ms, on_old, x) {
        let m = choose|m: int| 0 <= m < ms.len() && match_side(#[trigger] ms[m], on_old) == x;
        assert(c[m + 1] == ms[m]);
    }
}

/// Pairing two item lists accounts for every index exactly once: each old
/// index and each new index from where the walk starts is either consumed
/// by a reported step or part of a matched pair of equal items, never
/// both; matched pairs hold equal items and increase on both sides. With
/// [`lemma_pairing_consumes_in_order`] (each index reported at most once,
/// in order), each index is accounted for exactly once.
pub proof fn lemma_pairing_accounts_for_every_index(old: Seq<u64>, new: Seq<u64>, i: int, j: int)
    requires
        0 <= i <= old.len() <= usize::MAX,
        0 <= j <= new.len() <= usize::MAX,
    ensures
        forall|m: int| 0 <= m < pairing_matches(old, new, i, j).len() ==> {
            let p = #[trigger] pairing_matches(old, new, i, j)[m];
            &&& i <= p.0 < old.len()
            &&& j <= p.1 < new.len()
            &&& old[p.0] == new[p.1]
        },
        forall|m1: int, m2: int| 0 <= m1 < m2 < pairing_matches(old, new, i, j).len()
            ==> #[trigger] pairing_matches(old, new, i, j)[m1].0 < #[trigger] pairing_matches(old, new, i, j)[m2].0
                && pairing_matches(old, new, i, j)[m1].1 < pairing_matches(old, new, i, j)[m2].1,
        forall|a: int| i <= a < old.len()
            ==> (#[trigger] step_consumes(pairing(old, new, i, j), true, a) <==> !matched(pairing_matches(old, new, i, j), true, a)),
        forall|b: int| j <= b < new.len()
            ==> (#[trigger] step_consumes(pairing(old, new, i, j), false, b) <==> !matched(pairing_matches(old, new, i, j), false, b)),
    decreases old.len() - i + new.len() - j,
{
    let ms = pairing_matches(old, new, i, j);
    let ps = pairing(old, new, i, j);
    if i < old.len() && j < new.len() {
        if old[i] == new[j] {
            lemma_pairing_accounts_for_every_index(old, new, i + 1, j + 1);
            lemma_pairing_consumes_in_order(old, new, i + 1, j + 1);
            let rest = pairing_matches(old, new, i + 1, j + 1);
            assert(ms == seq![(i, j)] + rest);
            assert(ps == pairing(old, new, i + 1, j + 1));
            assert forall|m: int| 0 <= m < ms.len() implies {
                let p = #[trigger] ms[m];
                &&& i <= p.0 < old.len()
                &&& j <= p.1 < new.len()
                &&& old[p.0] == new[p.1]
            } by {
                if m > 0 {
                    assert(ms[m] == rest[m - 1]);
                }
            }
            assert forall|m1: int, m2: int| 0 <= m1 < m2 < ms.len()
                implies #[trigger] ms[m1].0 < #[trigger] ms[m2].0 && ms[m1].1 < ms[m2].1 by {
                assert(ms[m2] == rest[m2 - 1]);
                if m1 > 0 {
                    assert(ms[m1] == rest[m1 - 1]);
                }
            }
            assert forall|a: int| i <= a < old.len()
                implies (#[trigger] step_consumes(ps, true, a) <==> !matched(ms, true, a)) by {
                lemma_matched_front(i, j, rest, true, a);
                if a == i {
                    if step_consumes(ps, true, a) {
                        let k = choose|k: int| 0 <= k < ps.len() && #[trigger] consumed(ps[k], true) == Some(a as usize);
                    }
                }
            }
            assert forall|b: int| j <= b < new.len()
                implies (#[trigger] step_consumes(ps, false, b) <==> !matched(ms, false, b)) by {
                lemma_matched_front(i, j, rest, false, b);
                if b == j {
                    if step_consumes(ps, false, b) {
                        let k = choose|k: int| 0 <= k < ps.len() && #[trigger] consumed(ps[k], false) == Some(b as usize);
                    }
                }
            }
        } else {
            lemma_lookahead(old, i + 1, new[j], 0);
            lemma_lookahead(new, j + 1, old[i], 0);
            match lookahead(old, i + 1, new[j]) {
                Some(skip) => {
                    let i2 = i + skip + 1;
                    lemma_pairing_accounts_for_every_index(old, new, i2, j);
                    lemma_pairing_consumes_in_order(old, new, i2, j);
                    let rest = pairing(old, new, i2, j);
                    assert(ps == removed_run(i, i2) + rest);
                    assert(ms == pairing_matches(old, new, i2, j));
                    assert forall|a: int| i <= a < old.len()
                        implies (#[trigger] step_consumes(ps, true, a) <==> !matched(ms, true, a)) by {
                        lemma_step_consumes_concat(removed_run(i, i2), rest, true, a);
                        lemma_run_consumes(i, i2, a);
                        if a < i2 {
                            if matched(ms, true, a) {
                                let m = choose|m: int| 0 <= m < ms.len() && match_side(#[trigger] ms[m], true) == a;
                            }
                            if step_consumes(rest, true, a) {
                                let k = choose|k: int| 0 <= k < rest.len() && #[trigger] consumed(rest[k], true) == Some(a as usize);
                            }
                        }
                    }
                    assert forall|b: int| j <= b < new.len()
                        implies (#[trigger] step_consumes(ps, false, b) <==> !matched(ms, false, b)) by {
                        lemma_step_consumes_concat(removed_run(i, i2), rest, false, b);
                        lemma_run_consumes(i, i2, b);
                    }
                },
                None => match lookahead(new, j + 1, old[i]) {
                    Some(skip) => {
                        let j2 = j + skip + 1;
                        lemma_pairing_accounts_for_every_index(old, new, i, j2);
                        lemma_pairing_consumes_in_order(old, new, i, j2);
                        let rest = pairing(old, new, i, j2);
                        assert(ps == added_run(j, j2) + rest);
                        assert(ms == pairing_matches(old, new, i, j2));
                        assert forall|b: int| j <= b < new.len()
                            implies (#[trigger] step_consumes(ps, false, b) <==> !matched(ms, false, b)) by {
                            lemma_step_consumes_concat(added_run(j, j2), rest, false, b);
                            lemma_run_consumes(j, j2, b);
                            if b < j2 {
                                if matched(ms, false, b) {
                                    let m = choose|m: int| 0 <= m < ms.len() && match_side(#[trigger] ms[m], false) == b;
                                }
                                if step_consumes(rest, false, b) {
                                    let k = choose|k: int| 0 <= k < rest.len() && #[trigger] consumed(rest[k], false) == Some(b as usize);
                                }
                            }
                        }
                        assert forall|a: int| i <= a < old.len()
                            implies (#[trigger] step_consumes(ps, true, a) <==> !matched(ms, true, a)) by {
                            lemma_step_consumes_concat(added_run(j, j2), rest, true, a);
                            lemma_run_consumes(j, j2, a);
                        }
                    },
                    None => {
                        lemma_pairing_accounts_for_every_index(old, new, i + 1, j + 1);
                        lemma_pairing_consumes_in_order(old, new, i + 1, j + 1);
                        let rest = pairing(old, new, i + 1, j + 1);
                        let one = seq![PairStep::Changed(i as usize, j as usize)];
                        assert(ps == one + rest);
                        assert(ms == pairing_matches(old, new, i + 1, j + 1));
                        assert(one[0] == PairStep::Changed(i as usize, j as usize));
                        assert forall|a: int| i <= a < old.len()
                            implies (#[trigger] step_consumes(ps, true, a) <==> !matched(ms, true, a)) by {
                            lemma_step_consumes_concat(one, rest, true, a);
                            if a == i {
                                assert(consumed(one[0], true) == Some(a as usize));
                                if matched(ms, true, a) {
                                    let m = choose|m: int| 0 <= m < ms.len() && match_side(#[trigger] ms[m], true) == a;
                                }
                            } else if step_consumes(one, true, a) {
                                let k = choose|k: int| 0 <= k < one.len() && #[trigger] consumed(one[k], true) == Some(a as usize);
                                assert(k == 0);
                            }
                        }
                        assert forall|b: int| j <= b < new.len()
                            implies (#[trigger] step_consumes(ps, false, b) <==> !matched(ms, false, b)) by {
                            lemma_step_consumes_concat(one, rest, false, b);
                            if b == j {
                                assert(consumed(one[0], false) == Some(b as usize));
                                if matched(ms, false, b) {
                                    let m = choose|m: int| 0 <= m < ms.len() && match_side(#[trigger] ms[m], false) == b;
                                }
                            } else if step_consumes(one, false, b) {
                                let k = choose|k: int| 0 <= k < one.len() && #[trigger] consumed(one[k], false) == Some(b as usize);
                                assert(k == 0);
                            }
                        }
                    },
                },
            }
        }
    } else {
        assert(ms == Seq::<(int, int)>::empty());
        assert(ps == removed_run(i, old.len() as int) + added_run(j, new.len() as int));
        assert forall|a: int| i <= a < old.len()
            implies (#[trigger] step_consumes(ps, true, a) <==> !matched(ms, true, a)) by {
            lemma_step_consumes_concat(removed_run(i, old.len() as int), added_run(j, new.len() as int), true, a);
            lemma_run_consumes(i, old.len() as int, a);
            lemma_run_consumes(j, new.len() as int, a);
        }
        assert forall|b: int| j <= b < new.len()
            implies (#[trigger] step_consumes(ps, false, b) <==> !matched(ms, false, b)) by {
            lemma_step_consumes_concat(removed_run(i, old.len() as int), added_run(j, new.len() as int), false, b);
            lemma_run_consumes(i, old.len() as int, b);
            lemma_run_consumes(j, new.len() as int, b);
        }
    }
}

proof fn lemma_lookahead(items: Seq<u64>, from: int, target: u64, p: int)
    requires
        0 <= p,
    ensures
        lookahead_from(items, from, target, p) matches Some(q) ==> p <= q < ALIGN_LOOKAHEAD && from + q < items.len()
            && items[from + q] == target,
    decreases ALIGN_LOOKAHEAD - p,
{
    if p < ALIGN_LOOKAHEAD && from + p < items.len() && items[from + p] != target {
        lemma_lookahead(items, from, target, p + 1);
    }
}

/// `lookahead` on a slice.
fn find_ahead(items: &[u64], from: usize, target: u64) -> (r: Option<usize>)
    requires
        from <= items@.len(),
    ensures
        r matches Some(q) ==> lookahead(items@, from as int, target) == Some(q as int),
        r is None ==> lookahead(items@, from as int, target) is None,
{
    let mut p: usize = 0;
    let n = items.len();
    while p < ALIGN_LOOKAHEAD && p < n - from
        invariant
            n == items@.len(),
            from <= items@.len(),
            p <= ALIGN_LOOKAHEAD,
            lookahead(items@, from as int, target) == lookahead_from(items@, from as int, target, p as int),
        decreases ALIGN_LOOKAHEAD - p,
    {
        if items[from + p] == target {
            return Some(p);
        }
        p = p + 1;
    }
    None
}

/// Walks `old` and `new` in step (items compared by key) and reports the
/// items only one side has (found again within [`ALIGN_LOOKAHEAD`] items
/// on the other side) and the positions whose items differ, in walking
/// order.
pub fn pair(old: &[u64], new: &[u64]) -> (r: Vec<PairStep>)
    ensures
        r@ == pairing(old@, new@, 0, 0),
        consumed_in_order(r@, true, 0, old@.len() as int),
        consumed_in_order(r@, false, 0, new@.len() as int),
        old@ == new@ ==> r@.len() == 0,
        forall|a: int| 0 <= a < old@.len()
            ==> (#[trigger] step_consumes(r@, true, a) <==> !matched(pairing_matches(old@, new@, 0, 0), true, a)),
        forall|b: int| 0 <= b < new@.len()
            ==> (#[trigger] step_consumes(r@, false, b) <==> !matched(pairing_matches(old@, new@, 0, 0), false, b)),
{
    let mut out: Vec<PairStep> = Vec::new();
    let mut i: usize = 0;
    let mut j: usize = 0;
    let olen = old.len();
    let nlen = new.len();
    proof {
        lemma_pairing_consumes_in_order(old@, new@, 0, 0);
        lemma_pairing_accounts_for_every_index(old@, new@, 0, 0);
    }
    while i < olen && j < nlen
        invariant
            olen == old@.len(),
            nlen == new@.len(),
            i <= old@.len(),
            j <= new@.len(),
            out@ + pairing(old@, new@, i as int, j as int) == pairing(old@, new@, 0, 0),
        decreases old@.len() - i + new@.len() - j,
    {
        if old[i] == new[j] {
            i = i + 1;
            j = j + 1;
        } else {
            proof {
                lemma_lookahead(old@, i + 1, new@[j as int], 0);
                lemma_lookahead(new@, j + 1, old@[i as int], 0);
            }
            match find_ahead(old, i + 1, new[j]) {
                Some(skip) => {
                    let ghost before = out@;
                    let mut k: usize = 0;
                    while k <= skip
                        invariant
                            k <= skip + 1,
                            i + skip + 1 <= olen,
                            olen == old@.len(),
                            out@ == before + removed_run(i as int, i + k),
                        decreases skip + 1 - k,
                    {
                        out.push(PairStep::Removed(i + k));
                        assert(removed_run(i as int, i + k + 1) =~= removed_run(i as int, i + k).push(PairStep::Removed((i + k) as usize)));
                        k = k + 1;
                    }
                    proof {
                        assert(out@ + pairing(old@, new@, i + skip + 1, j as int)
                            =~= before + pairing(old@, new@, i as int, j as int));
                    }
                    i = i + skip + 1;
                },
                None => match find_ahead(new, j + 1, old[i]) {
                    Some(skip) => {
                        let ghost before = out@;
                        let mut k: usize = 0;
                        while k <= skip
                            invariant
                                k <= skip + 1,
                                j + skip + 1 <= nlen,
                                nlen == new@.len(),
                                out@ == before + added_run(j as int, j + k),
                            decreases skip + 1 - k,
                        {
                            out.push(PairStep::Added(j + k));
                            assert(added_run(j as int, j + k + 1) =~= added_run(j as int, j + k).push(PairStep::Added((j + k) as usize)));
                            k = k + 1;
                        }
                        proof {
                            assert(out@ + pairing(old@, new@, i as int, j + skip + 1)
                                =~= before + pairing(old@, new@, i as int, j as int));
                        }
                        j = j + skip + 1;
                    },
                    None => {
                        let ghost before = out@;
                        out.push(PairStep::Changed(i, j));
                        proof {
                            assert(out@ + pairing(old@, new@, i + 1, j + 1)
                                =~= before + pairing(old@, new@, i as int, j as int));
                        }
                        i = i + 1;
                        j = j + 1;
                    },
                },
            }
        }
    }
    let ghost before = out@;
    let mut a = i;
    while a < olen
        invariant
            olen == old@.len(),
            i <= a <= old@.len(),
            out@ == before + removed_run(i as int, a as int),
        decreases old@.len() - a,
    {
        out.push(PairStep::Removed(a));
        assert(removed_run(i as int, a + 1) =~= removed_run(i as int, a as int).push(PairStep::Removed(a)));
        a = a + 1;
    }
    let ghost middle = out@;
    let mut b = j;
    while b < nlen
        invariant
            nlen == new@.len(),
            j <= b <= new@.len(),
            out@ == middle + added_run(j as int, b as int),
        decreases new@.len() - b,
    {
        out.push(PairStep::Added(b));
        assert(added_run(j as int, b + 1) =~= added_run(j as int, b as int).push(PairStep::Added(b)));
        b = b + 1;
    }
    assert(out@ =~= before + pairing(old@, new@, i as int, j as int));
    out
}

/// One draw batch: the image it samples (none for untextured items) and
/// the range `start..end` of instances it draws.
pub type ImageBatch = (Option<u64>, u32, u32);

/// The batching rule over the first `n` items, each given as the image it
/// samples and how many instances it produced: the batches closed so far,
/// the image of the open batch, where it starts and how many instances
/// there are. An item closes the open batch when its image differs from
/// the open batch's and that batch holds an instance; either way the
/// open batch takes the item's image.
pub open spec fn batching(items: Seq<(Option<u64>, u32)>, n: nat) -> (Seq<ImageBatch>, Option<u64>, int, int)
    decreases n,
{
    if n == 0 {
        (Seq::empty(), None, 0, 0)
    } else {
        let (done, image, start, count) = batching(items, (n - 1) as nat);
        let item = items[n - 1];
        let closes = item.0 != image && count > start;
        let done2 = if closes { done.push((image, start as u32, count as u32)) } else { done };
        let start2 = if closes { count } else { start };
        (done2, item.0, start2, count + item.1)
    }
}

/// The batches for `items`: those the rule closes, then the open one if it
/// holds an instance.
pub open spec fn image_batches_of(items: Seq<(Option<u64>, u32)>) -> Seq<ImageBatch> {
    let (done, image, start, count) = batching(items, items.len());
    if count > start { done.push((image, start as u32, count as u32)) } else { done }
}

/// The total number of instances the first `n` items produced.
pub open spec fn instance_total(items: Seq<(Option<u64>, u32)>, n: nat) -> int
    decreases n,
{
    if n == 0 { 0 } else { instance_total(items, (n - 1) as nat) + items[n - 1].1 }
}

proof fn lemma_batching_shape(items: Seq<(Option<u64>, u32)>, n: nat)
    requires
        n <= items.len(),
        instance_total(items, n) <= u32::MAX,
    ensures
        ({
            let (done, image, start, count) = batching(items, n);
            &&& count == instance_total(items, n)
            &&& 0 <= start <= count
            &&& done.len() == 0 ==> start == 0
            &&& done.len() > 0 ==> done.last().2 == start
            &&& done.len() > 0 ==> done[0].1 == 0
            &&& forall|i: int| 0 <= i < done.len() ==> #[trigger] done[i].1 < done[i].2
            &&& forall|i: int| 0 <= i < done.len() - 1 ==> #[trigger] done[i].2 == done[i + 1].1
        }),
    decreases n,
{
    if n > 0 {
        lemma_total_monotone(items, (n - 1) as nat, n);
        lemma_batching_shape(items, (n - 1) as nat);
        let (done, image, start, count) = batching(items, (n - 1) as nat);
        let (done2, image2, start2, count2) = batching(items, n);
        if items[n - 1].0 != image && count > start {
            assert(done2 == done.push((image, start as u32, count as u32)));
            assert(done2.last().2 == count);
            assert forall|i: int| 0 <= i < done2.len() - 1 implies #[trigger] done2[i].2 == done2[i + 1].1 by {
                if i < done.len() - 1 {
                    assert(done2[i] == done[i] && done2[i + 1] == done[i + 1]);
                } else {
                    assert(done2[i] == done.last());
                }
            }
            assert forall|i: int| 0 <= i < done2.len() implies #[trigger] done2[i].1 < done2[i].2 by {
                if i < done.len() {
                    assert(done2[i] == done[i]);
                }
            }
        }
    }
}

/// Splits the instances of a frame's items into draw batches by the image
/// they sample: `items` gives, in draw order, each item's image and the
/// number of instances it produced. A new batch starts at an item whose
/// image differs from the item before it, unless nothing was drawn since
/// the current batch started. The batches cover every instance, in order.
pub fn image_batches(items: &[(Option<u64>, u32)]) -> (r: Vec<ImageBatch>)
    requires
        instance_total(items@, items@.len()) <= u32::MAX,
    ensures
        r@ == image_batches_of(items@),
        r@.len() == 0 <==> instance_total(items@, items@.len()) == 0,
        r@.len() > 0 ==> r@[0].1 == 0 && r@.last().2 == instance_total(items@, items@.len()),
        forall|i: int| 0 <= i < r@.len() ==> #[trigger] r@[i].1 < r@[i].2,
        forall|i: int| 0 <= i < r@.len() - 1 ==> #[trigger] r@[i].2 == r@[i + 1].1,
{
    let mut done: Vec<ImageBatch> = Vec::new();
    let mut image: Option<u64> = None;
    let mut start: u32 = 0;
    let mut count: u32 = 0;
    let mut k: usize = 0;
    proof { lemma_total_monotone(items@, 0, items@.len()); }
    while k < items.len()
        invariant
            k <= items@.len(),
            instance_total(items@, items@.len()) <= u32::MAX,
            batching(items@, k as nat) == (done@, image, start as int, count as int),
        decreases items@.len() - k,
    {
        proof {
            lemma_total_monotone(items@, k as nat, items@.len());
            lemma_total_monotone(items@, (k + 1) as nat, items@.len());
            lemma_batching_shape(items@, k as nat);
        }
        let (item_image, item_count) = items[k];
        if item_image != image && count > start {
            done.push((image, start, count));
            start = count;
        }
        image = item_image;
        count = count + item_count;
        k = k + 1;
    }
    proof { lemma_batching_shape(items@, items@.len()); }
    let ghost closed = done@;
    if count > start {
        done.push((image, start, count));
        proof {
            assert forall|i: int| 0 <= i < done@.len() - 1 implies #[trigger] done@[i].2 == done@[i + 1].1 by {
                if i < closed.len() - 1 {
                    assert(done@[i] == closed[i] && done@[i + 1] == closed[i + 1]);
                }
            }
            assert forall|i: int| 0 <= i < done@.len() implies #[trigger] done@[i].1 < done@[i].2 by {
                if i < closed.len() {
                    assert(done@[i] == closed[i]);
                }
            }
        }
    } else {
        proof {
            if closed.len() > 0 {
                assert(closed[closed.len() - 1].1 < closed[closed.len() - 1].2);
            }
        }
    }
    done
}

proof fn lemma_total_monotone(items: Seq<(Option<u64>, u32)>, a: nat, b: nat)
    requires
        a <= b <= items.len(),
    ensures
        instance_total(items, a) <= instance_total(items, b),
    decreases b - a,
{
    if a < b {
        lemma_total_monotone(items, a, (b - 1) as nat);
    }
}

/// Whether the next frame, of the given size and clear colour, must be
/// repainted whole: there is no previous frame, or the previous one,
/// given as its size and clear colour, differs in any of them.
pub fn needs_full_repaint(previous: Option<(u32, u32, Color)>, width: u32, height: u32, clear: Color) -> (r: bool)
    ensures
        r == match previous {
            None => true,
            Some((w, h, c)) => w != width || h != height || c != clear,
        },
{
    match previous {
        None => true,
        Some((w, h, c)) => w != width || h != height || c != clear,
    }
}

/// The lengths of the longest common prefix of `old` and `new` and of the
/// longest common suffix of what follows that prefix on both sides: the
/// frames' items outside them are the ones [`pair`] aligns.
pub fn common_ends(old: &[u64], new: &[u64]) -> (r: (usize, usize))
    ensures
        r.0 + r.1 <= old@.len(),
        r.0 + r.1 <= new@.len(),
        forall|k: int| 0 <= k < r.0 ==> #[trigger] old@[k] == new@[k],
        r.0 < old@.len() && r.0 < new@.len() ==> old@[r.0 as int] != new@[r.0 as int],
        forall|k: int| 0 <= k < r.1 ==> #[trigger] old@[old@.len() - 1 - k] == new@[new@.len() - 1 - k],
        r.0 + r.1 < old@.len() && r.0 + r.1 < new@.len()
            ==> old@[old@.len() - 1 - r.1] != new@[new@.len() - 1 - r.1],
{
    let n = if old.len() < new.len() { old.len() } else { new.len() };
    let mut prefix: usize = 0;
    while prefix < n && old[prefix] == new[prefix]
        invariant
            n <= old@.len(),
            n <= new@.len(),
            n == old@.len() || n == new@.len(),
            prefix <= n,
            forall|k: int| 0 <= k < prefix ==> #[trigger] old@[k] == new@[k],
        decreases n - prefix,
    {
        prefix = prefix + 1;
    }
    let mut suffix: usize = 0;
    while suffix < n - prefix && old[old.len() - 1 - suffix] == new[new.len() - 1 - suffix]
        invariant
            n <= old@.len(),
            n <= new@.len(),
            n == old@.len() || n == new@.len(),
            prefix <= n,
            suffix <= n - prefix,
            forall|k: int| 0 <= k < suffix ==> #[trigger] old@[old@.len() - 1 - k] == new@[new@.len() - 1 - k],
        decreases n - prefix - suffix,
    {
        suffix = suffix + 1;
    }
    (prefix, suffix)
}

/// Every scroll layer's parent was declared before it: layer `n > 0` has
/// parent `parents[n - 1]`, which is below `n` (layer `0` is the frame).
pub open spec fn parents_ordered(parents: Seq<u16>) -> bool {
    forall|k: int| 0 <= k < parents.len() ==> #[trigger] parents[k] <= k
}

/// Whether `layer` is `ancestor` or nested, at any depth, inside it.
pub open spec fn nested_in(parents: Seq<u16>, layer: int, ancestor: int) -> bool
    decreases layer,
{
    if layer == ancestor {
        true
    } else if layer <= 0 || layer > parents.len() || parents[layer - 1] >= layer {
        false
    } else {
        nested_in(parents, parents[layer - 1] as int, ancestor)
    }
}

/// Whether `layer` is `ancestor` or nested inside it, walking up the
/// parent chain.
pub fn layer_within(parents: &[u16], layer: u16, ancestor: u16) -> (r: bool)
    requires
        parents_ordered(parents@),
        layer as int <= parents@.len(),
    ensures
        r == nested_in(parents@, layer as int, ancestor as int),
{
    let mut current = layer;
    loop
        invariant
            parents_ordered(parents@),
            current as int <= parents@.len(),
            nested_in(parents@, current as int, ancestor as int) == nested_in(parents@, layer as int, ancestor as int),
        decreases current,
    {
        if current == ancestor {
            return true;
        }
        if current == 0 {
            return false;
        }
        let parent = parents[(current - 1) as usize];
        proof {
            assert(parents@[current - 1] <= current - 1);
        }
        current = parent;
    }
}

/// Every layer lies inside the frame, layer `0`.
pub proof fn lemma_layers_inside_frame(parents: Seq<u16>, layer: int)
    requires
        parents_ordered(parents),
        0 <= layer <= parents.len(),
    ensures
        nested_in(parents, layer, 0),
    decreases layer,
{
    if layer > 0 {
        assert(parents[layer - 1] <= layer - 1);
        lemma_layers_inside_frame(parents, parents[layer - 1] as int);
    }
}

/// Nesting is transitive: a layer inside a layer inside `outer` is inside
/// `outer`.
pub proof fn lemma_nesting_transitive(parents: Seq<u16>, inner: int, middle: int, outer: int)
    requires
        nested_in(parents, inner, middle),
        nested_in(parents, middle, outer),
    ensures
        nested_in(parents, inner, outer),
    decreases inner,
{
    if inner != middle {
        lemma_nesting_transitive(parents, parents[inner - 1] as int, middle, outer);
    }
}

/// Side of a new glyph atlas texture.
pub const INITIAL_ATLAS_SIZE: u32 = 1024;

/// Frames an atlas must live before an overflow may clear it.
pub const ATLAS_RESET_COOLDOWN_FRAMES: u64 = 60;

/// How often (in frames) an atlas larger than the initial size checks
/// whether half of it would do.
pub const ATLAS_SHRINK_EVERY_FRAMES: u64 = 600;

/// What to do when this frame's glyphs overflow the atlas.
#[derive(Clone, Copy, Debug, PartialEq, Eq, Structural)]
pub enum AtlasRoom {
    /// Clear it, keeping its size: older glyphs can go.
    Reset,
    /// Replace it with one of this side.
    Grow(u32),
    /// Nothing helps: it is as large as the device allows.
    Full,
}

/// Texels a placed glyph covers, padding included.
pub open spec fn padded_area(rect: [u32; 4]) -> int {
    (rect[2] + 1) * (rect[3] + 1)
}

/// Texels, padding included, of the glyphs of `slots` used since `since`.
pub open spec fn live_texels(slots: Seq<(GlyphKey, [u32; 4], u64)>, since: u64) -> int
    decreases slots.len(),
{
    if slots.len() == 0 {
        0
    } else {
        live_texels(slots.drop_last(), since) + if slots.last().2 >= since { padded_area(slots.last().1) } else { 0 }
    }
}

/// The texels a glyph placed at `rect` takes, padding included.
pub open spec fn padded_region(rect: [u32; 4]) -> Region {
    (rect[0] as int, rect[1] as int, rect[2] + 1, rect[3] + 1)
}

struct Pages {
    shelves: ShelfAllocator,
    slots: Vec<(GlyphKey, [u32; 4], u64)>,
    created: u64,
}

impl Pages {
    spec fn wf(&self) -> bool {
        &&& self.shelves.regions() == self.slots@.map_values(|g: (GlyphKey, [u32; 4], u64)| padded_region(g.1))
        &&& self.shelves.packed()
    }

    fn empty(size: u32, frame: u64) -> (r: Self)
        requires
            size <= 0x7fff_ffff,
        ensures
            r.wf(),
            r.shelves.side() == size,
            r.slots@ == Seq::<(GlyphKey, [u32; 4], u64)>::empty(),
            r.created == frame,
    {
        let r = Pages { shelves: ShelfAllocator::new(size), slots: Vec::new(), created: frame };
        assert(r.slots@.map_values(|g: (GlyphKey, [u32; 4], u64)| padded_region(g.1)) =~= Seq::<Region>::empty());
        r
    }
}

/// The glyphs of a GPU glyph atlas: where each is placed (x, y, width,
/// height), the frame it was last used in, and the frame the atlas was
/// made in. Uploading a newly placed glyph's pixels is the caller's.
pub struct AtlasBook {
    pages: Pages,
}

impl AtlasBook {
    #[verifier::type_invariant]
    spec fn inv(&self) -> bool {
        self.pages.wf()
    }

    /// Side of the atlas.
    pub closed spec fn side(&self) -> u32 {
        self.pages.shelves.side()
    }

    /// The frame the atlas was made in.
    pub closed spec fn made_in(&self) -> u64 {
        self.pages.created
    }

    /// Each placed glyph with its rect and the frame it was last used in,
    /// in the order placed.
    pub closed spec fn glyphs(&self) -> Seq<(GlyphKey, [u32; 4], u64)> {
        self.pages.slots@
    }

    /// Whether glyph `key` is placed.
    pub open spec fn holds(&self, key: GlyphKey) -> bool {
        exists|i: int| 0 <= i < self.glyphs().len() && #[trigger] self.glyphs()[i].0 == key
    }

    /// The shelves the atlas packs glyphs on, top to bottom.
    pub closed spec fn shelves(&self) -> Seq<Shelf> {
        self.pages.shelves.shelves()
    }

    /// No two placed glyphs share a texel, padding included, and each lies
    /// inside the atlas.
    pub open spec fn packed(&self) -> bool {
        packed_regions(self.side() as int, self.glyphs().map_values(|g: (GlyphKey, [u32; 4], u64)| padded_region(g.1)))
    }

    /// An empty atlas of side `size` made in `frame`.
    pub fn new(size: u32, frame: u64) -> (r: Self)
        requires
            size <= 0x7fff_ffff,
        ensures
            r.side() == size,
            r.made_in() == frame,
            r.glyphs() == Seq::<(GlyphKey, [u32; 4], u64)>::empty(),
            r.packed(),
    {
        AtlasBook { pages: Pages::empty(size, frame) }
    }

    pub fn size(&self) -> (r: u32)
        ensures
            r == self.side(),
    {
        self.pages.shelves.size
    }

    /// The rect of glyph `key` (a `width` x `height` bitmap) for `frame`:
    /// the one it already has, marking it used in `frame`, or, when it is
    /// not placed yet, a new one, which the caller must fill (the `true`).
    /// `None` when it is new and does not fit.
    pub fn place(&mut self, key: GlyphKey, width: u32, height: u32, frame: u64) -> (r: Option<([u32; 4], bool)>)
        requires
            width < u32::MAX,
            height < u32::MAX,
        ensures
            final(self).side() == old(self).side(),
            final(self).made_in() == old(self).made_in(),
            final(self).packed(),
            old(self).holds(key) ==> exists|i: int| {
                &&& 0 <= i < old(self).glyphs().len()
                &&& old(self).glyphs()[i].0 == key
                &&& r == Some((old(self).glyphs()[i].1, false))
                &&& final(self).glyphs() == old(self).glyphs().update(i, (key, old(self).glyphs()[i].1, frame))
            },
            old(self).holds(key) ==> final(self).shelves() == old(self).shelves(),
            !old(self).holds(key) ==> ({
                let (at, shelves) = allocation(old(self).shelves(), old(self).side() as int, width, height);
                &&& final(self).shelves() == shelves
                &&& match at {
                    None => r is None && final(self).glyphs() == old(self).glyphs(),
                    Some(p) => {
                        &&& r == Some(([p[0], p[1], width, height], true))
                        &&& final(self).glyphs() == old(self).glyphs().push((key, [p[0], p[1], width, height], frame))
                    },
                }
            }),
    {
        proof { use_type_invariant(&*self); }
        let mut pages = Pages::empty(0, 0);
        std::mem::swap(&mut pages, &mut self.pages);
        let ghost start = pages;
        let mut i: usize = 0;
        while i < pages.slots.len()
            invariant
                pages == start,
                start == old(self).pages,
                start.wf(),
                i <= pages.slots@.len(),
                forall|j: int| 0 <= j < i ==> #[trigger] pages.slots@[j].0 != key,
            decreases pages.slots@.len() - i,
        {
            if pages.slots[i].0 == key {
                let rect = pages.slots[i].1;
                pages.slots.set(i, (key, rect, frame));
                proof {
                    assert(pages.slots@.map_values(|g: (GlyphKey, [u32; 4], u64)| padded_region(g.1))
                        =~= start.slots@.map_values(|g: (GlyphKey, [u32; 4], u64)| padded_region(g.1)));
                }
                self.pages = pages;
                proof { use_type_invariant(&*self); }
                return Some((rect, false));
            }
            i = i + 1;
        }
        let found = pages.shelves.allocate(width, height);
        let r = match found {
            Some(at) => {
                let rect = [at[0], at[1], width, height];
                pages.slots.push((key, rect, frame));
                proof {
                    assert(pages.slots@.map_values(|g: (GlyphKey, [u32; 4], u64)| padded_region(g.1))
                        =~= start.slots@.map_values(|g: (GlyphKey, [u32; 4], u64)| padded_region(g.1)).push(padded_region(rect)));
                }
                Some((rect, true))
            },
            None => None,
        };
        self.pages = pages;
        proof { use_type_invariant(&*self); }
        r
    }

    /// Whether some glyph was last used before `frame`.
    pub fn has_stale_entries(&self, frame: u64) -> (r: bool)
        ensures
            r == exists|i: int| 0 <= i < self.glyphs().len() && #[trigger] self.glyphs()[i].2 < frame,
    {
        let mut i: usize = 0;
        while i < self.pages.slots.len()
            invariant
                i <= self.pages.slots@.len(),
                forall|j: int| 0 <= j < i ==> #[trigger] self.pages.slots@[j].2 >= frame,
            decreases self.pages.slots@.len() - i,
        {
            if self.pages.slots[i].2 < frame {
                assert(self.glyphs()[i as int].2 < frame);
                return true;
            }
            i = i + 1;
        }
        false
    }

    /// Texels, padding included, of the glyphs used since `since`.
    pub fn live_area(&self, since: u64) -> (r: u128)
        ensures
            r == live_texels(self.glyphs(), since),
    {
        let mut total: u128 = 0;
        let mut i: usize = 0;
        while i < self.pages.slots.len()
            invariant
                i <= self.pages.slots@.len(),
                total == live_texels(self.pages.slots@.take(i as int), since),
                total <= i * 0x1_0000_0000_0000_0000,
            decreases self.pages.slots@.len() - i,
        {
            let (_, rect, used) = self.pages.slots[i];
            proof {
                assert(self.pages.slots@.take(i as int + 1).drop_last() =~= self.pages.slots@.take(i as int));
                assert((rect[2] as int + 1) * (rect[3] as int + 1) <= 0x1_0000_0000 * 0x1_0000_0000) by (nonlinear_arith)
                    requires
                        rect[2] as int + 1 <= 0x1_0000_0000,
                        rect[3] as int + 1 <= 0x1_0000_0000,
                ;
                assert(i < 0x1_0000_0000_0000_0000) by {
                    assert(self.pages.slots@.len() <= usize::MAX);
                }
            }
            if used >= since {
                let area = (rect[2] as u128 + 1) * (rect[3] as u128 + 1);
                total = total + area;
            }
            i = i + 1;
        }
        proof {
            assert(self.pages.slots@.take(self.pages.slots@.len() as int) =~= self.pages.slots@);
        }
        total
    }

    /// What to do in `frame` when the glyphs drawn overflow the atlas and
    /// the device allows textures up to `max` texels on a side: clear it if
    /// it has lived [`ATLAS_RESET_COOLDOWN_FRAMES`] frames and holds glyphs
    /// not used this frame, else grow it (doubling, up to `max`), unless
    /// it already is `max` or larger.
    pub fn room_after_overflow(&self, frame: u64, max: u32) -> (r: AtlasRoom)
        requires
            frame >= self.made_in(),
        ensures
            r == if frame - self.made_in() >= ATLAS_RESET_COOLDOWN_FRAMES
                && exists|i: int| 0 <= i < self.glyphs().len() && #[trigger] self.glyphs()[i].2 < frame {
                AtlasRoom::Reset
            } else if self.side() >= max {
                AtlasRoom::Full
            } else {
                AtlasRoom::Grow(if 2 * self.side() < max { (2 * self.side()) as u32 } else { max })
            },
    {
        if frame - self.pages.created >= ATLAS_RESET_COOLDOWN_FRAMES && self.has_stale_entries(frame) {
            return AtlasRoom::Reset;
        }
        let size = self.pages.shelves.size;
        if size >= max {
            return AtlasRoom::Full;
        }
        if size < max - size {
            AtlasRoom::Grow(size * 2)
        } else {
            AtlasRoom::Grow(max)
        }
    }

    /// The side to shrink the atlas to as `frame` begins: half its side,
    /// on every [`ATLAS_SHRINK_EVERY_FRAMES`]th frame, when it is larger
    /// than [`INITIAL_ATLAS_SIZE`] and the glyphs used over the last such
    /// period fill at most a quarter of the half.
    pub fn shrink_to(&self, frame: u64) -> (r: Option<u32>)
        ensures
            r == if frame % ATLAS_SHRINK_EVERY_FRAMES == 0 && self.side() > INITIAL_ATLAS_SIZE
                && live_texels(self.glyphs(), if frame >= ATLAS_SHRINK_EVERY_FRAMES { (frame - ATLAS_SHRINK_EVERY_FRAMES) as u64 } else { 0 })
                    * 4 <= (self.side() / 2) * (self.side() / 2) {
                Some((self.side() / 2) as u32)
            } else {
                None::<u32>
            },
    {
        let size = self.pages.shelves.size;
        if frame % ATLAS_SHRINK_EVERY_FRAMES != 0 || size <= INITIAL_ATLAS_SIZE {
            return None;
        }
        let half = size / 2;
        let since = if frame >= ATLAS_SHRINK_EVERY_FRAMES { frame - ATLAS_SHRINK_EVERY_FRAMES } else { 0 };
        let live = self.live_area(since);
        let h = half as u128;
        assert(h * h <= 0xffff_ffff * 0xffff_ffff) by (nonlinear_arith)
            requires
                h <= 0xffff_ffff,
        ;
        let limit = h * h;
        if live <= limit / 4 && live * 4 <= limit {
            Some(half)
        } else {
            None
        }
    }
}

} // verus!
