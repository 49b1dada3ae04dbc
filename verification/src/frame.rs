use vstd::prelude::*;

verus! {

use vstd::arithmetic::div_mod::lemma_fundamental_div_mod;
use vstd::arithmetic::div_mod::lemma_fundamental_div_mod_converse_div;
use vstd::arithmetic::div_mod::lemma_mod_bound;

/// Division pinned down by an explicit quotient and remainder.
proof fn div_is(x: int, d: int, q: int, r: int)
    requires
        d > 0,
        0 <= r < d,
        x == q * d + r,
    ensures
        x / d == q,
{
    lemma_fundamental_div_mod_converse_div(x, d, q, r);
}

/// How a frame's region of the canvas is treated before the next
/// frame is composited.
#[derive(Clone, Copy, Debug, PartialEq, Eq, Structural)]
pub enum DisposalMethod {
    /// No disposal specified; the canvas is left as-is.
    NoDisposal,
    /// The canvas is left as-is.
    DoNotDispose,
    /// The affected region is cleared to the background (or
    /// transparent) color before the next frame paints.
    RestoreToBackground,
    /// The affected region is restored to its content immediately
    /// prior to this frame's compositing.
    RestoreToPrevious,
}

/// Graphic-control state set by an extension block; it applies to
/// exactly the next image and is cleared to defaults afterwards.
#[derive(Clone, Copy, Debug)]
pub struct GraphicControlState {
    pub disposal: DisposalMethod,
    pub delay_cs: u16,
    pub transparent_index: Option<u8>,
    pub user_input: bool,
}

/// The graphic-control defaults in force before any extension block.
pub open spec fn default_control() -> GraphicControlState {
    GraphicControlState {
        disposal: DisposalMethod::NoDisposal,
        delay_cs: 0,
        transparent_index: None,
        user_input: false,
    }
}

impl GraphicControlState {
    /// The defaults in force before any graphic control extension.
    pub fn defaults() -> (r: GraphicControlState)
        ensures
            r == default_control(),
    {
        GraphicControlState {
            disposal: DisposalMethod::NoDisposal,
            delay_cs: 0,
            transparent_index: None,
            user_input: false,
        }
    }
}

/// One image's placement inside the logical screen.
#[derive(Clone, Copy, Debug)]
pub struct ImageDescriptor {
    pub left: u16,
    pub top: u16,
    pub width: u16,
    pub height: u16,
    pub interlaced: bool,
    pub has_local_table: bool,
    /// `2^(N+1)` for the packed field `N`, meaningful only when
    /// `has_local_table` is set.
    pub local_table_size: u16,
}

/// One fully composited frame: a snapshot of the whole canvas with
/// the animation metadata that produced it. Ownership passes to the
/// consumer on delivery; the producer keeps no reference.
#[derive(Debug)]
pub struct GifFrame {
    pub width: u16,
    pub height: u16,
    /// One packed pixel per canvas cell: red in the low byte, then
    /// green, then blue, with alpha in the top byte.
    pub pixels: Vec<u32>,
    pub delay_cs: u16,
    pub disposal: DisposalMethod,
}

/// Whether `idx` is the transparent color index of `control`.
pub open spec fn is_transparent(control: GraphicControlState, idx: u8) -> bool {
    match control.transparent_index {
        Some(t) => t == idx,
        None => false,
    }
}

/// A palette entry resolved to a fully opaque pixel.
pub open spec fn opaque_pixel(rgb: u32) -> u32 {
    rgb | 0xff00_0000u32
}

/// Rows in each of the four interlace passes for an image of height
/// `h`: rows 0, 8, 16, ...; then 4, 12, 20, ...; then 2, 6, 10, ...;
/// then 1, 3, 5, ...
pub open spec fn pass1(h: int) -> int {
    (h + 7) / 8
}

pub open spec fn pass2(h: int) -> int {
    (h + 3) / 8
}

pub open spec fn pass3(h: int) -> int {
    (h + 1) / 4
}

pub open spec fn pass4(h: int) -> int {
    h / 2
}

/// The image row that the `k`-th decoded row lands on when the image
/// is interlaced.
pub open spec fn interlaced_row(k: int, h: int) -> int {
    if k < pass1(h) {
        8 * k
    } else if k < pass1(h) + pass2(h) {
        8 * (k - pass1(h)) + 4
    } else if k < pass1(h) + pass2(h) + pass3(h) {
        4 * (k - pass1(h) - pass2(h)) + 2
    } else {
        2 * (k - pass1(h) - pass2(h) - pass3(h)) + 1
    }
}

/// The image row that the `k`-th decoded row lands on.
pub open spec fn target_row(k: int, h: int, interlaced: bool) -> int {
    if interlaced {
        interlaced_row(k, h)
    } else {
        k
    }
}

/// The four interlace passes together cover every row exactly once.
proof fn lemma_pass_sum(h: int)
    requires
        h >= 0,
    ensures
        pass1(h) + pass2(h) + pass3(h) + pass4(h) == h,
{
    let q = h / 8;
    let r = h % 8;
    lemma_fundamental_div_mod(h, 8);
    lemma_mod_bound(h, 8);
    if r == 0 {
        div_is(h + 7, 8, q, 7);
        div_is(h + 3, 8, q, 3);
        div_is(h + 1, 4, 2 * q, 1);
        div_is(h, 2, 4 * q, 0);
    } else if r == 1 {
        div_is(h + 7, 8, q + 1, 0);
        div_is(h + 3, 8, q, 4);
        div_is(h + 1, 4, 2 * q, 2);
        div_is(h, 2, 4 * q, 1);
    } else if r == 2 {
        div_is(h + 7, 8, q + 1, 1);
        div_is(h + 3, 8, q, 5);
        div_is(h + 1, 4, 2 * q, 3);
        div_is(h, 2, 4 * q + 1, 0);
    } else if r == 3 {
        div_is(h + 7, 8, q + 1, 2);
        div_is(h + 3, 8, q, 6);
        div_is(h + 1, 4, 2 * q + 1, 0);
        div_is(h, 2, 4 * q + 1, 1);
    } else if r == 4 {
        div_is(h + 7, 8, q + 1, 3);
        div_is(h + 3, 8, q, 7);
        div_is(h + 1, 4, 2 * q + 1, 1);
        div_is(h, 2, 4 * q + 2, 0);
    } else if r == 5 {
        div_is(h + 7, 8, q + 1, 4);
        div_is(h + 3, 8, q + 1, 0);
        div_is(h + 1, 4, 2 * q + 1, 2);
        div_is(h, 2, 4 * q + 2, 1);
    } else if r == 6 {
        div_is(h + 7, 8, q + 1, 5);
        div_is(h + 3, 8, q + 1, 1);
        div_is(h + 1, 4, 2 * q + 1, 3);
        div_is(h, 2, 4 * q + 3, 0);
    } else {
        div_is(h + 7, 8, q + 1, 6);
        div_is(h + 3, 8, q + 1, 2);
        div_is(h + 1, 4, 2 * q + 2, 0);
        div_is(h, 2, 4 * q + 3, 1);
    }
}

/// Every decoded row lands inside the image.
pub proof fn lemma_target_row_bounds(k: int, h: int, interlaced: bool)
    requires
        0 <= k < h,
    ensures
        0 <= target_row(k, h, interlaced) < h,
{
    if interlaced {
        lemma_pass_sum(h);
        lemma_fundamental_div_mod(h + 7, 8);
        lemma_mod_bound(h + 7, 8);
        lemma_fundamental_div_mod(h + 3, 8);
        lemma_mod_bound(h + 3, 8);
        lemma_fundamental_div_mod(h + 1, 4);
        lemma_mod_bound(h + 1, 4);
        lemma_fundamental_div_mod(h, 2);
        lemma_mod_bound(h, 2);
    }
}

/// Distinct decoded rows land on distinct image rows.
pub proof fn lemma_target_row_injective(k1: int, k2: int, h: int, interlaced: bool)
    requires
        0 <= k1 < h,
        0 <= k2 < h,
        k1 != k2,
    ensures
        target_row(k1, h, interlaced) != target_row(k2, h, interlaced),
{
}

/// The canvas cell where the `i`-th decoded index of an image lands,
/// counting cells row-major over the whole logical screen.
pub open spec fn dest_pos(
    i: int,
    left: int,
    top: int,
    w: int,
    h: int,
    interlaced: bool,
    canvas_w: int,
) -> int {
    (top + target_row(i / w, h, interlaced)) * canvas_w + left + (i % w)
}

/// A region that fits the logical screen.
pub open spec fn region_in_canvas(
    left: int,
    top: int,
    w: int,
    h: int,
    canvas_w: int,
    canvas_h: int,
) -> bool {
    left + w <= canvas_w && top + h <= canvas_h
}

/// Destination cells stay inside the canvas.
pub proof fn lemma_dest_pos_bounds(
    i: int,
    left: int,
    top: int,
    w: int,
    h: int,
    interlaced: bool,
    canvas_w: int,
    canvas_h: int,
)
    requires
        0 <= i < w * h,
        w >= 1,
        left >= 0,
        top >= 0,
        region_in_canvas(left, top, w, h, canvas_w, canvas_h),
    ensures
        0 <= dest_pos(i, left, top, w, h, interlaced, canvas_w) < canvas_w * canvas_h,
{
    let k = i / w;
    let j = i % w;
    lemma_fundamental_div_mod(i, w);
    lemma_mod_bound(i, w);
    assert(0 <= k && k < h) by (nonlinear_arith)
        requires
            0 <= i < w * h && w >= 1 && i == w * k + j && 0 <= j < w,
    ;
    lemma_target_row_bounds(k, h, interlaced);
    let r = target_row(k, h, interlaced);
    assert((top + r) * canvas_w + left + j < canvas_w * canvas_h) by (nonlinear_arith)
        requires
            0 <= top + r < canvas_h && 0 <= left + j < canvas_w && canvas_w >= 1,
    ;
    assert((top + r) * canvas_w + left + j >= 0) by (nonlinear_arith)
        requires
            top + r >= 0 && canvas_w >= 0 && left + j >= 0,
    ;
}

/// Distinct decoded indices land on distinct canvas cells.
pub proof fn lemma_dest_pos_injective(
    i1: int,
    i2: int,
    left: int,
    top: int,
    w: int,
    h: int,
    interlaced: bool,
    canvas_w: int,
    canvas_h: int,
)
    requires
        0 <= i1 < w * h,
        0 <= i2 < w * h,
        i1 != i2,
        w >= 1,
        left >= 0,
        top >= 0,
        region_in_canvas(left, top, w, h, canvas_w, canvas_h),
    ensures
        dest_pos(i1, left, top, w, h, interlaced, canvas_w) != dest_pos(
            i2,
            left,
            top,
            w,
            h,
            interlaced,
            canvas_w,
        ),
{
    let k1 = i1 / w;
    let j1 = i1 % w;
    let k2 = i2 / w;
    let j2 = i2 % w;
    lemma_fundamental_div_mod(i1, w);
    lemma_mod_bound(i1, w);
    lemma_fundamental_div_mod(i2, w);
    lemma_mod_bound(i2, w);
    assert(0 <= k1 && k1 < h) by (nonlinear_arith)
        requires
            0 <= i1 < w * h && w >= 1 && i1 == w * k1 + j1 && 0 <= j1 < w,
    ;
    assert(0 <= k2 && k2 < h) by (nonlinear_arith)
        requires
            0 <= i2 < w * h && w >= 1 && i2 == w * k2 + j2 && 0 <= j2 < w,
    ;
    lemma_target_row_bounds(k1, h, interlaced);
    lemma_target_row_bounds(k2, h, interlaced);
    let r1 = target_row(k1, h, interlaced);
    let r2 = target_row(k2, h, interlaced);
    if k1 == k2 {
        assert(j1 != j2);
    } else {
        lemma_target_row_injective(k1, k2, h, interlaced);
        assert((top + r1) * canvas_w + left + j1 != (top + r2) * canvas_w + left + j2)
            by (nonlinear_arith)
            requires
                r1 != r2 && 0 <= left + j1 < canvas_w && 0 <= left + j2 < canvas_w && top + r1 >= 0
                    && top + r2 >= 0,
        ;
    }
}

/// Whether some decoded index of the region lands on canvas cell `p`.
pub open spec fn covered_below(
    p: int,
    n: int,
    left: int,
    top: int,
    w: int,
    h: int,
    interlaced: bool,
    canvas_w: int,
) -> bool {
    exists|i: int| 0 <= i < n && dest_pos(i, left, top, w, h, interlaced, canvas_w) == p
}

/// A cell covered by the first `n1` indices is covered by any longer
/// prefix.
proof fn lemma_covered_mono(
    p: int,
    n1: int,
    n2: int,
    left: int,
    top: int,
    w: int,
    h: int,
    il: bool,
    cw: int,
)
    requires
        n1 <= n2,
        covered_below(p, n1, left, top, w, h, il, cw),
    ensures
        covered_below(p, n2, left, top, w, h, il, cw),
{
    let i = choose|i: int| 0 <= i < n1 && dest_pos(i, left, top, w, h, il, cw) == p;
    assert(0 <= i < n2 && dest_pos(i, left, top, w, h, il, cw) == p);
}

/// A cell not covered by the first `i + 1` indices is not covered by
/// the first `i`, and is not where index `i` lands.
proof fn lemma_covered_step(p: int, i: int, left: int, top: int, w: int, h: int, il: bool, cw: int)
    requires
        0 <= i,
        !covered_below(p, i + 1, left, top, w, h, il, cw),
    ensures
        !covered_below(p, i, left, top, w, h, il, cw),
        dest_pos(i, left, top, w, h, il, cw) != p,
{
    if covered_below(p, i, left, top, w, h, il, cw) {
        lemma_covered_mono(p, i, i + 1, left, top, w, h, il, cw);
    }
    if dest_pos(i, left, top, w, h, il, cw) == p {
        assert(0 <= i < i + 1 && dest_pos(i, left, top, w, h, il, cw) == p);
        assert(covered_below(p, i + 1, left, top, w, h, il, cw));
    }
}

/// Executable row mapping, matching `target_row`.
fn target_row_exec(k: u16, h: u16, interlaced: bool) -> (r: u16)
    requires
        k < h,
    ensures
        r as int == target_row(k as int, h as int, interlaced),
        r < h,
{
    proof {
        lemma_target_row_bounds(k as int, h as int, interlaced);
    }
    if !interlaced {
        return k;
    }
    let hh = h as u32;
    let kk = k as u32;
    let n1 = (hh + 7) / 8;
    let n2 = (hh + 3) / 8;
    let n3 = (hh + 1) / 4;
    if kk < n1 {
        (8 * kk) as u16
    } else if kk < n1 + n2 {
        (8 * (kk - n1) + 4) as u16
    } else if kk < n1 + n2 + n3 {
        (4 * (kk - n1 - n2) + 2) as u16
    } else {
        (2 * (kk - n1 - n2 - n3) + 1) as u16
    }
}

/// The canvas cell where decoded index `i` lands, in bounds.
fn dest_pos_exec(
    i: usize,
    left: u16,
    top: u16,
    w: u16,
    h: u16,
    interlaced: bool,
    canvas_w: u16,
    canvas_h: u16,
) -> (r: usize)
    requires
        i < w as int * h as int,
        region_in_canvas(
            left as int,
            top as int,
            w as int,
            h as int,
            canvas_w as int,
            canvas_h as int,
        ),
    ensures
        r == dest_pos(i as int, left as int, top as int, w as int, h as int, interlaced,
            canvas_w as int),
        r < canvas_w as int * canvas_h as int,
{
    proof {
        assert(w as int >= 1) by (nonlinear_arith)
            requires
                0 <= (i as int) && (i as int) < w as int * h as int,
        ;
    }
    let k = i / (w as usize);
    let j = i % (w as usize);
    proof {
        lemma_fundamental_div_mod(i as int, w as int);
        lemma_mod_bound(i as int, w as int);
        assert(0 <= k as int && (k as int) < h as int) by (nonlinear_arith)
            requires
                0 <= (i as int) && (i as int) < w as int * h as int && w as int >= 1 && i as int
                    == w as int * (k as int) + j as int && 0 <= (j as int) && (j as int) < (
                w as int),
        ;
        lemma_dest_pos_bounds(
            i as int,
            left as int,
            top as int,
            w as int,
            h as int,
            interlaced,
            canvas_w as int,
            canvas_h as int,
        );
        assert(canvas_w as int * canvas_h as int <= 0xffff_ffff) by (nonlinear_arith)
            requires
                canvas_w as int <= 0xffff && canvas_h as int <= 0xffff,
        ;
    }
    let row = target_row_exec(k as u16, h, interlaced);
    (top as usize + row as usize) * (canvas_w as usize) + left as usize + j
}

/// A fresh copy of a pixel buffer: the canvas that builds the next
/// frame stays distinct from any frame already delivered.
pub fn copy_pixels(src: &Vec<u32>) -> (r: Vec<u32>)
    ensures
        r@ == src@,
{
    let mut out: Vec<u32> = Vec::new();
    let mut i: usize = 0;
    while i < src.len()
        invariant
            i <= src@.len(),
            out@ == src@.take(i as int),
        decreases src@.len() - i,
    {
        let v = src[i];
        out.push(v);
        proof {
            assert(src@.take(i as int + 1) =~= src@.take(i as int).push(src@[i as int]));
        }
        i = i + 1;
    }
    proof {
        assert(src@.take(src@.len() as int) =~= src@);
    }
    out
}

/// The rectangle of the canvas that a descriptor covers, as its own
/// row-major buffer; this is the one prior snapshot that
/// `RestoreToPrevious` needs.
pub fn copy_region(
    canvas: &Vec<u32>,
    canvas_w: u16,
    canvas_h: u16,
    left: u16,
    top: u16,
    w: u16,
    h: u16,
) -> (r: Vec<u32>)
    requires
        canvas@.len() == canvas_w as int * canvas_h as int,
        region_in_canvas(
            left as int,
            top as int,
            w as int,
            h as int,
            canvas_w as int,
            canvas_h as int,
        ),
    ensures
        r@.len() == w as int * h as int,
        forall|i: int|
            0 <= i < w as int * h as int ==> r@[i] == canvas@[dest_pos(
                i,
                left as int,
                top as int,
                w as int,
                h as int,
                false,
                canvas_w as int,
            )],
{
    proof {
        assert(w as int * h as int <= 0xffff_ffff) by (nonlinear_arith)
            requires
                w as int <= 0xffff && h as int <= 0xffff,
        ;
    }
    let n = (w as usize) * (h as usize);
    let mut out: Vec<u32> = Vec::new();
    let mut i: usize = 0;
    while i < n
        invariant
            i <= n,
            n == w as int * h as int,
            canvas@.len() == canvas_w as int * canvas_h as int,
            region_in_canvas(
                left as int,
                top as int,
                w as int,
                h as int,
                canvas_w as int,
                canvas_h as int,
            ),
            out@.len() == i,
            forall|i2: int|
                0 <= i2 < i ==> out@[i2] == canvas@[dest_pos(
                    i2,
                    left as int,
                    top as int,
                    w as int,
                    h as int,
                    false,
                    canvas_w as int,
                )],
        decreases n - i,
    {
        let pos = dest_pos_exec(i, left, top, w, h, false, canvas_w, canvas_h);
        let v = canvas[pos];
        out.push(v);
        i = i + 1;
    }
    out
}

/// Composites one image into the canvas and snapshots the whole
/// canvas as the delivered frame.
///
/// Every decoded index resolves through the palette to a fully opaque
/// pixel, except an index equal to the active transparent color
/// index, which leaves the canvas cell beneath it untouched. An
/// interlaced image fills its rows in the four-pass order. Cells
/// outside the image's cells never change.
#[verifier::rlimit(60)]
pub fn assemble(
    indices: &Vec<u8>,
    desc: &ImageDescriptor,
    palette: &Vec<u32>,
    control: &GraphicControlState,
    canvas: &mut Vec<u32>,
    canvas_w: u16,
    canvas_h: u16,
) -> (frame: GifFrame)
    requires
        old(canvas)@.len() == canvas_w as int * canvas_h as int,
        palette@.len() == 256,
        indices@.len() == desc.width as int * desc.height as int,
        region_in_canvas(
            desc.left as int,
            desc.top as int,
            desc.width as int,
            desc.height as int,
            canvas_w as int,
            canvas_h as int,
        ),
    ensures
        final(canvas)@.len() == old(canvas)@.len(),
        forall|i: int|
            0 <= i < indices@.len() ==> final(canvas)@[dest_pos(
                i,
                desc.left as int,
                desc.top as int,
                desc.width as int,
                desc.height as int,
                desc.interlaced,
                canvas_w as int,
            )] == (if is_transparent(*control, indices@[i]) {
                old(canvas)@[dest_pos(
                    i,
                    desc.left as int,
                    desc.top as int,
                    desc.width as int,
                    desc.height as int,
                    desc.interlaced,
                    canvas_w as int,
                )]
            } else {
                opaque_pixel(palette@[indices@[i] as int])
            }),
        forall|p: int|
            0 <= p < old(canvas)@.len() && !covered_below(
                p,
                indices@.len() as int,
                desc.left as int,
                desc.top as int,
                desc.width as int,
                desc.height as int,
                desc.interlaced,
                canvas_w as int,
            ) ==> final(canvas)@[p] == old(canvas)@[p],
        frame.width == canvas_w,
        frame.height == canvas_h,
        frame.pixels@ == final(canvas)@,
        frame.delay_cs == control.delay_cs,
        frame.disposal == control.disposal,
{
    let ghost c0 = canvas@;
    let ghost left = desc.left as int;
    let ghost top = desc.top as int;
    let ghost w = desc.width as int;
    let ghost h = desc.height as int;
    let ghost il = desc.interlaced;
    let ghost cw = canvas_w as int;
    let n = indices.len();
    let mut i: usize = 0;
    while i < n
        invariant
            i <= n,
            n == indices@.len(),
            indices@.len() == w * h,
            left == desc.left as int,
            top == desc.top as int,
            w == desc.width as int,
            h == desc.height as int,
            il == desc.interlaced,
            cw == canvas_w as int,
            c0 == old(canvas)@,
            c0.len() == canvas_w as int * canvas_h as int,
            palette@.len() == 256,
            region_in_canvas(left, top, w, h, cw, canvas_h as int),
            canvas@.len() == c0.len(),
            forall|i2: int|
                0 <= i2 < i ==> canvas@[dest_pos(i2, left, top, w, h, il, cw)] == (
                if is_transparent(*control, indices@[i2]) {
                    c0[dest_pos(i2, left, top, w, h, il, cw)]
                } else {
                    opaque_pixel(palette@[indices@[i2] as int])
                }),
            forall|p: int|
                0 <= p < c0.len() && !covered_below(p, i as int, left, top, w, h, il, cw)
                    ==> canvas@[p] == c0[p],
        decreases n - i,
    {
        let pos = dest_pos_exec(
            i,
            desc.left,
            desc.top,
            desc.width,
            desc.height,
            desc.interlaced,
            canvas_w,
            canvas_h,
        );
        let idx = indices[i];
        let transparent = match control.transparent_index {
            Some(t) => t == idx,
            None => false,
        };
        let ghost cprev = canvas@;
        if !transparent {
            let v = palette[idx as usize] | 0xff00_0000u32;
            canvas[pos] = v;
        }
        proof {
            assert(w >= 1) by (nonlinear_arith)
                requires
                    0 <= (i as int) && (i as int) < w * h && 0 <= w && 0 <= h,
            ;
            assert(!covered_below(pos as int, i as int, left, top, w, h, il, cw)) by {
                if covered_below(pos as int, i as int, left, top, w, h, il, cw) {
                    let i2 = choose|i2: int|
                        0 <= i2 < i && dest_pos(i2, left, top, w, h, il, cw) == pos as int;
                    lemma_dest_pos_injective(
                        i2,
                        i as int,
                        left,
                        top,
                        w,
                        h,
                        il,
                        cw,
                        canvas_h as int,
                    );
                }
            }
            assert forall|i2: int|
                0 <= i2 < i + 1 implies canvas@[dest_pos(i2, left, top, w, h, il, cw)] == (
            if is_transparent(*control, indices@[i2]) {
                c0[dest_pos(i2, left, top, w, h, il, cw)]
            } else {
                opaque_pixel(palette@[indices@[i2] as int])
            }) by {
                lemma_dest_pos_bounds(i2, left, top, w, h, il, cw, canvas_h as int);
                if i2 < i {
                    lemma_dest_pos_injective(
                        i2,
                        i as int,
                        left,
                        top,
                        w,
                        h,
                        il,
                        cw,
                        canvas_h as int,
                    );
                    assert(canvas@[dest_pos(i2, left, top, w, h, il, cw)] == cprev[dest_pos(
                        i2,
                        left,
                        top,
                        w,
                        h,
                        il,
                        cw,
                    )]);
                } else {
                    if transparent {
                        assert(canvas@[pos as int] == cprev[pos as int]);
                        assert(cprev[pos as int] == c0[pos as int]);
                    }
                }
            }
            assert forall|p: int|
                0 <= p < c0.len() && !covered_below(p, i as int + 1, left, top, w, h, il, cw)
                    implies canvas@[p] == c0[p] by {
                lemma_covered_step(p, i as int, left, top, w, h, il, cw);
            }
        }
        i = i + 1;
    }
    let pixels = copy_pixels(canvas);
    GifFrame {
        width: canvas_w,
        height: canvas_h,
        pixels,
        delay_cs: control.delay_cs,
        disposal: control.disposal,
    }
}

/// What a disposal pass writes at offset `i` of the region: the
/// prior content under `RestoreToPrevious`, the background value
/// otherwise.
pub open spec fn disposal_value(restore: bool, prior: Seq<u32>, bg: u32, i: int) -> u32 {
    if restore {
        prior[i]
    } else {
        bg
    }
}

/// Applies this frame's disposal method to the canvas before the next
/// frame is composited: leave it as-is, clear the affected cells to
/// the background value, or restore them to `prior`, their content
/// from just before this frame painted. Cells outside the region
/// never change, whatever the method.
#[verifier::rlimit(60)]
pub fn dispose(
    canvas: &mut Vec<u32>,
    canvas_w: u16,
    canvas_h: u16,
    desc: &ImageDescriptor,
    method: DisposalMethod,
    prior: &Vec<u32>,
    bg: u32,
)
    requires
        old(canvas)@.len() == canvas_w as int * canvas_h as int,
        region_in_canvas(
            desc.left as int,
            desc.top as int,
            desc.width as int,
            desc.height as int,
            canvas_w as int,
            canvas_h as int,
        ),
        method == DisposalMethod::RestoreToPrevious ==> prior@.len() == desc.width as int
            * desc.height as int,
    ensures
        final(canvas)@.len() == old(canvas)@.len(),
        method == DisposalMethod::NoDisposal || method == DisposalMethod::DoNotDispose
            ==> final(canvas)@ == old(canvas)@,
        method == DisposalMethod::RestoreToBackground ==> forall|i: int|
            0 <= i < desc.width as int * desc.height as int ==> final(canvas)@[dest_pos(
                i,
                desc.left as int,
                desc.top as int,
                desc.width as int,
                desc.height as int,
                false,
                canvas_w as int,
            )] == bg,
        method == DisposalMethod::RestoreToPrevious ==> forall|i: int|
            0 <= i < desc.width as int * desc.height as int ==> final(canvas)@[dest_pos(
                i,
                desc.left as int,
                desc.top as int,
                desc.width as int,
                desc.height as int,
                false,
                canvas_w as int,
            )] == prior@[i],
        forall|p: int|
            0 <= p < old(canvas)@.len() && !covered_below(
                p,
                desc.width as int * desc.height as int,
                desc.left as int,
                desc.top as int,
                desc.width as int,
                desc.height as int,
                false,
                canvas_w as int,
            ) ==> final(canvas)@[p] == old(canvas)@[p],
{
    match method {
        DisposalMethod::NoDisposal => {
            return ;
        },
        DisposalMethod::DoNotDispose => {
            return ;
        },
        _ => {},
    }
    let restore = match method {
        DisposalMethod::RestoreToPrevious => true,
        _ => false,
    };
    let ghost c0 = canvas@;
    let ghost left = desc.left as int;
    let ghost top = desc.top as int;
    let ghost w = desc.width as int;
    let ghost h = desc.height as int;
    let ghost cw = canvas_w as int;
    proof {
        assert(w * h <= 0xffff_ffff) by (nonlinear_arith)
            requires
                w <= 0xffff && h <= 0xffff && 0 <= w && 0 <= h,
        ;
    }
    let n = (desc.width as usize) * (desc.height as usize);
    let mut i: usize = 0;
    while i < n
        invariant
            i <= n,
            n == w * h,
            left == desc.left as int,
            top == desc.top as int,
            w == desc.width as int,
            h == desc.height as int,
            cw == canvas_w as int,
            c0 == old(canvas)@,
            c0.len() == canvas_w as int * canvas_h as int,
            region_in_canvas(left, top, w, h, cw, canvas_h as int),
            restore <==> method == DisposalMethod::RestoreToPrevious,
            restore ==> prior@.len() == w * h,
            canvas@.len() == c0.len(),
            forall|i2: int|
                0 <= i2 < i ==> canvas@[dest_pos(i2, left, top, w, h, false, cw)]
                    == disposal_value(restore, prior@, bg, i2),
            forall|p: int|
                0 <= p < c0.len() && !covered_below(p, i as int, left, top, w, h, false, cw)
                    ==> canvas@[p] == c0[p],
        decreases n - i,
    {
        let pos = dest_pos_exec(
            i,
            desc.left,
            desc.top,
            desc.width,
            desc.height,
            false,
            canvas_w,
            canvas_h,
        );
        let v = if restore {
            prior[i]
        } else {
            bg
        };
        let ghost cprev = canvas@;
        canvas[pos] = v;
        proof {
            assert(w >= 1) by (nonlinear_arith)
                requires
                    0 <= (i as int) && (i as int) < w * h && 0 <= w && 0 <= h,
            ;
            assert forall|i2: int|
                0 <= i2 < i + 1 implies canvas@[dest_pos(i2, left, top, w, h, false, cw)]
                    == disposal_value(restore, prior@, bg, i2) by {
                lemma_dest_pos_bounds(i2, left, top, w, h, false, cw, canvas_h as int);
                if i2 < i {
                    lemma_dest_pos_injective(
                        i2,
                        i as int,
                        left,
                        top,
                        w,
                        h,
                        false,
                        cw,
                        canvas_h as int,
                    );
                    assert(canvas@[dest_pos(i2, left, top, w, h, false, cw)] == cprev[dest_pos(
                        i2,
                        left,
                        top,
                        w,
                        h,
                        false,
                        cw,
                    )]);
                }
            }
            assert forall|p: int|
                0 <= p < c0.len() && !covered_below(p, i as int + 1, left, top, w, h, false, cw)
                    implies canvas@[p] == c0[p] by {
                lemma_covered_step(p, i as int, left, top, w, h, false, cw);
            }
        }
        i = i + 1;
    }
    proof {
        if method == DisposalMethod::RestoreToBackground {
            assert forall|i3: int|
                0 <= i3 < desc.width as int * desc.height as int implies canvas@[dest_pos(
                    i3,
                    desc.left as int,
                    desc.top as int,
                    desc.width as int,
                    desc.height as int,
                    false,
                    canvas_w as int,
                )] == bg by {
                assert(canvas@[dest_pos(i3, left, top, w, h, false, cw)] == disposal_value(
                    restore,
                    prior@,
                    bg,
                    i3,
                ));
            }
        }
        if method == DisposalMethod::RestoreToPrevious {
            assert forall|i3: int|
                0 <= i3 < desc.width as int * desc.height as int implies canvas@[dest_pos(
                    i3,
                    desc.left as int,
                    desc.top as int,
                    desc.width as int,
                    desc.height as int,
                    false,
                    canvas_w as int,
                )] == prior@[i3] by {
                assert(canvas@[dest_pos(i3, left, top, w, h, false, cw)] == disposal_value(
                    restore,
                    prior@,
                    bg,
                    i3,
                ));
            }
        }
    }
}

/// Ghost model of one delivered frame: the whole-canvas snapshot with
/// its animation metadata.
pub ghost struct FrameModel {
    pub width: u16,
    pub height: u16,
    pub pixels: Seq<u32>,
    pub delay_cs: u16,
    pub disposal: DisposalMethod,
}

/// The model a concrete frame denotes.
pub open spec fn frame_model(f: GifFrame) -> FrameModel {
    FrameModel {
        width: f.width,
        height: f.height,
        pixels: f.pixels@,
        delay_cs: f.delay_cs,
        disposal: f.disposal,
    }
}

/// A concrete frame carries exactly a model's content.
pub open spec fn frame_matches(f: GifFrame, m: FrameModel) -> bool {
    frame_model(f) == m
}

/// The models of a sequence of delivered frames, in order.
pub open spec fn models_of(fs: Seq<GifFrame>) -> Seq<FrameModel> {
    fs.map_values(|f: GifFrame| frame_model(f))
}

/// Frame-for-frame agreement between delivered frames and models.
pub open spec fn models_match(fs: Seq<GifFrame>, ms: Seq<FrameModel>) -> bool {
    models_of(fs) == ms
}

/// The canvas after one image is composited: each covered cell takes
/// the palette color of the decoded index that lands there, or keeps
/// its old value when that index is the transparent one; every other
/// cell stays.
pub open spec fn spec_composite(
    canvas: Seq<u32>,
    indices: Seq<u8>,
    d: ImageDescriptor,
    palette: Seq<u32>,
    control: GraphicControlState,
    canvas_w: int,
) -> Seq<u32> {
    Seq::new(
        canvas.len(),
        |p: int|
            if covered_below(
                p,
                indices.len() as int,
                d.left as int,
                d.top as int,
                d.width as int,
                d.height as int,
                d.interlaced,
                canvas_w,
            ) {
                let i = choose|i: int|
                    0 <= i < indices.len() && dest_pos(
                        i,
                        d.left as int,
                        d.top as int,
                        d.width as int,
                        d.height as int,
                        d.interlaced,
                        canvas_w,
                    ) == p;
                if is_transparent(control, indices[i]) {
                    canvas[p]
                } else {
                    opaque_pixel(palette[indices[i] as int])
                }
            } else {
                canvas[p]
            },
    )
}

/// What `RestoreToBackground` paints: transparent when the frame had
/// a transparent index, else the opaque background table color.
pub open spec fn disposal_bg(control: GraphicControlState, table: Seq<u32>, bg_index: u8) -> u32 {
    if control.transparent_index is Some {
        0u32
    } else {
        opaque_pixel(table[bg_index as int])
    }
}

/// The canvas after disposal readies it for the next frame: the
/// region cells go to the background value or back to their content
/// from before the compositing; other methods leave everything.
pub open spec fn spec_disposed(
    after: Seq<u32>,
    before: Seq<u32>,
    d: ImageDescriptor,
    control: GraphicControlState,
    table: Seq<u32>,
    bg_index: u8,
    canvas_w: int,
) -> Seq<u32> {
    if control.disposal == DisposalMethod::RestoreToBackground {
        Seq::new(
            after.len(),
            |p: int|
                if covered_below(
                    p,
                    d.width as int * d.height as int,
                    d.left as int,
                    d.top as int,
                    d.width as int,
                    d.height as int,
                    false,
                    canvas_w,
                ) {
                    disposal_bg(control, table, bg_index)
                } else {
                    after[p]
                },
        )
    } else if control.disposal == DisposalMethod::RestoreToPrevious {
        Seq::new(
            after.len(),
            |p: int|
                if covered_below(
                    p,
                    d.width as int * d.height as int,
                    d.left as int,
                    d.top as int,
                    d.width as int,
                    d.height as int,
                    false,
                    canvas_w,
                ) {
                    before[p]
                } else {
                    after[p]
                },
        )
    } else {
        after
    }
}

/// The pointwise facts `assemble` ensures pin the whole canvas to
/// `spec_composite`.
pub proof fn lemma_composite_pointwise(
    c0: Seq<u32>,
    c1: Seq<u32>,
    indices: Seq<u8>,
    d: ImageDescriptor,
    palette: Seq<u32>,
    control: GraphicControlState,
    canvas_w: u16,
    canvas_h: u16,
)
    requires
        c0.len() == canvas_w as int * canvas_h as int,
        c1.len() == c0.len(),
        indices.len() == d.width as int * d.height as int,
        region_in_canvas(
            d.left as int,
            d.top as int,
            d.width as int,
            d.height as int,
            canvas_w as int,
            canvas_h as int,
        ),
        forall|i: int|
            0 <= i < indices.len() ==> c1[dest_pos(
                i,
                d.left as int,
                d.top as int,
                d.width as int,
                d.height as int,
                d.interlaced,
                canvas_w as int,
            )] == (if is_transparent(control, indices[i]) {
                c0[dest_pos(
                    i,
                    d.left as int,
                    d.top as int,
                    d.width as int,
                    d.height as int,
                    d.interlaced,
                    canvas_w as int,
                )]
            } else {
                opaque_pixel(palette[indices[i] as int])
            }),
        forall|p: int|
            0 <= p < c0.len() && !covered_below(
                p,
                indices.len() as int,
                d.left as int,
                d.top as int,
                d.width as int,
                d.height as int,
                d.interlaced,
                canvas_w as int,
            ) ==> c1[p] == c0[p],
    ensures
        c1 == spec_composite(c0, indices, d, palette, control, canvas_w as int),
{
    let sc = spec_composite(c0, indices, d, palette, control, canvas_w as int);
    assert forall|p: int| 0 <= p < c1.len() implies c1[p] == sc[p] by {
        if covered_below(
            p,
            indices.len() as int,
            d.left as int,
            d.top as int,
            d.width as int,
            d.height as int,
            d.interlaced,
            canvas_w as int,
        ) {
            let i = choose|i: int|
                0 <= i < indices.len() && dest_pos(
                    i,
                    d.left as int,
                    d.top as int,
                    d.width as int,
                    d.height as int,
                    d.interlaced,
                    canvas_w as int,
                ) == p;
            assert(0 <= i < indices.len() && dest_pos(
                i,
                d.left as int,
                d.top as int,
                d.width as int,
                d.height as int,
                d.interlaced,
                canvas_w as int,
            ) == p);
        }
    }
    assert(c1 =~= sc);
}

/// The pointwise facts `dispose` and the prior-region snapshot ensure
/// pin the whole canvas to `spec_disposed`.
pub proof fn lemma_disposed_pointwise(
    c1: Seq<u32>,
    c2: Seq<u32>,
    before: Seq<u32>,
    prior: Seq<u32>,
    d: ImageDescriptor,
    control: GraphicControlState,
    table: Seq<u32>,
    bg_index: u8,
    canvas_w: u16,
    canvas_h: u16,
)
    requires
        c1.len() == canvas_w as int * canvas_h as int,
        c2.len() == c1.len(),
        before.len() == c1.len(),
        region_in_canvas(
            d.left as int,
            d.top as int,
            d.width as int,
            d.height as int,
            canvas_w as int,
            canvas_h as int,
        ),
        control.disposal == DisposalMethod::NoDisposal || control.disposal
            == DisposalMethod::DoNotDispose ==> c2 == c1,
        control.disposal == DisposalMethod::RestoreToBackground ==> forall|i: int|
            0 <= i < d.width as int * d.height as int ==> c2[dest_pos(
                i,
                d.left as int,
                d.top as int,
                d.width as int,
                d.height as int,
                false,
                canvas_w as int,
            )] == disposal_bg(control, table, bg_index),
        control.disposal == DisposalMethod::RestoreToPrevious ==> prior.len() == d.width as int
            * d.height as int && (forall|i: int|
            0 <= i < d.width as int * d.height as int ==> c2[dest_pos(
                i,
                d.left as int,
                d.top as int,
                d.width as int,
                d.height as int,
                false,
                canvas_w as int,
            )] == prior[i]) && (forall|i: int|
            0 <= i < d.width as int * d.height as int ==> prior[i] == before[dest_pos(
                i,
                d.left as int,
                d.top as int,
                d.width as int,
                d.height as int,
                false,
                canvas_w as int,
            )]),
        forall|p: int|
            0 <= p < c1.len() && !covered_below(
                p,
                d.width as int * d.height as int,
                d.left as int,
                d.top as int,
                d.width as int,
                d.height as int,
                false,
                canvas_w as int,
            ) ==> c2[p] == c1[p],
    ensures
        c2 == spec_disposed(c1, before, d, control, table, bg_index, canvas_w as int),
{
    let sd = spec_disposed(c1, before, d, control, table, bg_index, canvas_w as int);
    if control.disposal == DisposalMethod::RestoreToBackground || control.disposal
        == DisposalMethod::RestoreToPrevious {
        assert forall|p: int| 0 <= p < c2.len() implies c2[p] == sd[p] by {
            if covered_below(
                p,
                d.width as int * d.height as int,
                d.left as int,
                d.top as int,
                d.width as int,
                d.height as int,
                false,
                canvas_w as int,
            ) {
                let i = choose|i: int|
                    0 <= i < d.width as int * d.height as int && dest_pos(
                        i,
                        d.left as int,
                        d.top as int,
                        d.width as int,
                        d.height as int,
                        false,
                        canvas_w as int,
                    ) == p;
                assert(0 <= i < d.width as int * d.height as int && dest_pos(
                    i,
                    d.left as int,
                    d.top as int,
                    d.width as int,
                    d.height as int,
                    false,
                    canvas_w as int,
                ) == p);
                if control.disposal == DisposalMethod::RestoreToBackground {
                    assert(c2[p] == disposal_bg(control, table, bg_index));
                } else {
                    assert(c2[p] == prior[i]);
                    assert(prior[i] == before[p]);
                }
            }
        }
        assert(c2 =~= sd);
    }
}

} // verus!
