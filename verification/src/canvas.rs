//! Layer canvases and the compositor: fixed-size single-channel pixel
//! buffers into which each placed glyph's bitmap is blitted at its assigned
//! offset, overwriting, never blending.

use vstd::prelude::*;

verus! {

use crate::pack::{layer_used, Placement, placement_in_bounds, placements_disjoint};
use vstd::pervasive::VecAdditionalExecFns;

/// A fixed-size single-channel pixel canvas, row-major, one byte per pixel.
#[derive(Debug)]
pub struct Canvas {
    pub width: u32,
    pub height: u32,
    pub pixels: Vec<u8>,
}

/// A glyph's rasterized bitmap: its declared dimensions and its samples,
/// row-major, one byte per pixel.
#[derive(Debug)]
pub struct GlyphBitmap {
    pub width: u32,
    pub height: u32,
    pub pixels: Vec<u8>,
}

/// A rasterized buffer's declared dimensions disagree with the placement it
/// was packed under: an inconsistency between the size query and the
/// rasterization, never silently tolerated.
#[derive(Clone, Copy, PartialEq, Eq, Structural, Debug)]
pub struct RasterBufferMismatchError {
    pub id: char,
}

impl Canvas {
    /// The canvas's pixel vector covers exactly `width * height` samples.
    pub open spec fn wf(self) -> bool {
        self.pixels@.len() == self.width as int * self.height as int
    }

    /// The sample stored at column `x`, row `y`.
    pub open spec fn pixel_at(self, x: int, y: int) -> u8 {
        self.pixels@[y * self.width as int + x]
    }
}

impl GlyphBitmap {
    /// The bitmap's pixel vector covers exactly its declared size.
    pub open spec fn wf(self) -> bool {
        self.pixels@.len() == self.width as int * self.height as int
    }
}

/// A pixel's row-major index lies within the canvas.
pub proof fn lemma_pixel_index_in_range(x: int, y: int, w: int, h: int)
    by (nonlinear_arith)
    requires
        0 <= x < w,
        0 <= y < h,
    ensures
        0 <= y * w + x < w * h,
{
}

/// Distinct pixel coordinates have distinct row-major indices.
proof fn lemma_pixel_index_injective(w: int, x1: int, y1: int, x2: int, y2: int)
    by (nonlinear_arith)
    requires
        0 <= x1 < w,
        0 <= x2 < w,
        0 <= y1,
        0 <= y2,
        x1 != x2 || y1 != y2,
    ensures
        y1 * w + x1 != y2 * w + x2,
{
}

/// A fresh all-zero canvas of the given fixed size.
pub fn canvas_new(width: u32, height: u32) -> (c: Canvas)
    requires
        width as int * height as int <= usize::MAX as int,
    ensures
        c.wf(),
        c.width == width,
        c.height == height,
        forall|j: int| 0 <= j < c.pixels@.len() ==> c.pixels@[j] == 0u8,
{
    proof {
        lemma_mul_nonneg(width as int, height as int);
    }
    let n: usize = (width as usize) * (height as usize);
    let mut pixels: Vec<u8> = Vec::new();
    let mut j: usize = 0;
    while j < n
        invariant
            0 <= j <= n,
            pixels@.len() == j,
            forall|i: int| 0 <= i < j ==> pixels@[i] == 0u8,
        decreases n - j,
    {
        pixels.push(0u8);
        j = j + 1;
    }
    Canvas { width, height, pixels }
}

proof fn lemma_mul_nonneg(a: int, b: int)
    by (nonlinear_arith)
    requires
        0 <= a,
        0 <= b,
    ensures
        0 <= a * b,
        a * b == b * a,
{
}

/// Blit (overwrite, never blend) a `w`-by-`h` source buffer into the canvas
/// at offset `(x, y)`: every pixel inside the target rectangle takes the
/// source's sample, every pixel outside it keeps its old value.
pub fn blit(canvas: &mut Canvas, x: u32, y: u32, w: u32, h: u32, src: &Vec<u8>)
    requires
        old(canvas).wf(),
        x + w <= old(canvas).width,
        y + h <= old(canvas).height,
        src@.len() == w as int * h as int,
    ensures
        final(canvas).wf(),
        final(canvas).width == old(canvas).width,
        final(canvas).height == old(canvas).height,
        forall|px: int, py: int|
            x <= px < x + w && y <= py < y + h
                ==> (#[trigger] final(canvas).pixel_at(px, py))
                    == src@[(py - y) * w as int + (px - x)],
        forall|px: int, py: int|
            0 <= px < old(canvas).width && 0 <= py < old(canvas).height
                && !(x <= px < x + w && y <= py < y + h)
                ==> (#[trigger] final(canvas).pixel_at(px, py))
                    == old(canvas).pixel_at(px, py),
{
    let cw = canvas.width;
    let n: usize = src.len();
    let mut dy: u32 = 0;
    while dy < h
        invariant
            0 <= dy <= h,
            canvas.wf(),
            canvas.width == old(canvas).width,
            canvas.height == old(canvas).height,
            x + w <= canvas.width,
            y + h <= canvas.height,
            cw == canvas.width,
            src@.len() == w as int * h as int,
            n == src@.len(),
            forall|px: int, py: int|
                x <= px < x + w && y <= py < y + dy
                    ==> (#[trigger] canvas.pixel_at(px, py))
                        == src@[(py - y) * w as int + (px - x)],
            forall|px: int, py: int|
                0 <= px < canvas.width && 0 <= py < canvas.height
                    && !(x <= px < x + w && y <= py < y + dy)
                    ==> (#[trigger] canvas.pixel_at(px, py))
                        == old(canvas).pixel_at(px, py),
        decreases h - dy,
    {
        let mut dx: u32 = 0;
        while dx < w
            invariant
                0 <= dx <= w,
                0 <= dy < h,
                canvas.wf(),
                canvas.width == old(canvas).width,
                canvas.height == old(canvas).height,
                x + w <= canvas.width,
                y + h <= canvas.height,
                cw == canvas.width,
                src@.len() == w as int * h as int,
                n == src@.len(),
                forall|px: int, py: int|
                    x <= px < x + w && y <= py < y + dy
                        ==> (#[trigger] canvas.pixel_at(px, py))
                            == src@[(py - y) * w as int + (px - x)],
                forall|px: int|
                    x <= px < x + dx
                        ==> (#[trigger] canvas.pixel_at(px, y + dy))
                            == src@[dy as int * w as int + (px - x)],
                forall|px: int, py: int|
                    0 <= px < canvas.width && 0 <= py < canvas.height
                        && !(x <= px < x + w && y <= py < y + dy)
                        && !(py == y + dy && x <= px < x + dx)
                        ==> (#[trigger] canvas.pixel_at(px, py))
                            == old(canvas).pixel_at(px, py),
            decreases w - dx,
        {
            proof {
                lemma_pixel_index_in_range(
                    x + dx as int, y + dy as int, canvas.width as int, canvas.height as int,
                );
                lemma_pixel_index_in_range(dx as int, dy as int, w as int, h as int);
            }
            let sample = src[(dy as usize) * (w as usize) + (dx as usize)];
            let cap: usize = canvas.pixels.len();
            assert(((y + dy) as int) * (cw as int) + ((x + dx) as int) < cap as int);
            let idx: usize = ((y + dy) as usize) * (cw as usize) + ((x + dx) as usize);
            let ghost pre = *canvas;
            canvas.pixels.set(idx, sample);
            proof {
                let tx = x + dx as int;
                let ty = y + dy as int;
                assert(canvas.pixel_at(tx, ty) == sample);
                assert forall|px: int, py: int|
                    0 <= px < canvas.width && 0 <= py < canvas.height
                        && (px != tx || py != ty)
                    implies (#[trigger] canvas.pixel_at(px, py)) == pre.pixel_at(px, py) by {
                    lemma_pixel_index_injective(canvas.width as int, px, py, tx, ty);
                    lemma_pixel_index_in_range(
                        px, py, canvas.width as int, canvas.height as int,
                    );
                }
            }
            dx = dx + 1;
        }
        dy = dy + 1;
    }
}

proof fn lemma_row_col(j: int, w: int, h: int)
    by (nonlinear_arith)
    requires
        0 <= j,
        0 < w,
        j < w * h,
    ensures
        0 <= j % w < w,
        0 <= j / w < h,
        (j / w) * w + (j % w) == j,
{
}

/// Copy the `w`-by-`h` rectangle of the canvas at offset `(x, y)` out into a
/// row-major buffer: sample `j` of the result is the canvas sample at column
/// `x + j % w`, row `y + j / w`.
pub fn crop(canvas: &Canvas, x: u32, y: u32, w: u32, h: u32) -> (r: Vec<u8>)
    requires
        canvas.wf(),
        x + w <= canvas.width,
        y + h <= canvas.height,
        w as int * h as int <= usize::MAX as int,
    ensures
        r@.len() == w as int * h as int,
        forall|j: int| 0 <= j < r@.len()
            ==> #[trigger] r@[j] == canvas.pixel_at(
                x + j % (w as int), y + j / (w as int),
            ),
{
    proof {
        lemma_mul_nonneg(w as int, h as int);
    }
    let n: usize = (w as usize) * (h as usize);
    let mut r: Vec<u8> = Vec::new();
    let mut j: usize = 0;
    while j < n
        invariant
            0 <= j <= n,
            n == w as int * h as int,
            canvas.wf(),
            x + w <= canvas.width,
            y + h <= canvas.height,
            r@.len() == j,
            forall|i: int| 0 <= i < j
                ==> #[trigger] r@[i] == canvas.pixel_at(
                    x + i % (w as int), y + i / (w as int),
                ),
        decreases n - j,
    {
        assert(w > 0);
        proof {
            lemma_row_col(j as int, w as int, h as int);
            lemma_pixel_index_in_range(
                x + (j as int) % (w as int),
                y + (j as int) / (w as int),
                canvas.width as int,
                canvas.height as int,
            );
        }
        let dx: usize = j % (w as usize);
        let dy: usize = j / (w as usize);
        let cap: usize = canvas.pixels.len();
        assert((y as int + dy as int) * (canvas.width as int) + (x as int + dx as int)
            < cap as int);
        let sample = canvas.pixels[((y as usize) + dy) * (canvas.width as usize)
            + ((x as usize) + dx)];
        r.push(sample);
        j = j + 1;
    }
    r
}

/// How many layers a placement set references: zero when it is empty, else
/// one more than the highest layer index referenced.
pub open spec fn layer_count(ps: Seq<Placement>) -> int
    decreases ps.len(),
{
    if ps.len() == 0 {
        0
    } else {
        let rest = layer_count(ps.drop_last());
        if ps.last().layer as int + 1 > rest {
            ps.last().layer as int + 1
        } else {
            rest
        }
    }
}

/// Every placement's layer index lies below the layer count, and a
/// non-empty placement set reaches the highest counted layer.
pub proof fn lemma_layer_count_props(ps: Seq<Placement>)
    ensures
        0 <= layer_count(ps),
        forall|k: int| 0 <= k < ps.len() ==> (#[trigger] ps[k]).layer < layer_count(ps),
        ps.len() > 0 ==> exists|k: int| 0 <= k < ps.len()
            && (#[trigger] ps[k]).layer as int == layer_count(ps) - 1,
    decreases ps.len(),
{
    if ps.len() != 0 {
        lemma_layer_count_props(ps.drop_last());
        assert(forall|k: int| 0 <= k < ps.len() - 1 ==> ps.drop_last()[k] == ps[k]);
        if ps.last().layer as int + 1 > layer_count(ps.drop_last()) {
            assert(ps[ps.len() - 1].layer as int == layer_count(ps) - 1);
        } else {
            let k = choose|k: int| 0 <= k < ps.len() - 1
                && (#[trigger] ps.drop_last()[k]).layer as int
                    == layer_count(ps.drop_last()) - 1;
            assert(ps[k].layer as int == layer_count(ps) - 1);
        }
    }
}

/// Some placement, of any area, sits on this layer.
pub open spec fn layer_referenced(ps: Seq<Placement>, l: int) -> bool {
    exists|k: int| 0 <= k < ps.len() && (#[trigger] ps[k]).layer as int == l
}

/// No empty layer is ever materialized: under the packer's guarantees —
/// every index below a glyph-bearing layer bears a glyph itself, and
/// zero-area placements sit on layer zero — every layer the compositor
/// allocates is referenced by some placement.
pub proof fn lemma_no_empty_layer(ps: Seq<Placement>)
    requires
        forall|k: int, l: u32| #![trigger ps[k].layer, layer_used(ps, l)]
            0 <= k < ps.len() && ps[k].width > 0 && ps[k].height > 0
            && l < ps[k].layer ==> layer_used(ps, l),
        forall|k: int| 0 <= k < ps.len() && (ps[k].width == 0 || ps[k].height == 0)
            ==> (#[trigger] ps[k]).layer == 0,
    ensures
        forall|l: int| 0 <= l < layer_count(ps) ==> #[trigger] layer_referenced(ps, l),
{
    lemma_layer_count_props(ps);
    assert forall|l: int| 0 <= l < layer_count(ps) implies #[trigger] layer_referenced(
        ps, l,
    ) by {
        let top = choose|k: int| 0 <= k < ps.len()
            && (#[trigger] ps[k]).layer as int == layer_count(ps) - 1;
        if l == ps[top].layer as int {
            assert(layer_referenced(ps, l));
        } else {
            assert(ps[top].width > 0 && ps[top].height > 0);
            assert(layer_used(ps, l as u32));
            let k = choose|k: int| 0 <= k < ps.len() && (#[trigger] ps[k]).layer == l as u32
                && ps[k].width > 0 && ps[k].height > 0;
            assert(layer_referenced(ps, l));
        }
    }
}

/// The point `(px, py)` lies inside the placement's rectangle on this layer.
pub open spec fn covers(p: Placement, layer: int, px: int, py: int) -> bool {
    p.layer as int == layer
    && p.x <= px < p.x + p.width
    && p.y <= py < p.y + p.height
}

/// The canvas holds the bitmap's samples throughout the placement's
/// rectangle.
pub open spec fn region_holds_bitmap(c: Canvas, p: Placement, bm: GlyphBitmap) -> bool {
    forall|px: int, py: int|
        p.x <= px < p.x + p.width && p.y <= py < p.y + p.height
            ==> (#[trigger] c.pixel_at(px, py))
                == bm.pixels@[(py - p.y) * p.width as int + (px - p.x)]
}

/// The bitmap's declared dimensions disagree with the placement's.
pub open spec fn bitmap_mismatch(p: Placement, bm: GlyphBitmap) -> bool {
    p.width != bm.width || p.height != bm.height
}

/// Composite every placed glyph into its layer: allocate one all-zero canvas
/// per referenced layer, then blit each bitmap at its placement's offset.
///
/// Fails with `RasterBufferMismatchError`, naming the first offending glyph,
/// exactly when some bitmap's declared dimensions disagree with its
/// placement's. Otherwise every placement's rectangle holds its bitmap's
/// samples and every pixel outside all placed rectangles is zero.
pub fn composite(
    placements: &Vec<Placement>,
    bitmaps: &Vec<GlyphBitmap>,
    layer_width: u32,
    layer_height: u32,
) -> (r: Result<Vec<Canvas>, RasterBufferMismatchError>)
    requires
        placements@.len() == bitmaps@.len(),
        forall|k: int| 0 <= k < bitmaps@.len() ==> (#[trigger] bitmaps@[k]).wf(),
        forall|k: int| 0 <= k < placements@.len()
            ==> placement_in_bounds(#[trigger] placements@[k], layer_width, layer_height),
        forall|k: int, l: int|
            0 <= k < placements@.len() && 0 <= l < placements@.len() && k != l
                ==> placements_disjoint(#[trigger] placements@[k], #[trigger] placements@[l]),
        layer_width as int * layer_height as int <= usize::MAX as int,
        layer_count(placements@) <= usize::MAX as int,
    ensures
        r is Err <==> exists|k: int| 0 <= k < placements@.len()
            && bitmap_mismatch(#[trigger] placements@[k], bitmaps@[k]),
        r matches Err(e) ==> exists|k: int| 0 <= k < placements@.len()
            && bitmap_mismatch(#[trigger] placements@[k], bitmaps@[k])
            && placements@[k].id == e.id
            && forall|j: int| 0 <= j < k ==> !bitmap_mismatch(placements@[j], bitmaps@[j]),
        r matches Ok(cs) ==> {
            &&& cs@.len() == layer_count(placements@)
            &&& forall|i: int| 0 <= i < cs@.len()
                ==> (#[trigger] cs@[i]).wf() && cs@[i].width == layer_width
                    && cs@[i].height == layer_height
            &&& forall|k: int| 0 <= k < placements@.len()
                ==> region_holds_bitmap(
                    cs@[(#[trigger] placements@[k]).layer as int],
                    placements@[k],
                    bitmaps@[k],
                )
            &&& forall|i: int, px: int, py: int|
                0 <= i < cs@.len() && 0 <= px < layer_width && 0 <= py < layer_height
                    && (forall|k: int| 0 <= k < placements@.len()
                        ==> !covers(#[trigger] placements@[k], i, px, py))
                    ==> (#[trigger] cs@[i].pixel_at(px, py)) == 0u8
        },
{
    let mut k: usize = 0;
    while k < placements.len()
        invariant
            0 <= k <= placements@.len(),
            placements@.len() == bitmaps@.len(),
            forall|j: int| 0 <= j < k
                ==> !bitmap_mismatch(#[trigger] placements@[j], bitmaps@[j]),
        decreases placements@.len() - k,
    {
        let p = &placements[k];
        let bm = &bitmaps[k];
        if p.width != bm.width || p.height != bm.height {
            return Err(RasterBufferMismatchError { id: p.id });
        }
        k = k + 1;
    }

    proof {
        lemma_layer_count_props(placements@);
    }
    let mut count: usize = 0;
    let mut k: usize = 0;
    proof {
        assert(placements@.take(0) =~= Seq::<Placement>::empty());
    }
    while k < placements.len()
        invariant
            0 <= k <= placements@.len(),
            count as int == layer_count(placements@.take(k as int)),
            layer_count(placements@) <= usize::MAX as int,
            forall|j: int| 0 <= j < placements@.len()
                ==> (#[trigger] placements@[j]).layer < layer_count(placements@),
        decreases placements@.len() - k,
    {
        proof {
            let pre = placements@.take(k as int);
            let post = placements@.take(k + 1 as int);
            assert(post.drop_last() =~= pre);
            assert(post.last() == placements@[k as int]);
        }
        let layer = placements[k].layer;
        if (layer as usize) + 1 > count {
            count = (layer as usize) + 1;
        }
        k = k + 1;
    }
    proof {
        assert(placements@.take(placements@.len() as int) =~= placements@);
    }

    let mut canvases: Vec<Canvas> = Vec::new();
    let mut i: usize = 0;
    while i < count
        invariant
            0 <= i <= count,
            layer_width as int * layer_height as int <= usize::MAX as int,
            canvases@.len() == i,
            forall|j: int| 0 <= j < i
                ==> (#[trigger] canvases@[j]).wf() && canvases@[j].width == layer_width
                    && canvases@[j].height == layer_height,
            forall|j: int, px: int, py: int|
                0 <= j < i && 0 <= px < layer_width && 0 <= py < layer_height
                    ==> (#[trigger] canvases@[j].pixel_at(px, py)) == 0u8,
        decreases count - i,
    {
        let c = canvas_new(layer_width, layer_height);
        proof {
            assert forall|px: int, py: int|
                0 <= px < layer_width && 0 <= py < layer_height
                implies (#[trigger] c.pixel_at(px, py)) == 0u8 by {
                lemma_pixel_index_in_range(px, py, layer_width as int, layer_height as int);
            }
        }
        canvases.push(c);
        i = i + 1;
    }

    let mut k: usize = 0;
    while k < placements.len()
        invariant
            0 <= k <= placements@.len(),
            placements@.len() == bitmaps@.len(),
            forall|j: int| 0 <= j < bitmaps@.len() ==> (#[trigger] bitmaps@[j]).wf(),
            forall|j: int| 0 <= j < placements@.len()
                ==> placement_in_bounds(#[trigger] placements@[j], layer_width, layer_height),
            forall|j: int, l: int|
                0 <= j < placements@.len() && 0 <= l < placements@.len() && j != l
                    ==> placements_disjoint(
                        #[trigger] placements@[j], #[trigger] placements@[l],
                    ),
            forall|j: int| 0 <= j < placements@.len()
                ==> !bitmap_mismatch(#[trigger] placements@[j], bitmaps@[j]),
            forall|j: int| 0 <= j < placements@.len()
                ==> (#[trigger] placements@[j]).layer < canvases@.len(),
            canvases@.len() == layer_count(placements@),
            forall|i2: int| 0 <= i2 < canvases@.len()
                ==> (#[trigger] canvases@[i2]).wf() && canvases@[i2].width == layer_width
                    && canvases@[i2].height == layer_height,
            forall|j: int| 0 <= j < k
                ==> region_holds_bitmap(
                    canvases@[(#[trigger] placements@[j]).layer as int],
                    placements@[j],
                    bitmaps@[j],
                ),
            forall|i2: int, px: int, py: int|
                0 <= i2 < canvases@.len() && 0 <= px < layer_width && 0 <= py < layer_height
                    && (forall|j: int| 0 <= j < k
                        ==> !covers(#[trigger] placements@[j], i2, px, py))
                    ==> (#[trigger] canvases@[i2].pixel_at(px, py)) == 0u8,
        decreases placements@.len() - k,
    {
        let p = placements[k];
        let bm = &bitmaps[k];
        let li: usize = p.layer as usize;
        let mut c = Canvas { width: 0, height: 0, pixels: Vec::new() };
        canvases.set_and_swap(li, &mut c);
        let ghost mid = canvases@;
        let ghost before = c;
        blit(&mut c, p.x, p.y, p.width, p.height, &bm.pixels);
        canvases.set_and_swap(li, &mut c);
        proof {
            let cs = canvases@;
            let ghost old_cs = mid.update(li as int, before);
            assert(old_cs =~= mid.update(li as int, before));
            // Only the target layer changed, and on it only the target
            // rectangle; every earlier glyph's rectangle is disjoint from it.
            assert forall|j: int| 0 <= j < k + 1 implies region_holds_bitmap(
                cs[(#[trigger] placements@[j]).layer as int],
                placements@[j],
                bitmaps@[j],
            ) by {
                let pj = placements@[j];
                let bj = bitmaps@[j];
                if j == k {
                    assert(region_holds_bitmap(cs[pj.layer as int], pj, bj));
                } else {
                    assert(region_holds_bitmap(
                        old_cs[pj.layer as int], pj, bj,
                    ));
                    if pj.layer == p.layer {
                        assert forall|px: int, py: int|
                            pj.x <= px < pj.x + pj.width && pj.y <= py < pj.y + pj.height
                            implies (#[trigger] cs[pj.layer as int].pixel_at(px, py))
                                == bj.pixels@[(py - pj.y) * pj.width as int + (px - pj.x)] by {
                            assert(placements_disjoint(placements@[j], placements@[k as int]));
                            assert(!(p.x <= px < p.x + p.width && p.y <= py < p.y + p.height));
                        }
                    }
                }
            }
            assert forall|i2: int, px: int, py: int|
                0 <= i2 < cs.len() && 0 <= px < layer_width && 0 <= py < layer_height
                    && (forall|j: int| 0 <= j < k + 1
                        ==> !covers(#[trigger] placements@[j], i2, px, py))
                implies (#[trigger] cs[i2].pixel_at(px, py)) == 0u8 by {
                assert(forall|j: int| 0 <= j < k
                    ==> !covers(#[trigger] placements@[j], i2, px, py));
                assert(old_cs[i2].pixel_at(px, py) == 0u8);
                if i2 == p.layer as int {
                    assert(!covers(placements@[k as int], i2, px, py));
                    assert(!(p.x <= px < p.x + p.width && p.y <= py < p.y + p.height));
                }
            }
        }
        k = k + 1;
    }
    Ok(canvases)
}

/// Round-trip law: cropping a composited layer at a glyph's placement
/// rectangle reproduces exactly the pixel buffer that was blitted there.
/// The first premise is what `composite` ensures of each placement's layer;
/// the last two are what `crop` ensures of its result.
pub proof fn lemma_crop_round_trip(c: Canvas, p: Placement, bm: GlyphBitmap, cropped: Seq<u8>)
    requires
        bm.wf(),
        p.width == bm.width,
        p.height == bm.height,
        region_holds_bitmap(c, p, bm),
        cropped.len() == p.width as int * p.height as int,
        forall|j: int| 0 <= j < cropped.len()
            ==> #[trigger] cropped[j] == c.pixel_at(
                p.x + j % (p.width as int), p.y + j / (p.width as int),
            ),
    ensures
        cropped == bm.pixels@,
{
    assert forall|j: int| 0 <= j < cropped.len() implies cropped[j] == bm.pixels@[j] by {
        assert(p.width > 0) by {
            if p.width == 0 {
                assert(cropped.len() == 0);
            }
        }
        lemma_row_col(j, p.width as int, p.height as int);
        let px = p.x + j % (p.width as int);
        let py = p.y + j / (p.width as int);
        assert(c.pixel_at(px, py) == bm.pixels@[(py - p.y) * p.width as int + (px - p.x)]);
    }
    assert(cropped =~= bm.pixels@);
}

} // verus!
