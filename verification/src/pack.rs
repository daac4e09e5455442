//! The bin packer: places variable-size glyph rectangles into fixed-size
//! layers using best-fit guillotine free-region tracking, largest-dimension
//! first, with deterministic tie-breaking by glyph identifier.

use vstd::prelude::*;

verus! {

use vstd::multiset::Multiset;

/// One rectangle to pack: a glyph identifier and the glyph bitmap's size.
/// Width or height may be zero (whitespace glyphs).
#[derive(Clone, Copy, PartialEq, Eq, Structural, Debug)]
pub struct PackingRequest {
    pub id: char,
    pub width: u32,
    pub height: u32,
}

/// The packer's answer for one request: the layer the glyph landed on and
/// its top-left offset within that layer.
#[derive(Clone, Copy, PartialEq, Eq, Structural, Debug)]
pub struct Placement {
    pub id: char,
    pub layer: u32,
    pub x: u32,
    pub y: u32,
    pub width: u32,
    pub height: u32,
}

/// A request whose width or height exceeds the layer dimensions can never
/// fit, however many layers are opened.
#[derive(Clone, Copy, PartialEq, Eq, Structural, Debug)]
pub struct OversizedGlyphError {
    pub id: char,
}

/// A free rectangular region of one layer, tracked by the packer.
#[derive(Clone, Copy, PartialEq, Eq, Structural, Debug)]
pub struct FreeRegion {
    pub layer: u32,
    pub x: u32,
    pub y: u32,
    pub width: u32,
    pub height: u32,
}

/// Two axis-aligned rectangles share no point. A rectangle of zero width or
/// height is empty and is disjoint from everything.
pub open spec fn rects_disjoint(
    ax: int, ay: int, aw: int, ah: int,
    bx: int, by: int, bw: int, bh: int,
) -> bool {
    aw == 0 || ah == 0 || bw == 0 || bh == 0
    || ax + aw <= bx || bx + bw <= ax
    || ay + ah <= by || by + bh <= ay
}

/// The request cannot fit on a layer in either axis.
pub open spec fn req_oversized(r: PackingRequest, layer_width: u32, layer_height: u32) -> bool {
    r.width > layer_width || r.height > layer_height
}

/// The placement's rectangle lies within the layer bounds.
pub open spec fn placement_in_bounds(p: Placement, layer_width: u32, layer_height: u32) -> bool {
    p.x + p.width <= layer_width && p.y + p.height <= layer_height
}

/// Two placements never overlap: either they sit on different layers or
/// their rectangles are disjoint.
pub open spec fn placements_disjoint(a: Placement, b: Placement) -> bool {
    a.layer != b.layer || rects_disjoint(
        a.x as int, a.y as int, a.width as int, a.height as int,
        b.x as int, b.y as int, b.width as int, b.height as int,
    )
}

/// The larger of the request's two dimensions; requests are processed in
/// decreasing order of this value.
pub open spec fn max_dim(r: PackingRequest) -> int {
    if r.width >= r.height { r.width as int } else { r.height as int }
}

/// Strict processing order: `a` is packed before `b` when `a`'s larger
/// dimension is larger, ties broken by identifier.
pub open spec fn req_precedes(a: PackingRequest, b: PackingRequest) -> bool {
    max_dim(a) > max_dim(b) || (max_dim(a) == max_dim(b) && (a.id as int) < (b.id as int))
}

/// Where `r` lands when inserted into an already-ordered sequence `s`: after
/// every element it does not strictly precede, keeping earlier equals first.
pub open spec fn insert_req(s: Seq<PackingRequest>, r: PackingRequest) -> Seq<PackingRequest>
    decreases s.len(),
{
    if s.len() == 0 {
        seq![r]
    } else if req_precedes(r, s[0]) {
        seq![r] + s
    } else {
        seq![s[0]] + insert_req(s.drop_first(), r)
    }
}

/// The processing order of a request sequence: an insertion sort by
/// decreasing larger dimension, ties broken by identifier.
pub open spec fn sort_reqs(s: Seq<PackingRequest>) -> Seq<PackingRequest>
    decreases s.len(),
{
    if s.len() == 0 {
        Seq::<PackingRequest>::empty()
    } else {
        insert_req(sort_reqs(s.drop_last()), s.last())
    }
}

proof fn lemma_insert_req_len(s: Seq<PackingRequest>, r: PackingRequest)
    ensures
        insert_req(s, r).len() == s.len() + 1,
    decreases s.len(),
{
    if s.len() != 0 && !req_precedes(r, s[0]) {
        lemma_insert_req_len(s.drop_first(), r);
    }
}

/// `sort_reqs` keeps the number of requests.
pub proof fn lemma_sort_reqs_len(s: Seq<PackingRequest>)
    ensures
        sort_reqs(s).len() == s.len(),
    decreases s.len(),
{
    if s.len() != 0 {
        lemma_sort_reqs_len(s.drop_last());
        lemma_insert_req_len(sort_reqs(s.drop_last()), s.last());
    }
}

proof fn lemma_insert_req_multiset(s: Seq<PackingRequest>, r: PackingRequest)
    ensures
        insert_req(s, r).to_multiset() == s.to_multiset().insert(r),
    decreases s.len(),
{
    broadcast use vstd::seq_lib::group_to_multiset_ensures;
    if s.len() == 0 {
        assert(seq![r] =~= Seq::<PackingRequest>::empty().push(r));
        assert(seq![r].to_multiset() =~= s.to_multiset().insert(r));
    } else if req_precedes(r, s[0]) {
        assert(seq![r] + s =~= s.insert(0, r));
        vstd::seq_lib::lemma_multiset_commutative(seq![r], s);
        assert(seq![r].to_multiset() =~= Multiset::<PackingRequest>::empty().insert(r));
        assert((seq![r] + s).to_multiset() =~= s.to_multiset().insert(r));
    } else {
        lemma_insert_req_multiset(s.drop_first(), r);
        vstd::seq_lib::lemma_multiset_commutative(seq![s[0]], insert_req(s.drop_first(), r));
        vstd::seq_lib::lemma_multiset_commutative(seq![s[0]], s.drop_first());
        assert(seq![s[0]] + s.drop_first() =~= s);
        assert(seq![s[0]].to_multiset() =~= Multiset::<PackingRequest>::empty().insert(s[0]));
        assert((seq![s[0]] + insert_req(s.drop_first(), r)).to_multiset()
            =~= s.to_multiset().insert(r));
    }
}

/// Sorting permutes the requests: the same multiset comes out.
pub proof fn lemma_sort_reqs_multiset(s: Seq<PackingRequest>)
    ensures
        sort_reqs(s).to_multiset() == s.to_multiset(),
    decreases s.len(),
{
    broadcast use vstd::seq_lib::group_to_multiset_ensures;
    if s.len() != 0 {
        lemma_sort_reqs_multiset(s.drop_last());
        lemma_insert_req_multiset(sort_reqs(s.drop_last()), s.last());
        assert(s.drop_last().push(s.last()) =~= s);
        assert(sort_reqs(s).to_multiset() =~= s.to_multiset());
    }
}

/// The sequence respects the processing order: no later request strictly
/// precedes an earlier one.
pub open spec fn reqs_ordered(s: Seq<PackingRequest>) -> bool {
    forall|i: int, j: int| 0 <= i < j < s.len() ==> !req_precedes(#[trigger] s[j], #[trigger] s[i])
}

proof fn lemma_insert_req_ordered(s: Seq<PackingRequest>, r: PackingRequest)
    requires
        reqs_ordered(s),
    ensures
        reqs_ordered(insert_req(s, r)),
    decreases s.len(),
{
    broadcast use vstd::seq_lib::group_to_multiset_ensures;
    if s.len() == 0 {
    } else if req_precedes(r, s[0]) {
        let t = seq![r] + s;
        assert forall|i: int, j: int| 0 <= i < j < t.len()
            implies !req_precedes(t[j], t[i]) by {
            if i == 0 {
                if j > 1 {
                    assert(!req_precedes(s[j - 1], s[0]));
                }
            } else {
                assert(!req_precedes(s[j - 1], s[i - 1]));
            }
        }
    } else {
        let tail = s.drop_first();
        assert forall|i: int, j: int| 0 <= i < j < tail.len()
            implies !req_precedes(tail[j], tail[i]) by {
            assert(!req_precedes(s[j + 1], s[i + 1]));
        }
        lemma_insert_req_ordered(tail, r);
        let it = insert_req(tail, r);
        lemma_insert_req_multiset(tail, r);
        let t = seq![s[0]] + it;
        assert forall|i: int, j: int| 0 <= i < j < t.len()
            implies !req_precedes(t[j], t[i]) by {
            if i == 0 {
                // Every element of the inserted tail is either `r`, which
                // does not precede the head by the branch condition, or an
                // element of the tail, which the order already covers.
                assert(it.contains(it[j - 1]));
                assert(it.to_multiset().count(it[j - 1]) > 0);
                if it[j - 1] == r {
                    assert(!req_precedes(t[j], t[i]));
                } else {
                    assert(tail.to_multiset().insert(r).count(it[j - 1]) > 0);
                    assert(tail.to_multiset().count(it[j - 1]) > 0);
                    assert(tail.contains(it[j - 1]));
                    let k = choose|k: int| 0 <= k < tail.len() && tail[k] == it[j - 1];
                    assert(!req_precedes(s[k + 1], s[0]));
                }
            } else {
                assert(!req_precedes(it[j - 1], it[i - 1]));
            }
        }
    }
}

/// Ordering law: the processing order really is decreasing by larger
/// dimension with ties broken by identifier — no request that strictly
/// precedes another comes after it in the sorted sequence.
pub proof fn lemma_sort_reqs_ordered(s: Seq<PackingRequest>)
    ensures
        reqs_ordered(sort_reqs(s)),
    decreases s.len(),
{
    if s.len() != 0 {
        lemma_sort_reqs_ordered(s.drop_last());
        lemma_insert_req_ordered(sort_reqs(s.drop_last()), s.last());
    }
}

proof fn lemma_insert_req_at(s: Seq<PackingRequest>, r: PackingRequest, i: int)
    requires
        0 <= i <= s.len(),
        forall|j: int| 0 <= j < i ==> !req_precedes(r, s[j]),
        i < s.len() ==> req_precedes(r, s[i]),
    ensures
        insert_req(s, r) == s.insert(i, r),
    decreases s.len(),
{
    if i == 0 {
        if s.len() == 0 {
            assert(insert_req(s, r) =~= s.insert(0, r));
        } else {
            assert(seq![r] + s =~= s.insert(0, r));
        }
    } else {
        assert(!req_precedes(r, s[0]));
        lemma_insert_req_at(s.drop_first(), r, i - 1);
        assert(seq![s[0]] + s.drop_first().insert(i - 1, r) =~= s.insert(i, r));
    }
}

/// The larger of the request's two dimensions, as the packer computes it.
pub fn request_max_dim(r: &PackingRequest) -> (d: u32)
    ensures
        d as int == max_dim(*r),
{
    if r.width >= r.height {
        r.width
    } else {
        r.height
    }
}

fn precedes(a: &PackingRequest, b: &PackingRequest) -> (c: bool)
    ensures
        c == req_precedes(*a, *b),
{
    let da = request_max_dim(a);
    let db = request_max_dim(b);
    da > db || (da == db && (a.id as u32) < (b.id as u32))
}

/// Order the requests for packing: decreasing larger dimension, ties broken
/// by identifier, earlier equals kept first.
pub fn sort_requests(requests: &Vec<PackingRequest>) -> (r: Vec<PackingRequest>)
    ensures
        r@ == sort_reqs(requests@),
{
    let mut out: Vec<PackingRequest> = Vec::new();
    let mut k: usize = 0;
    assert(out@ =~= sort_reqs(requests@.take(0)));
    while k < requests.len()
        invariant
            0 <= k <= requests@.len(),
            out@ == sort_reqs(requests@.take(k as int)),
        decreases requests@.len() - k,
    {
        let req = requests[k];
        let mut pos: usize = 0;
        while pos < out.len() && !precedes(&req, &out[pos])
            invariant
                0 <= pos <= out@.len(),
                forall|j: int| 0 <= j < pos ==> !req_precedes(req, out@[j]),
            decreases out@.len() - pos,
        {
            pos = pos + 1;
        }
        proof {
            lemma_insert_req_at(out@, req, pos as int);
            let pre = requests@.take(k as int);
            let post = requests@.take(k + 1 as int);
            assert(post.drop_last() =~= pre);
            assert(post.last() == requests@[k as int]);
            assert(insert_req(sort_reqs(pre), req) == sort_reqs(post));
        }
        out.insert(pos, req);
        k = k + 1;
    }
    proof {
        assert(requests@.take(requests@.len() as int) =~= requests@);
    }
    out
}

/// The glyph rectangle fits inside the free region.
pub open spec fn region_fits(g: FreeRegion, w: u32, h: u32) -> bool {
    w <= g.width && h <= g.height
}

/// The region's area. For a fixed glyph size, the region of least area is
/// the one that wastes the least area after placement.
pub open spec fn region_area(g: FreeRegion) -> int {
    g.width as int * g.height as int
}

/// Best-fit choice: among the free regions that fit the glyph, the index of
/// the one of least area, earliest such index on ties; `None` when none fits.
pub open spec fn best_fit(rs: Seq<FreeRegion>, w: u32, h: u32) -> Option<int>
    decreases rs.len(),
{
    if rs.len() == 0 {
        None
    } else {
        let prev = best_fit(rs.drop_last(), w, h);
        let i = rs.len() - 1;
        if region_fits(rs[i], w, h) {
            match prev {
                None => Some(i),
                Some(j) => if region_area(rs[i]) < region_area(rs[j]) {
                    Some(i)
                } else {
                    Some(j)
                },
            }
        } else {
            prev
        }
    }
}

/// What the best-fit choice guarantees: a chosen region exists, fits, and no
/// fitting region has smaller area; `None` only when nothing fits.
pub proof fn lemma_best_fit_props(rs: Seq<FreeRegion>, w: u32, h: u32)
    ensures
        best_fit(rs, w, h) is None ==> forall|j: int|
            0 <= j < rs.len() ==> !region_fits(rs[j], w, h),
        best_fit(rs, w, h) matches Some(i) ==> 0 <= i < rs.len() && region_fits(rs[i], w, h)
            && forall|j: int| 0 <= j < rs.len() && region_fits(rs[j], w, h)
                ==> region_area(#[trigger] rs[i]) <= region_area(rs[j]),
    decreases rs.len(),
{
    if rs.len() != 0 {
        lemma_best_fit_props(rs.drop_last(), w, h);
        assert(forall|j: int| 0 <= j < rs.len() - 1 ==> rs.drop_last()[j] == rs[j]);
    }
}

proof fn lemma_mul_u32_bound(a: int, b: int)
    by (nonlinear_arith)
    requires
        0 <= a <= 0xFFFF_FFFF,
        0 <= b <= 0xFFFF_FFFF,
    ensures
        a * b <= 0xFFFF_FFFF * 0xFFFF_FFFF,
{
}

fn find_best_fit(free: &Vec<FreeRegion>, w: u32, h: u32) -> (r: Option<usize>)
    ensures
        r is None ==> best_fit(free@, w, h) is None,
        r matches Some(i) ==> best_fit(free@, w, h) == Some(i as int),
{
    let mut best: Option<usize> = None;
    let mut k: usize = 0;
    assert(free@.take(0) =~= Seq::<FreeRegion>::empty());
    while k < free.len()
        invariant
            0 <= k <= free@.len(),
            best is None ==> best_fit(free@.take(k as int), w, h) is None,
            best matches Some(i) ==> i < k
                && best_fit(free@.take(k as int), w, h) == Some(i as int),
        decreases free@.len() - k,
    {
        let g = free[k];
        proof {
            assert(free@.take(k + 1 as int).drop_last() =~= free@.take(k as int));
            assert(free@.take(k + 1 as int).last() == free@[k as int]);
        }
        if w <= g.width && h <= g.height {
            match best {
                None => {
                    best = Some(k);
                }
                Some(b) => {
                    let gb = free[b];
                    proof {
                        lemma_mul_u32_bound(g.width as int, g.height as int);
                        lemma_mul_u32_bound(gb.width as int, gb.height as int);
                    }
                    let area = (g.width as u64) * (g.height as u64);
                    let area_b = (gb.width as u64) * (gb.height as u64);
                    if area < area_b {
                        best = Some(k);
                    }
                }
            }
        }
        k = k + 1;
    }
    proof {
        assert(free@.take(free@.len() as int) =~= free@);
    }
    best
}

/// A tracked free region is non-degenerate and lies within the layer bounds.
pub open spec fn region_wf(g: FreeRegion, layer_width: u32, layer_height: u32) -> bool {
    g.width > 0 && g.height > 0
    && g.x + g.width <= layer_width && g.y + g.height <= layer_height
}

/// Two free regions share no point: different layers or disjoint rectangles.
pub open spec fn regions_disjoint(a: FreeRegion, b: FreeRegion) -> bool {
    a.layer != b.layer || rects_disjoint(
        a.x as int, a.y as int, a.width as int, a.height as int,
        b.x as int, b.y as int, b.width as int, b.height as int,
    )
}

/// A free region shares no point with a placement.
pub open spec fn region_placement_disjoint(g: FreeRegion, p: Placement) -> bool {
    g.layer != p.layer || rects_disjoint(
        g.x as int, g.y as int, g.width as int, g.height as int,
        p.x as int, p.y as int, p.width as int, p.height as int,
    )
}

/// Some placement with positive area sits on this layer: the layer was
/// opened for a glyph and is never left empty.
pub open spec fn layer_used(placed: Seq<Placement>, l: u32) -> bool {
    exists|k: int| 0 <= k < placed.len() && (#[trigger] placed[k]).layer == l
        && placed[k].width > 0 && placed[k].height > 0
}

/// The packer's invariant: free regions are well-formed, pairwise disjoint,
/// and disjoint from every placement; placements are within bounds and
/// pairwise disjoint; layer indices stay below the open-layer count, and
/// zero-area placements sit at the origin of layer zero.
pub open spec fn state_wf(
    free: Seq<FreeRegion>,
    placed: Seq<Placement>,
    layers: u32,
    layer_width: u32,
    layer_height: u32,
) -> bool {
    &&& forall|i: int| 0 <= i < free.len()
        ==> region_wf(#[trigger] free[i], layer_width, layer_height) && free[i].layer < layers
    &&& forall|i: int, j: int| 0 <= i < free.len() && 0 <= j < free.len() && i != j
        ==> regions_disjoint(#[trigger] free[i], #[trigger] free[j])
    &&& forall|k: int| 0 <= k < placed.len()
        ==> placement_in_bounds(#[trigger] placed[k], layer_width, layer_height)
    &&& forall|k: int| 0 <= k < placed.len() && placed[k].width > 0 && placed[k].height > 0
        ==> (#[trigger] placed[k]).layer < layers
    &&& forall|k: int| 0 <= k < placed.len() && (placed[k].width == 0 || placed[k].height == 0)
        ==> (#[trigger] placed[k]).layer == 0 && placed[k].x == 0 && placed[k].y == 0
    &&& forall|i: int, k: int| 0 <= i < free.len() && 0 <= k < placed.len()
        ==> region_placement_disjoint(#[trigger] free[i], #[trigger] placed[k])
    &&& forall|k: int, l: int| 0 <= k < placed.len() && 0 <= l < placed.len() && k != l
        ==> placements_disjoint(#[trigger] placed[k], #[trigger] placed[l])
    &&& forall|l: u32| l < layers ==> #[trigger] layer_used(placed, l)
    &&& layers as int <= placed.len()
}

/// A rectangle contained in a disjoint rectangle inherits the disjointness:
/// if `s` lies inside `g` and `g` shares no point with `q`, neither does `s`.
proof fn lemma_subrect_disjoint(
    gx: int, gy: int, gw: int, gh: int,
    sx: int, sy: int, sw: int, sh: int,
    qx: int, qy: int, qw: int, qh: int,
)
    requires
        gx <= sx, gy <= sy,
        sx + sw <= gx + gw, sy + sh <= gy + gh,
        sw >= 0, sh >= 0,
        rects_disjoint(gx, gy, gw, gh, qx, qy, qw, qh),
    ensures
        rects_disjoint(sx, sy, sw, sh, qx, qy, qw, qh),
{
}

/// What one placement step does: a zero-area request lands at the origin of
/// layer zero and consumes nothing; otherwise the glyph takes the top-left
/// corner of the best-fitting free region, which is split into at most one
/// region to the right of the glyph and one below it (degenerate pieces are
/// dropped); when nothing fits, a new layer is opened and treated the same
/// way, starting from one region covering the whole layer.
pub open spec fn spec_place(
    free: Seq<FreeRegion>,
    placed: Seq<Placement>,
    layers: u32,
    req: PackingRequest,
    layer_width: u32,
    layer_height: u32,
) -> (Seq<FreeRegion>, Seq<Placement>, u32) {
    if req.width == 0 || req.height == 0 {
        (
            free,
            placed.push(Placement {
                id: req.id, layer: 0, x: 0, y: 0, width: req.width, height: req.height,
            }),
            layers,
        )
    } else {
        match best_fit(free, req.width, req.height) {
            Some(i) => {
                let g = free[i];
                let f1 = free.remove(i);
                let f2 = if g.width > req.width {
                    f1.push(FreeRegion {
                        layer: g.layer,
                        x: (g.x + req.width) as u32,
                        y: g.y,
                        width: (g.width - req.width) as u32,
                        height: req.height,
                    })
                } else {
                    f1
                };
                let f3 = if g.height > req.height {
                    f2.push(FreeRegion {
                        layer: g.layer,
                        x: g.x,
                        y: (g.y + req.height) as u32,
                        width: g.width,
                        height: (g.height - req.height) as u32,
                    })
                } else {
                    f2
                };
                (
                    f3,
                    placed.push(Placement {
                        id: req.id, layer: g.layer, x: g.x, y: g.y,
                        width: req.width, height: req.height,
                    }),
                    layers,
                )
            }
            None => {
                let f2 = if layer_width > req.width {
                    free.push(FreeRegion {
                        layer: layers,
                        x: req.width,
                        y: 0,
                        width: (layer_width - req.width) as u32,
                        height: req.height,
                    })
                } else {
                    free
                };
                let f3 = if layer_height > req.height {
                    f2.push(FreeRegion {
                        layer: layers,
                        x: 0,
                        y: req.height,
                        width: layer_width,
                        height: (layer_height - req.height) as u32,
                    })
                } else {
                    f2
                };
                (
                    f3,
                    placed.push(Placement {
                        id: req.id, layer: layers, x: 0, y: 0,
                        width: req.width, height: req.height,
                    }),
                    (layers + 1) as u32,
                )
            }
        }
    }
}

/// Placing a non-zero-area request into its best-fitting free region keeps
/// the packer's invariant.
proof fn lemma_place_some_wf(
    free: Seq<FreeRegion>,
    placed: Seq<Placement>,
    layers: u32,
    req: PackingRequest,
    layer_width: u32,
    layer_height: u32,
)
    requires
        state_wf(free, placed, layers, layer_width, layer_height),
        !req_oversized(req, layer_width, layer_height),
        req.width > 0,
        req.height > 0,
        best_fit(free, req.width, req.height) is Some,
    ensures
        state_wf(
            spec_place(free, placed, layers, req, layer_width, layer_height).0,
            spec_place(free, placed, layers, req, layer_width, layer_height).1,
            spec_place(free, placed, layers, req, layer_width, layer_height).2,
            layer_width,
            layer_height,
        ),
{
    let w = req.width;
    let h = req.height;
    lemma_best_fit_props(free, w, h);
    match best_fit(free, w, h) {
        None => {}
        Some(i) => {
            let g = free[i];
            assert(region_wf(g, layer_width, layer_height));
            let f1 = free.remove(i);
            assert forall|j: int| 0 <= j < f1.len() implies f1[j] == (
                if j < i { free[j] } else { free[j + 1] }
            ) by {
                assert(f1 =~= free.subrange(0, i) + free.subrange(i + 1, free.len() as int));
            }
            // Old survivors stay disjoint from the consumed region and from
            // each other, and stay disjoint from every placement.
            assert forall|j: int| 0 <= j < f1.len() implies regions_disjoint(f1[j], g)
                && region_wf(f1[j], layer_width, layer_height) && f1[j].layer < layers by {
                let j0: int = if j < i { j } else { j + 1 };
                assert(f1[j] == free[j0]);
                assert(regions_disjoint(free[j0], free[i]));
            }
            assert forall|j: int, k: int| 0 <= j < f1.len() && 0 <= k < f1.len() && j != k
                implies regions_disjoint(f1[j], f1[k]) by {
                let j0: int = if j < i { j } else { j + 1 };
                let k0: int = if k < i { k } else { k + 1 };
                assert(regions_disjoint(free[j0], free[k0]));
            }
            assert forall|j: int, k: int| 0 <= j < f1.len() && 0 <= k < placed.len()
                implies region_placement_disjoint(f1[j], placed[k]) by {
                let j0: int = if j < i { j } else { j + 1 };
                assert(region_placement_disjoint(free[j0], placed[k]));
            }
            let right = FreeRegion {
                layer: g.layer,
                x: (g.x + w) as u32,
                y: g.y,
                width: (g.width - w) as u32,
                height: h,
            };
            let below = FreeRegion {
                layer: g.layer,
                x: g.x,
                y: (g.y + h) as u32,
                width: g.width,
                height: (g.height - h) as u32,
            };
            let p = Placement { id: req.id, layer: g.layer, x: g.x, y: g.y, width: w, height: h };
            // Each split piece and the placed rectangle lie inside the
            // consumed region, so disjointness from it transfers to them.
            assert forall|j: int| 0 <= j < f1.len() implies regions_disjoint(f1[j], right)
                && regions_disjoint(f1[j], below) && region_placement_disjoint(f1[j], p) by {
                if f1[j].layer == g.layer {
                    let s = f1[j];
                    assert(rects_disjoint(
                        g.x as int, g.y as int, g.width as int, g.height as int,
                        s.x as int, s.y as int, s.width as int, s.height as int,
                    ));
                    lemma_subrect_disjoint(
                        g.x as int, g.y as int, g.width as int, g.height as int,
                        right.x as int, right.y as int, right.width as int, right.height as int,
                        s.x as int, s.y as int, s.width as int, s.height as int,
                    );
                    lemma_subrect_disjoint(
                        g.x as int, g.y as int, g.width as int, g.height as int,
                        below.x as int, below.y as int, below.width as int, below.height as int,
                        s.x as int, s.y as int, s.width as int, s.height as int,
                    );
                    lemma_subrect_disjoint(
                        g.x as int, g.y as int, g.width as int, g.height as int,
                        p.x as int, p.y as int, p.width as int, p.height as int,
                        s.x as int, s.y as int, s.width as int, s.height as int,
                    );
                }
            }
            assert forall|k: int| 0 <= k < placed.len() implies
                region_placement_disjoint(right, placed[k])
                && region_placement_disjoint(below, placed[k])
                && placements_disjoint(placed[k], p)
                && placements_disjoint(p, placed[k]) by {
                assert(region_placement_disjoint(free[i], placed[k]));
                if placed[k].layer == g.layer {
                    let q = placed[k];
                    lemma_subrect_disjoint(
                        g.x as int, g.y as int, g.width as int, g.height as int,
                        right.x as int, right.y as int, right.width as int, right.height as int,
                        q.x as int, q.y as int, q.width as int, q.height as int,
                    );
                    lemma_subrect_disjoint(
                        g.x as int, g.y as int, g.width as int, g.height as int,
                        below.x as int, below.y as int, below.width as int, below.height as int,
                        q.x as int, q.y as int, q.width as int, q.height as int,
                    );
                    lemma_subrect_disjoint(
                        g.x as int, g.y as int, g.width as int, g.height as int,
                        p.x as int, p.y as int, p.width as int, p.height as int,
                        q.x as int, q.y as int, q.width as int, q.height as int,
                    );
                }
            }
            assert(regions_disjoint(right, below));
            assert(region_placement_disjoint(right, p));
            assert(region_placement_disjoint(below, p));
            let placed2 = placed.push(p);
            assert forall|k: int| 0 <= k < placed2.len() implies
                placement_in_bounds(placed2[k], layer_width, layer_height) by {
                if k < placed.len() {
                    assert(placement_in_bounds(placed[k], layer_width, layer_height));
                }
            }
            assert forall|l: u32| l < layers implies layer_used(placed2, l) by {
                assert(layer_used(placed, l));
                let k = choose|k: int| 0 <= k < placed.len()
                    && (#[trigger] placed[k]).layer == l
                    && placed[k].width > 0 && placed[k].height > 0;
                assert(placed2[k] == placed[k]);
            }
            if g.width > w {
                if g.height > h {
                    let f3 = f1.push(right).push(below);
                    assert(state_wf(f3, placed2, layers, layer_width, layer_height));
                } else {
                    let f3 = f1.push(right);
                    assert(state_wf(f3, placed2, layers, layer_width, layer_height));
                }
            } else {
                if g.height > h {
                    let f3 = f1.push(below);
                    assert(state_wf(f3, placed2, layers, layer_width, layer_height));
                } else {
                    assert(state_wf(f1, placed2, layers, layer_width, layer_height));
                }
            }
        }
    }
}

/// Opening a fresh layer for a request that fits no existing free region
/// keeps the packer's invariant: everything already tracked lives on lower
/// layer indices, so nothing can collide with the new layer's contents.
proof fn lemma_place_none_wf(
    free: Seq<FreeRegion>,
    placed: Seq<Placement>,
    layers: u32,
    req: PackingRequest,
    layer_width: u32,
    layer_height: u32,
)
    requires
        state_wf(free, placed, layers, layer_width, layer_height),
        !req_oversized(req, layer_width, layer_height),
        req.width > 0,
        req.height > 0,
        best_fit(free, req.width, req.height) is None,
        layers < u32::MAX,
    ensures
        state_wf(
            spec_place(free, placed, layers, req, layer_width, layer_height).0,
            spec_place(free, placed, layers, req, layer_width, layer_height).1,
            spec_place(free, placed, layers, req, layer_width, layer_height).2,
            layer_width,
            layer_height,
        ),
{
    let w = req.width;
    let h = req.height;
    let right = FreeRegion {
        layer: layers,
        x: w,
        y: 0,
        width: (layer_width - w) as u32,
        height: h,
    };
    let below = FreeRegion {
        layer: layers,
        x: 0,
        y: h,
        width: layer_width,
        height: (layer_height - h) as u32,
    };
    let p = Placement { id: req.id, layer: layers, x: 0, y: 0, width: w, height: h };
    let placed2 = placed.push(p);
    // Everything previously tracked sits on a layer below the new one, or is
    // a zero-area placement, so the new pieces collide with nothing old.
    assert forall|j: int| 0 <= j < free.len() implies regions_disjoint(free[j], right)
        && regions_disjoint(free[j], below) && region_placement_disjoint(free[j], p) by {
        assert(free[j].layer < layers);
    }
    assert forall|k: int| 0 <= k < placed.len() implies
        region_placement_disjoint(right, placed[k])
        && region_placement_disjoint(below, placed[k])
        && placements_disjoint(placed[k], p) && placements_disjoint(p, placed[k]) by {
        if placed[k].width > 0 && placed[k].height > 0 {
            assert(placed[k].layer < layers);
        }
    }
    assert forall|l: u32| l < (layers + 1) as u32 implies layer_used(placed2, l) by {
        if l < layers {
            assert(layer_used(placed, l));
            let k = choose|k: int| 0 <= k < placed.len()
                && (#[trigger] placed[k]).layer == l
                && placed[k].width > 0 && placed[k].height > 0;
            assert(placed2[k] == placed[k]);
        } else {
            assert(placed2[placed.len() as int] == p);
        }
    }
    assert(regions_disjoint(right, below));
    if layer_width > w {
        if layer_height > h {
            assert(state_wf(
                free.push(right).push(below), placed2, (layers + 1) as u32,
                layer_width, layer_height,
            ));
        } else {
            assert(state_wf(
                free.push(right), placed2, (layers + 1) as u32, layer_width, layer_height,
            ));
        }
    } else {
        if layer_height > h {
            assert(state_wf(
                free.push(below), placed2, (layers + 1) as u32, layer_width, layer_height,
            ));
        } else {
            assert(state_wf(free, placed2, (layers + 1) as u32, layer_width, layer_height));
        }
    }
}

/// Placing a zero-area request at the origin of layer zero keeps the
/// packer's invariant: an empty rectangle collides with nothing.
proof fn lemma_place_zero_wf(
    free: Seq<FreeRegion>,
    placed: Seq<Placement>,
    layers: u32,
    req: PackingRequest,
    layer_width: u32,
    layer_height: u32,
)
    requires
        state_wf(free, placed, layers, layer_width, layer_height),
        !req_oversized(req, layer_width, layer_height),
        req.width == 0 || req.height == 0,
    ensures
        state_wf(
            spec_place(free, placed, layers, req, layer_width, layer_height).0,
            spec_place(free, placed, layers, req, layer_width, layer_height).1,
            spec_place(free, placed, layers, req, layer_width, layer_height).2,
            layer_width,
            layer_height,
        ),
{
    let p = Placement { id: req.id, layer: 0, x: 0, y: 0, width: req.width, height: req.height };
    let placed2 = placed.push(p);
    assert forall|l: u32| l < layers implies layer_used(placed2, l) by {
        assert(layer_used(placed, l));
        let k = choose|k: int| 0 <= k < placed.len()
            && (#[trigger] placed[k]).layer == l
            && placed[k].width > 0 && placed[k].height > 0;
        assert(placed2[k] == placed[k]);
    }
    assert(state_wf(free, placed2, layers, layer_width, layer_height));
}

/// Place one request, mutating the packer's state exactly as `spec_place`
/// says and keeping the packer's invariant.
fn place_one(
    free: &mut Vec<FreeRegion>,
    placed: &mut Vec<Placement>,
    layers: &mut u32,
    req: PackingRequest,
    layer_width: u32,
    layer_height: u32,
)
    requires
        state_wf(old(free)@, old(placed)@, *old(layers), layer_width, layer_height),
        !req_oversized(req, layer_width, layer_height),
        old(placed)@.len() < u32::MAX as int,
    ensures
        final(free)@ == spec_place(
            old(free)@, old(placed)@, *old(layers), req, layer_width, layer_height,
        ).0,
        final(placed)@ == spec_place(
            old(free)@, old(placed)@, *old(layers), req, layer_width, layer_height,
        ).1,
        *final(layers) == spec_place(
            old(free)@, old(placed)@, *old(layers), req, layer_width, layer_height,
        ).2,
        state_wf(final(free)@, final(placed)@, *final(layers), layer_width, layer_height),
        final(placed)@.len() == old(placed)@.len() + 1,
        forall|k: int| 0 <= k < old(placed)@.len() ==> final(placed)@[k] == old(placed)@[k],
        final(placed)@.last().id == req.id,
        final(placed)@.last().width == req.width,
        final(placed)@.last().height == req.height,
{
    if req.width == 0 || req.height == 0 {
        proof {
            lemma_place_zero_wf(
                free@, placed@, *layers, req, layer_width, layer_height,
            );
        }
        placed.push(Placement {
            id: req.id, layer: 0, x: 0, y: 0, width: req.width, height: req.height,
        });
    } else {
        match find_best_fit(free, req.width, req.height) {
            Some(i) => {
                proof {
                    lemma_best_fit_props(free@, req.width, req.height);
                    lemma_place_some_wf(
                        free@, placed@, *layers, req, layer_width, layer_height,
                    );
                }
                let g = free[i];
                assert(region_wf(g, layer_width, layer_height));
                let _consumed = free.remove(i);
                placed.push(Placement {
                    id: req.id, layer: g.layer, x: g.x, y: g.y,
                    width: req.width, height: req.height,
                });
                if g.width > req.width {
                    free.push(FreeRegion {
                        layer: g.layer,
                        x: g.x + req.width,
                        y: g.y,
                        width: g.width - req.width,
                        height: req.height,
                    });
                }
                if g.height > req.height {
                    free.push(FreeRegion {
                        layer: g.layer,
                        x: g.x,
                        y: g.y + req.height,
                        width: g.width,
                        height: g.height - req.height,
                    });
                }
            }
            None => {
                proof {
                    lemma_place_none_wf(
                        free@, placed@, *layers, req, layer_width, layer_height,
                    );
                }
                let layer = *layers;
                *layers = layer + 1;
                placed.push(Placement {
                    id: req.id, layer, x: 0, y: 0, width: req.width, height: req.height,
                });
                if layer_width > req.width {
                    free.push(FreeRegion {
                        layer,
                        x: req.width,
                        y: 0,
                        width: layer_width - req.width,
                        height: req.height,
                    });
                }
                if layer_height > req.height {
                    free.push(FreeRegion {
                        layer,
                        x: 0,
                        y: req.height,
                        width: layer_width,
                        height: layer_height - req.height,
                    });
                }
            }
        }
    }
}

/// The packer's state after processing a whole request sequence in order,
/// one `spec_place` step per request.
pub open spec fn spec_pack_loop(
    free: Seq<FreeRegion>,
    placed: Seq<Placement>,
    layers: u32,
    reqs: Seq<PackingRequest>,
    layer_width: u32,
    layer_height: u32,
) -> (Seq<FreeRegion>, Seq<Placement>, u32)
    decreases reqs.len(),
{
    if reqs.len() == 0 {
        (free, placed, layers)
    } else {
        let st = spec_pack_loop(free, placed, layers, reqs.drop_last(), layer_width, layer_height);
        spec_place(st.0, st.1, st.2, reqs.last(), layer_width, layer_height)
    }
}

/// The placements the packer produces for a request sequence: sort the
/// requests into processing order, then place each in turn starting from no
/// layers and no free regions. A function of the inputs alone, so packing is
/// deterministic.
pub open spec fn spec_pack(
    reqs: Seq<PackingRequest>,
    layer_width: u32,
    layer_height: u32,
) -> Seq<Placement> {
    spec_pack_loop(
        Seq::<FreeRegion>::empty(),
        Seq::<Placement>::empty(),
        0u32,
        sort_reqs(reqs),
        layer_width,
        layer_height,
    ).1
}

/// The size triple a placement answers: the request it satisfies.
pub open spec fn request_of(p: Placement) -> PackingRequest {
    PackingRequest { id: p.id, width: p.width, height: p.height }
}

/// Pack every request into layers of the given fixed size.
///
/// Fails with `OversizedGlyphError`, naming the first offending request,
/// exactly when some request exceeds the layer size in either axis; no
/// placements are emitted then. Otherwise every request gets exactly one
/// placement: in-bounds, pairwise non-overlapping within a layer, and equal
/// to `spec_pack` of the inputs, so a rerun on the same inputs reproduces
/// the same placements. The request count must fit the 32-bit layer-index
/// type, since in the worst case every request opens its own layer.
pub fn pack(
    requests: &Vec<PackingRequest>,
    layer_width: u32,
    layer_height: u32,
) -> (r: Result<Vec<Placement>, OversizedGlyphError>)
    requires
        requests@.len() < u32::MAX as int,
    ensures
        r is Err <==> exists|i: int| 0 <= i < requests@.len()
            && req_oversized(#[trigger] requests@[i], layer_width, layer_height),
        r matches Err(e) ==> exists|i: int| 0 <= i < requests@.len()
            && req_oversized(#[trigger] requests@[i], layer_width, layer_height)
            && requests@[i].id == e.id
            && forall|j: int| 0 <= j < i
                ==> !req_oversized(requests@[j], layer_width, layer_height),
        r matches Ok(ps) ==> {
            &&& ps@ == spec_pack(requests@, layer_width, layer_height)
            &&& ps@.len() == requests@.len()
            &&& forall|k: int| 0 <= k < ps@.len()
                ==> placement_in_bounds(#[trigger] ps@[k], layer_width, layer_height)
            &&& forall|k: int, l: int| 0 <= k < ps@.len() && 0 <= l < ps@.len() && k != l
                ==> placements_disjoint(#[trigger] ps@[k], #[trigger] ps@[l])
            &&& forall|k: int| 0 <= k < ps@.len()
                ==> request_of(#[trigger] ps@[k]) == sort_reqs(requests@)[k]
            &&& ps@.map_values(|p: Placement| request_of(p)).to_multiset()
                == requests@.to_multiset()
            &&& forall|k: int| 0 <= k < ps@.len()
                && (ps@[k].width == 0 || ps@[k].height == 0)
                ==> (#[trigger] ps@[k]).layer == 0 && ps@[k].x == 0 && ps@[k].y == 0
            &&& forall|k: int, l: u32| #![trigger ps@[k].layer, layer_used(ps@, l)]
                0 <= k < ps@.len() && ps@[k].width > 0 && ps@[k].height > 0
                && l < ps@[k].layer ==> layer_used(ps@, l)
        },
{
    let mut k: usize = 0;
    while k < requests.len()
        invariant
            0 <= k <= requests@.len(),
            forall|j: int| 0 <= j < k
                ==> !req_oversized(#[trigger] requests@[j], layer_width, layer_height),
        decreases requests@.len() - k,
    {
        let rq = requests[k];
        if rq.width > layer_width || rq.height > layer_height {
            return Err(OversizedGlyphError { id: rq.id });
        }
        k = k + 1;
    }
    let sorted = sort_requests(requests);
    proof {
        lemma_sort_reqs_len(requests@);
        lemma_sort_reqs_multiset(requests@);
        broadcast use vstd::seq_lib::group_to_multiset_ensures;
        assert forall|j: int| 0 <= j < sorted@.len() implies
            !req_oversized(#[trigger] sorted@[j], layer_width, layer_height) by {
            assert(sorted@.contains(sorted@[j]));
            assert(sorted@.to_multiset().count(sorted@[j]) > 0);
            assert(requests@.to_multiset().count(sorted@[j]) > 0);
            assert(requests@.contains(sorted@[j]));
            let j0 = choose|j0: int| 0 <= j0 < requests@.len() && requests@[j0] == sorted@[j];
            assert(!req_oversized(requests@[j0], layer_width, layer_height));
        }
    }
    let mut free: Vec<FreeRegion> = Vec::new();
    let mut placed: Vec<Placement> = Vec::new();
    let mut layers: u32 = 0;
    let mut k: usize = 0;
    proof {
        assert(sorted@.take(0) =~= Seq::<PackingRequest>::empty());
    }
    while k < sorted.len()
        invariant
            0 <= k <= sorted@.len(),
            sorted@ == sort_reqs(requests@),
            sorted@.len() == requests@.len(),
            requests@.len() < u32::MAX as int,
            forall|j: int| 0 <= j < sorted@.len()
                ==> !req_oversized(#[trigger] sorted@[j], layer_width, layer_height),
            state_wf(free@, placed@, layers, layer_width, layer_height),
            placed@.len() == k,
            (free@, placed@, layers) == spec_pack_loop(
                Seq::<FreeRegion>::empty(),
                Seq::<Placement>::empty(),
                0u32,
                sorted@.take(k as int),
                layer_width,
                layer_height,
            ),
            forall|j: int| 0 <= j < k
                ==> request_of(#[trigger] placed@[j]) == sorted@[j],
        decreases sorted@.len() - k,
    {
        let req = sorted[k];
        place_one(&mut free, &mut placed, &mut layers, req, layer_width, layer_height);
        proof {
            let pre = sorted@.take(k as int);
            let post = sorted@.take(k + 1 as int);
            assert(post.drop_last() =~= pre);
            assert(post.last() == sorted@[k as int]);
            assert(request_of(placed@.last()) =~= sorted@[k as int]);
        }
        k = k + 1;
    }
    proof {
        assert(sorted@.take(sorted@.len() as int) =~= sorted@);
        let triples = placed@.map_values(|p: Placement| request_of(p));
        assert forall|j: int| 0 <= j < triples.len() implies triples[j] == sorted@[j] by {
            assert(request_of(placed@[j]) == sorted@[j]);
        }
        assert(triples =~= sorted@);
        lemma_sort_reqs_multiset(requests@);
        assert forall|k: int, l: u32|
            0 <= k < placed@.len() && placed@[k].width > 0 && placed@[k].height > 0
                && l < (#[trigger] placed@[k]).layer
            implies #[trigger] layer_used(placed@, l) by {
            assert(placed@[k].layer < layers);
        }
    }
    Ok(placed)
}

/// Determinism law: packing the same request sequence against the same layer
/// size twice yields identical placements, because the result of `pack` is
/// pinned to `spec_pack`, a function of the inputs alone.
pub proof fn lemma_pack_deterministic(
    reqs: Seq<PackingRequest>,
    layer_width: u32,
    layer_height: u32,
    out1: Seq<Placement>,
    out2: Seq<Placement>,
)
    requires
        out1 == spec_pack(reqs, layer_width, layer_height),
        out2 == spec_pack(reqs, layer_width, layer_height),
    ensures
        out1 == out2,
{
}

} // verus!
