//! Color-tolerant region segmentation of a raster image, and the contour
//! stage that turns each region's mask into boundary polygons.

use vstd::prelude::*;
use crate::level::Point;

verus! {

/// One pixel: four 8-bit channels, red, green, blue, alpha. The alpha
/// channel takes part in similarity comparisons like any other channel.
#[derive(Clone, Copy, PartialEq, Eq, Structural, Debug)]
pub struct Pixel {
    pub r: u8,
    pub g: u8,
    pub b: u8,
    pub a: u8,
}

/// A decoded image: a rectangular grid of pixels in row-major order,
/// origin at the top left, x growing right and y growing down.
pub struct Image {
    pub width: u32,
    pub height: u32,
    pub pixels: Vec<Pixel>,
}

impl Image {
    /// The pixel buffer holds exactly one pixel per grid cell.
    pub open spec fn wf(&self) -> bool {
        self.pixels@.len() == self.width * self.height
    }

    pub open spec fn in_bounds(&self, x: int, y: int) -> bool {
        0 <= x < self.width && 0 <= y < self.height
    }

    /// The pixel at grid position `(x, y)`.
    pub open spec fn pix(&self, x: int, y: int) -> Pixel {
        self.pixels@[y * self.width + x]
    }

    /// Builds an image from a decoded pixel buffer; rejects a buffer whose
    /// length does not match the dimensions.
    pub fn new(width: u32, height: u32, pixels: Vec<Pixel>) -> (r: Option<Image>)
        ensures
            match r {
                Some(img) => {
                    &&& img.wf()
                    &&& img.width == width
                    &&& img.height == height
                    &&& img.pixels@ == pixels@
                },
                None => pixels@.len() != width * height,
            },
    {
        proof {
            vstd::arithmetic::mul::lemma_mul_upper_bound(
                width as int, u32::MAX as int, height as int, u32::MAX as int);
        }
        let expected: u64 = width as u64 * height as u64;
        if pixels.len() as u64 == expected {
            Some(Image { width, height, pixels })
        } else {
            None
        }
    }

    /// Reads the pixel at `(x, y)`.
    pub fn get_pixel(&self, x: u32, y: u32) -> (p: Pixel)
        requires
            self.wf(),
            self.in_bounds(x as int, y as int),
        ensures
            p == self.pix(x as int, y as int),
    {
        let len = self.pixels.len();
        proof {
            lemma_grid_index_bounds(x as int, y as int, self.width as int, self.height as int);
            assert((y as int) * (self.width as int) + x < len);
        }
        self.pixels[(y as usize) * (self.width as usize) + (x as usize)]
    }
}

/// `0 <= y*w + x < w*h` for an in-bounds grid position.
proof fn lemma_grid_index_bounds(x: int, y: int, w: int, h: int)
    requires
        0 <= x < w,
        0 <= y < h,
    ensures
        0 <= y * w + x < w * h,
{
    assert(y * w + x < w * h) by (nonlinear_arith)
        requires 0 <= x < w && 0 <= y < h;
    assert(y * w + x >= 0) by (nonlinear_arith)
        requires 0 <= x && 0 <= y && 0 < w;
}

/// The absolute difference of two channel values.
pub open spec fn channel_diff(a: u8, b: u8) -> int {
    if a >= b { a - b } else { b - a }
}

/// The similarity predicate: two pixels are similar when every channel
/// differs by at most `variance`. Symmetric, but not transitive.
pub open spec fn similar(p: Pixel, q: Pixel, variance: u8) -> bool {
    &&& channel_diff(p.r, q.r) <= variance
    &&& channel_diff(p.g, q.g) <= variance
    &&& channel_diff(p.b, q.b) <= variance
    &&& channel_diff(p.a, q.a) <= variance
}

/// Channel-wise similarity test of two pixels.
pub fn approx(c1: Pixel, c2: Pixel, variance: u8) -> (r: bool)
    ensures
        r == similar(c1, c2, variance),
{
    let dr = if c1.r >= c2.r { c1.r - c2.r } else { c2.r - c1.r };
    let dg = if c1.g >= c2.g { c1.g - c2.g } else { c2.g - c1.g };
    let db = if c1.b >= c2.b { c1.b - c2.b } else { c2.b - c1.b };
    let da = if c1.a >= c2.a { c1.a - c2.a } else { c2.a - c1.a };
    dr <= variance && dg <= variance && db <= variance && da <= variance
}

/// Membership of a point in a `w` by `h` grid.
pub open spec fn in_grid(p: (int, int), w: int, h: int) -> bool {
    0 <= p.0 < w && 0 <= p.1 < h
}

/// The row-major index of a grid point.
pub open spec fn gidx(p: (int, int), w: int) -> int {
    p.1 * w + p.0
}

/// 4-connectivity of two grid points.
pub open spec fn adjacent(p: (int, int), q: (int, int)) -> bool {
    ||| p.0 == q.0 && (p.1 == q.1 + 1 || p.1 + 1 == q.1)
    ||| p.1 == q.1 && (p.0 == q.0 + 1 || p.0 + 1 == q.0)
}

/// Raster scan order: `p` is visited strictly before `q` when scanning
/// row by row, x fastest.
pub open spec fn scan_before(p: (int, int), q: (int, int)) -> bool {
    p.1 < q.1 || (p.1 == q.1 && p.0 < q.0)
}

/// Row-major indexing is injective on the grid.
proof fn lemma_gidx_injective(w: int, h: int)
    ensures
        forall|p: (int, int), q: (int, int)|
            in_grid(p, w, h) && in_grid(q, w, h) && #[trigger] gidx(p, w) == #[trigger] gidx(q, w)
                ==> p == q,
{
    assert forall|p: (int, int), q: (int, int)|
        in_grid(p, w, h) && in_grid(q, w, h) && #[trigger] gidx(p, w) == #[trigger] gidx(q, w)
            implies p == q by {
        assert(p.1 * w + p.0 == q.1 * w + q.0 && 0 <= p.0 < w && 0 <= q.0 < w ==> p.0 == q.0
            && p.1 == q.1) by (nonlinear_arith);
    }
}

/// Row-major indices of grid points lie below `w * h`.
proof fn lemma_gidx_bounds(w: int, h: int)
    ensures
        forall|p: (int, int)| in_grid(p, w, h) ==> 0 <= #[trigger] gidx(p, w) < w * h,
{
    assert forall|p: (int, int)| in_grid(p, w, h) implies 0 <= #[trigger] gidx(p, w) < w * h by {
        lemma_grid_index_bounds(p.0, p.1, w, h);
    }
}

/// A sequence of distinct grid points is no longer than the grid size.
proof fn lemma_distinct_points_in_grid(ms: Seq<(int, int)>, w: int, h: int)
    requires
        w >= 0,
        h >= 0,
        ms.no_duplicates(),
        forall|k: int| 0 <= k < ms.len() ==> in_grid(#[trigger] ms[k], w, h),
    ensures
        ms.len() <= w * h,
{
    vstd::arithmetic::mul::lemma_mul_nonnegative(w, h);
    let idxs = ms.map_values(|p: (int, int)| gidx(p, w));
    lemma_gidx_injective(w, h);
    lemma_gidx_bounds(w, h);
    assert forall|k1: int, k2: int| 0 <= k1 < idxs.len() && 0 <= k2 < idxs.len() && k1 != k2
        implies idxs[k1] != idxs[k2] by {
        assert(idxs[k1] == gidx(ms[k1], w) && idxs[k2] == gidx(ms[k2], w));
    }
    assert(idxs.no_duplicates());
    idxs.unique_seq_to_set();
    let range = vstd::set_lib::set_int_range(0, w * h);
    vstd::set_lib::lemma_int_range(0, w * h);
    assert forall|v: int| idxs.to_set().contains(v) implies range.contains(v) by {
        let k = choose|k: int| 0 <= k < idxs.len() && idxs[k] == v;
        assert(gidx(ms[k], w) == v);
    }
    vstd::set_lib::lemma_len_subset(idxs.to_set(), range);
}

/// The index arithmetic of `gidx`, in executable form.
fn grid_index(x: u32, y: u32, w: u32) -> (idx: usize)
    requires
        gidx((x as int, y as int), w as int) <= usize::MAX,
    ensures
        idx == gidx((x as int, y as int), w as int),
{
    (y as usize) * (w as usize) + (x as usize)
}

/// A vector of `n` `false` cells.
fn make_bool_vec(n: usize) -> (v: Vec<bool>)
    ensures
        v@.len() == n,
        forall|k: int| 0 <= k < n ==> !v@[k],
{
    let mut v: Vec<bool> = Vec::new();
    let mut i: usize = 0;
    while i < n
        invariant
            i <= n,
            v@.len() == i,
            forall|k: int| 0 <= k < i ==> !v@[k],
        decreases n - i,
    {
        v.push(false);
        i = i + 1;
    }
    v
}

/// A region's binary mask: a rectangular grid of boolean cells, one cell
/// wider and taller than the image so the contour tracer always has a
/// defined border.
pub struct Mask {
    pub width: u32,
    pub height: u32,
    pub cells: Vec<bool>,
}

impl Mask {
    pub open spec fn wf(&self) -> bool {
        self.cells@.len() == self.width * self.height
    }

    pub open spec fn cell_in_bounds(&self, x: int, y: int) -> bool {
        0 <= x < self.width && 0 <= y < self.height
    }

    /// The cell at `(x, y)`.
    pub open spec fn at(&self, x: int, y: int) -> bool {
        self.cells@[gidx((x, y), self.width as int)]
    }

    /// An all-clear mask.
    pub fn new_empty(width: u32, height: u32) -> (m: Mask)
        requires
            width * height <= usize::MAX,
        ensures
            m.wf(),
            m.width == width,
            m.height == height,
            forall|cx: int, cy: int| m.cell_in_bounds(cx, cy) ==> !#[trigger] m.at(cx, cy),
    {
        proof {
            lemma_gidx_bounds(width as int, height as int);
        }
        let n: usize = (width as usize) * (height as usize);
        let cells = make_bool_vec(n);
        Mask { width, height, cells }
    }

    /// Sets one cell; every other cell keeps its value.
    pub fn set_cell(&mut self, x: u32, y: u32)
        requires
            old(self).wf(),
            old(self).cell_in_bounds(x as int, y as int),
        ensures
            final(self).wf(),
            final(self).width == old(self).width,
            final(self).height == old(self).height,
            final(self).at(x as int, y as int),
            forall|cx: int, cy: int|
                final(self).cell_in_bounds(cx, cy) && (cx, cy) != (x as int, y as int)
                    ==> #[trigger] final(self).at(cx, cy) == old(self).at(cx, cy),
    {
        let n = self.cells.len();
        proof {
            lemma_gidx_bounds(self.width as int, self.height as int);
            lemma_gidx_injective(self.width as int, self.height as int);
            assert(gidx((x as int, y as int), self.width as int) < n);
        }
        let idx = grid_index(x, y, self.width);
        self.cells[idx] = true;
    }
}

/// One channel of a pixel, selected by number: red, green, blue, alpha.
pub open spec fn chan(p: Pixel, c: int) -> u8 {
    if c == 0 { p.r } else if c == 1 { p.g } else if c == 2 { p.b } else { p.a }
}

/// The sum of one channel over a sequence of grid points of an image.
pub open spec fn sum_chan(img: Image, ms: Seq<(int, int)>, c: int) -> int
    decreases ms.len(),
{
    if ms.len() == 0 {
        0
    } else {
        sum_chan(img, ms.drop_last(), c) + chan(img.pix(ms.last().0, ms.last().1), c)
    }
}

/// A segmented region: its pixel count, a per-channel running color sum
/// (seeded with the seed pixel's color, so it holds `count + 1` samples),
/// its dilated binary mask, and, as ghost data, the exact sequence of
/// member pixels in the order the flood fill dequeued them.
pub struct Region {
    pub count: u32,
    pub sum_r: u32,
    pub sum_g: u32,
    pub sum_b: u32,
    pub sum_a: u32,
    pub mask: Mask,
    pub members: Ghost<Seq<(int, int)>>,
}

/// A mask cell is covered when it is the region's seed or an in-image
/// 4-neighbor of any member: the mask is a one-cell dilation of the
/// region's footprint.
pub open spec fn mask_covers(img: Image, ms: Seq<(int, int)>, cx: int, cy: int) -> bool {
    ||| (cx, cy) == ms[0]
    ||| (in_grid((cx, cy), img.width as int, img.height as int)
        && exists|k: int| 0 <= k < ms.len() && adjacent(#[trigger] ms[k], (cx, cy)))
}

/// Well-formedness of one region against its image: members are distinct
/// in-bounds pixels, every member after the seed is 4-adjacent and similar
/// to some earlier member, the sums are the seed's color plus the members'
/// colors, and the mask is exactly the dilated footprint.
pub open spec fn region_wf(img: Image, variance: u8, r: Region) -> bool {
    let ms = r.members@;
    &&& ms.len() >= 1
    &&& ms.len() == r.count
    &&& r.count <= img.width * img.height
    &&& ms.no_duplicates()
    &&& forall|k: int| 0 <= k < ms.len()
        ==> in_grid(#[trigger] ms[k], img.width as int, img.height as int)
    &&& forall|k: int| 1 <= k < ms.len() ==> exists|j: int|
        0 <= j < k && adjacent(ms[j], #[trigger] ms[k])
            && similar(img.pix(ms[j].0, ms[j].1), img.pix(ms[k].0, ms[k].1), variance)
    &&& r.sum_r == chan(img.pix(ms[0].0, ms[0].1), 0) + sum_chan(img, ms, 0)
    &&& r.sum_g == chan(img.pix(ms[0].0, ms[0].1), 1) + sum_chan(img, ms, 1)
    &&& r.sum_b == chan(img.pix(ms[0].0, ms[0].1), 2) + sum_chan(img, ms, 2)
    &&& r.sum_a == chan(img.pix(ms[0].0, ms[0].1), 3) + sum_chan(img, ms, 3)
    &&& r.mask.wf()
    &&& r.mask.width == img.width + 1
    &&& r.mask.height == img.height + 1
    &&& forall|cx: int, cy: int| 0 <= cx <= img.width && 0 <= cy <= img.height
        ==> #[trigger] r.mask.at(cx, cy) == mask_covers(img, ms, cx, cy)
}

/// Membership of a pixel in a region.
pub open spec fn contains_pt(r: Region, p: (int, int)) -> bool {
    r.members@.contains(p)
}

/// The pixel belongs to one of the first `upto` regions.
pub open spec fn in_some_region(regions: Seq<Region>, upto: int, p: (int, int)) -> bool {
    exists|j: int| 0 <= j < upto && contains_pt(#[trigger] regions[j], p)
}

/// What holds of every prefix of the segmentation: all regions well
/// formed, pairwise disjoint, each region closed under similarity (a
/// similar in-bounds neighbor of a member of region `i` belongs to a
/// region no later than `i`), and seeds taken in raster scan order.
pub open spec fn seg_inv(img: Image, variance: u8, regions: Seq<Region>) -> bool {
    &&& forall|i: int| 0 <= i < regions.len() ==> region_wf(img, variance, #[trigger] regions[i])
    &&& forall|i: int, j: int, p: (int, int)|
        0 <= i < regions.len() && 0 <= j < regions.len()
            && #[trigger] contains_pt(regions[i], p) && #[trigger] contains_pt(regions[j], p)
            ==> i == j
    &&& forall|i: int, k: int, q: (int, int)|
        0 <= i < regions.len() && 0 <= k < regions[i].members@.len()
            && in_grid(q, img.width as int, img.height as int)
            && #[trigger] adjacent(regions[i].members@[k], q)
            && similar(img.pix(regions[i].members@[k].0, regions[i].members@[k].1),
                img.pix(q.0, q.1), variance)
            ==> in_some_region(regions, i + 1, q)
    &&& forall|i: int, p: (int, int)|
        0 <= i < regions.len() && in_grid(p, img.width as int, img.height as int)
            && #[trigger] scan_before(p, regions[i].members@[0])
            ==> in_some_region(regions, i, p)
}

/// The full contract of the segmenter: a well-formed prefix of regions
/// that together cover the image, so every pixel lies in exactly one
/// region.
pub open spec fn seg_post(img: Image, variance: u8, regions: Seq<Region>) -> bool {
    &&& seg_inv(img, variance, regions)
    &&& forall|p: (int, int)| #[trigger] in_grid(p, img.width as int, img.height as int)
        ==> in_some_region(regions, regions.len() as int, p)
}

/// A pixel queue, as grid points.
pub open spec fn qview(q: Seq<(u32, u32)>) -> Seq<(int, int)> {
    q.map_values(|p: (u32, u32)| (p.0 as int, p.1 as int))
}

/// The visited map marks exactly the pixels of the listed regions plus
/// the pixels of the queue.
pub open spec fn vis_matches(
    img: Image,
    visited: Seq<bool>,
    regions: Seq<Region>,
    q: Seq<(int, int)>,
) -> bool {
    &&& visited.len() == img.width * img.height
    &&& forall|p: (int, int)| #[trigger] in_grid(p, img.width as int, img.height as int)
        ==> visited[gidx(p, img.width as int)]
            == (in_some_region(regions, regions.len() as int, p) || q.contains(p))
}

/// Every member after the seed is 4-adjacent and similar to an earlier
/// member: regions grow by neighbor-to-neighbor similarity.
pub open spec fn chain_ok(img: Image, variance: u8, q: Seq<(int, int)>) -> bool {
    forall|k: int| 1 <= k < q.len() ==> exists|j: int|
        0 <= j < k && adjacent(q[j], #[trigger] q[k])
            && similar(img.pix(q[j].0, q[j].1), img.pix(q[k].0, q[k].1), variance)
}

/// Every similar in-bounds neighbor of an expanded member is visited.
pub open spec fn closure_ok(
    img: Image,
    variance: u8,
    visited: Seq<bool>,
    q: Seq<(int, int)>,
    head: int,
) -> bool {
    forall|k: int, p: (int, int)|
        0 <= k < head && in_grid(p, img.width as int, img.height as int)
            && #[trigger] adjacent(q[k], p)
            && similar(img.pix(q[k].0, q[k].1), img.pix(p.0, p.1), variance)
            ==> visited[gidx(p, img.width as int)]
}

/// The flood-fill loop's state invariant over the queue, the visited map
/// and the regions found so far.
pub open spec fn bfs_inv(
    img: Image,
    variance: u8,
    regions: Seq<Region>,
    visited: Seq<bool>,
    q: Seq<(int, int)>,
    head: int,
) -> bool {
    &&& 0 <= head <= q.len()
    &&& q.len() >= 1
    &&& q.no_duplicates()
    &&& forall|k: int| 0 <= k < q.len() ==> in_grid(#[trigger] q[k], img.width as int, img.height as int)
    &&& forall|k: int| 0 <= k < q.len()
        ==> !in_some_region(regions, regions.len() as int, #[trigger] q[k])
    &&& vis_matches(img, visited, regions, q)
    &&& chain_ok(img, variance, q)
    &&& closure_ok(img, variance, visited, q, head)
}

/// A sequence stays duplicate-free when a fresh item is pushed.
proof fn lemma_push_distinct(s: Seq<(int, int)>, e: (int, int))
    requires
        s.no_duplicates(),
        !s.contains(e),
    ensures
        s.push(e).no_duplicates(),
{
    let t = s.push(e);
    assert forall|i: int, j: int| 0 <= i < t.len() && 0 <= j < t.len() && i != j
        implies t[i] != t[j] by {
        if i < s.len() && j < s.len() {
        } else if i < s.len() {
            assert(s[i] == t[i] && t[j] == e);
        } else {
            assert(s[j] == t[j] && t[i] == e);
        }
    }
}

/// If the neighbor is unvisited and similar to the expansion pixel,
/// marks it visited and enqueues it. The flood-fill invariant is
/// preserved either way.
fn visit_neighbor(
    image: &Image,
    variance: u8,
    nx: u32,
    ny: u32,
    cur: Pixel,
    visited: &mut Vec<bool>,
    queue: &mut Vec<(u32, u32)>,
    regions: Ghost<Seq<Region>>,
    head: Ghost<int>,
)
    requires
        image.wf(),
        image.in_bounds(nx as int, ny as int),
        old(visited)@.len() == image.width * image.height,
        bfs_inv(*image, variance, regions@, old(visited)@, qview(old(queue)@), head@),
        head@ < qview(old(queue)@).len(),
        adjacent(qview(old(queue)@)[head@], (nx as int, ny as int)),
        cur == image.pix(qview(old(queue)@)[head@].0, qview(old(queue)@)[head@].1),
    ensures
        final(visited)@.len() == old(visited)@.len(),
        bfs_inv(*image, variance, regions@, final(visited)@, qview(final(queue)@), head@),
        qview(final(queue)@).take(head@ + 1) == qview(old(queue)@).take(head@ + 1),
        forall|k: int| 0 <= k < old(visited)@.len() && old(visited)@[k] ==> final(visited)@[k],
        similar(cur, image.pix(nx as int, ny as int), variance)
            ==> final(visited)@[gidx((nx as int, ny as int), image.width as int)],
        ({
            let idx = gidx((nx as int, ny as int), image.width as int);
            if !old(visited)@[idx] && similar(cur, image.pix(nx as int, ny as int), variance) {
                final(visited)@ == old(visited)@.update(idx, true)
                    && qview(final(queue)@) == qview(old(queue)@).push((nx as int, ny as int))
            } else {
                final(visited)@ == old(visited)@ && final(queue)@ == old(queue)@
            }
        }),
{
    let w = image.width;
    let n = visited.len();
    let ghost q0 = qview(queue@);
    let ghost np: (int, int) = (nx as int, ny as int);
    proof {
        lemma_gidx_bounds(w as int, image.height as int);
        lemma_gidx_injective(w as int, image.height as int);
        assert(gidx(np, w as int) < n);
    }
    let idx = grid_index(nx, ny, w);
    if !visited[idx] {
        let ncolor = image.get_pixel(nx, ny);
        if approx(cur, ncolor, variance) {
            visited[idx] = true;
            queue.push((nx, ny));
            proof {
                let q1 = qview(queue@);
                assert(q1 =~= q0.push(np));
                assert(!q0.contains(np));
                lemma_push_distinct(q0, np);
                // the fresh pixel is in no earlier region
                assert(!in_some_region(regions@, regions@.len() as int, np));
                // visited still marks exactly regions plus queue
                assert forall|p: (int, int)|
                    #[trigger] in_grid(p, w as int, image.height as int)
                    implies visited@[gidx(p, w as int)]
                        == (in_some_region(regions@, regions@.len() as int, p) || q1.contains(p)) by {
                    if p == np {
                        assert(q1[q1.len() - 1] == np);
                        assert(q1.contains(np));
                    } else {
                        assert(gidx(p, w as int) != gidx(np, w as int));
                        assert(q1.contains(p) == q0.contains(p)) by {
                            if q0.contains(p) {
                                let k = choose|k: int| 0 <= k < q0.len() && q0[k] == p;
                                assert(q1[k] == p);
                            }
                            if q1.contains(p) {
                                let k = choose|k: int| 0 <= k < q1.len() && q1[k] == p;
                                assert(k < q0.len() ==> q0[k] == p);
                            }
                        }
                    }
                }
                // the chain gains one link, from the expansion pixel
                assert forall|k: int| 1 <= k < q1.len() implies exists|j: int|
                    0 <= j < k && adjacent(q1[j], #[trigger] q1[k])
                        && similar(image.pix(q1[j].0, q1[j].1), image.pix(q1[k].0, q1[k].1),
                            variance) by {
                    if k < q0.len() {
                        assert(chain_ok(*image, variance, q0));
                        let qk = q1[k];
                        let j = choose|j: int|
                            0 <= j < k && adjacent(q0[j], qk)
                                && similar(image.pix(q0[j].0, q0[j].1),
                                    image.pix(qk.0, qk.1), variance);
                        assert(q1[j] == q0[j] && q1[k] == q0[k]);
                        assert(0 <= j < k && adjacent(q1[j], q1[k])
                            && similar(image.pix(q1[j].0, q1[j].1),
                                image.pix(q1[k].0, q1[k].1), variance));
                    } else {
                        assert(q1[k] == np);
                        assert(q1[head@] == q0[head@]);
                        assert(adjacent(q1[head@], np));
                        assert(0 <= head@ < k && adjacent(q1[head@], q1[k])
                            && similar(image.pix(q1[head@].0, q1[head@].1),
                                image.pix(q1[k].0, q1[k].1), variance));
                    }
                }
                assert(chain_ok(*image, variance, q1));
                // expanded members and their neighborhoods are untouched
                assert forall|k: int, p: (int, int)|
                    0 <= k < head@ && in_grid(p, w as int, image.height as int)
                        && #[trigger] adjacent(q1[k], p)
                        && similar(image.pix(q1[k].0, q1[k].1), image.pix(p.0, p.1), variance)
                    implies visited@[gidx(p, w as int)] by {
                    assert(q1[k] == q0[k]);
                    assert(closure_ok(*image, variance, old(visited)@, q0, head@));
                }
                assert(qview(queue@).take(head@ + 1) =~= q0.take(head@ + 1));
            }
        }
    }
}

/// Partitions the image into maximal 4-connected regions grown under
/// neighbor-to-neighbor color similarity, scanning seeds row by row with
/// x fastest. Every pixel lands in exactly one region; each region records
/// its pixel count, its running color sums and its dilated mask.
#[verifier::rlimit(80)]
pub fn segment_image(image: &Image, variance: u8) -> (regions: Vec<Region>)
    requires
        image.wf(),
        (image.width * image.height + 1) * 255 <= u32::MAX,
    ensures
        seg_post(*image, variance, regions@),
{
    let w = image.width;
    let h = image.height;
    let mut regions: Vec<Region> = Vec::new();
    if w == 0 || h == 0 {
        return regions;
    }
    proof {
        assert((w * h + 1) * 255 == w * h * 255 + 255) by (nonlinear_arith);
        assert(w * h * 255 >= w * h) by (nonlinear_arith)
            requires w * h >= 0;
        vstd::arithmetic::mul::lemma_mul_ordering(w as int, h as int);
        assert((w as int + 1) * (h as int + 1) == w * h + w + h + 1) by (nonlinear_arith);
    }
    let total: usize = (w as usize) * (h as usize);
    let mut visited = make_bool_vec(total);
    proof {
        lemma_gidx_bounds(w as int, h as int);
        assert forall|p: (int, int)| #[trigger] in_grid(p, w as int, h as int)
            implies visited@[gidx(p, w as int)]
                == (in_some_region(regions@, regions@.len() as int, p)
                    || Seq::<(int, int)>::empty().contains(p)) by {
            assert(0 <= gidx(p, w as int) < total);
            assert(!visited@[gidx(p, w as int)]);
        }
    }
    let mut y: u32 = 0;
    while y < h
        invariant
            image.wf(),
            w == image.width,
            h == image.height,
            1 <= w,
            1 <= h,
            (w * h + 1) * 255 <= u32::MAX,
            w <= w * h,
            h <= w * h,
            (w as int + 1) * (h as int + 1) == w * h + w + h + 1,
            total == w * h,
            y <= h,
            visited@.len() == total,
            seg_inv(*image, variance, regions@),
            vis_matches(*image, visited@, regions@, Seq::<(int, int)>::empty()),
            forall|p: (int, int)| in_grid(p, w as int, h as int) && p.1 < y
                ==> visited@[#[trigger] gidx(p, w as int)],
        decreases h - y,
    {
        let mut x: u32 = 0;
        while x < w
            invariant
                image.wf(),
                w == image.width,
                h == image.height,
                1 <= w,
                1 <= h,
                (w * h + 1) * 255 <= u32::MAX,
                w <= w * h,
                h <= w * h,
                (w as int + 1) * (h as int + 1) == w * h + w + h + 1,
                total == w * h,
                y < h,
                x <= w,
                visited@.len() == total,
                seg_inv(*image, variance, regions@),
                vis_matches(*image, visited@, regions@, Seq::<(int, int)>::empty()),
                forall|p: (int, int)| in_grid(p, w as int, h as int)
                    && scan_before(p, (x as int, y as int))
                    ==> visited@[#[trigger] gidx(p, w as int)],
            decreases w - x,
        {
            proof {
                lemma_gidx_bounds(w as int, h as int);
            }
            let tidx = grid_index(x, y, w);
            if !visited[tidx] {
                segment_one_region(image, variance, x, y, &mut visited, &mut regions);
            }
            x = x + 1;
        }
        y = y + 1;
    }
    proof {
        assert forall|p: (int, int)| #[trigger] in_grid(p, w as int, h as int)
            implies in_some_region(regions@, regions@.len() as int, p) by {
            assert(visited@[gidx(p, w as int)]);
            assert(!Seq::<(int, int)>::empty().contains(p));
        }
    }
    regions
}

/// Builds a region's mask from its member list: the seed's cell plus the
/// cell of every in-image 4-neighbor of a member, in a buffer one cell
/// wider and taller than the image.
fn region_mask(image: &Image, queue: &Vec<(u32, u32)>, x: u32, y: u32) -> (mask: Mask)
    requires
        image.wf(),
        1 <= image.width,
        1 <= image.height,
        image.width < u32::MAX,
        image.height < u32::MAX,
        (image.width as int + 1) * (image.height as int + 1)
            <= usize::MAX,
        queue@.len() >= 1,
        qview(queue@)[0] == (x as int, y as int),
        forall|k: int| 0 <= k < queue@.len()
            ==> in_grid(#[trigger] qview(queue@)[k], image.width as int, image.height as int),
    ensures
        mask.wf(),
        mask.width == image.width + 1,
        mask.height == image.height + 1,
        forall|cx: int, cy: int| 0 <= cx <= image.width && 0 <= cy <= image.height
            ==> #[trigger] mask.at(cx, cy) == mask_covers(*image, qview(queue@), cx, cy),
{
    let w = image.width;
    let h = image.height;
    let ghost q = qview(queue@);
    let ghost seed: (int, int) = (x as int, y as int);
    let mut mask = Mask::new_empty(w + 1, h + 1);
    mask.set_cell(x, y);
    let mut k: usize = 0;
    while k < queue.len()
        invariant
            image.wf(),
            w == image.width,
            h == image.height,
            1 <= w,
            1 <= h,
            q == qview(queue@),
            seed == (x as int, y as int),
            k <= queue@.len(),
            queue@.len() >= 1,
            q[0] == seed,
            forall|j: int| 0 <= j < q.len() ==> in_grid(#[trigger] q[j], w as int, h as int),
            mask.wf(),
            mask.width == w + 1,
            mask.height == h + 1,
            forall|cx: int, cy: int| 0 <= cx <= w && 0 <= cy <= h
                ==> #[trigger] mask.at(cx, cy) == ((cx, cy) == seed
                    || (in_grid((cx, cy), w as int, h as int)
                        && exists|j: int| 0 <= j < k && adjacent(q[j], (cx, cy)))),
        decreases queue@.len() - k,
    {
        let (mx, my) = queue[k];
        let ghost cpos: (int, int) = (mx as int, my as int);
        let ghost mask0 = mask;
        proof {
            assert(q[k as int] == cpos);
            assert(in_grid(cpos, w as int, h as int));
        }
        if mx >= 1 {
            mask.set_cell(mx - 1, my);
        }
        if mx + 1 < w {
            mask.set_cell(mx + 1, my);
        }
        if my >= 1 {
            mask.set_cell(mx, my - 1);
        }
        if my + 1 < h {
            mask.set_cell(mx, my + 1);
        }
        k = k + 1;
        proof {
            assert forall|cx: int, cy: int| 0 <= cx <= w && 0 <= cy <= h
                implies #[trigger] mask.at(cx, cy) == ((cx, cy) == seed
                    || (in_grid((cx, cy), w as int, h as int)
                        && exists|j: int| 0 <= j < k && adjacent(q[j], (cx, cy)))) by {
                if (cx, cy) != seed {
                    if in_grid((cx, cy), w as int, h as int) && adjacent(cpos, (cx, cy)) {
                        assert(q[k - 1] == cpos);
                        assert(mask.at(cx, cy));
                    } else {
                        assert(mask.at(cx, cy) == mask0.at(cx, cy));
                        if mask0.at(cx, cy) {
                            let j = choose|j: int| 0 <= j < k - 1 && adjacent(q[j], (cx, cy));
                            assert(0 <= j < k && adjacent(q[j], (cx, cy)));
                        }
                        if exists|j: int| 0 <= j < k && adjacent(q[j], (cx, cy))
                            && in_grid((cx, cy), w as int, h as int) {
                            let j = choose|j: int| 0 <= j < k && adjacent(q[j], (cx, cy));
                            assert(j != k - 1);
                        }
                    }
                }
            }
        }
    }
    proof {
        assert forall|cx: int, cy: int| 0 <= cx <= w && 0 <= cy <= h
            implies #[trigger] mask.at(cx, cy) == mask_covers(*image, q, cx, cy) by {}
    }
    mask
}

/// Once the four in-image neighbors of the pixel at the cursor are
/// visited, the closure property extends past the cursor.
proof fn lemma_closure_step(
    img: Image,
    variance: u8,
    visited: Seq<bool>,
    q: Seq<(int, int)>,
    head: int,
    cpos: (int, int),
)
    requires
        closure_ok(img, variance, visited, q, head),
        0 <= head < q.len(),
        q[head] == cpos,
        forall|p: (int, int)|
            in_grid(p, img.width as int, img.height as int) && #[trigger] adjacent(cpos, p)
                && similar(img.pix(cpos.0, cpos.1), img.pix(p.0, p.1), variance)
                ==> visited[gidx(p, img.width as int)],
    ensures
        closure_ok(img, variance, visited, q, head + 1),
{
    assert forall|k: int, p: (int, int)|
        0 <= k < head + 1 && in_grid(p, img.width as int, img.height as int)
            && #[trigger] adjacent(q[k], p)
            && similar(img.pix(q[k].0, q[k].1), img.pix(p.0, p.1), variance)
        implies visited[gidx(p, img.width as int)] by {
        if k == head {
            assert(q[k] == cpos);
        }
    }
}

/// Expands one dequeued pixel: visits its four in-image neighbors,
/// enqueueing the unvisited similar ones, and closes the pixel's
/// neighborhood, advancing the flood-fill invariant by one position.
#[verifier::rlimit(100)]
fn expand_pixel(
    image: &Image,
    variance: u8,
    cx: u32,
    cy: u32,
    cur: Pixel,
    visited: &mut Vec<bool>,
    queue: &mut Vec<(u32, u32)>,
    regions: Ghost<Seq<Region>>,
    head: Ghost<int>,
)
    requires
        image.wf(),
        old(visited)@.len() == image.width * image.height,
        bfs_inv(*image, variance, regions@, old(visited)@, qview(old(queue)@), head@),
        head@ < qview(old(queue)@).len(),
        qview(old(queue)@)[head@] == (cx as int, cy as int),
        in_grid((cx as int, cy as int), image.width as int, image.height as int),
        cur == image.pix(cx as int, cy as int),
    ensures
        final(visited)@.len() == old(visited)@.len(),
        forall|k: int| 0 <= k < old(visited)@.len() && old(visited)@[k] ==> final(visited)@[k],
        old(queue)@.len() <= final(queue)@.len(),
        qview(final(queue)@).take(head@ + 1) == qview(old(queue)@).take(head@ + 1),
        bfs_inv(*image, variance, regions@, final(visited)@, qview(final(queue)@), head@ + 1),
{
    let w = image.width;
    let h = image.height;
    let ghost cpos: (int, int) = (cx as int, cy as int);
    if cx >= 1 {
        visit_neighbor(image, variance, cx - 1, cy, cur, visited, queue, regions, head);
    }
    let ghost v1 = visited@;
    if cx + 1 < w {
        visit_neighbor(image, variance, cx + 1, cy, cur, visited, queue, regions, head);
    }
    let ghost v2 = visited@;
    if cy >= 1 {
        visit_neighbor(image, variance, cx, cy - 1, cur, visited, queue, regions, head);
    }
    let ghost v3 = visited@;
    if cy + 1 < h {
        visit_neighbor(image, variance, cx, cy + 1, cur, visited, queue, regions, head);
    }
    proof {
        lemma_gidx_bounds(w as int, h as int);
        let q = qview(queue@);
        assert(q[head@] == cpos);
        // each in-image neighbor is visited once its direction was handled
        assert forall|p: (int, int)|
            in_grid(p, w as int, h as int) && #[trigger] adjacent(cpos, p)
                && similar(image.pix(cpos.0, cpos.1), image.pix(p.0, p.1), variance)
            implies visited@[gidx(p, w as int)] by {
            if p == ((cpos.0 - 1) as int, cpos.1) {
                assert(v1[gidx(p, w as int)]);
                assert(v2[gidx(p, w as int)]);
                assert(v3[gidx(p, w as int)]);
            } else if p == ((cpos.0 + 1) as int, cpos.1) {
                assert(v2[gidx(p, w as int)]);
                assert(v3[gidx(p, w as int)]);
            } else if p == (cpos.0, (cpos.1 - 1) as int) {
                assert(v3[gidx(p, w as int)]);
            } else {
                assert(p == (cpos.0, (cpos.1 + 1) as int));
            }
        }
        lemma_closure_step(*image, variance, visited@, q, head@, cpos);
        assert(qview(queue@).take(head@ + 1) =~= qview(old(queue)@).take(head@ + 1));
    }
}

/// Grows one region from an unvisited seed by breadth-first flood fill
/// and appends it to the region list, keeping the segmentation invariant.
#[verifier::rlimit(100)]
fn segment_one_region(
    image: &Image,
    variance: u8,
    x: u32,
    y: u32,
    visited: &mut Vec<bool>,
    regions: &mut Vec<Region>,
)
    requires
        image.wf(),
        1 <= image.width,
        1 <= image.height,
        (image.width * image.height + 1) * 255 <= u32::MAX,
        image.width <= image.width * image.height,
        image.height <= image.width * image.height,
        (image.width as int + 1) * (image.height as int + 1)
            == image.width * image.height + image.width + image.height + 1,
        image.in_bounds(x as int, y as int),
        old(visited)@.len() == image.width * image.height,
        !old(visited)@[gidx((x as int, y as int), image.width as int)],
        seg_inv(*image, variance, old(regions)@),
        vis_matches(*image, old(visited)@, old(regions)@, Seq::<(int, int)>::empty()),
        forall|p: (int, int)| in_grid(p, image.width as int, image.height as int)
            && scan_before(p, (x as int, y as int))
            ==> old(visited)@[#[trigger] gidx(p, image.width as int)],
    ensures
        final(visited)@.len() == old(visited)@.len(),
        forall|k: int| 0 <= k < old(visited)@.len() && old(visited)@[k] ==> final(visited)@[k],
        final(visited)@[gidx((x as int, y as int), image.width as int)],
        seg_inv(*image, variance, final(regions)@),
        vis_matches(*image, final(visited)@, final(regions)@, Seq::<(int, int)>::empty()),
{
    let w = image.width;
    let h = image.height;
    let total: usize = (w as usize) * (h as usize);
    let ghost seed: (int, int) = (x as int, y as int);
    let ghost regions0 = regions@;
    let ghost visited0 = visited@;
    proof {
        lemma_gidx_bounds(w as int, h as int);
        lemma_gidx_injective(w as int, h as int);
    }
    let seed_color = image.get_pixel(x, y);
    let mut queue: Vec<(u32, u32)> = Vec::new();
    queue.push((x, y));
    let tidx = grid_index(x, y, w);
    visited[tidx] = true;
    let mut head: usize = 0;
    let mut count: u32 = 0;
    let mut sum_r: u32 = seed_color.r as u32;
    let mut sum_g: u32 = seed_color.g as u32;
    let mut sum_b: u32 = seed_color.b as u32;
    let mut sum_a: u32 = seed_color.a as u32;
    proof {
        let q = qview(queue@);
        assert(q =~= Seq::<(int, int)>::empty().push(seed));
        assert(q[0] == seed && q.len() == 1);
        assert(q.no_duplicates());
        assert forall|p: (int, int)| #[trigger] in_grid(p, w as int, h as int)
            implies visited@[gidx(p, w as int)]
                == (in_some_region(regions@, regions@.len() as int, p) || q.contains(p)) by {
            if p == seed {
                assert(q.contains(seed));
            } else {
                assert(gidx(p, w as int) != gidx(seed, w as int));
                assert(!q.contains(p));
            }
        }
        assert(qview(queue@).take(0) =~= Seq::<(int, int)>::empty());
    }
    while head < queue.len()
        invariant
            image.wf(),
            w == image.width,
            h == image.height,
            1 <= w,
            1 <= h,
            (w * h + 1) * 255 <= u32::MAX,
            total == w * h,
            seed == (x as int, y as int),
            in_grid(seed, w as int, h as int),
            regions@ == regions0,
            visited@.len() == total,
            forall|k: int| 0 <= k < total && visited0[k] ==> visited@[k],
            head <= queue@.len(),
            queue@.len() <= total,
            qview(queue@)[0] == seed,
            bfs_inv(*image, variance, regions@, visited@, qview(queue@), head as int),
            count == head,
            sum_r == chan(image.pix(seed.0, seed.1), 0)
                + sum_chan(*image, qview(queue@).take(head as int), 0),
            sum_g == chan(image.pix(seed.0, seed.1), 1)
                + sum_chan(*image, qview(queue@).take(head as int), 1),
            sum_b == chan(image.pix(seed.0, seed.1), 2)
                + sum_chan(*image, qview(queue@).take(head as int), 2),
            sum_a == chan(image.pix(seed.0, seed.1), 3)
                + sum_chan(*image, qview(queue@).take(head as int), 3),
            sum_r <= 255 * (head + 1),
            sum_g <= 255 * (head + 1),
            sum_b <= 255 * (head + 1),
            sum_a <= 255 * (head + 1),
        decreases total - head,
    {
        let ghost qpre = qview(queue@);
        let (cx, cy) = queue[head];
        let ghost cpos: (int, int) = (cx as int, cy as int);
        proof {
            assert(qpre[head as int] == cpos);
            assert(in_grid(cpos, w as int, h as int));
        }
        let cur = image.get_pixel(cx, cy);
        sum_r = sum_r + cur.r as u32;
        sum_g = sum_g + cur.g as u32;
        sum_b = sum_b + cur.b as u32;
        sum_a = sum_a + cur.a as u32;
        count = count + 1;
        expand_pixel(image, variance, cx, cy, cur, visited, &mut queue, Ghost(regions@),
            Ghost(head as int));
        head = head + 1;
        proof {
            let q = qview(queue@);
            lemma_distinct_points_in_grid(q, w as int, h as int);
            // the color sums now cover the freshly expanded pixel
            assert(q.take(head as int) == qpre.take(head as int));
            assert(q.take(head as int)[0] == q[0]);
            assert(qpre.take(head as int)[0] == qpre[0]);
            assert(q[0] == qpre[0]);
            assert(q.take(head as int).drop_last() =~= q.take(head - 1));
            assert(q.take(head - 1) =~= qpre.take(head - 1));
            assert(q.take(head as int).last() == cpos);
            assert(sum_chan(*image, q.take(head as int), 0)
                == sum_chan(*image, q.take(head - 1), 0) + chan(image.pix(cpos.0, cpos.1), 0));
        }
    }
    let mask = region_mask(image, &queue, x, y);
    let region = Region {
        count,
        sum_r,
        sum_g,
        sum_b,
        sum_a,
        mask,
        members: Ghost(qview(queue@)),
    };
    let ghost r = region;
    regions.push(region);
    proof {
        let q = qview(queue@);
        assert(regions@ == regions0.push(r));
        assert(q.take(head as int) =~= q);
        assert(chain_ok(*image, variance, q));
        lemma_region_push(*image, variance, regions0, r, visited@, seed);
        assert(q.contains(seed));
    }
}

/// Appending one finished region preserves the segmentation invariant,
/// and the visited map then marks exactly the pixels of the new list.
#[verifier::rlimit(100)]
proof fn lemma_region_push(
    img: Image,
    variance: u8,
    regions0: Seq<Region>,
    r: Region,
    visited: Seq<bool>,
    seed: (int, int),
)
    requires
        img.wf(),
        1 <= img.width,
        1 <= img.height,
        region_wf(img, variance, r),
        r.members@[0] == seed,
        seg_inv(img, variance, regions0),
        forall|p: (int, int)| in_grid(p, img.width as int, img.height as int)
            && scan_before(p, seed)
            ==> in_some_region(regions0, regions0.len() as int, p),
        forall|k: int| 0 <= k < r.members@.len()
            ==> !in_some_region(regions0, regions0.len() as int, #[trigger] r.members@[k]),
        visited.len() == img.width * img.height,
        vis_matches(img, visited, regions0, r.members@),
        closure_ok(img, variance, visited, r.members@, r.members@.len() as int),
    ensures
        seg_inv(img, variance, regions0.push(r)),
        vis_matches(img, visited, regions0.push(r), Seq::<(int, int)>::empty()),
{
    let w = img.width;
    let h = img.height;
    let q = r.members@;
    let rs = regions0.push(r);
    let n = regions0.len() as int;
    assert(rs.len() == n + 1);
    assert(rs[n] == r);
    assert forall|i: int| 0 <= i < n implies rs[i] == regions0[i] by {}
    // membership in the extended list
    assert forall|p: (int, int)| in_some_region(regions0, n, p)
        implies in_some_region(rs, n + 1, p) by {
        let j = choose|j: int| 0 <= j < n && contains_pt(regions0[j], p);
        assert(contains_pt(rs[j], p));
    }
    assert forall|p: (int, int)| #[trigger] q.contains(p)
        implies in_some_region(rs, n + 1, p) by {
        assert(contains_pt(rs[n], p));
    }
    // pairwise disjointness
    assert forall|i: int, j: int, p: (int, int)|
        0 <= i < rs.len() && 0 <= j < rs.len()
            && #[trigger] contains_pt(rs[i], p) && #[trigger] contains_pt(rs[j], p)
        implies i == j by {
        if i < n && j < n {
            assert(contains_pt(regions0[i], p) && contains_pt(regions0[j], p));
        } else if i < n && j == n {
            assert(contains_pt(regions0[i], p));
            assert(in_some_region(regions0, n, p));
        } else if i == n && j < n {
            assert(contains_pt(regions0[j], p));
            assert(in_some_region(regions0, n, p));
        }
    }
    // closure of every region in the extended list
    assert forall|i: int, k: int, p: (int, int)|
        0 <= i < rs.len() && 0 <= k < rs[i].members@.len()
            && in_grid(p, w as int, h as int)
            && #[trigger] adjacent(rs[i].members@[k], p)
            && similar(img.pix(rs[i].members@[k].0, rs[i].members@[k].1),
                img.pix(p.0, p.1), variance)
        implies in_some_region(rs, i + 1, p) by {
        if i < n {
            assert(rs[i] == regions0[i]);
            assert(in_some_region(regions0, i + 1, p));
            let j = choose|j: int| 0 <= j < i + 1 && contains_pt(regions0[j], p);
            assert(contains_pt(rs[j], p));
        } else {
            assert(rs[n].members@ == q);
            assert(visited[gidx(p, w as int)]);
            assert(in_some_region(regions0, n, p) || q.contains(p));
        }
    }
    // seeds stay in scan order
    assert forall|i: int, p: (int, int)|
        0 <= i < rs.len() && in_grid(p, w as int, h as int)
            && #[trigger] scan_before(p, rs[i].members@[0])
        implies in_some_region(rs, i, p) by {
        if i < n {
            assert(rs[i] == regions0[i]);
            assert(in_some_region(regions0, i, p));
            let j = choose|j: int| 0 <= j < i && contains_pt(regions0[j], p);
            assert(contains_pt(rs[j], p));
        } else {
            assert(rs[n].members@[0] == seed);
            assert(in_some_region(regions0, n, p));
            let j = choose|j: int| 0 <= j < n && contains_pt(regions0[j], p);
            assert(contains_pt(rs[j], p));
        }
    }
    // the visited map now marks exactly the regions of the new list
    assert forall|p: (int, int)| #[trigger] in_grid(p, w as int, h as int)
        implies visited[gidx(p, w as int)]
            == (in_some_region(rs, n + 1, p)
                || Seq::<(int, int)>::empty().contains(p)) by {
        if visited[gidx(p, w as int)] {
            assert(in_some_region(regions0, n, p) || q.contains(p));
        }
        if in_some_region(rs, n + 1, p) {
            let j = choose|j: int| 0 <= j < n + 1 && contains_pt(rs[j], p);
            if j < n {
                assert(contains_pt(regions0[j], p));
                assert(in_some_region(regions0, n, p));
            } else {
                assert(q.contains(p));
            }
        }
    }
}


/// The sum of one channel over a member list is at most 255 per member.
proof fn lemma_sum_chan_le(img: Image, ms: Seq<(int, int)>, c: int)
    ensures
        0 <= sum_chan(img, ms, c) <= 255 * ms.len(),
    decreases ms.len(),
{
    if ms.len() > 0 {
        lemma_sum_chan_le(img, ms.drop_last(), c);
    }
}

/// The color sums of a well-formed region stay within 255 samples of
/// `count + 1` pixels each, so the averages below fit in a byte.
pub proof fn lemma_region_sums_bounded(img: Image, variance: u8, r: Region)
    requires
        region_wf(img, variance, r),
    ensures
        r.sum_r <= 255 * (r.count + 1),
        r.sum_g <= 255 * (r.count + 1),
        r.sum_b <= 255 * (r.count + 1),
        r.sum_a <= 255 * (r.count + 1),
{
    lemma_sum_chan_le(img, r.members@, 0);
    lemma_sum_chan_le(img, r.members@, 1);
    lemma_sum_chan_le(img, r.members@, 2);
    lemma_sum_chan_le(img, r.members@, 3);
}

/// The averaged color of a region: each channel sum divided by
/// `count + 1` (the accumulator was seeded with the seed pixel's color,
/// so it holds `count + 1` samples).
pub open spec fn avg_pixel(r: Region) -> Pixel {
    Pixel {
        r: ((r.sum_r as int) / (r.count as int + 1)) as u8,
        g: ((r.sum_g as int) / (r.count as int + 1)) as u8,
        b: ((r.sum_b as int) / (r.count as int + 1)) as u8,
        a: ((r.sum_a as int) / (r.count as int + 1)) as u8,
    }
}

/// Divides each channel sum by `count + 1`. Every channel of the result
/// lies in `0 ..= 255` by construction.
pub fn average_color(region: &Region) -> (p: Pixel)
    requires
        region.count < u32::MAX,
        region.sum_r <= 255 * (region.count + 1),
        region.sum_g <= 255 * (region.count + 1),
        region.sum_b <= 255 * (region.count + 1),
        region.sum_a <= 255 * (region.count + 1),
    ensures
        p == avg_pixel(*region),
{
    let d = region.count + 1;
    proof {
        lemma_chan_div_le(region.sum_r as int, d as int);
        lemma_chan_div_le(region.sum_g as int, d as int);
        lemma_chan_div_le(region.sum_b as int, d as int);
        lemma_chan_div_le(region.sum_a as int, d as int);
    }
    Pixel {
        r: (region.sum_r / d) as u8,
        g: (region.sum_g / d) as u8,
        b: (region.sum_b / d) as u8,
        a: (region.sum_a / d) as u8,
    }
}

/// A sum of at most `255 * d` samples averages to at most 255.
proof fn lemma_chan_div_le(s: int, d: int)
    requires
        0 < d,
        0 <= s <= 255 * d,
    ensures
        0 <= s / d <= 255,
{
    vstd::arithmetic::div_mod::lemma_div_is_ordered(s, 255 * d, d);
    vstd::arithmetic::div_mod::lemma_div_multiples_vanish(255, d);
    vstd::arithmetic::div_mod::lemma_div_pos_is_pos(s, d);
}

/// What the border tracer returns for a gray buffer of the given size:
/// the vertex list of every traced border, in tracing order. The result
/// is a function of the buffer contents alone.
pub uninterp spec fn traced_contours(width: int, height: int, buffer: Seq<u8>) -> Seq<Seq<(int, int)>>;

/// A boolean mask as a gray buffer: 255 for set cells, 0 for clear ones.
pub open spec fn buffer_of(cells: Seq<bool>) -> Seq<u8> {
    cells.map_values(|b: bool| if b { 255u8 } else { 0u8 })
}

/// The gray buffer of a mask, in executable form.
fn mask_buffer(mask: &Mask) -> (buf: Vec<u8>)
    ensures
        buf@ == buffer_of(mask.cells@),
{
    let mut buf: Vec<u8> = Vec::new();
    let mut i: usize = 0;
    let n = mask.cells.len();
    while i < n
        invariant
            i <= n,
            n == mask.cells@.len(),
            buf@.len() == i,
            forall|k: int| 0 <= k < i ==> buf@[k] == (if mask.cells@[k] { 255u8 } else { 0u8 }),
        decreases n - i,
    {
        if mask.cells[i] {
            buf.push(255);
        } else {
            buf.push(0);
        }
        i = i + 1;
    }
    proof {
        assert(buf@ =~= buffer_of(mask.cells@));
    }
    buf
}

/// The integer view of a polygon list.
pub open spec fn polys_view(polys: Seq<Vec<Point>>) -> Seq<Seq<(int, int)>> {
    polys.map_values(|v: Vec<Point>| v@.map_values(|p: Point| (p.x as int, p.y as int)))
}

/// Relies on imageproc::contours::find_contours (the Suzuki-Abe border
/// follower): it returns the points of every border of the non-zero
/// cells of the buffer, in tracing order; the result depends on the
/// buffer contents alone, and every point lies inside the buffer's grid.
#[verifier::external_body]
fn find_buffer_contours(width: u32, height: u32, buf: Vec<u8>) -> (r: Vec<Vec<Point>>)
    requires
        buf@.len() == width * height,
        width <= 0x7FFF_FFFF,
        height <= 0x7FFF_FFFF,
    ensures
        polys_view(r@) == traced_contours(width as int, height as int, buf@),
        forall|i: int, j: int|
            0 <= i < r@.len() && 0 <= j < r@[i]@.len()
                ==> in_grid(((r@[i]@[j]).x as int, (r@[i]@[j]).y as int), width as int,
                    height as int),
{
    let img = image::GrayImage::from_raw(width, height, buf).unwrap();
    imageproc::contours::find_contours::<i32>(&img)
        .into_iter()
        .map(|c| c.points.into_iter().map(|p| Point { x: p.x, y: p.y }).collect())
        .collect()
}

/// Traces a region's mask into its boundary polygons, one per traced
/// border of the mask's set cells.
pub fn trace_region(region: &Region) -> (polys: Vec<Vec<Point>>)
    requires
        region.mask.wf(),
        region.mask.width <= 0x7FFF_FFFF,
        region.mask.height <= 0x7FFF_FFFF,
    ensures
        polys_view(polys@) == traced_contours(region.mask.width as int,
            region.mask.height as int, buffer_of(region.mask.cells@)),
{
    let buf = mask_buffer(&region.mask);
    find_buffer_contours(region.mask.width, region.mask.height, buf)
}

/// The (polygon, color) pairs one region contributes: each of its traced
/// boundary polygons, paired with its averaged color.
pub open spec fn region_polys(r: Region) -> Seq<(Seq<(int, int)>, Pixel)> {
    traced_contours(r.mask.width as int, r.mask.height as int,
        buffer_of(r.mask.cells@)).map_values(|p: Seq<(int, int)>| (p, avg_pixel(r)))
}

/// The assembled output of a segmentation: in region order, every region
/// with more pixels than `lower_cut` contributes its outer contours with
/// its averaged color; smaller regions are discarded.
pub open spec fn assembled(regions: Seq<Region>, lower_cut: int) -> Seq<(Seq<(int, int)>, Pixel)>
    decreases regions.len(),
{
    if regions.len() == 0 {
        Seq::empty()
    } else {
        let rest = assembled(regions.drop_last(), lower_cut);
        if regions.last().count > lower_cut {
            rest + region_polys(regions.last())
        } else {
            rest
        }
    }
}

/// The integer view of a (polygon, color) list.
pub open spec fn pairs_view(out: Seq<(Vec<Point>, Pixel)>) -> Seq<(Seq<(int, int)>, Pixel)> {
    out.map_values(|e: (Vec<Point>, Pixel)|
        (e.0@.map_values(|p: Point| (p.x as int, p.y as int)), e.1))
}

/// The whole raster engine: segments the image, discards regions of at
/// most `lower_cut` pixels, traces each survivor's boundary contours and
/// pairs them with the region's averaged color. The output is exactly
/// the assembly of a segmentation that satisfies the segmenter's
/// contract.
pub fn get_polygons(image: &Image, variance: u8, lower_cut: i32) -> (out: Vec<(Vec<Point>, Pixel)>)
    requires
        image.wf(),
        (image.width * image.height + 1) * 255 <= u32::MAX,
    ensures
        exists|regions: Seq<Region>| #[trigger] seg_post(*image, variance, regions)
            && pairs_view(out@) == assembled(regions, lower_cut as int),
{
    let regions = segment_image(image, variance);
    let mut out: Vec<(Vec<Point>, Pixel)> = Vec::new();
    let mut i: usize = 0;
    while i < regions.len()
        invariant
            image.wf(),
            (image.width * image.height + 1) * 255 <= u32::MAX,
            seg_post(*image, variance, regions@),
            i <= regions@.len(),
            pairs_view(out@) == assembled(regions@.take(i as int), lower_cut as int),
        decreases regions@.len() - i,
    {
        let ghost taken = regions@.take(i as int);
        let region = &regions[i];
        proof {
            assert(region_wf(*image, variance, regions@[i as int]));
            assert(regions@.take(i + 1).drop_last() =~= taken);
            assert(regions@.take(i + 1).last() == regions@[i as int]);
        }
        if region.count as i64 > lower_cut as i64 {
            proof {
                lemma_region_sums_bounded(*image, variance, *region);
                assert(region.members@[0].0 < image.width
                    && region.members@[0].1 < image.height);
                assert((image.width * image.height + 1) * 255 <= u32::MAX);
                assert(image.width * image.height < u32::MAX);
                vstd::arithmetic::mul::lemma_mul_ordering(image.width as int,
                    image.height as int);
            }
            let color = average_color(region);
            let mut polys = trace_region(region);
            let ghost rp = region_polys(*region);
            let ghost consumed: int = 0;
            while polys.len() > 0
                invariant
                    0 <= consumed <= rp.len(),
                    rp == region_polys(*region),
                    color == avg_pixel(*region),
                    polys_view(polys@) =~= traced_contours(
                        region.mask.width as int, region.mask.height as int,
                        buffer_of(region.mask.cells@)).subrange(consumed, rp.len() as int),
                    pairs_view(out@) == assembled(taken, lower_cut as int)
                        + rp.take(consumed),
                decreases polys@.len(),
            {
                let ghost out_pre = pairs_view(out@);
                let ghost pv_pre = polys_view(polys@);
                let p = polys.remove(0);
                out.push((p, color));
                proof {
                    let ops = traced_contours(region.mask.width as int,
                        region.mask.height as int, buffer_of(region.mask.cells@));
                    assert(rp =~= ops.map_values(|p: Seq<(int, int)>| (p, avg_pixel(*region))));
                    assert(rp.len() == ops.len());
                    assert(pv_pre.len() == rp.len() - consumed);
                    assert(0 <= consumed < rp.len());
                    assert(pv_pre =~= ops.subrange(consumed, rp.len() as int));
                    assert(pv_pre[0] == ops.subrange(consumed, rp.len() as int)[0]);
                    assert(pv_pre[0] == ops[consumed]);
                    assert(rp[consumed] == (ops[consumed], avg_pixel(*region)));
                    assert(pairs_view(out@) =~= out_pre.push((pv_pre[0], color)));
                    assert(polys_view(polys@) =~= pv_pre.subrange(1, pv_pre.len() as int));
                    assert(polys_view(polys@) =~= ops.subrange(consumed + 1, rp.len() as int));
                    assert(rp.take(consumed + 1) =~= rp.take(consumed).push(rp[consumed]));
                    assert(pairs_view(out@) =~= assembled(taken, lower_cut as int)
                        + rp.take(consumed + 1));
                }
                proof {
                    consumed = consumed + 1;
                }
            }
            proof {
                assert(rp.take(rp.len() as int) =~= rp);
                assert(assembled(regions@.take(i + 1), lower_cut as int)
                    == assembled(taken, lower_cut as int) + rp);
            }
        } else {
            proof {
                assert(assembled(regions@.take(i + 1), lower_cut as int)
                    == assembled(taken, lower_cut as int));
            }
        }
        i = i + 1;
    }
    proof {
        assert(regions@.take(regions@.len() as int) =~= regions@);
        assert(seg_post(*image, variance, regions@)
            && pairs_view(out@) == assembled(regions@, lower_cut as int));
    }
    out
}


} // verus!
