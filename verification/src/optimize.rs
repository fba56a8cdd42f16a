//! Vertex pruning: removal of interior polygon vertices that lie exactly on
//! the segment between their cyclic neighbours.

use vstd::prelude::*;
use crate::level::{Entity, Level, Point};

verus! {

/// Twice the signed area of the triangle `(a, b, c)`; zero exactly when the
/// three points are collinear.
pub open spec fn cross(a: Point, b: Point, c: Point) -> int {
    (c.y - a.y) * (b.x - a.x) - (b.y - a.y) * (c.x - a.x)
}

/// Collinearity of three points, in the integer-exact cross-product form.
pub open spec fn aligned(a: Point, b: Point, c: Point) -> bool {
    cross(a, b, c) == 0
}

/// The pruning pass, defined step by step: with a cursor `i` over the
/// cyclic vertex sequence, a collinear triple starting at `i` has its
/// middle vertex removed (and the cursor stays), otherwise the cursor
/// advances. The pass ends when the cursor reaches the current length or
/// the polygon is down to two vertices.
pub open spec fn prune_from(v: Seq<Point>, i: nat) -> Seq<Point>
    decreases v.len(), v.len() - i,
{
    if v.len() <= 2 || i >= v.len() {
        v
    } else {
        let n = v.len() as int;
        let b = (i + 1) as int % n;
        let c = (i + 2) as int % n;
        if aligned(v[i as int], v[b], v[c]) {
            prune_from(v.remove(b), i)
        } else {
            prune_from(v, (i + 1) as nat)
        }
    }
}

/// The result of pruning a whole polygon.
pub open spec fn pruned(v: Seq<Point>) -> Seq<Point> {
    prune_from(v, 0)
}

/// Exact collinearity test for three points. The arithmetic is done in
/// 128-bit integers, which hold any product of two differences of `i32`s.
pub fn points_aligned(point1: &Point, point2: &Point, point3: &Point) -> (r: bool)
    ensures
        r == aligned(*point1, *point2, *point3),
{
    let dy31: i128 = point3.y as i128 - point1.y as i128;
    let dx21: i128 = point2.x as i128 - point1.x as i128;
    let dy21: i128 = point2.y as i128 - point1.y as i128;
    let dx31: i128 = point3.x as i128 - point1.x as i128;
    proof {
        lemma_product_of_small(dy31 as int, dx21 as int);
        lemma_product_of_small(dy21 as int, dx31 as int);
    }
    dy31 * dx21 == dy21 * dx31
}

/// The product of two differences of `i32`s stays far inside `i128`.
proof fn lemma_product_of_small(a: int, b: int)
    requires
        -0x1_0000_0000 <= a <= 0x1_0000_0000,
        -0x1_0000_0000 <= b <= 0x1_0000_0000,
    ensures
        -0x1_0000_0000_0000_0000 <= a * b <= 0x1_0000_0000_0000_0000,
{
    assert(-0x1_0000_0000_0000_0000 <= a * b <= 0x1_0000_0000_0000_0000) by (nonlinear_arith)
        requires
            -0x1_0000_0000 <= a <= 0x1_0000_0000,
            -0x1_0000_0000 <= b <= 0x1_0000_0000,
    ;
}

/// Removes every interior vertex whose predecessor and successor are
/// collinear with it, walking the cyclic sequence as `prune_from` does.
/// A polygon of two or fewer vertices is left untouched, and pruning never
/// drops a polygon below two vertices.
pub fn prune_vertices(vertices: &mut Vec<Point>)
    ensures
        final(vertices)@ == pruned(old(vertices)@),
        old(vertices)@.len() > 2 ==> final(vertices)@.len() >= 2,
        old(vertices)@.len() <= 2 ==> final(vertices)@ == old(vertices)@,
{
    let ghost orig = vertices@;
    let mut i: usize = 0;
    while vertices.len() > 2 && i < vertices.len()
        invariant
            prune_from(vertices@, i as nat) == pruned(orig),
            orig.len() > 2 ==> vertices@.len() >= 2,
            orig.len() <= 2 ==> vertices@ == orig,
        decreases vertices@.len(), vertices@.len() - i,
    {
        let n = vertices.len();
        let b = if i + 1 == n { 0 } else { i + 1 };
        let c = if b + 1 == n { 0 } else { b + 1 };
        proof {
            let ni = n as int;
            if i + 1 < n {
                vstd::arithmetic::div_mod::lemma_small_mod((i + 1) as nat, n as nat);
            } else {
                vstd::arithmetic::div_mod::lemma_mod_self_0(ni);
            }
            assert(b as int == (i + 1) as int % ni);
            if i + 2 < n {
                vstd::arithmetic::div_mod::lemma_small_mod((i + 2) as nat, n as nat);
            } else if i + 2 == n {
                vstd::arithmetic::div_mod::lemma_mod_self_0(ni);
            } else {
                vstd::arithmetic::div_mod::lemma_mod_multiples_vanish(1, 1, ni);
                vstd::arithmetic::div_mod::lemma_small_mod(1nat, n as nat);
                assert((i + 2) as int % ni == (ni * 1 + 1) % ni);
            }
            assert(c as int == (i + 2) as int % ni);
        }
        let current = vertices[i];
        let next = vertices[b];
        let later = vertices[c];
        if points_aligned(&current, &next, &later) {
            let ghost before = vertices@;
            vertices.remove(b);
            proof {
                assert(vertices@ == before.remove(b as int));
                assert(prune_from(before, i as nat) == prune_from(vertices@, i as nat));
            }
        } else {
            i = i + 1;
        }
    }
}

/// Runs the vertex pruner over every paint entity of a level; everything
/// else about the level is left as it was.
pub fn prune_aligned_vertices(level: &mut Level)
    ensures
        final(level).name == old(level).name,
        final(level).timings == old(level).timings,
        final(level).format_version == old(level).format_version,
        final(level).entities@.len() == old(level).entities@.len(),
        forall|k: int| 0 <= k < old(level).entities@.len()
            ==> #[trigger] entity_pruned(old(level).entities@[k], final(level).entities@[k]),
{
    let n = level.entities.len();
    let mut idx: usize = 0;
    while idx < n
        invariant
            n == level.entities@.len(),
            level.entities@.len() == old(level).entities@.len(),
            level.name == old(level).name,
            level.timings == old(level).timings,
            level.format_version == old(level).format_version,
            forall|k: int| 0 <= k < idx
                ==> #[trigger] entity_pruned(old(level).entities@[k], level.entities@[k]),
            forall|k: int| idx <= k < n ==> level.entities@[k] == old(level).entities@[k],
        decreases n - idx,
    {
        let entity = &mut level.entities[idx];
        match entity {
            Entity::Paint { vertices, .. } => {
                prune_vertices(vertices);
            },
            Entity::Player { .. } => {},
        }
        idx = idx + 1;
    }
}

/// How one entity of a pruned level relates to the entity it came from:
/// a paint entity keeps its color and alpha and has its vertices pruned,
/// any other entity is unchanged.
pub open spec fn entity_pruned(before: Entity, after: Entity) -> bool {
    match before {
        Entity::Paint { fill_color, alpha, vertices } => match after {
            Entity::Paint { fill_color: fc2, alpha: a2, vertices: v2 } => {
                &&& fc2 == fill_color
                &&& a2 == alpha
                &&& v2@ == pruned(vertices@)
            },
            _ => false,
        },
        _ => after == before,
    }
}


/// Reduction of a cyclic index: for `0 <= a < 2n`, `a % n` is `a` or `a - n`.
proof fn lemma_cyc_index(a: int, n: int)
    requires
        1 <= n,
        0 <= a < 2 * n,
    ensures
        a % n == if a < n { a } else { a - n },
{
    if a < n {
        vstd::arithmetic::div_mod::lemma_small_mod(a as nat, n as nat);
    } else {
        vstd::arithmetic::div_mod::lemma_mod_multiples_vanish(1, a - n, n);
        vstd::arithmetic::div_mod::lemma_small_mod((a - n) as nat, n as nat);
        assert(a == n * 1 + (a - n));
    }
}

/// Two points on the line through distinct points `p` and `q` are
/// collinear with `p`.
proof fn lemma_collinear_trans(p: Point, q: Point, a: Point, b: Point)
    requires
        p != q,
        aligned(p, q, a),
        aligned(p, q, b),
    ensures
        aligned(p, a, b),
{
    let px = p.x as int;
    let py = p.y as int;
    let qx = q.x as int;
    let qy = q.y as int;
    let ax = a.x as int;
    let ay = a.y as int;
    let bx = b.x as int;
    let by = b.y as int;
    assert(px != qx || py != qy);
    assert((ay - py) * (qx - px) - (qy - py) * (ax - px) == 0);
    assert((by - py) * (qx - px) - (qy - py) * (bx - px) == 0);
    assert((by - py) * (ax - px) - (ay - py) * (bx - px) == 0) by (nonlinear_arith)
        requires
            (ay - py) * (qx - px) - (qy - py) * (ax - px) == 0,
            (by - py) * (qx - px) - (qy - py) * (bx - px) == 0,
            px != qx || py != qy,
    ;
}

/// Removing the middle point of a collinear triple cannot make the
/// preceding triple collinear, as long as the points are distinct.
proof fn lemma_shift(a: Point, b: Point, c: Point, d: Point)
    requires
        !aligned(a, b, c),
        aligned(b, c, d),
        b != d,
    ensures
        !aligned(a, b, d),
{
    if aligned(a, b, d) {
        // b, d and c lie on one line, and so do b, d and a
        assert(aligned(b, d, c)) by {
            let bx = b.x as int; let by = b.y as int;
            let cx = c.x as int; let cy = c.y as int;
            let dx = d.x as int; let dy = d.y as int;
            assert((dy - by) * (cx - bx) - (cy - by) * (dx - bx) == 0 ==>
                (cy - by) * (dx - bx) - (dy - by) * (cx - bx) == 0) by (nonlinear_arith);
        }
        assert(aligned(b, d, a)) by {
            let ax = a.x as int; let ay = a.y as int;
            let bx = b.x as int; let by = b.y as int;
            let dx = d.x as int; let dy = d.y as int;
            assert((dy - ay) * (bx - ax) - (by - ay) * (dx - ax) == 0 ==>
                (ay - by) * (dx - bx) - (dy - by) * (ax - bx) == 0) by (nonlinear_arith);
        }
        lemma_collinear_trans(b, d, c, a);
        assert(aligned(a, b, c)) by {
            let ax = a.x as int; let ay = a.y as int;
            let bx = b.x as int; let by = b.y as int;
            let cx = c.x as int; let cy = c.y as int;
            assert((ay - by) * (cx - bx) - (cy - by) * (ax - bx) == 0 ==>
                (cy - ay) * (bx - ax) - (by - ay) * (cx - ax) == 0) by (nonlinear_arith);
        }
    }
}

/// After removing the first vertex of a collinear wrap-around triple,
/// the new wrap-around triple is not collinear.
proof fn lemma_wrap(e: Point, v0: Point, v1: Point, v2: Point)
    requires
        aligned(e, v0, v1),
        !aligned(v0, v1, v2),
        e != v1,
    ensures
        !aligned(e, v1, v2),
{
    if aligned(e, v1, v2) {
        assert(aligned(v1, e, v0)) by {
            let ax = e.x as int; let ay = e.y as int;
            let bx = v0.x as int; let by = v0.y as int;
            let cx = v1.x as int; let cy = v1.y as int;
            assert((cy - ay) * (bx - ax) - (by - ay) * (cx - ax) == 0 ==>
                (by - cy) * (ax - cx) - (ay - cy) * (bx - cx) == 0) by (nonlinear_arith);
        }
        assert(aligned(v1, e, v2)) by {
            let ax = e.x as int; let ay = e.y as int;
            let bx = v1.x as int; let by = v1.y as int;
            let cx = v2.x as int; let cy = v2.y as int;
            assert((cy - ay) * (bx - ax) - (by - ay) * (cx - ax) == 0 ==>
                (cy - by) * (ax - bx) - (ay - by) * (cx - bx) == 0) by (nonlinear_arith);
        }
        lemma_collinear_trans(v1, e, v0, v2);
        assert(aligned(v0, v1, v2)) by {
            let ax = v1.x as int; let ay = v1.y as int;
            let bx = v0.x as int; let by = v0.y as int;
            let cx = v2.x as int; let cy = v2.y as int;
            assert((cy - ay) * (bx - ax) - (by - ay) * (cx - ax) == 0 ==>
                (cy - by) * (ax - bx) - (ay - by) * (cx - bx) == 0) by (nonlinear_arith);
        }
    }
}

/// The cyclic triple of consecutive vertices starting at `j` is not
/// collinear.
pub open spec fn triple_ok(v: Seq<Point>, j: int) -> bool {
    !aligned(v[j], v[(j + 1) % (v.len() as int)], v[(j + 2) % (v.len() as int)])
}

/// No cyclic triple of consecutive vertices is collinear.
pub open spec fn no_aligned_triple(v: Seq<Point>) -> bool {
    forall|j: int| 0 <= j < v.len() ==> #[trigger] triple_ok(v, j)
}

/// Removing an element keeps a duplicate-free sequence duplicate-free.
proof fn lemma_remove_distinct(v: Seq<Point>, b: int)
    requires
        v.no_duplicates(),
        0 <= b < v.len(),
    ensures
        v.remove(b).no_duplicates(),
{
    let w = v.remove(b);
    assert forall|i: int, j: int| 0 <= i < w.len() && 0 <= j < w.len() && i != j
        implies w[i] != w[j] by {
        let i0 = if i < b { i } else { i + 1 };
        let j0 = if j < b { j } else { j + 1 };
        assert(w[i] == v[i0] && w[j] == v[j0] && i0 != j0);
    }
}

/// The pruning pass never leaves a collinear triple behind: starting
/// from pairwise-distinct vertices with every triple before the cursor
/// already straightened, the result (when it still has more than two
/// vertices) has no collinear cyclic triple, and stays duplicate-free.
proof fn lemma_prune_from_props(v: Seq<Point>, i: nat)
    requires
        v.no_duplicates(),
        forall|j: int| 0 <= j < i && j < v.len() ==> #[trigger] triple_ok(v, j),
    ensures
        prune_from(v, i).no_duplicates(),
        prune_from(v, i).len() > 2 ==> no_aligned_triple(prune_from(v, i)),
    decreases v.len(), v.len() - i,
{
    let n = v.len() as int;
    if v.len() <= 2 || i >= v.len() {
        // the result is v itself; every triple index lies below the cursor
    } else {
        let b = (i + 1) as int % n;
        let c = (i + 2) as int % n;
        lemma_cyc_index(i as int + 1, n);
        lemma_cyc_index(i as int + 2, n);
        if aligned(v[i as int], v[b], v[c]) {
            let w = v.remove(b);
            lemma_remove_distinct(v, b);
            if i + 1 < n {
                // removal in the middle: earlier triples keep their points,
                // except the one just before the cursor, which is handled
                // by the straightening lemma
                assert(b == i + 1 && w.len() == n - 1);
                assert forall|j: int| 0 <= j < i && j < w.len()
                    implies #[trigger] triple_ok(w, j) by {
                    let m = w.len() as int;
                    lemma_cyc_index(j + 1, m);
                    lemma_cyc_index(j + 2, m);
                    lemma_cyc_index(j + 1, n);
                    lemma_cyc_index(j + 2, n);
                    assert(triple_ok(v, j));
                    if j + 2 <= i {
                        assert(w[j] == v[j] && w[j + 1] == v[j + 1] && w[j + 2] == v[j + 2]);
                        assert((j + 1) % m == j + 1 && (j + 2) % m == j + 2);
                        assert((j + 1) % n == j + 1 && (j + 2) % n == j + 2);
                        assert(!aligned(v[j], v[j + 1], v[j + 2]));
                    } else {
                        // j == i - 1: its triple lost the removed vertex
                        assert(j == i - 1);
                        assert(w[j] == v[j] && w[j + 1] == v[i as int]);
                        assert((j + 1) % m == j + 1);
                        assert((j + 1) % n == j + 1 && (j + 2) % n == j + 2);
                        assert(!aligned(v[j], v[i as int], v[i as int + 1]));
                        if i + 2 < n {
                            assert(c == i + 2);
                            assert((j + 2) % m == j + 2 && w[j + 2] == v[i as int + 2]);
                            lemma_shift(v[j], v[i as int], v[i as int + 1], v[i as int + 2]);
                        } else {
                            assert(c == 0);
                            if j + 2 == m {
                                assert((j + 2) % m == 0 && w[0] == v[0]);
                                lemma_shift(v[j], v[i as int], v[i as int + 1], v[0]);
                            } else {
                                assert((j + 2) % m == j + 2 && w[j + 2] == v[i as int + 2]);
                            }
                        }
                    }
                }
                lemma_prune_from_props(w, i);
            } else {
                // i == n - 1: the wrap-around triple was collinear and the
                // first vertex goes; the recursion stops at once
                assert(b == 0 && c == 1);
                assert(w =~= v.subrange(1, n));
                assert(prune_from(w, i) == w);
                if w.len() > 2 {
                    assert forall|k: int| 0 <= k < w.len()
                        implies #[trigger] triple_ok(w, k) by {
                        let m = w.len() as int;
                        lemma_cyc_index(k + 1, m);
                        lemma_cyc_index(k + 2, m);
                        lemma_cyc_index(n - 1, n);
                        lemma_cyc_index(n, n);
                        lemma_cyc_index(1, n);
                        lemma_cyc_index(2, n);
                        if k + 2 < m {
                            lemma_cyc_index(k + 2, n);
                            lemma_cyc_index(k + 3, n);
                            assert(w[k] == v[k + 1] && w[k + 1] == v[k + 2]
                                && w[k + 2] == v[k + 3]);
                            assert(triple_ok(v, k + 1));
                            assert(!aligned(v[k + 1], v[k + 2], v[k + 3]));
                        } else if k + 2 == m {
                            // the new wrap triple ends at the old v[1]
                            assert(w[k] == v[m - 1] && w[k + 1] == v[m] && (k + 2) % m == 0
                                && w[0] == v[1]);
                            assert(m - 1 == n - 2 && m == n - 1);
                            assert(triple_ok(v, n - 2));
                            assert(!aligned(v[n - 2], v[n - 1], v[0]));
                            assert(aligned(v[n - 1], v[0], v[1]));
                            lemma_shift(v[n - 2], v[n - 1], v[0], v[1]);
                        } else {
                            // k == m - 1: the triple around the seam
                            assert(k == m - 1);
                            assert(w[k] == v[n - 1] && (k + 1) % m == 0 && (k + 2) % m == 1);
                            assert(w[0] == v[1] && w[1] == v[2]);
                            assert(aligned(v[n - 1], v[0], v[1]));
                            assert(triple_ok(v, 0));
                            assert(!aligned(v[0], v[1], v[2]));
                            lemma_wrap(v[n - 1], v[0], v[1], v[2]);
                        }
                    }
                }
            }
        } else {
            assert(triple_ok(v, i as int));
            lemma_prune_from_props(v, (i + 1) as nat);
        }
    }
}

/// Pruning a polygon of more than two vertices leaves at least two, and
/// a polygon of at most two vertices is returned untouched.
pub proof fn lemma_prune_min_len(v: Seq<Point>, i: nat)
    ensures
        prune_from(v, i).len() <= v.len(),
        v.len() > 2 ==> prune_from(v, i).len() >= 2,
        v.len() <= 2 ==> prune_from(v, i) == v,
    decreases v.len(), v.len() - i,
{
    let n = v.len() as int;
    if v.len() <= 2 || i >= v.len() {
    } else {
        let b = (i + 1) as int % n;
        let c = (i + 2) as int % n;
        lemma_cyc_index(i as int + 1, n);
        lemma_cyc_index(i as int + 2, n);
        if aligned(v[i as int], v[b], v[c]) {
            lemma_prune_min_len(v.remove(b), i);
        } else {
            lemma_prune_min_len(v, (i + 1) as nat);
        }
    }
}

/// After pruning a polygon of pairwise-distinct vertices, no three
/// consecutive vertices (cyclically) are collinear: every remaining
/// cross product is non-zero. The result is also still duplicate-free.
pub proof fn lemma_pruned_no_collinear(v: Seq<Point>)
    requires
        v.no_duplicates(),
    ensures
        pruned(v).no_duplicates(),
        pruned(v).len() > 2 ==> no_aligned_triple(pruned(v)),
{
    lemma_prune_from_props(v, 0);
}

/// A polygon without collinear cyclic triples passes through the pruner
/// unchanged.
pub proof fn lemma_prune_noop(v: Seq<Point>, i: nat)
    requires
        v.len() > 2 ==> no_aligned_triple(v),
    ensures
        prune_from(v, i) == v,
    decreases v.len() - i,
{
    let n = v.len() as int;
    if v.len() <= 2 || i >= v.len() {
    } else {
        assert(triple_ok(v, i as int));
        lemma_prune_noop(v, (i + 1) as nat);
    }
}

/// Pruning is idempotent on polygons of pairwise-distinct vertices:
/// pruning twice gives the same polygon as pruning once.
pub proof fn lemma_prune_idempotent(v: Seq<Point>)
    requires
        v.no_duplicates(),
    ensures
        pruned(pruned(v)) == pruned(v),
{
    lemma_pruned_no_collinear(v);
    lemma_prune_noop(pruned(v), 0);
}


/// A vertex scaled by an integer factor.
pub open spec fn scale_pt(p: Point, s: int) -> Point {
    Point { x: (p.x * s) as i32, y: (p.y * s) as i32 }
}

/// A polygon scaled by an integer factor.
pub open spec fn scale_seq(v: Seq<Point>, s: int) -> Seq<Point> {
    v.map_values(|p: Point| scale_pt(p, s))
}

/// Every scaled coordinate still fits the vertex type.
pub open spec fn scale_in_range(v: Seq<Point>, s: int) -> bool {
    forall|k: int| 0 <= k < v.len() ==> i32::MIN <= #[trigger] v[k].x * s <= i32::MAX
        && i32::MIN <= v[k].y * s <= i32::MAX
}

/// Uniform scaling by a positive factor neither creates nor destroys
/// collinearity.
proof fn lemma_aligned_scale(a: Point, b: Point, c: Point, s: int)
    requires
        s > 0,
        i32::MIN <= a.x * s <= i32::MAX,
        i32::MIN <= a.y * s <= i32::MAX,
        i32::MIN <= b.x * s <= i32::MAX,
        i32::MIN <= b.y * s <= i32::MAX,
        i32::MIN <= c.x * s <= i32::MAX,
        i32::MIN <= c.y * s <= i32::MAX,
    ensures
        aligned(scale_pt(a, s), scale_pt(b, s), scale_pt(c, s)) == aligned(a, b, c),
{
    let sa = scale_pt(a, s);
    let sb = scale_pt(b, s);
    let sc = scale_pt(c, s);
    assert(sa.x == a.x * s && sa.y == a.y * s);
    assert(sb.x == b.x * s && sb.y == b.y * s);
    assert(sc.x == c.x * s && sc.y == c.y * s);
    let ax = a.x as int; let ay = a.y as int;
    let bx = b.x as int; let by = b.y as int;
    let cx = c.x as int; let cy = c.y as int;
    let d1 = cy - ay;
    let d2 = bx - ax;
    let d3 = by - ay;
    let d4 = cx - ax;
    assert(sc.y - sa.y == d1 * s && sb.x - sa.x == d2 * s && sb.y - sa.y == d3 * s
        && sc.x - sa.x == d4 * s) by (nonlinear_arith)
        requires
            sa.x == ax * s && sa.y == ay * s,
            sb.x == bx * s && sb.y == by * s,
            sc.x == cx * s && sc.y == cy * s,
            d1 == cy - ay && d2 == bx - ax && d3 == by - ay && d4 == cx - ax,
    ;
    assert((d1 * s) * (d2 * s) == (s * s) * (d1 * d2)) by (nonlinear_arith);
    assert((d3 * s) * (d4 * s) == (s * s) * (d3 * d4)) by (nonlinear_arith);
    assert((s * s) * (d1 * d2) - (s * s) * (d3 * d4) == (s * s) * (d1 * d2 - d3 * d4))
        by (nonlinear_arith);
    assert(cross(sa, sb, sc) == s * s * cross(a, b, c));
    let z = cross(a, b, c);
    assert(s * s * z == 0 <==> z == 0) by (nonlinear_arith)
        requires s > 0;
}

/// The pruning pass commutes with uniform scaling, cursor and all.
proof fn lemma_prune_from_scale(v: Seq<Point>, s: int, i: nat)
    requires
        s > 0,
        scale_in_range(v, s),
    ensures
        prune_from(scale_seq(v, s), i) == scale_seq(prune_from(v, i), s),
    decreases v.len(), v.len() - i,
{
    let sv = scale_seq(v, s);
    let n = v.len() as int;
    assert(sv.len() == n);
    if v.len() <= 2 || i >= v.len() {
    } else {
        let b = (i + 1) as int % n;
        let c = (i + 2) as int % n;
        lemma_cyc_index(i as int + 1, n);
        lemma_cyc_index(i as int + 2, n);
        lemma_aligned_scale(v[i as int], v[b], v[c], s);
        assert(sv[i as int] == scale_pt(v[i as int], s));
        assert(sv[b] == scale_pt(v[b], s) && sv[c] == scale_pt(v[c], s));
        if aligned(v[i as int], v[b], v[c]) {
            let w = v.remove(b);
            assert(scale_seq(w, s) =~= sv.remove(b));
            assert forall|k: int| 0 <= k < w.len()
                implies i32::MIN <= #[trigger] w[k].x * s <= i32::MAX
                    && i32::MIN <= w[k].y * s <= i32::MAX by {
                if k < b {
                    assert(w[k] == v[k]);
                } else {
                    assert(w[k] == v[k + 1]);
                }
            }
            lemma_prune_from_scale(w, s, i);
        } else {
            lemma_prune_from_scale(v, s, (i + 1) as nat);
        }
    }
}

/// Scaling commutes with pruning: pruning a polygon scaled by a positive
/// factor gives the scaled result of pruning the original polygon.
pub proof fn lemma_prune_scale_commutes(v: Seq<Point>, s: int)
    requires
        s > 0,
        scale_in_range(v, s),
    ensures
        pruned(scale_seq(v, s)) == scale_seq(pruned(v), s),
{
    lemma_prune_from_scale(v, s, 0);
}

} // verus!
