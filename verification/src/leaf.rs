//! Leaf clusters: the rasterised discs of points attached to a terminal
//! branch node, ordered inside-out for the animation.
//!
//! A cluster is laid out as one disc at the node and a chain of discs
//! drifting away to each side; every disc is rasterised to the whole-unit
//! cells inside its radius that lie on or above the node's base line, and
//! the collected offsets are then sorted by distance from the node. Every
//! choice comes from the random stream, so the whole cluster is a function
//! of the seed and the stream position, which the contracts state exactly.

use vstd::prelude::*;
use crate::geom::{Point, SCALE, half_range};
use crate::rng::{Prng, stream_word};

verus! {

/// All cluster geometry stays within this many milli-units of the node.
pub const LEAF_SPAN: i64 = 200000;

/// Squared magnitude: the sort key that orders a cluster inside-out.
pub open spec fn norm2v(p: Point) -> int {
    p.x * p.x + p.y * p.y
}

/// Insertion of `p` into `s` behind every element whose key does not exceed
/// `p`'s: the step of a stable insertion sort by squared magnitude.
pub open spec fn spec_insert(s: Seq<Point>, p: Point) -> Seq<Point>
    decreases s.len(),
{
    if s.len() == 0 {
        seq![p]
    } else if norm2v(s.last()) <= norm2v(p) {
        s.push(p)
    } else {
        spec_insert(s.drop_last(), p).push(s.last())
    }
}

/// Insertion sort by squared magnitude, stable over the input order.
pub open spec fn spec_sort_by_norm(s: Seq<Point>) -> Seq<Point>
    decreases s.len(),
{
    if s.len() == 0 {
        Seq::empty()
    } else {
        spec_insert(spec_sort_by_norm(s.drop_last()), s.last())
    }
}

/// The cell at whole-unit offset `(x, y)` from the disc centre `c`.
pub open spec fn disc_cell(c: Point, x: int, y: int) -> Point {
    Point { x: (c.x + x * SCALE) as i64, y: (c.y + y * SCALE) as i64 }
}

/// A cell belongs to the disc when it lies within the radius and not below
/// the node's base line.
pub open spec fn keep_cell(c: Point, r: int, x: int, y: int) -> bool {
    c.y + y * SCALE >= 0 && x * x + y * y <= r * r
}

/// The kept cells of column `x` with rows in `[-r, yend)`, in row order.
pub open spec fn disc_col(c: Point, r: int, x: int, yend: int) -> Seq<Point>
    decreases yend + r,
{
    if yend <= -r {
        Seq::empty()
    } else {
        disc_col(c, r, x, yend - 1) + (if keep_cell(c, r, x, yend - 1) {
            seq![disc_cell(c, x, yend - 1)]
        } else {
            Seq::empty()
        })
    }
}

/// The kept cells of the columns in `[-r, xend)`, column by column.
pub open spec fn disc_cols(c: Point, r: int, xend: int) -> Seq<Point>
    decreases xend + r,
{
    if xend <= -r {
        Seq::empty()
    } else {
        disc_cols(c, r, xend - 1) + disc_col(c, r, xend - 1, r)
    }
}

/// Every kept cell of the disc of radius `r` at `c`: columns `-r..=r`,
/// rows `-r..r`.
pub open spec fn spec_disc(c: Point, r: int) -> Seq<Point> {
    disc_cols(c, r, r + 1)
}

/// The centres and radii of one sideways chain of `k` leaf discs. Each
/// disc's radius is `2` plus a draw reduced modulo `4` and its upward drift
/// a draw reduced modulo `4000`; the chain advances by twice the radius to
/// its side after each disc. Two draws per disc.
pub open spec fn spec_chain(seed: u64, t0: nat, side: int, pos: Point, k: int) -> Seq<(Point, int)>
    decreases k,
{
    if k <= 0 {
        Seq::empty()
    } else {
        let r = 2 + stream_word(seed, t0) as int % 4;
        let dy = stream_word(seed, (t0 + 1) as nat) as int % 4000;
        let centre = Point { x: (pos.x + side * r * SCALE) as i64, y: (pos.y + dy) as i64 };
        let next = Point { x: (pos.x + side * 2 * r * SCALE) as i64, y: (pos.y + dy) as i64 };
        seq![(centre, r)] + spec_chain(seed, (t0 + 2) as nat, side, next, k - 1)
    }
}

/// The discs of a whole cluster of depth `depth`: one disc at the node
/// (one draw), then a chain of `depth - 1` discs to the right and another
/// to the left.
pub open spec fn spec_cluster_discs(seed: u64, t0: nat, depth: int) -> Seq<(Point, int)> {
    let r0 = 2 + stream_word(seed, t0) as int % 4;
    let origin = Point { x: 0, y: 0 };
    seq![(origin, r0)] + spec_chain(seed, (t0 + 1) as nat, 1, origin, depth - 1) + spec_chain(
        seed,
        (t0 + 1 + 2 * (depth - 1)) as nat,
        -1,
        origin,
        depth - 1,
    )
}

/// The rasterised points of the first `n` discs, in disc order.
pub open spec fn discs_points_upto(ds: Seq<(Point, int)>, n: int) -> Seq<Point>
    decreases n,
{
    if n <= 0 {
        Seq::empty()
    } else {
        discs_points_upto(ds, n - 1) + spec_disc(ds[n - 1].0, ds[n - 1].1)
    }
}

/// How many random words a cluster of depth `depth` consumes.
pub open spec fn cluster_draws(depth: int) -> nat {
    if depth <= 0 {
        0
    } else {
        (1 + 4 * (depth - 1)) as nat
    }
}

/// A disc list with its radii widened to `int`, as the spec functions
/// speak of it.
pub open spec fn discs_view(s: Seq<(Point, i64)>) -> Seq<(Point, int)> {
    s.map_values(|d: (Point, i64)| (d.0, d.1 as int))
}

/// The finished cluster: every disc's kept cells, sorted inside-out.
/// Depth `0` asks for no cluster and consumes no draws.
pub open spec fn spec_cluster(seed: u64, t0: nat, depth: int) -> Seq<Point> {
    if depth <= 0 {
        Seq::empty()
    } else {
        let ds = spec_cluster_discs(seed, t0, depth);
        spec_sort_by_norm(discs_points_upto(ds, ds.len() as int))
    }
}

/// Inserts `p` into the sorted vector at the position `spec_insert` names.
fn insert_by_norm(out: &mut Vec<Point>, p: Point)
    requires
        forall|k: int| 0 <= k < old(out)@.len() ==> half_range(#[trigger] old(out)@[k]),
        half_range(p),
    ensures
        final(out)@ == spec_insert(old(out)@, p),
        forall|k: int| 0 <= k < final(out)@.len() ==> half_range(#[trigger] final(out)@[k]),
{
    let key = p.norm2();
    let mut j = out.len();
    proof {
        assert(out@.take(out@.len() as int) =~= out@);
        assert(spec_insert(out@, p) + out@.skip(out@.len() as int) =~= spec_insert(out@, p));
    }
    while j > 0
        invariant
            j <= out.len(),
            out == old(out),
            half_range(p),
            forall|k: int| 0 <= k < out@.len() ==> half_range(#[trigger] out@[k]),
            key == norm2v(p),
            spec_insert(out@, p) == spec_insert(out@.take(j as int), p) + out@.skip(j as int),
        ensures
            j <= out.len(),
            out == old(out),
            spec_insert(out@, p) == spec_insert(out@.take(j as int), p) + out@.skip(j as int),
            j > 0 ==> norm2v(out@[j as int - 1]) <= norm2v(p),
        decreases j,
    {
        let q = out[j - 1];
        if q.norm2() <= key {
            break ;
        }
        proof {
            let s = out@.take(j as int);
            assert(s.drop_last() =~= out@.take(j as int - 1));
            assert(spec_insert(out@.take(j as int - 1), p).push(out@[j as int - 1]) + out@.skip(
                j as int,
            ) =~= spec_insert(out@.take(j as int - 1), p) + out@.skip(j as int - 1));
        }
        j = j - 1;
    }
    proof {
        let s = out@.take(j as int);
        if j > 0 {
            assert(norm2v(s.last()) <= norm2v(p));
            assert(spec_insert(s, p) == s.push(p));
        }
        assert(spec_insert(out@, p) =~= out@.take(j as int).push(p) + out@.skip(j as int));
        assert(out@.insert(j as int, p) =~= out@.take(j as int).push(p) + out@.skip(j as int));
    }
    out.insert(j, p);
}

/// Rasterises one disc: appends, in column-then-row order, every kept cell
/// of the disc of radius `r` at `c`.
fn rasterize_disc(out: &mut Vec<Point>, c: Point, r: i64)
    requires
        2 <= r <= 5,
        -LEAF_SPAN <= c.x <= LEAF_SPAN,
        0 <= c.y <= LEAF_SPAN,
    ensures
        final(out)@ == old(out)@ + spec_disc(c, r as int),
        forall|k: int|
            old(out)@.len() <= k < final(out)@.len() ==> half_range(#[trigger] final(out)@[k])
                && -LEAF_SPAN - 5 * SCALE <= final(out)@[k].x <= LEAF_SPAN + 5 * SCALE && 0
                <= final(out)@[k].y <= LEAF_SPAN + 5 * SCALE,
{
    let ghost orig = out@;
    let mut x: i64 = -r;
    while x <= r
        invariant
            2 <= r <= 5,
            -LEAF_SPAN <= c.x <= LEAF_SPAN,
            0 <= c.y <= LEAF_SPAN,
            -r <= x <= r + 1,
            out@ == orig + disc_cols(c, r as int, x as int),
            forall|k: int|
                orig.len() <= k < out@.len() ==> half_range(#[trigger] out@[k]) && -LEAF_SPAN - 5
                    * SCALE <= out@[k].x <= LEAF_SPAN + 5 * SCALE && 0 <= out@[k].y <= LEAF_SPAN + 5
                    * SCALE,
        decreases r - x + 1,
    {
        let mut y: i64 = -r;
        while y < r
            invariant
                2 <= r <= 5,
                -LEAF_SPAN <= c.x <= LEAF_SPAN,
                0 <= c.y <= LEAF_SPAN,
                -r <= x <= r,
                -r <= y <= r,
                out@ == orig + disc_cols(c, r as int, x as int) + disc_col(
                    c,
                    r as int,
                    x as int,
                    y as int,
                ),
                forall|k: int|
                    orig.len() <= k < out@.len() ==> half_range(#[trigger] out@[k]) && -LEAF_SPAN
                        - 5 * SCALE <= out@[k].x <= LEAF_SPAN + 5 * SCALE && 0 <= out@[k].y
                        <= LEAF_SPAN + 5 * SCALE,
            decreases r - y,
        {
            proof {
                assert(0 <= x * x <= 25 && 0 <= y * y <= 25 && 0 <= r * r <= 25)
                    by (nonlinear_arith)
                    requires -5 <= x <= 5, -5 <= y <= 5, 2 <= r <= 5;
            }
            if c.y + y * SCALE >= 0 && x * x + y * y <= r * r {
                let cell = Point { x: c.x + x * SCALE, y: c.y + y * SCALE };
                out.push(cell);
            }
            y = y + 1;
        }
        proof {
            assert(disc_cols(c, r as int, x as int + 1) == disc_cols(c, r as int, x as int)
                + disc_col(c, r as int, x as int, r as int));
        }
        x = x + 1;
    }
}

/// Keys never decrease along the sequence: the cluster reads inside-out.
pub open spec fn sorted_by_norm(s: Seq<Point>) -> bool {
    forall|i: int, j: int| 0 <= i <= j < s.len() ==> norm2v(s[i]) <= norm2v(s[j])
}

/// Inserting into a sorted sequence keeps it sorted, and adds no element
/// beyond the inserted one and the originals.
pub proof fn lemma_insert_sorted(s: Seq<Point>, p: Point)
    requires
        sorted_by_norm(s),
    ensures
        sorted_by_norm(spec_insert(s, p)),
        forall|k: int|
            0 <= k < spec_insert(s, p).len() ==> norm2v(#[trigger] spec_insert(s, p)[k]) <= norm2v(
                p,
            ) || (exists|q: int| 0 <= q < s.len() && spec_insert(s, p)[k] == s[q]),
    decreases s.len(),
{
    let r = spec_insert(s, p);
    if s.len() == 0 {
    } else if norm2v(s.last()) <= norm2v(p) {
        assert forall|k: int|
            0 <= k < r.len() implies norm2v(#[trigger] r[k]) <= norm2v(p) || (exists|q: int|
            0 <= q < s.len() && r[k] == s[q]) by {
            if k < s.len() {
                assert(r[k] == s[k]);
            }
        }
        assert forall|i: int, j: int| 0 <= i <= j < r.len() implies norm2v(r[i]) <= norm2v(
            r[j],
        ) by {
            if j == r.len() - 1 && i < j {
                assert(norm2v(s[i]) <= norm2v(s.last()));
            }
        }
    } else {
        let src = s.drop_last();
        assert forall|i: int, j: int| 0 <= i <= j < src.len() implies norm2v(src[i]) <= norm2v(
            src[j],
        ) by {
            assert(norm2v(s[i]) <= norm2v(s[j]));
        }
        lemma_insert_sorted(src, p);
        let inner = spec_insert(src, p);
        assert forall|i: int, j: int| 0 <= i <= j < r.len() implies norm2v(r[i]) <= norm2v(
            r[j],
        ) by {
            if j == r.len() - 1 && i < j {
                assert(r[i] == inner[i]);
                if norm2v(inner[i]) <= norm2v(p) {
                } else {
                    let q = choose|q: int| 0 <= q < src.len() && inner[i] == src[q];
                    assert(norm2v(s[q]) <= norm2v(s.last()));
                }
            }
        }
        assert forall|k: int|
            0 <= k < r.len() implies norm2v(#[trigger] r[k]) <= norm2v(p) || (exists|q: int|
            0 <= q < s.len() && r[k] == s[q]) by {
            if k == r.len() - 1 {
                assert(r[k] == s[s.len() - 1]);
            } else {
                assert(r[k] == inner[k]);
                if !(norm2v(inner[k]) <= norm2v(p)) {
                    let q = choose|q: int| 0 <= q < src.len() && inner[k] == src[q];
                    assert(r[k] == s[q]);
                }
            }
        }
    }
}

/// Every finished cluster reads inside-out: offsets come in never-decreasing
/// distance from their node.
pub proof fn lemma_cluster_sorted(s: Seq<Point>)
    ensures
        sorted_by_norm(spec_sort_by_norm(s)),
    decreases s.len(),
{
    if s.len() > 0 {
        lemma_cluster_sorted(s.drop_last());
        lemma_insert_sorted(spec_sort_by_norm(s.drop_last()), s.last());
    }
}

/// Insertion adds exactly one element.
pub proof fn lemma_insert_len(s: Seq<Point>, p: Point)
    ensures
        spec_insert(s, p).len() == s.len() + 1,
    decreases s.len(),
{
    if s.len() > 0 && !(norm2v(s.last()) <= norm2v(p)) {
        lemma_insert_len(s.drop_last(), p);
    }
}

/// Sorting keeps the length.
pub proof fn lemma_sort_len(s: Seq<Point>)
    ensures
        spec_sort_by_norm(s).len() == s.len(),
    decreases s.len(),
{
    if s.len() > 0 {
        lemma_sort_len(s.drop_last());
        lemma_insert_len(spec_sort_by_norm(s.drop_last()), s.last());
    }
}

/// Sorts a point list by squared magnitude: exactly `spec_sort_by_norm`.
pub(crate) fn sort_points(v: Vec<Point>) -> (r: Vec<Point>)
    requires
        forall|k: int| 0 <= k < v@.len() ==> half_range(#[trigger] v@[k]),
    ensures
        r@ == spec_sort_by_norm(v@),
        forall|k: int| 0 <= k < r@.len() ==> half_range(#[trigger] r@[k]),
{
    let mut out: Vec<Point> = Vec::new();
    let mut k: usize = 0;
    while k < v.len()
        invariant
            k <= v@.len(),
            out@ == spec_sort_by_norm(v@.take(k as int)),
            forall|j: int| 0 <= j < v@.len() ==> half_range(#[trigger] v@[j]),
            forall|j: int| 0 <= j < out@.len() ==> half_range(#[trigger] out@[j]),
        decreases v@.len() - k,
    {
        proof {
            assert(v@.take(k as int + 1).drop_last() =~= v@.take(k as int));
        }
        insert_by_norm(&mut out, v[k]);
        k = k + 1;
    }
    proof {
        assert(v@.take(v@.len() as int) =~= v@);
    }
    out
}

/// Builds the leaf cluster of a terminal node: the exact offsets
/// `spec_cluster` names for the stream position the source stands at,
/// advancing the source by `cluster_draws(depth)` words.
pub(crate) fn build_cluster(rng: &mut Prng, depth: u8) -> (r: Vec<Point>)
    requires
        depth <= 8,
    ensures
        r@ == spec_cluster(old(rng).seed(), old(rng).taken(), depth as int),
        final(rng).seed() == old(rng).seed(),
        final(rng).taken() == old(rng).taken() + cluster_draws(depth as int),
        forall|k: int| 0 <= k < r@.len() ==> half_range(#[trigger] r@[k]),
{
    let ghost seed = rng.seed();
    let ghost t0 = rng.taken();
    if depth == 0 {
        return Vec::new();
    }
    let w0 = rng.next_word();
    let r0 = 2 + (w0 % 4) as i64;
    let origin = Point { x: 0, y: 0 };
    let mut discs: Vec<(Point, i64)> = Vec::new();
    discs.push((origin, r0));
    build_chain(&mut discs, rng, 1, depth - 1);
    build_chain(&mut discs, rng, -1, depth - 1);
    proof {
        assert(discs_view(discs@) =~= spec_cluster_discs(seed, t0, depth as int));
    }
    let ghost ds = spec_cluster_discs(seed, t0, depth as int);
    let mut pts: Vec<Point> = Vec::new();
    let mut i: usize = 0;
    while i < discs.len()
        invariant
            i <= discs.len(),
            ds == discs_view(discs@),
            forall|k: int|
                0 <= k < discs@.len() ==> 2 <= (#[trigger] discs@[k]).1 <= 5 && -LEAF_SPAN
                    <= discs@[k].0.x <= LEAF_SPAN && 0 <= discs@[k].0.y <= LEAF_SPAN,
            pts@ == discs_points_upto(ds, i as int),
            forall|k: int| 0 <= k < pts@.len() ==> half_range(#[trigger] pts@[k]),
        decreases discs.len() - i,
    {
        let (c, r) = discs[i];
        rasterize_disc(&mut pts, c, r);
        i = i + 1;
    }
    let mut out: Vec<Point> = Vec::new();
    let mut k: usize = 0;
    while k < pts.len()
        invariant
            k <= pts.len(),
            out@ == spec_sort_by_norm(pts@.take(k as int)),
            forall|j: int| 0 <= j < pts@.len() ==> half_range(#[trigger] pts@[j]),
            forall|j: int| 0 <= j < out@.len() ==> half_range(#[trigger] out@[j]),
        decreases pts.len() - k,
    {
        proof {
            assert(pts@.take(k as int + 1).drop_last() =~= pts@.take(k as int));
        }
        insert_by_norm(&mut out, pts[k]);
        k = k + 1;
    }
    proof {
        assert(pts@.take(pts@.len() as int) =~= pts@);
    }
    out
}

/// Appends one sideways chain of discs, as `spec_chain` names it.
fn build_chain(discs: &mut Vec<(Point, i64)>, rng: &mut Prng, side: i64, k: u8)
    requires
        side == 1 || side == -1,
        k <= 8,
        forall|j: int|
            0 <= j < old(discs)@.len() ==> 2 <= (#[trigger] old(discs)@[j]).1 <= 5 && -LEAF_SPAN
                <= old(discs)@[j].0.x <= LEAF_SPAN && 0 <= old(discs)@[j].0.y <= LEAF_SPAN,
    ensures
        discs_view(final(discs)@) == discs_view(old(discs)@) + spec_chain(
            old(rng).seed(),
            old(rng).taken(),
            side as int,
            Point { x: 0, y: 0 },
            k as int,
        ),
        forall|j: int|
            0 <= j < final(discs)@.len() ==> 2 <= (#[trigger] final(discs)@[j]).1 <= 5 && -LEAF_SPAN
                <= final(discs)@[j].0.x <= LEAF_SPAN && 0 <= final(discs)@[j].0.y <= LEAF_SPAN,
        final(rng).seed() == old(rng).seed(),
        final(rng).taken() == old(rng).taken() + 2 * k,
{
    let ghost seed = rng.seed();
    let mut pos = Point { x: 0, y: 0 };
    let mut i: u8 = 0;
    while i < k
        invariant
            side == 1 || side == -1,
            i <= k <= 8,
            rng.seed() == seed,
            rng.taken() == old(rng).taken() + 2 * i,
            -10 * SCALE * i <= pos.x <= 10 * SCALE * i,
            0 <= pos.y <= 4000 * i,
            discs_view(discs@) + spec_chain(seed, rng.taken(), side as int, pos, (k - i) as int)
                == discs_view(old(discs)@) + spec_chain(
                seed,
                old(rng).taken(),
                side as int,
                Point { x: 0, y: 0 },
                k as int,
            ),
            forall|j: int|
                0 <= j < discs@.len() ==> 2 <= (#[trigger] discs@[j]).1 <= 5 && -LEAF_SPAN
                    <= discs@[j].0.x <= LEAF_SPAN && 0 <= discs@[j].0.y <= LEAF_SPAN,
        decreases k - i,
    {
        let ghost tc = rng.taken();
        let wr = rng.next_word();
        let wd = rng.next_word();
        let r = 2 + (wr % 4) as i64;
        let dy = (wd % 4000) as i64;
        proof {
            assert(-5000 <= side * r * SCALE <= 5000 && -10000 <= side * 2 * r * SCALE <= 10000)
                by (nonlinear_arith)
                requires side == 1 || side == -1, 2 <= r <= 5, SCALE == 1000;
            assert(-80000 <= pos.x <= 80000 && 0 <= pos.y <= 32000) by (nonlinear_arith)
                requires
                    -10 * 1000 * (i as int) <= pos.x <= 10 * 1000 * (i as int),
                    0 <= pos.y <= 4000 * (i as int),
                    0 <= i <= 8;
        }
        let centre = Point { x: pos.x + side * r * SCALE, y: pos.y + dy };
        let next = Point { x: pos.x + side * 2 * r * SCALE, y: pos.y + dy };
        proof {
            let a = discs_view(discs@);
            let tail = spec_chain(seed, (tc + 2) as nat, side as int, next, (k - i) as int - 1);
            assert(wr == stream_word(seed, tc));
            assert(wd == stream_word(seed, (tc + 1) as nat));
            assert(spec_chain(seed, tc, side as int, pos, (k - i) as int) == seq![
                (centre, r as int),
            ] + tail);
            assert(discs_view(discs@.push((centre, r))) =~= a.push((centre, r as int)));
            assert(a.push((centre, r as int)) + tail =~= a + (seq![(centre, r as int)] + tail));
            assert(10 * SCALE * ((i + 1) as int) == 10 * SCALE * (i as int) + 10 * SCALE)
                by (nonlinear_arith);
            assert(4000 * ((i + 1) as int) == 4000 * (i as int) + 4000) by (nonlinear_arith);
        }
        discs.push((centre, r));
        pos = next;
        i = i + 1;
    }
}

} // verus!
