//! The angle-constrained rejection-sampling growth strategy: curved growth
//! segments placed one by one, each subject to an angular tolerance against
//! its parent's direction, a wider tolerance against an already-placed
//! sibling, a floor on its vertical position, and non-intersection with
//! every segment placed before it. A candidate that fails is redrawn up to
//! the configured retry budget; a branch whose budget runs out simply stops
//! growing. Placement works breadth-first through an explicit work queue,
//! bounded by the configured branch depth and a global step cap.

use vstd::prelude::*;
use crate::config::Config;
use crate::geom::{Point, SCALE, DIR_TICKS, div_trunc, div_trunc_exec};
use crate::rng::{Prng, stream_word};

verus! {

/// Placement coordinates stay within this many milli-units of the origin.
pub const CURVE_LIMIT: i64 = 8000000;

/// How many work-queue items one growth pass will process at most.
pub const STEP_CAP: u32 = 512;

/// A curved growth segment: a quadratic arc from `start` to `end` bowed
/// through `control`. Intersection is tested on its three straight edges:
/// start-control, control-end and start-end.
#[derive(Clone, Copy, Debug, PartialEq, Eq, Structural)]
pub struct GrowthSegment {
    pub start: Point,
    pub control: Point,
    pub end: Point,
}

/// One placed node of a curved growth: where it sits, the direction tick it
/// grew along, its parent's index, its depth from the seed, and the
/// direction of the sibling it was constrained against, if any.
#[derive(Clone, Copy, Debug, PartialEq, Eq, Structural)]
pub struct CurvedNode {
    pub pos: Point,
    pub dir: u8,
    pub parent: usize,
    pub depth: u8,
    pub sib: u8,
    pub has_sib: bool,
}

/// One branch attempt waiting in the work queue: which node to grow from,
/// how deep that child would be, and the direction of an already-placed
/// sibling to keep clear of, if any.
#[derive(Clone, Copy, Debug, PartialEq, Eq, Structural)]
pub struct WorkItem {
    pub parent: usize,
    pub depth: u8,
    pub sib: u8,
    pub has_sib: bool,
}

/// The abstract state of one curved growth run: everything placed so far,
/// the work still queued, and the position reached in the random stream.
pub ghost struct CurvedModel {
    pub nodes: Seq<CurvedNode>,
    pub segs: Seq<GrowthSegment>,
    pub queue: Seq<WorkItem>,
    pub taken: nat,
}

/// A finished curved growth: node `k >= 1` grew from node `nodes[k].parent`
/// along segment `segs[k - 1]`.
pub struct CurvedGrowth {
    pub nodes: Vec<CurvedNode>,
    pub segs: Vec<GrowthSegment>,
}

/// Circular distance between two direction ticks, in ticks.
pub open spec fn circ16(a: int, b: int) -> int {
    let d = if a >= b {
        a - b
    } else {
        b - a
    };
    if d <= 16 - d {
        d
    } else {
        16 - d
    }
}

/// The signed area orientation of the triangle `a`, `b`, `c`.
pub open spec fn orient(a: Point, b: Point, c: Point) -> int {
    (b.x - a.x) * (c.y - a.y) - (b.y - a.y) * (c.x - a.x)
}

/// The straight segment `q1`-`q2` has its endpoints strictly on opposite
/// sides of the line through `p1`-`p2`.
pub open spec fn straddles(p1: Point, p2: Point, q1: Point, q2: Point) -> bool {
    (orient(p1, p2, q1) < 0 && orient(p1, p2, q2) > 0) || (orient(p1, p2, q1) > 0 && orient(
        p1,
        p2,
        q2,
    ) < 0)
}

/// Two straight segments cross properly.
pub open spec fn edges_cross(p1: Point, p2: Point, q1: Point, q2: Point) -> bool {
    straddles(p1, p2, q1, q2) && straddles(q1, q2, p1, p2)
}

/// The `i`-th straight edge of a curved segment.
pub open spec fn seg_edge(s: GrowthSegment, i: int) -> (Point, Point) {
    if i == 0 {
        (s.start, s.control)
    } else if i == 1 {
        (s.control, s.end)
    } else {
        (s.start, s.end)
    }
}

/// Edge `i` of `s` crosses edge `j` of `t`.
pub open spec fn edge_pair_crosses(s: GrowthSegment, t: GrowthSegment, i: int, j: int) -> bool {
    edges_cross(seg_edge(s, i).0, seg_edge(s, i).1, seg_edge(t, j).0, seg_edge(t, j).1)
}

/// Two curved segments intersect: some straight edge of one crosses some
/// straight edge of the other.
pub open spec fn segments_intersect(s: GrowthSegment, t: GrowthSegment) -> bool {
    exists|i: int, j: int| 0 <= i < 3 && 0 <= j < 3 && #[trigger] edge_pair_crosses(s, t, i, j)
}

/// Within the coordinate budget of curved placement.
pub open spec fn curve_pt_ok(p: Point) -> bool {
    -CURVE_LIMIT <= p.x <= CURVE_LIMIT && -CURVE_LIMIT <= p.y <= CURVE_LIMIT
}

/// All three points of a segment within the coordinate budget.
pub open spec fn seg_ok(s: GrowthSegment) -> bool {
    curve_pt_ok(s.start) && curve_pt_ok(s.control) && curve_pt_ok(s.end)
}

/// What `grow` promises of its result: a top-down parent structure whose
/// every placed node respects both angular tolerances and the vertical
/// floor, whose every segment joins its node to its parent, and whose
/// accepted segments are pairwise non-intersecting.
pub open spec fn wf_curved(nodes: Seq<CurvedNode>, segs: Seq<GrowthSegment>, cfg: Config) -> bool {
    &&& nodes.len() == segs.len() + 1
    &&& nodes.len() >= 1
    &&& nodes[0].pos == (Point { x: 0i64, y: 0i64 })
    &&& forall|k: int|
        0 <= k < nodes.len() ==> {
            let nd = #[trigger] nodes[k];
            &&& nd.dir < DIR_TICKS
            &&& nd.depth <= 32
            &&& nd.pos.y >= 0
            &&& -100000 - 200000 * (nd.depth as int) <= nd.pos.x <= 100000 + 200000 * (
            nd.depth as int)
            &&& nd.pos.y <= 100000 + 200000 * (nd.depth as int)
        }
    &&& forall|k: int|
        1 <= k < nodes.len() ==> {
            let nd = #[trigger] nodes[k];
            &&& nd.parent < k
            &&& nd.depth == nodes[nd.parent as int].depth + 1
            &&& circ16(nd.dir as int, nodes[nd.parent as int].dir as int) > cfg.phi_tolerance
            &&& (nd.has_sib ==> circ16(nd.dir as int, nd.sib as int) > cfg.phi_neigh_tolerance)
            &&& segs[k - 1].start == nodes[nd.parent as int].pos
            &&& segs[k - 1].end == nd.pos
            &&& seg_ok(segs[k - 1])
        }
    &&& forall|i: int, j: int|
        0 <= i < j < segs.len() ==> !segments_intersect(#[trigger] segs[i], #[trigger] segs[j])
}

/// Circular distance between two direction ticks.
fn circ_dist(a: u8, b: u8) -> (r: u8)
    requires
        a < 16,
        b < 16,
    ensures
        r == circ16(a as int, b as int),
{
    let d = if a >= b {
        a - b
    } else {
        b - a
    };
    if d <= 16 - d {
        d
    } else {
        16 - d
    }
}

/// The orientation determinant, exact within the coordinate budget.
fn orient_exec(a: Point, b: Point, c: Point) -> (r: i64)
    requires
        curve_pt_ok(a),
        curve_pt_ok(b),
        curve_pt_ok(c),
    ensures
        r == orient(a, b, c),
{
    proof {
        assert((b.x - a.x) * (c.y - a.y) <= 0x10000000000000 && (b.x - a.x) * (c.y - a.y)
            >= -0x10000000000000 && (b.y - a.y) * (c.x - a.x) <= 0x10000000000000 && (b.y - a.y) * (
        c.x - a.x) >= -0x10000000000000) by (nonlinear_arith)
            requires
                -2 * CURVE_LIMIT <= b.x - a.x <= 2 * CURVE_LIMIT,
                -2 * CURVE_LIMIT <= c.y - a.y <= 2 * CURVE_LIMIT,
                -2 * CURVE_LIMIT <= b.y - a.y <= 2 * CURVE_LIMIT,
                -2 * CURVE_LIMIT <= c.x - a.x <= 2 * CURVE_LIMIT,
                CURVE_LIMIT == 8000000,
        ;
    }
    (b.x - a.x) * (c.y - a.y) - (b.y - a.y) * (c.x - a.x)
}

/// Whether two straight edges cross properly.
fn edges_cross_exec(p1: Point, p2: Point, q1: Point, q2: Point) -> (r: bool)
    requires
        curve_pt_ok(p1),
        curve_pt_ok(p2),
        curve_pt_ok(q1),
        curve_pt_ok(q2),
    ensures
        r == edges_cross(p1, p2, q1, q2),
{
    let o1 = orient_exec(p1, p2, q1);
    let o2 = orient_exec(p1, p2, q2);
    let o3 = orient_exec(q1, q2, p1);
    let o4 = orient_exec(q1, q2, p2);
    let s1 = (o1 < 0 && o2 > 0) || (o1 > 0 && o2 < 0);
    let s2 = (o3 < 0 && o4 > 0) || (o3 > 0 && o4 < 0);
    s1 && s2
}

/// The `i`-th straight edge of a segment.
fn seg_edge_exec(s: &GrowthSegment, i: usize) -> (r: (Point, Point))
    requires
        i < 3,
    ensures
        r == seg_edge(*s, i as int),
{
    if i == 0 {
        (s.start, s.control)
    } else if i == 1 {
        (s.control, s.end)
    } else {
        (s.start, s.end)
    }
}

/// Whether two curved segments intersect, by testing all nine edge pairs.
fn segments_intersect_exec(s: &GrowthSegment, t: &GrowthSegment) -> (r: bool)
    requires
        seg_ok(*s),
        seg_ok(*t),
    ensures
        r == segments_intersect(*s, *t),
{
    let mut i: usize = 0;
    while i < 3
        invariant
            i <= 3,
            seg_ok(*s),
            seg_ok(*t),
            forall|ii: int, jj: int| 0 <= ii < i && 0 <= jj < 3 ==> !#[trigger] edge_pair_crosses(*s, *t, ii, jj),
        decreases 3 - i,
    {
        let (a, b) = seg_edge_exec(s, i);
        let mut j: usize = 0;
        while j < 3
            invariant
                i < 3,
                j <= 3,
                seg_ok(*s),
                seg_ok(*t),
                (a, b) == seg_edge(*s, i as int),
                forall|jj: int| 0 <= jj < j ==> !#[trigger] edge_pair_crosses(*s, *t, i as int, jj),
            ensures
                j <= 3,
                j < 3 ==> edge_pair_crosses(*s, *t, i as int, j as int),
                forall|jj: int| 0 <= jj < j ==> !#[trigger] edge_pair_crosses(*s, *t, i as int, jj),
            decreases 3 - j,
        {
            let (c, d) = seg_edge_exec(t, j);
            if edges_cross_exec(a, b, c, d) {
                break ;
            }
            j = j + 1;
        }
        if j < 3 {
            proof {
                assert(edge_pair_crosses(*s, *t, i as int, j as int));
            }
            return true;
        }
        i = i + 1;
    }
    proof {
        assert forall|ii: int, jj: int| 0 <= ii < 3 && 0 <= jj < 3 implies !#[trigger] edge_pair_crosses(
            *s,
            *t,
            ii,
            jj,
        ) by {}
    }
    false
}

impl GrowthSegment {
    /// Whether this segment intersects another: the three-straight-edge
    /// intersection test of the placement constraints.
    pub fn intersects(&self, other: &GrowthSegment) -> (r: bool)
        requires
            seg_ok(*self),
            seg_ok(*other),
        ensures
            r == segments_intersect(*self, *other),
    {
        segments_intersect_exec(self, other)
    }
}

/// Whether a candidate segment intersects any already-placed segment.
fn crosses_any(segs: &Vec<GrowthSegment>, cand: &GrowthSegment) -> (r: bool)
    requires
        seg_ok(*cand),
        forall|k: int| 0 <= k < segs@.len() ==> seg_ok(#[trigger] segs@[k]),
    ensures
        r == exists|k: int| 0 <= k < segs@.len() && segments_intersect(#[trigger] segs@[k], *cand),
{
    let n = segs.len();
    let mut k: usize = 0;
    while k < n
        invariant
            k <= n,
            n == segs@.len(),
            seg_ok(*cand),
            forall|kk: int| 0 <= kk < segs@.len() ==> seg_ok(#[trigger] segs@[kk]),
            forall|kk: int| 0 <= kk < k ==> !segments_intersect(#[trigger] segs@[kk], *cand),
        ensures
            k <= n,
            k < n ==> segments_intersect(segs@[k as int], *cand),
            forall|kk: int| 0 <= kk < k ==> !segments_intersect(#[trigger] segs@[kk], *cand),
        decreases n - k,
    {
        if segments_intersect_exec(&segs[k], cand) {
            break ;
        }
        k = k + 1;
    }
    k < n
}

/// The exact point `bow_control` computes: the chord midpoint displaced
/// along the bowed direction tick by a quarter of the radius.
pub open spec fn spec_bow_control(start: Point, end: Point, dir: int, bow: int, radius: int) -> Point {
    let bd = if dir + bow >= 16 {
        dir + bow - 16
    } else {
        dir + bow
    };
    let u = crate::geom::spec_from_phi(bd);
    let q = radius / 4;
    let mx = start.x + div_trunc(end.x - start.x, 2);
    let my = start.y + div_trunc(end.y - start.y, 2);
    Point {
        x: (mx + div_trunc(u.x * q, SCALE as int)) as i64,
        y: (my + div_trunc(u.y * q, SCALE as int)) as i64,
    }
}

/// The bow-control point of a candidate: the chord midpoint displaced along
/// the bowed direction tick by a quarter of the radius. The control point
/// never strays more than `26000` milli-units from the chord's bounding
/// box.
fn bow_control(start: Point, end: Point, dir: u8, bow: u8, radius: i64) -> (r: Point)
    requires
        dir < 16,
        bow < 16,
        curve_pt_ok(start),
        curve_pt_ok(end),
        0 < radius <= 100 * SCALE,
    ensures
        r == spec_bow_control(start, end, dir as int, bow as int, radius as int),
        (if start.x <= end.x {
            start.x
        } else {
            end.x
        }) - 26000 <= r.x <= (if start.x >= end.x {
            start.x
        } else {
            end.x
        }) + 26000,
        (if start.y <= end.y {
            start.y
        } else {
            end.y
        }) - 26000 <= r.y <= (if start.y >= end.y {
            start.y
        } else {
            end.y
        }) + 26000,
{
    let bd = if dir + bow >= 16 {
        dir + bow - 16
    } else {
        dir + bow
    };
    let u = Point::from_phi(bd);
    let q = radius / 4;
    let hx = div_trunc_exec(end.x - start.x, 2);
    let hy = div_trunc_exec(end.y - start.y, 2);
    let mx = start.x + hx;
    let my = start.y + hy;
    proof {
        assert(-25000 * SCALE <= u.x * q <= 25000 * SCALE && -25000 * SCALE <= u.y * q <= 25000
            * SCALE) by (nonlinear_arith)
            requires
                -SCALE <= u.x <= SCALE,
                -SCALE <= u.y <= SCALE,
                0 <= q <= 25000,
                SCALE == 1000,
        ;
    }
    let ox = div_trunc_exec(u.x * q, SCALE);
    let oy = div_trunc_exec(u.y * q, SCALE);
    Point { x: mx + ox, y: my + oy }
}

/// `div_trunc` by the milli-scale keeps a product of a unit component and a
/// radius within the radius.
proof fn lemma_div_unit(a: int, r: int)
    requires
        r >= 0,
        -1000 * r <= a <= 1000 * r,
    ensures
        -r <= div_trunc(a, 1000) <= r,
{
    if a >= 0 {
        assert(a / 1000 <= r) by (nonlinear_arith)
            requires 0 <= a <= 1000 * r;
        assert(a / 1000 >= 0) by (nonlinear_arith)
            requires a >= 0;
    } else {
        assert((-a) / 1000 <= r) by (nonlinear_arith)
            requires 0 <= -a <= 1000 * r;
        assert((-a) / 1000 >= 0) by (nonlinear_arith)
            requires -a >= 0;
    }
}

/// The candidate segment crosses none of the segments already placed.
pub open spec fn clears_all(segs: Seq<GrowthSegment>, cand: GrowthSegment) -> bool {
    forall|k: int| 0 <= k < segs.len() ==> !segments_intersect(#[trigger] segs[k], cand)
}

/// The segment `pick_segment` accepts: the first bow of the fixed priority
/// order whose candidate clears every placed segment, if any does.
pub open spec fn spec_pick_segment(
    segs: Seq<GrowthSegment>,
    start: Point,
    end: Point,
    dir: int,
    radius: int,
) -> Option<GrowthSegment> {
    let s1 = GrowthSegment { start, control: spec_bow_control(start, end, dir, 2, radius), end };
    let s2 = GrowthSegment { start, control: spec_bow_control(start, end, dir, 14, radius), end };
    let s3 = GrowthSegment { start, control: spec_bow_control(start, end, dir, 1, radius), end };
    let s4 = GrowthSegment { start, control: spec_bow_control(start, end, dir, 15, radius), end };
    if clears_all(segs, s1) {
        Some(s1)
    } else if clears_all(segs, s2) {
        Some(s2)
    } else if clears_all(segs, s3) {
        Some(s3)
    } else if clears_all(segs, s4) {
        Some(s4)
    } else {
        None
    }
}

/// The first bow, tried in the fixed priority order, whose candidate
/// segment crosses none of the segments already placed.
fn pick_segment(
    segs: &Vec<GrowthSegment>,
    start: Point,
    end: Point,
    dir: u8,
    radius: i64,
) -> (r: Option<GrowthSegment>)
    requires
        dir < 16,
        0 < radius <= 100 * SCALE,
        -7900000 <= start.x <= 7900000,
        -7900000 <= start.y <= 7900000,
        -7900000 <= end.x <= 7900000,
        -7900000 <= end.y <= 7900000,
        forall|k: int| 0 <= k < segs@.len() ==> seg_ok(#[trigger] segs@[k]),
    ensures
        r == spec_pick_segment(segs@, start, end, dir as int, radius as int),
        r is Some ==> {
            let s = r->0;
            &&& s.start == start
            &&& s.end == end
            &&& seg_ok(s)
            &&& forall|k: int|
                0 <= k < segs@.len() ==> !segments_intersect(#[trigger] segs@[k], s)
        },
{
    let c1 = bow_control(start, end, dir, 2, radius);
    let s1 = GrowthSegment { start, control: c1, end };
    if !crosses_any(segs, &s1) {
        return Some(s1);
    }
    let c2 = bow_control(start, end, dir, 14, radius);
    let s2 = GrowthSegment { start, control: c2, end };
    if !crosses_any(segs, &s2) {
        return Some(s2);
    }
    let c3 = bow_control(start, end, dir, 1, radius);
    let s3 = GrowthSegment { start, control: c3, end };
    if !crosses_any(segs, &s3) {
        return Some(s3);
    }
    let c4 = bow_control(start, end, dir, 15, radius);
    let s4 = GrowthSegment { start, control: c4, end };
    if !crosses_any(segs, &s4) {
        return Some(s4);
    }
    None
}

/// The exact effect of one placement attempt whose angular checks passed:
/// `None` when the endpoint falls below the floor or no bow clears the
/// placed segments; otherwise the state with the node, its segment and its
/// follow-up work recorded. One more word is drawn exactly when a sibling
/// spawn is considered.
pub open spec fn spec_place(
    st: CurvedModel,
    seed: u64,
    cfg: Config,
    item: WorkItem,
    dir: int,
    radius: int,
) -> Option<CurvedModel> {
    let pn = st.nodes[item.parent as int];
    let u = crate::geom::spec_from_phi(dir);
    let ex = pn.pos.x + div_trunc(u.x * radius, SCALE as int);
    let ey = pn.pos.y + div_trunc(u.y * radius, SCALE as int);
    if ey < 0 {
        None
    } else {
        let end = Point { x: ex as i64, y: ey as i64 };
        match spec_pick_segment(st.segs, pn.pos, end, dir, radius) {
            Some(seg) => {
                let nd = CurvedNode {
                    pos: end,
                    dir: dir as u8,
                    parent: item.parent,
                    depth: item.depth,
                    sib: item.sib,
                    has_sib: item.has_sib,
                };
                let nodes1 = st.nodes.push(nd);
                let segs1 = st.segs.push(seg);
                let q1 = if item.depth < cfg.max_depth {
                    st.queue.push(
                        WorkItem {
                            parent: st.nodes.len() as usize,
                            depth: (item.depth + 1) as u8,
                            sib: 0,
                            has_sib: false,
                        },
                    )
                } else {
                    st.queue
                };
                if !item.has_sib {
                    let ws = stream_word(seed, st.taken);
                    let q2 = if ws % 2 == 0 {
                        q1.push(
                            WorkItem {
                                parent: item.parent,
                                depth: item.depth,
                                sib: dir as u8,
                                has_sib: true,
                            },
                        )
                    } else {
                        q1
                    };
                    Some(
                        CurvedModel {
                            nodes: nodes1,
                            segs: segs1,
                            queue: q2,
                            taken: (st.taken + 1) as nat,
                        },
                    )
                } else {
                    Some(CurvedModel { nodes: nodes1, segs: segs1, queue: q1, taken: st.taken })
                }
            },
            None => None,
        }
    }
}

/// Every queued work item points at an existing node, one level deeper than
/// it, within the configured branch depth.
spec fn queue_ok(q: Seq<WorkItem>, nodes: Seq<CurvedNode>, cfg: Config) -> bool {
    forall|k: int|
        0 <= k < q.len() ==> {
            let it = #[trigger] q[k];
            &&& (it.parent as int) < nodes.len()
            &&& 1 <= it.depth <= cfg.max_depth
            &&& it.depth == nodes[it.parent as int].depth + 1
            &&& it.sib < 16
        }
}

/// Accepting a candidate that passed every check keeps the growth well
/// formed: the new node's clauses are exactly the checks, and the new
/// segment crosses nothing placed before it.
proof fn lemma_accept_wf(
    ns0: Seq<CurvedNode>,
    ss0: Seq<GrowthSegment>,
    nd: CurvedNode,
    seg: GrowthSegment,
    cfg: Config,
)
    requires
        cfg.valid(),
        wf_curved(ns0, ss0, cfg),
        (nd.parent as int) < ns0.len(),
        nd.dir < DIR_TICKS,
        nd.depth <= 32,
        nd.depth == ns0[nd.parent as int].depth + 1,
        nd.pos.y >= 0,
        -100000 - 200000 * (nd.depth as int) <= nd.pos.x <= 100000 + 200000 * (nd.depth as int),
        nd.pos.y <= 100000 + 200000 * (nd.depth as int),
        circ16(nd.dir as int, ns0[nd.parent as int].dir as int) > cfg.phi_tolerance,
        nd.has_sib ==> circ16(nd.dir as int, nd.sib as int) > cfg.phi_neigh_tolerance,
        seg.start == ns0[nd.parent as int].pos,
        seg.end == nd.pos,
        seg_ok(seg),
        forall|k: int| 0 <= k < ss0.len() ==> !segments_intersect(#[trigger] ss0[k], seg),
    ensures
        wf_curved(ns0.push(nd), ss0.push(seg), cfg),
{
    let ns = ns0.push(nd);
    let ss = ss0.push(seg);
    assert forall|k: int| 1 <= k < ns.len() implies {
        let ndk = #[trigger] ns[k];
        &&& ndk.parent < k
        &&& ndk.depth == ns[ndk.parent as int].depth + 1
        &&& circ16(ndk.dir as int, ns[ndk.parent as int].dir as int) > cfg.phi_tolerance
        &&& (ndk.has_sib ==> circ16(ndk.dir as int, ndk.sib as int) > cfg.phi_neigh_tolerance)
        &&& ss[k - 1].start == ns[ndk.parent as int].pos
        &&& ss[k - 1].end == ndk.pos
        &&& seg_ok(ss[k - 1])
    } by {
        if k < ns.len() - 1 {
            assert(ns[k] == ns0[k]);
        }
    }
    assert forall|i: int, j: int| 0 <= i < j < ss.len() implies !segments_intersect(
        #[trigger] ss[i],
        #[trigger] ss[j],
    ) by {
        if j == ss.len() - 1 {
            assert(!segments_intersect(ss0[i], seg));
        }
    }
}

/// One placement attempt for a drawn direction and radius whose angular
/// checks already passed: computes the candidate endpoint, and if it clears
/// the vertical floor and some bow clears every placed segment, records the
/// node, its segment and its follow-up work. Already-placed nodes and
/// queued items are untouched.
#[verifier::rlimit(80)]
fn try_place(
    nodes: &mut Vec<CurvedNode>,
    segs: &mut Vec<GrowthSegment>,
    queue: &mut Vec<WorkItem>,
    rng: &mut Prng,
    cfg: Config,
    item: WorkItem,
    dir: u8,
    radius: i64,
) -> (placed: bool)
    requires
        cfg.valid(),
        wf_curved(old(nodes)@, old(segs)@, cfg),
        queue_ok(old(queue)@, old(nodes)@, cfg),
        (item.parent as int) < old(nodes)@.len(),
        1 <= item.depth <= cfg.max_depth,
        item.depth == old(nodes)@[item.parent as int].depth + 1,
        item.sib < 16,
        dir < 16,
        0 < radius <= 100 * SCALE,
        circ16(dir as int, old(nodes)@[item.parent as int].dir as int) > cfg.phi_tolerance,
        item.has_sib ==> circ16(dir as int, item.sib as int) > cfg.phi_neigh_tolerance,
    ensures
        wf_curved(final(nodes)@, final(segs)@, cfg),
        queue_ok(final(queue)@, final(nodes)@, cfg),
        final(rng).seed() == old(rng).seed(),
        final(nodes)@.len() >= old(nodes)@.len(),
        forall|idx: int|
            0 <= idx < old(nodes)@.len() ==> final(nodes)@[idx] == old(nodes)@[idx],
        final(queue)@.len() >= old(queue)@.len(),
        placed ==> final(nodes)@.len() == old(nodes)@.len() + 1,
        !placed ==> final(nodes)@ == old(nodes)@,
        placed <==> (spec_place(
            (CurvedModel {
                nodes: old(nodes)@,
                segs: old(segs)@,
                queue: old(queue)@,
                taken: old(rng).taken(),
            }),
            old(rng).seed(),
            cfg,
            item,
            dir as int,
            radius as int,
        ) is Some),
        placed ==> ((CurvedModel {
            nodes: final(nodes)@,
            segs: final(segs)@,
            queue: final(queue)@,
            taken: final(rng).taken(),
        }) == spec_place(
            (CurvedModel {
                nodes: old(nodes)@,
                segs: old(segs)@,
                queue: old(queue)@,
                taken: old(rng).taken(),
            }),
            old(rng).seed(),
            cfg,
            item,
            dir as int,
            radius as int,
        )->0),
        !placed ==> final(segs)@ == old(segs)@ && final(queue)@ == old(queue)@
            && final(rng).taken() == old(rng).taken(),
{
    let ghost st0 = CurvedModel {
        nodes: old(nodes)@,
        segs: old(segs)@,
        queue: old(queue)@,
        taken: old(rng).taken(),
    };
    let pn = nodes[item.parent];
    let u = Point::from_phi(dir);
    proof {
        assert(-1000 * radius <= u.x * radius <= 1000 * radius && -1000 * radius <= u.y * radius
            <= 1000 * radius) by (nonlinear_arith)
            requires
                -1000 <= u.x <= 1000,
                -1000 <= u.y <= 1000,
                radius > 0,
        ;
        lemma_div_unit(u.x * radius as int, radius as int);
        lemma_div_unit(u.y * radius as int, radius as int);
        assert(0 <= 200000 * (pn.depth as int) <= 6400000) by (nonlinear_arith)
            requires 0 <= pn.depth <= 32;
        assert(200000 * (item.depth as int) == 200000 * (pn.depth as int) + 200000)
            by (nonlinear_arith)
            requires item.depth == pn.depth + 1;
        assert(0 <= 200000 * (item.depth as int) <= 6400000) by (nonlinear_arith)
            requires 0 <= item.depth <= 32;
    }
    let sx = div_trunc_exec(u.x * radius, SCALE);
    let sy = div_trunc_exec(u.y * radius, SCALE);
    let ex = pn.pos.x + sx;
    let ey = pn.pos.y + sy;
    if ey < 0 {
        return false;
    }
    let end = Point { x: ex, y: ey };
    proof {
        assert forall|kk: int| 0 <= kk < segs@.len() implies seg_ok(#[trigger] segs@[kk]) by {
            let nd = nodes@[kk + 1];
            assert(nd.parent < kk + 1);
        }
    }
    match pick_segment(&segs, pn.pos, end, dir, radius) {
        Some(seg) => {
            let ghost ns0 = nodes@;
            let new_idx = nodes.len();
            let nd = CurvedNode {
                pos: end,
                dir,
                parent: item.parent,
                depth: item.depth,
                sib: item.sib,
                has_sib: item.has_sib,
            };
            let ghost ss0 = segs@;
            nodes.push(nd);
            segs.push(seg);
            proof {
                lemma_accept_wf(ns0, ss0, nd, seg, cfg);
                assert(nodes@ == ns0.push(nd));
                assert(segs@ == ss0.push(seg));
            }
            if item.depth < cfg.max_depth {
                queue.push(
                    WorkItem { parent: new_idx, depth: item.depth + 1, sib: 0, has_sib: false },
                );
            }
            if !item.has_sib {
                let ws = rng.next_word();
                if ws % 2 == 0 {
                    queue.push(
                        WorkItem { parent: item.parent, depth: item.depth, sib: dir, has_sib: true },
                    );
                }
            }
            true
        },
        None => false,
    }
}

/// The exact effect of one work item's bounded rejection sampling: each
/// attempt draws a direction and a radius (two words), runs the angular
/// checks, and either places (possibly drawing one more word for a sibling
/// spawn) or tries again until the budget runs out.
pub open spec fn spec_attempt(
    st: CurvedModel,
    seed: u64,
    cfg: Config,
    item: WorkItem,
    tries: int,
) -> CurvedModel
    decreases tries,
{
    if tries <= 0 {
        st
    } else {
        let wd = stream_word(seed, st.taken);
        let wr = stream_word(seed, (st.taken + 1) as nat);
        let dir = wd as int % 16;
        let radius = cfg.min_dist + wr as int % (cfg.max_dist - cfg.min_dist + 1);
        let st1 = CurvedModel { taken: (st.taken + 2) as nat, ..st };
        let pn = st.nodes[item.parent as int];
        let ok = circ16(dir, pn.dir as int) > cfg.phi_tolerance && (!item.has_sib || circ16(
            dir,
            item.sib as int,
        ) > cfg.phi_neigh_tolerance);
        if ok {
            match spec_place(st1, seed, cfg, item, dir, radius) {
                Some(st2) => st2,
                None => spec_attempt(st1, seed, cfg, item, tries - 1),
            }
        } else {
            spec_attempt(st1, seed, cfg, item, tries - 1)
        }
    }
}

/// The exact effect of working the queue from position `head` for at most
/// `steps` items.
pub open spec fn spec_run(
    st: CurvedModel,
    seed: u64,
    cfg: Config,
    head: int,
    steps: int,
) -> CurvedModel
    decreases steps,
{
    if steps <= 0 || head < 0 || head >= st.queue.len() {
        st
    } else {
        spec_run(
            spec_attempt(st, seed, cfg, st.queue[head], cfg.retry_budget as int),
            seed,
            cfg,
            head + 1,
            steps - 1,
        )
    }
}

/// The whole curved growth as a function of the seed and the stream
/// position: what `grow` computes.
pub open spec fn spec_grow(seed: u64, t0: nat, cfg: Config) -> CurvedModel {
    let root = CurvedNode {
        pos: Point { x: 0i64, y: 0i64 },
        dir: 4,
        parent: 0,
        depth: 0,
        sib: 0,
        has_sib: false,
    };
    let q = if cfg.max_depth >= 1 {
        seq![WorkItem { parent: 0 as usize, depth: 1, sib: 0, has_sib: false }]
    } else {
        Seq::<WorkItem>::empty()
    };
    spec_run(
        CurvedModel { nodes: seq![root], segs: Seq::empty(), queue: q, taken: t0 },
        seed,
        cfg,
        0,
        STEP_CAP as int,
    )
}

/// Runs one whole curved growth: breadth-first placement under the
/// configured tolerances, retry budget, branch depth and the global step
/// cap. The result is well formed in the sense of `wf_curved`; in
/// particular no two accepted segments intersect, and every placement
/// respects its angular tolerances and the vertical floor.
pub fn grow(rng: &mut Prng, cfg: Config) -> (g: CurvedGrowth)
    requires
        cfg.valid(),
    ensures
        wf_curved(g.nodes@, g.segs@, cfg),
        g.nodes@.len() <= 1 + STEP_CAP as int,
        final(rng).seed() == old(rng).seed(),
        g.nodes@ == spec_grow(old(rng).seed(), old(rng).taken(), cfg).nodes,
        g.segs@ == spec_grow(old(rng).seed(), old(rng).taken(), cfg).segs,
        final(rng).taken() == spec_grow(old(rng).seed(), old(rng).taken(), cfg).taken,
{
    let ghost seed = rng.seed();
    let ghost t0 = rng.taken();
    let ghost target = spec_grow(seed, t0, cfg);
    let origin = Point { x: 0, y: 0 };
    let mut nodes: Vec<CurvedNode> = Vec::new();
    nodes.push(CurvedNode { pos: origin, dir: 4, parent: 0, depth: 0, sib: 0, has_sib: false });
    let mut segs: Vec<GrowthSegment> = Vec::new();
    let mut queue: Vec<WorkItem> = Vec::new();
    if cfg.max_depth >= 1 {
        queue.push(WorkItem { parent: 0, depth: 1, sib: 0, has_sib: false });
    }
    let mut head: usize = 0;
    let mut steps: u32 = 0;
    proof {
        let st0 = CurvedModel { nodes: nodes@, segs: segs@, queue: queue@, taken: rng.taken() };
        let root = CurvedNode {
            pos: Point { x: 0i64, y: 0i64 },
            dir: 4,
            parent: 0,
            depth: 0,
            sib: 0,
            has_sib: false,
        };
        assert(st0.nodes =~= seq![root]);
        if cfg.max_depth >= 1 {
            assert(st0.queue =~= seq![
                WorkItem { parent: 0 as usize, depth: 1, sib: 0, has_sib: false },
            ]);
        } else {
            assert(st0.queue =~= Seq::<WorkItem>::empty());
        }
        assert(st0.segs =~= Seq::<GrowthSegment>::empty());
        assert(spec_run(st0, seed, cfg, 0, STEP_CAP as int) == target);
    }
    while steps < STEP_CAP && head < queue.len()
        invariant
            cfg.valid(),
            wf_curved(nodes@, segs@, cfg),
            head <= queue@.len(),
            rng.seed() == seed,
            seed == old(rng).seed(),
            t0 == old(rng).taken(),
            target == spec_grow(seed, t0, cfg),
            queue_ok(queue@, nodes@, cfg),
            nodes@.len() <= 1 + steps as int,
            steps <= STEP_CAP,
            spec_run(
                (CurvedModel { nodes: nodes@, segs: segs@, queue: queue@, taken: rng.taken() }),
                seed,
                cfg,
                head as int,
                STEP_CAP as int - steps as int,
            ) == target,
        decreases STEP_CAP - steps,
    {
        let ghost st_item = CurvedModel {
            nodes: nodes@,
            segs: segs@,
            queue: queue@,
            taken: rng.taken(),
        };
        let ghost rem = STEP_CAP as int - steps as int;
        steps = steps + 1;
        let item = queue[head];
        head = head + 1;
        let ghost atarget = spec_attempt(st_item, seed, cfg, item, cfg.retry_budget as int);
        proof {
            assert(spec_run(st_item, seed, cfg, head as int - 1, rem) == spec_run(
                atarget,
                seed,
                cfg,
                head as int,
                rem - 1,
            ));
        }
        let mut tries: u8 = cfg.retry_budget;
        while tries > 0
            invariant_except_break
                nodes@.len() <= steps as int,
                spec_attempt(
                    (CurvedModel {
                        nodes: nodes@,
                        segs: segs@,
                        queue: queue@,
                        taken: rng.taken(),
                    }),
                    seed,
                    cfg,
                    item,
                    tries as int,
                ) == atarget,
            invariant
                cfg.valid(),
                wf_curved(nodes@, segs@, cfg),
                head <= queue@.len(),
                rng.seed() == seed,
                queue_ok(queue@, nodes@, cfg),
                (item.parent as int) < nodes@.len(),
                1 <= item.depth <= cfg.max_depth,
                item.depth == nodes@[item.parent as int].depth + 1,
                item.sib < 16,
                nodes@.len() <= 1 + steps as int,
                steps <= STEP_CAP,
                tries <= cfg.retry_budget,
            ensures
                cfg.valid(),
                wf_curved(nodes@, segs@, cfg),
                head <= queue@.len(),
                rng.seed() == seed,
                queue_ok(queue@, nodes@, cfg),
                nodes@.len() <= 1 + steps as int,
                (CurvedModel { nodes: nodes@, segs: segs@, queue: queue@, taken: rng.taken() })
                    == atarget,
            decreases tries,
        {
            let ghost st_lh = CurvedModel {
                nodes: nodes@,
                segs: segs@,
                queue: queue@,
                taken: rng.taken(),
            };
            let ghost tries_lh = tries as int;
            tries = tries - 1;
            let wd = rng.next_word();
            let wr = rng.next_word();
            let dir = (wd % 16) as u8;
            let span = (cfg.max_dist - cfg.min_dist + 1) as u64;
            let radius = cfg.min_dist + (wr % span) as i64;
            proof {
                assert(wd == stream_word(seed, st_lh.taken));
                assert(wr == stream_word(seed, (st_lh.taken + 1) as nat));
                assert(dir as int == wd as int % 16);
                assert(radius as int == cfg.min_dist + wr as int % (cfg.max_dist - cfg.min_dist
                    + 1));
            }
            let pdir = nodes[item.parent].dir;
            let ok_phi = circ_dist(dir, pdir) > cfg.phi_tolerance;
            let ok_sib = !item.has_sib || circ_dist(dir, item.sib) > cfg.phi_neigh_tolerance;
            if ok_phi && ok_sib {
                let placed = try_place(
                    &mut nodes,
                    &mut segs,
                    &mut queue,
                    rng,
                    cfg,
                    item,
                    dir,
                    radius,
                );
                if placed {
                    proof {
                        let stc = CurvedModel {
                            nodes: nodes@,
                            segs: segs@,
                            queue: queue@,
                            taken: rng.taken(),
                        };
                        assert(spec_attempt(st_lh, seed, cfg, item, tries_lh) == stc);
                    }
                    break ;
                }
            }
        }
    }
    proof {
        let stf = CurvedModel { nodes: nodes@, segs: segs@, queue: queue@, taken: rng.taken() };
        assert(spec_run(stf, seed, cfg, head as int, STEP_CAP as int - steps as int) == stf);
        assert(stf == target);
    }
    CurvedGrowth { nodes, segs }
}

} // verus!
