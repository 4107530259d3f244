//! The tree graph: an append-only node list with per-node child lists and
//! leaf clusters, the invariant that makes the child relation a tree, and
//! the operations that build, rescale, replay and sample it.

use vstd::prelude::*;
use crate::config::{Bounds, Config, ConfigError, Strategy};
use crate::geom::{Point, SCALE, HALF_LIMIT, half_range, in_range, lerp};
use crate::rng::{Prng, entropy_seed, stream_word};
use crate::leaf::{spec_cluster, cluster_draws, build_cluster, sort_points, spec_sort_by_norm, lemma_sort_len};
use vstd::multiset::Multiset;
use crate::curved::{CurvedGrowth, CurvedNode, wf_curved};
use vstd::seq_lib::lemma_multiset_commutative;

verus! {

/// No generated graph grows past this many nodes: a growth step that would
/// exceed the cap is silently abandoned, like any other rejected placement.
pub const NODE_CAP: usize = 1000000;

/// One in-flight unit of animation work.
#[derive(Clone, Copy, Debug, PartialEq, Eq, Structural)]
pub enum AnimationItem {
    /// The animation has not begun: the root's edges are still to be
    /// enqueued.
    Start,
    /// The edge from node `parent` to node `child` is revealed up to
    /// interpolation parameter `t` (milli-scale, a multiple of the
    /// per-tick sweep).
    Edge { parent: usize, child: usize, t: i64 },
    /// The leaf cluster of `node` is revealed up to offset index `next`.
    Leaf { node: usize, next: usize },
}

/// The abstract state of a tree graph: what the generator builds and every
/// later pass reads. `taken` is the position reached in the random stream,
/// so that generation is a function of the seed alone.
pub ghost struct TreeModel {
    /// Node coordinates, indexed by id in creation order.
    pub nodes: Seq<Point>,
    /// For each node, the ids of its children, in creation order.
    pub children: Seq<Seq<usize>>,
    /// For each node, its leaf cluster: point offsets relative to the node.
    pub leaves: Seq<Seq<Point>>,
    /// How many words of the random stream generation has consumed.
    pub taken: nat,
}

/// The child list of node `i` holds `c` at position `j`.
pub open spec fn is_entry(ch: Seq<Seq<usize>>, i: int, j: int, c: int) -> bool {
    &&& 0 <= i < ch.len()
    &&& 0 <= j < ch[i].len()
    &&& ch[i][j] == c
}

/// Some child list holds `c`.
pub open spec fn has_parent(ch: Seq<Seq<usize>>, c: int) -> bool {
    exists|i: int, j: int| #[trigger] is_entry(ch, i, j, c)
}

/// The state before any node is pushed.
pub open spec fn empty_model() -> TreeModel {
    TreeModel { nodes: Seq::empty(), children: Seq::empty(), leaves: Seq::empty(), taken: 0 }
}

/// What makes the graph a tree built strictly top-down:
/// child lists only name nodes that exist and were created after their
/// parent; lists grow in creation order; every non-root node is in exactly
/// one list, at exactly one position. Coordinates and leaf offsets stay
/// within `HALF_LIMIT`, so sums of a node and an offset never overflow.
pub open spec fn wf_model(m: TreeModel) -> bool {
    &&& m.children.len() == m.nodes.len()
    &&& m.leaves.len() == m.nodes.len()
    &&& m.nodes.len() <= NODE_CAP
    &&& forall|i: int, j: int|
        0 <= i < m.children.len() && 0 <= j < m.children[i].len() ==> i < #[trigger] m.children[i][j] < m.nodes.len()
    &&& forall|i: int, j1: int, j2: int|
        0 <= i < m.children.len() && 0 <= j1 < j2 < m.children[i].len() ==> #[trigger] m.children[i][j1] < #[trigger] m.children[i][j2]
    &&& forall|c: int| 1 <= c < m.nodes.len() ==> #[trigger] has_parent(m.children, c)
    &&& forall|i1: int, j1: int, i2: int, j2: int, c: int|
        #[trigger] is_entry(m.children, i1, j1, c) && #[trigger] is_entry(m.children, i2, j2, c)
            ==> i1 == i2 && j1 == j2
    &&& forall|i: int| 0 <= i < m.nodes.len() ==> half_range(#[trigger] m.nodes[i])
    &&& forall|i: int, j: int|
        0 <= i < m.leaves.len() && 0 <= j < m.leaves[i].len() ==> half_range(#[trigger] m.leaves[i][j])
}

/// Every non-root node has exactly one parent, created before it: there is
/// an entry for it in some child list, any two entries for it coincide, and
/// the parent's id is strictly smaller than the child's.
pub proof fn lemma_single_parent(m: TreeModel, c: int)
    requires
        wf_model(m),
        1 <= c < m.nodes.len(),
    ensures
        has_parent(m.children, c),
        forall|i1: int, j1: int, i2: int, j2: int|
            is_entry(m.children, i1, j1, c) && is_entry(m.children, i2, j2, c) ==> i1 == i2 && j1
                == j2,
        forall|i: int, j: int| is_entry(m.children, i, j, c) ==> i < c,
{
}

/// The root was created first and answers to nobody: no child list names it.
pub proof fn lemma_root_has_no_parent(m: TreeModel)
    requires
        wf_model(m),
    ensures
        forall|i: int, j: int| !is_entry(m.children, i, j, 0),
{
    assert forall|i: int, j: int| !is_entry(m.children, i, j, 0) by {
        if is_entry(m.children, i, j, 0) {
            assert(i < m.children[i][j]);
        }
    }
}

/// Appending node `p` with parent `parent`: the exact effect of `push`.
/// On the empty state the new node is the root and `parent` is ignored.
pub open spec fn spec_push(m: TreeModel, p: Point, parent: int) -> TreeModel {
    let id = m.nodes.len() as usize;
    TreeModel {
        nodes: m.nodes.push(p),
        children: if m.nodes.len() == 0 {
            m.children.push(Seq::empty())
        } else {
            m.children.update(parent, m.children[parent].push(id)).push(Seq::empty())
        },
        leaves: m.leaves.push(Seq::empty()),
        taken: m.taken,
    }
}

/// The four corners of the container: a trapezoid centred on the midline,
/// one seventh of the height tall, with rim a fifth and base a sixth of the
/// width to each side.
pub open spec fn spec_pot(b: Bounds) -> Seq<Point> {
    let cx = b.width as int * SCALE / 2;
    let up = b.width as int * SCALE / 5;
    let down = b.width as int * SCALE / 6;
    let h = b.height as int * SCALE / 7;
    seq![
        Point { x: (cx - down) as i64, y: 0 },
        Point { x: (cx + down) as i64, y: 0 },
        Point { x: (cx + up) as i64, y: (h as i64) },
        Point { x: (cx - up) as i64, y: (h as i64) },
    ]
}

/// A procedurally generated bonsai tree and the state of its growth
/// animation.
pub struct BonsaiTree {
    pub(crate) nodes: Vec<Point>,
    pub(crate) neighbours: Vec<Vec<usize>>,
    pub(crate) leaves: Vec<Vec<Point>>,
    pub(crate) pot: Vec<Point>,
    pub(crate) bounds: Bounds,
    pub(crate) config: Config,
    pub(crate) rng: Prng,
    pub(crate) animation_queue: Vec<AnimationItem>,
}

impl BonsaiTree {
    /// The graph this value holds, abstracted from its containers.
    pub closed spec fn model(self) -> TreeModel {
        TreeModel {
            nodes: self.nodes@,
            children: self.neighbours@.map_values(|inner: Vec<usize>| inner@),
            leaves: self.leaves@.map_values(|inner: Vec<Point>| inner@),
            taken: self.rng.taken(),
        }
    }

    /// The seed the random stream was made from.
    pub closed spec fn seed(self) -> u64 {
        self.rng.seed()
    }

    /// The configuration the tree was constructed with.
    pub closed spec fn cfg(self) -> Config {
        self.config
    }

    /// The display bounds the tree was constructed with.
    pub closed spec fn dims(self) -> Bounds {
        self.bounds
    }

    /// The animation work queue.
    pub closed spec fn queue(self) -> Seq<AnimationItem> {
        self.animation_queue@
    }

    /// The container outline's corner points.
    pub closed spec fn pot_corners(self) -> Seq<Point> {
        self.pot@
    }

    /// The whole value is well formed: the graph is a tree, every queue item
    /// points into it, the configuration passed validation, and the pot is
    /// the one the bounds dictate. Open so that a caller holding a
    /// well-formed tree can reach `wf_model` and `wf_queue` and, through
    /// them, the single-parent and replay laws.
    pub open spec fn wf(self) -> bool {
        &&& wf_model(self.model())
        &&& wf_queue(self.model(), self.queue())
        &&& self.cfg().valid()
        &&& self.dims().valid()
        &&& self.pot_corners() == spec_pot(self.dims())
    }

    /// Constructs an empty tree from explicit parameters; rejects exactly
    /// the parameter values outside their documented ranges, naming the
    /// first rule broken. A caller that wants reproducibility passes a
    /// seed; with `None` the seed comes from machine entropy and nothing
    /// more is known of the run.
    pub fn with_config(bounds: Bounds, seed: Option<u64>, config: Config) -> (r: Result<
        BonsaiTree,
        ConfigError,
    >)
        ensures
            r is Ok <==> config.valid() && bounds.valid(),
            r is Err ==> config.spec_validate(bounds) == Result::<(), ConfigError>::Err(r->Err_0),
            r is Ok ==> {
                let t = r->Ok_0;
                &&& t.wf()
                &&& t.model() == empty_model()
                &&& t.cfg() == config
                &&& t.dims() == bounds
                &&& t.queue() == seq![AnimationItem::Start]
                &&& (seed is Some ==> t.seed() == seed->0)
            },
    {
        match config.validate(bounds) {
            Err(e) => Err(e),
            Ok(()) => {
                let s = match seed {
                    Some(s) => s,
                    None => entropy_seed(),
                };
                let pot = make_pot(bounds);
                let t = BonsaiTree {
                    nodes: Vec::new(),
                    neighbours: Vec::new(),
                    leaves: Vec::new(),
                    pot,
                    bounds,
                    config,
                    rng: Prng::from_seed_value(s),
                    animation_queue: vec![AnimationItem::Start],
                };
                proof {
                    assert(t.model().nodes =~= empty_model().nodes);
                    assert(t.model().children =~= empty_model().children);
                    assert(t.model().leaves =~= empty_model().leaves);
                    assert(t.model() == empty_model());
                    assert(t.queue() =~= seq![AnimationItem::Start]);
                }
                Ok(t)
            },
        }
    }

    /// Constructs an empty tree with the default configuration.
    pub fn new(bounds: Bounds, seed: Option<u64>) -> (r: Result<BonsaiTree, ConfigError>)
        ensures
            r is Ok <==> bounds.valid(),
            r is Ok ==> {
                let t = r->Ok_0;
                &&& t.wf()
                &&& t.model() == empty_model()
                &&& t.cfg() == Config::spec_default()
                &&& t.dims() == bounds
                &&& t.queue() == seq![AnimationItem::Start]
                &&& (seed is Some ==> t.seed() == seed->0)
            },
    {
        let config = Config::default_config();
        Self::with_config(bounds, seed, config)
    }

    /// Appends a node and registers it with its parent; on the empty graph
    /// the node becomes the root and `parent` is ignored. Returns the new
    /// node's id.
    pub(crate) fn push(&mut self, p: &Point, parent: usize) -> (id: usize)
        requires
            old(self).wf(),
            half_range(*p),
            old(self).model().nodes.len() == 0 || parent < old(self).model().nodes.len(),
            old(self).model().nodes.len() < NODE_CAP,
        ensures
            final(self).wf(),
            final(self).model() == spec_push(old(self).model(), *p, parent as int),
            id == old(self).model().nodes.len(),
            final(self).model().nodes.len() == old(self).model().nodes.len() + 1,
            final(self).seed() == old(self).seed(),
            final(self).cfg() == old(self).cfg(),
            final(self).dims() == old(self).dims(),
            final(self).queue() == old(self).queue(),
            final(self).pot_corners() == old(self).pot_corners(),
    {
        let ghost m0 = self.model();
        let id = self.nodes.len();
        self.nodes.push(*p);
        self.leaves.push(Vec::new());
        if id > 0 {
            self.neighbours[parent].push(id);
        }
        self.neighbours.push(Vec::new());
        proof {
            let m1 = self.model();
            let ms = spec_push(m0, *p, parent as int);
            assert(m1.nodes =~= ms.nodes);
            assert(m1.leaves =~~= ms.leaves);
            assert(m1.children =~~= ms.children);
            lemma_push_preserves_wf(m0, self.model(), *p, parent as int);
        }
        id
    }
}

/// Whether one queue item points into the graph, with an aligned sweep
/// parameter.
pub open spec fn wf_item(m: TreeModel, it: AnimationItem) -> bool {
    match it {
        AnimationItem::Start => true,
        AnimationItem::Edge { parent, child, t } => {
            &&& (parent as int) < m.nodes.len()
            &&& (child as int) < m.nodes.len()
            &&& parent < child
            &&& 0 <= t <= 900
            &&& t % 100 == 0
        },
        AnimationItem::Leaf { node, next } => {
            &&& (node as int) < m.nodes.len()
            &&& (next as int) <= m.leaves[node as int].len()
        },
    }
}

/// Every queued item is well formed.
pub open spec fn wf_queue(m: TreeModel, q: Seq<AnimationItem>) -> bool {
    forall|k: int| 0 <= k < q.len() ==> wf_item(m, #[trigger] q[k])
}

/// `spec_push` takes one well-formed state to another: the fresh node's id
/// is larger than every id already present, so every tree clause is kept.
proof fn lemma_push_preserves_wf(m0: TreeModel, m1: TreeModel, p: Point, parent: int)
    requires
        wf_model(m0),
        half_range(p),
        m0.nodes.len() == 0 || 0 <= parent < m0.nodes.len(),
        m0.nodes.len() < NODE_CAP,
        m1 == spec_push(m0, p, parent),
    ensures
        wf_model(m1),
{
    let n = m0.nodes.len() as int;
    if n == 0 {
        assert forall|c: int| 1 <= c < m1.nodes.len() implies #[trigger] has_parent(
            m1.children,
            c,
        ) by {}
    } else {
        // Every old entry is unchanged; one new entry (parent, old list len)
        // holds the fresh id n.
        let jn = m0.children[parent].len() as int;
        assert(is_entry(m1.children, parent, jn, n));
        assert forall|i: int, j: int|
            0 <= i < m1.children.len() && 0 <= j < m1.children[i].len() implies i
            < #[trigger] m1.children[i][j] < m1.nodes.len() by {
            if i == parent && j == jn {
            } else {
                assert(m1.children[i][j] == m0.children[i][j]);
            }
        }
        assert forall|i: int, j1: int, j2: int|
            0 <= i < m1.children.len() && 0 <= j1 < j2 < m1.children[i].len() implies #[trigger] m1.children[i][j1]
            < #[trigger] m1.children[i][j2] by {
            if i == parent && j2 == jn {
                assert(m1.children[i][j1] == m0.children[i][j1]);
                assert(m0.children[parent][j1] < m0.nodes.len());
            } else {
                assert(m1.children[i][j1] == m0.children[i][j1]);
                assert(m1.children[i][j2] == m0.children[i][j2]);
            }
        }
        assert forall|c: int| 1 <= c < m1.nodes.len() implies #[trigger] has_parent(
            m1.children,
            c,
        ) by {
            if c < n {
                assert(has_parent(m0.children, c));
                let (i0, j0) = choose|i0: int, j0: int| #[trigger] is_entry(m0.children, i0, j0, c);
                assert(is_entry(m1.children, i0, j0, c));
            } else {
                assert(is_entry(m1.children, parent, jn, c));
            }
        }
        assert forall|i1: int, j1: int, i2: int, j2: int, c: int|
            #[trigger] is_entry(m1.children, i1, j1, c) && #[trigger] is_entry(
                m1.children,
                i2,
                j2,
                c,
            ) implies i1 == i2 && j1 == j2 by {
            let fresh1 = i1 == parent && j1 == jn;
            let fresh2 = i2 == parent && j2 == jn;
            if fresh1 && fresh2 {
            } else if fresh1 {
                assert(m1.children[i2][j2] == m0.children[i2][j2]);
                assert(m0.children[i2][j2] < n);
            } else if fresh2 {
                assert(m1.children[i1][j1] == m0.children[i1][j1]);
                assert(m0.children[i1][j1] < n);
            } else {
                assert(is_entry(m0.children, i1, j1, c));
                assert(is_entry(m0.children, i2, j2, c));
            }
        }
    }
}

/// The executable counterpart of `spec_pot`.
fn make_pot(bounds: Bounds) -> (r: Vec<Point>)
    requires
        bounds.valid(),
    ensures
        r@ == spec_pot(bounds),
{
    let w = bounds.width as i64 * SCALE;
    let h = bounds.height as i64 * SCALE;
    let cx = w / 2;
    let up = w / 5;
    let down = w / 6;
    let ph = h / 7;
    let base_left = cx - down;
    let base_right = cx + down;
    let rim_right = cx + up;
    let rim_left = cx - up;
    let r = vec![
        Point { x: base_left, y: 0 },
        Point { x: base_right, y: 0 },
        Point { x: rim_right, y: ph },
        Point { x: rim_left, y: ph },
    ];
    proof {
        assert(r@ =~= spec_pot(bounds));
    }
    r
}

// ---------------------------------------------------------------------------
// Generation: direction-biased recursive growth

/// The trunk's initial growth budget.
pub const Y_GROWTH: u64 = 4;

/// Generation-time coordinates stay within this many milli-units of the
/// origin, leaving room under `HALF_LIMIT` for every later pass.
pub const GEN_LIMIT: i64 = 200000000;

/// Two to the `e`-th.
pub open spec fn two_pow(e: nat) -> int
    decreases e,
{
    if e == 0 {
        1
    } else {
        2 * two_pow((e - 1) as nat)
    }
}

/// Powers of two are positive and grow with the exponent.
pub proof fn lemma_two_pow_mono(a: nat, b: nat)
    requires
        a <= b,
    ensures
        1 <= two_pow(a) <= two_pow(b),
    decreases b,
{
    if a == b {
        if a == 0 {
        } else {
            lemma_two_pow_mono((a - 1) as nat, (b - 1) as nat);
        }
    } else {
        lemma_two_pow_mono(a, (b - 1) as nat);
    }
}

/// `2^(tier - 1)` as a machine word: the growth budget of the next tier.
fn half_growth(tier: u8) -> (r: u64)
    requires
        1 <= tier <= 16,
    ensures
        r == two_pow((tier - 1) as nat),
{
    let mut r: u64 = 1;
    let mut i: u8 = 1;
    while i < tier
        invariant
            1 <= i <= tier <= 16,
            r == two_pow((i - 1) as nat),
            r <= 32768,
        decreases tier - i,
    {
        proof {
            reveal_with_fuel(two_pow, 17);
            lemma_two_pow_mono((i - 1) as nat, 14);
        }
        r = r * 2;
        i = i + 1;
    }
    r
}

/// The growth position leaves enough travel budget to stay within
/// `GEN_LIMIT` for the rest of this branch: each remaining growth step
/// moves at most `2000` milli-units per axis, and a branch at tier `t`
/// still has at most `growth + 2^t` steps ahead on any one path.
pub open spec fn fits(pos: Point, growth: int, tier: int) -> bool {
    let budget = (growth + two_pow(tier as nat)) * 2000;
    &&& -GEN_LIMIT + budget <= pos.x <= GEN_LIMIT - budget
    &&& 0 <= pos.y <= GEN_LIMIT - budget
}

/// The exact effect of one `grow_tree` call on the abstract state. At tier
/// zero the cluster of the terminal node is laid; at exhausted growth the
/// next tier begins with budget `2^(tier-1)`; otherwise one jittered step
/// is pushed, a branch may spawn (every `branch_cooldown` steps, with one
/// draw deciding by `tier` and one the branch's direction), and growth
/// continues from the new node.
pub open spec fn spec_gen_tree(
    m: TreeModel,
    seed: u64,
    cfg: Config,
    pos: Point,
    growth: int,
    tier: int,
    xdir: int,
    parent: int,
) -> TreeModel
    decreases tier, growth,
{
    if tier <= 0 {
        let pts = spec_cluster(seed, m.taken, cfg.leaf_depth as int);
        TreeModel {
            leaves: m.leaves.update(parent, spec_sort_by_norm(m.leaves[parent] + pts)),
            taken: (m.taken + cluster_draws(cfg.leaf_depth as int)) as nat,
            ..m
        }
    } else if growth <= 0 {
        spec_gen_tree(m, seed, cfg, pos, two_pow((tier - 1) as nat), tier - 1, xdir, parent)
    } else if m.nodes.len() >= NODE_CAP {
        m
    } else {
        let gy = 100 + 100 * (stream_word(seed, m.taken) as int % 9);
        let next = Point { x: (pos.x + xdir * SCALE) as i64, y: (pos.y + gy) as i64 };
        let id = m.nodes.len() as int;
        let m1 = spec_push(TreeModel { taken: (m.taken + 1) as nat, ..m }, next, parent);
        let m2 = if growth % (cfg.branch_cooldown as int) == 0 {
            let w = stream_word(seed, m1.taken);
            let m1b = TreeModel { taken: (m1.taken + 1) as nat, ..m1 };
            if w as int % (tier as int) == 0 {
                let sgn_w = stream_word(seed, m1b.taken);
                let sgn: int = if sgn_w % 2 == 0 {
                    -1
                } else {
                    1
                };
                let m1c = TreeModel { taken: (m1b.taken + 1) as nat, ..m1b };
                spec_gen_tree(
                    m1c,
                    seed,
                    cfg,
                    next,
                    two_pow((tier - 1) as nat),
                    tier - 1,
                    xdir * sgn,
                    id,
                )
            } else {
                m1b
            }
        } else {
            m1
        };
        spec_gen_tree(m2, seed, cfg, next, growth - 1, tier, xdir, id)
    }
}

/// The exact effect of `generate`: the root at the origin, then, unless the
/// degenerate single-node tree was asked for, one draw picks the trunk's
/// horizontal bias and recursive growth runs from the root.
pub open spec fn spec_generate(m: TreeModel, seed: u64, cfg: Config) -> TreeModel {
    let m1 = spec_push(m, Point { x: 0, y: 0 }, 0);
    if cfg.tiers == 0 {
        m1
    } else {
        let w = stream_word(seed, m1.taken);
        let xdir: int = if w % 2 == 0 {
            -1
        } else {
            1
        };
        let m2 = TreeModel { taken: (m1.taken + 1) as nat, ..m1 };
        spec_gen_tree(
            m2,
            seed,
            cfg,
            Point { x: 0, y: 0 },
            Y_GROWTH as int,
            cfg.tiers as int,
            xdir,
            0,
        )
    }
}

/// The graph a placed curved growth yields: its first `k` nodes pushed in
/// placement order, each under its placed parent.
pub open spec fn spec_import(m: TreeModel, ns: Seq<CurvedNode>, k: int) -> TreeModel
    decreases k,
{
    if k <= 0 {
        m
    } else {
        spec_push(spec_import(m, ns, k - 1), ns[k - 1].pos, ns[k - 1].parent as int)
    }
}

/// The exact effect of `generate` under the curved strategy: the placement
/// `spec_grow` names, imported node by node into the graph.
pub open spec fn spec_generate_curved(m: TreeModel, seed: u64, cfg: Config) -> TreeModel {
    let cm = crate::curved::spec_grow(seed, m.taken, cfg);
    spec_import(
        TreeModel { taken: cm.taken, ..m },
        cm.nodes,
        cm.nodes.len() as int,
    )
}

/// The exact effect of `generate`, whichever strategy the configuration
/// selects.
pub open spec fn spec_generated(m: TreeModel, seed: u64, cfg: Config) -> TreeModel {
    if cfg.strategy == Strategy::Curved {
        spec_generate_curved(m, seed, cfg)
    } else {
        spec_generate(m, seed, cfg)
    }
}

/// Generation is a function of the seed and the configuration alone,
/// whichever strategy is selected: two runs from a fresh tree with equal
/// seed and configuration produce identical node coordinates, child
/// structure and leaf clusters.
pub proof fn lemma_generate_deterministic(m1: TreeModel, m2: TreeModel, seed: u64, cfg: Config)
    requires
        m1 == spec_generated(empty_model(), seed, cfg),
        m2 == spec_generated(empty_model(), seed, cfg),
    ensures
        m1 == m2,
{
}

impl BonsaiTree {
    /// Lays the leaf cluster of a terminal node: draws the cluster, merges
    /// it into the node's existing offsets, and re-sorts the whole cluster
    /// inside-out.
    pub(crate) fn lay_cluster(&mut self, parent: usize)
        requires
            old(self).wf(),
            parent < old(self).model().nodes.len(),
        ensures
            final(self).wf(),
            final(self).model() == (TreeModel {
                leaves: old(self).model().leaves.update(
                    parent as int,
                    spec_sort_by_norm(
                        old(self).model().leaves[parent as int] + spec_cluster(
                            old(self).seed(),
                            old(self).model().taken,
                            old(self).cfg().leaf_depth as int,
                        ),
                    ),
                ),
                taken: (old(self).model().taken + cluster_draws(
                    old(self).cfg().leaf_depth as int,
                )) as nat,
                ..old(self).model()
            }),
            final(self).seed() == old(self).seed(),
            final(self).cfg() == old(self).cfg(),
            final(self).dims() == old(self).dims(),
            final(self).queue() == old(self).queue(),
            final(self).pot_corners() == old(self).pot_corners(),
    {
        let ghost m0 = self.model();
        let ghost seed = self.seed();
        let ghost cfg = self.cfg();
        let depth = self.config.leaf_depth;
        let mut cluster = build_cluster(&mut self.rng, depth);
        let mut combined: Vec<Point> = Vec::new();
        combined.append(&mut self.leaves[parent]);
        combined.append(&mut cluster);
        proof {
            assert forall|k: int| 0 <= k < combined@.len() implies half_range(
                #[trigger] combined@[k],
            ) by {
                if k < m0.leaves[parent as int].len() {
                    assert(combined@[k] == m0.leaves[parent as int][k]);
                }
            }
        }
        let mut ordered = sort_points(combined);
        let ghost ordered_view = ordered@;
        self.leaves[parent].append(&mut ordered);
        proof {
            let pts = spec_cluster(seed, m0.taken, cfg.leaf_depth as int);
            let ms = TreeModel {
                leaves: m0.leaves.update(
                    parent as int,
                    spec_sort_by_norm(m0.leaves[parent as int] + pts),
                ),
                taken: (m0.taken + cluster_draws(cfg.leaf_depth as int)) as nat,
                ..m0
            };
            assert(self.model().leaves[parent as int] =~= ordered_view);
            assert(ordered_view == spec_sort_by_norm(m0.leaves[parent as int] + pts));
            lemma_sort_len(m0.leaves[parent as int] + pts);
            assert(self.model().leaves =~~= ms.leaves);
            assert(self.model() == ms);
            let mf = self.model();
            assert forall|i: int, j: int|
                0 <= i < mf.leaves.len() && 0 <= j < mf.leaves[i].len() implies half_range(
                #[trigger] mf.leaves[i][j],
            ) by {
                if i == parent as int {
                    assert(mf.leaves[i][j] == ordered_view[j]);
                } else {
                    assert(mf.leaves[i][j] == m0.leaves[i][j]);
                }
            }
            assert(wf_model(self.model()));
            assert forall|kq: int| 0 <= kq < self.queue().len() implies wf_item(
                mf,
                #[trigger] self.queue()[kq],
            ) by {
                assert(wf_item(m0, self.queue()[kq]));
            }
        }
    }

    /// One recursive growth pass: realises `spec_gen_tree` on the tree.
    #[verifier::rlimit(100)]
    pub(crate) fn grow_tree(&mut self, pos: Point, growth: u64, tier: u8, xdir: i64, parent: usize)
        requires
            old(self).wf(),
            tier <= 16,
            xdir == -1 || xdir == 1,
            parent < old(self).model().nodes.len(),
            fits(pos, growth as int, tier as int),
        ensures
            final(self).wf(),
            final(self).model() == spec_gen_tree(
                old(self).model(),
                old(self).seed(),
                old(self).cfg(),
                pos,
                growth as int,
                tier as int,
                xdir as int,
                parent as int,
            ),
            final(self).model().nodes.len() >= old(self).model().nodes.len(),
            forall|i: int|
                0 <= i < old(self).model().nodes.len() ==> final(self).model().nodes[i] == old(
                    self,
                ).model().nodes[i],
            parent >= 1 || (tier >= 1 && growth >= 1) ==> final(self).model().leaves[0] == old(
                self,
            ).model().leaves[0],
            final(self).seed() == old(self).seed(),
            final(self).cfg() == old(self).cfg(),
            final(self).dims() == old(self).dims(),
            final(self).queue() == old(self).queue(),
            final(self).pot_corners() == old(self).pot_corners(),
        decreases tier, growth,
    {
        let ghost m0 = self.model();
        let ghost seed = self.seed();
        let ghost cfg = self.cfg();
        if tier == 0 {
            self.lay_cluster(parent);
            proof {
                let ms = spec_gen_tree(
                    m0,
                    seed,
                    cfg,
                    pos,
                    growth as int,
                    tier as int,
                    xdir as int,
                    parent as int,
                );
                assert(self.model() == ms);
            }
        } else if growth == 0 {
            let g2 = half_growth(tier);
            proof {
                assert(two_pow(tier as nat) == 2 * two_pow((tier - 1) as nat));
                lemma_two_pow_mono(0, (tier - 1) as nat);
            }
            self.grow_tree(pos, g2, tier - 1, xdir, parent);
        } else if self.nodes.len() >= NODE_CAP {
        } else {
            proof {
                lemma_two_pow_mono(0, tier as nat);
            }
            let step = self.rng.next_in(1, 10);
            let gy = (step as i64) * 100;
            let next = Point { x: pos.x + xdir * SCALE, y: pos.y + gy };
            let id = self.push(&next, parent);
            let ghost m1 = self.model();
            if growth % (self.config.branch_cooldown as u64) == 0 {
                let w = self.rng.next_word();
                if w % (tier as u64) == 0 {
                    let sw = self.rng.next_word();
                    let sgn: i64 = if sw % 2 == 0 {
                        -1
                    } else {
                        1
                    };
                    let g2 = half_growth(tier);
                    proof {
                        assert(two_pow(tier as nat) == 2 * two_pow((tier - 1) as nat));
                    }
                    self.grow_tree(next, g2, tier - 1, xdir * sgn, id);
                }
            }
            let ghost m2 = self.model();
            self.grow_tree(next, growth - 1, tier, xdir, id);
            proof {
                let ms = spec_gen_tree(
                    m0,
                    seed,
                    cfg,
                    pos,
                    growth as int,
                    tier as int,
                    xdir as int,
                    parent as int,
                );
                assert(self.model() == ms);
            }
        }
    }

    /// Builds the whole graph in one pass over a fresh tree: the exact
    /// structure `spec_generate` names for the seed and the configuration,
    /// with the root at the generation origin and no leaf cluster on the
    /// root.
    pub fn generate(&mut self)
        requires
            old(self).wf(),
            old(self).model().nodes.len() == 0,
        ensures
            final(self).wf(),
            final(self).model() == spec_generated(
                old(self).model(),
                old(self).seed(),
                old(self).cfg(),
            ),
            old(self).cfg().strategy == Strategy::Curved ==> forall|k: int|
                0 <= k < final(self).model().leaves.len()
                    ==> (#[trigger] final(self).model().leaves[k]).len() == 0,
            final(self).model().nodes.len() >= 1,
            final(self).model().nodes[0] == (Point { x: 0, y: 0 }),
            final(self).model().leaves[0] == Seq::<Point>::empty(),
            final(self).seed() == old(self).seed(),
            final(self).cfg() == old(self).cfg(),
            final(self).dims() == old(self).dims(),
            final(self).queue() == old(self).queue(),
            final(self).pot_corners() == old(self).pot_corners(),
    {
        let ghost m0 = self.model();
        let strategy = self.config.strategy;
        match strategy {
            Strategy::Jitter => {
                let origin = Point { x: 0, y: 0 };
                self.push(&origin, 0);
                let tiers = self.config.tiers;
                if tiers >= 1 {
                    let w = self.rng.next_word();
                    let xdir: i64 = if w % 2 == 0 {
                        -1
                    } else {
                        1
                    };
                    proof {
                        lemma_two_pow_mono(0, tiers as nat);
                        lemma_two_pow_mono(tiers as nat, 16);
                        reveal_with_fuel(two_pow, 17);
                    }
                    self.grow_tree(origin, Y_GROWTH, tiers, xdir, 0);
                }
            },
            Strategy::Curved => {
                let placement = self.generate_curved();
                proof {
                    assert(self.model().leaves[0] =~= Seq::<Point>::empty());
                }
            },
        }
    }
}

// ---------------------------------------------------------------------------
// Normalisation: rescaling the generated graph into the display bounds

/// Least `x` among the first `n` nodes.
pub open spec fn min_x_upto(s: Seq<Point>, n: int) -> int
    decreases n,
{
    if n <= 1 {
        s[0].x as int
    } else if s[n - 1].x < min_x_upto(s, n - 1) {
        s[n - 1].x as int
    } else {
        min_x_upto(s, n - 1)
    }
}

/// Greatest `x` among the first `n` nodes.
pub open spec fn max_x_upto(s: Seq<Point>, n: int) -> int
    decreases n,
{
    if n <= 1 {
        s[0].x as int
    } else if s[n - 1].x > max_x_upto(s, n - 1) {
        s[n - 1].x as int
    } else {
        max_x_upto(s, n - 1)
    }
}

/// Least `y` among the first `n` nodes.
pub open spec fn min_y_upto(s: Seq<Point>, n: int) -> int
    decreases n,
{
    if n <= 1 {
        s[0].y as int
    } else if s[n - 1].y < min_y_upto(s, n - 1) {
        s[n - 1].y as int
    } else {
        min_y_upto(s, n - 1)
    }
}

/// Greatest `y` among the first `n` nodes.
pub open spec fn max_y_upto(s: Seq<Point>, n: int) -> int
    decreases n,
{
    if n <= 1 {
        s[0].y as int
    } else if s[n - 1].y > max_y_upto(s, n - 1) {
        s[n - 1].y as int
    } else {
        max_y_upto(s, n - 1)
    }
}

/// The height of the vertical band the tree is scaled into: the display
/// height less the seventh reserved for the container.
pub open spec fn band_height(b: Bounds) -> int {
    b.height as int * SCALE * 6 / 7
}

/// Where one node lands: its bounding-box position mapped linearly onto
/// `[0, width]` horizontally and onto the tree band vertically. A degenerate
/// axis (a single-point span) lands on the midpoint of its target range.
pub open spec fn spec_norm_point(
    p: Point,
    min_x: int,
    span_x: int,
    min_y: int,
    span_y: int,
    b: Bounds,
) -> Point {
    let wm = b.width as int * SCALE;
    let ht = band_height(b);
    let off = b.height as int * SCALE - ht;
    Point {
        x: (if span_x == 0 {
            wm / 2
        } else {
            (p.x - min_x) * wm / span_x
        }) as i64,
        y: (off + (if span_y == 0 {
            ht / 2
        } else {
            (p.y - min_y) * ht / span_y
        })) as i64,
    }
}

/// The whole node list after normalisation into bounds `b`.
pub open spec fn spec_normalized(s: Seq<Point>, b: Bounds) -> Seq<Point> {
    let n = s.len() as int;
    Seq::new(
        s.len(),
        |i: int|
            spec_norm_point(
                s[i],
                min_x_upto(s, n),
                max_x_upto(s, n) - min_x_upto(s, n),
                min_y_upto(s, n),
                max_y_upto(s, n) - min_y_upto(s, n),
                b,
            ),
    )
}

/// A linear map of a bounded nonnegative offset stays within the target:
/// `0 <= d <= span` gives `0 <= d * target / span <= target`.
proof fn lemma_scale_bounded(d: int, span: int, target: int)
    requires
        0 <= d <= span,
        span > 0,
        target >= 0,
    ensures
        0 <= d * target / span <= target,
{
    assert(0 <= d * target <= span * target) by (nonlinear_arith)
        requires 0 <= d <= span, target >= 0;
    assert(d * target / span >= 0) by (nonlinear_arith)
        requires d * target >= 0, span > 0;
    assert(span * target / span == target) by (nonlinear_arith)
        requires span > 0;
    assert(d * target / span <= span * target / span) by (nonlinear_arith)
        requires 0 <= d * target <= span * target, span > 0;
}

impl Point {
    /// Rescales one point in place: the per-node step of the tree's
    /// normalisation. The point's position within the bounding box spanned
    /// by `min_p` and `max_p` maps linearly onto `[0, width]` horizontally
    /// and onto the band above the container vertically; a degenerate axis
    /// lands on the midpoint of its target range.
    pub fn normalize(&mut self, min_p: &Point, max_p: &Point, bounds: Bounds)
        requires
            half_range(*old(self)),
            min_p.x <= old(self).x <= max_p.x,
            min_p.y <= old(self).y <= max_p.y,
            half_range(*min_p),
            half_range(*max_p),
            bounds.valid(),
        ensures
            *final(self) == spec_norm_point(
                *old(self),
                min_p.x as int,
                max_p.x - min_p.x,
                min_p.y as int,
                max_p.y - min_p.y,
                bounds,
            ),
            0 <= final(self).x <= bounds.width as int * SCALE,
            0 <= final(self).y <= bounds.height as int * SCALE,
    {
        let span_x = max_p.x - min_p.x;
        let span_y = max_p.y - min_p.y;
        let wm = bounds.width as i64 * SCALE;
        let hm = bounds.height as i64 * SCALE;
        let ht = hm * 6 / 7;
        let off = hm - ht;
        let nx = if span_x == 0 {
            wm / 2
        } else {
            proof {
                lemma_scale_bounded((self.x - min_p.x) as int, span_x as int, wm as int);
                assert((self.x - min_p.x) * wm <= 0x3fffffffffffffff) by (nonlinear_arith)
                    requires
                        0 <= self.x - min_p.x <= 2 * HALF_LIMIT,
                        0 <= wm <= 66000000,
                ;
            }
            scale_div(self.x - min_p.x, wm, span_x)
        };
        let ny_rel = if span_y == 0 {
            ht / 2
        } else {
            proof {
                lemma_scale_bounded((self.y - min_p.y) as int, span_y as int, ht as int);
                assert((self.y - min_p.y) * ht <= 0x3fffffffffffffff) by (nonlinear_arith)
                    requires
                        0 <= self.y - min_p.y <= 2 * HALF_LIMIT,
                        0 <= ht <= 66000000,
                ;
            }
            scale_div(self.y - min_p.y, ht, span_y)
        };
        self.x = nx;
        self.y = off + ny_rel;
    }
}

/// `a * b / c` for nonnegative `a` and `b`, positive `c`: the scaling step
/// of the linear map, exact in the mathematical integers.
fn scale_div(a: i64, b: i64, c: i64) -> (r: i64)
    requires
        0 <= a,
        0 <= b,
        0 < c,
        a * b <= 0x3fffffffffffffff,
    ensures
        r == a * b / (c as int),
{
    proof {
        assert(a * b >= 0) by (nonlinear_arith)
            requires a >= 0, b >= 0;
        assert(a as u64 * b as u64 == a * b) by (nonlinear_arith)
            requires 0 <= a, 0 <= b, a * b <= 0x3fffffffffffffff;
    }
    let prod = a as u64 * b as u64;
    let q = prod / c as u64;
    proof {
        assert(prod as int / (c as u64) as int == (a * b) / (c as int)) by (nonlinear_arith)
            requires prod == a * b, c > 0, prod >= 0;
        assert((a * b) / (c as int) <= a * b) by (nonlinear_arith)
            requires a * b >= 0, c > 0;
    }
    q as i64
}

impl BonsaiTree {
    /// Rescales every node in place onto the display bounds: the horizontal
    /// bounding-box span maps exactly onto `[0, width]` and the vertical
    /// span onto the band above the container, so every node lands within
    /// `[0, width] x [0, height]` (milli-scale). A single-node tree lands on
    /// the midpoint of the target ranges, with no division by the empty
    /// span.
    pub fn normalize(&mut self)
        requires
            old(self).wf(),
            old(self).model().nodes.len() >= 1,
        ensures
            final(self).wf(),
            final(self).model().nodes == spec_normalized(
                old(self).model().nodes,
                old(self).dims(),
            ),
            final(self).model().children == old(self).model().children,
            final(self).model().leaves == old(self).model().leaves,
            final(self).model().taken == old(self).model().taken,
            forall|i: int|
                0 <= i < final(self).model().nodes.len() ==> {
                    let q = #[trigger] final(self).model().nodes[i];
                    &&& 0 <= q.x <= final(self).dims().width as int * SCALE
                    &&& 0 <= q.y <= final(self).dims().height as int * SCALE
                },
            final(self).seed() == old(self).seed(),
            final(self).cfg() == old(self).cfg(),
            final(self).dims() == old(self).dims(),
            final(self).queue() == old(self).queue(),
            final(self).pot_corners() == old(self).pot_corners(),
    {
        let ghost s = self.model().nodes;
        let n = self.nodes.len();
        let mut min_x = self.nodes[0].x;
        let mut max_x = self.nodes[0].x;
        let mut min_y = self.nodes[0].y;
        let mut max_y = self.nodes[0].y;
        let mut i: usize = 1;
        while i < n
            invariant
                1 <= i <= n,
                n == s.len(),
                s == self.model().nodes,
                self == old(self),
                forall|k: int| 0 <= k < n ==> half_range(#[trigger] s[k]),
                min_x == min_x_upto(s, i as int),
                max_x == max_x_upto(s, i as int),
                min_y == min_y_upto(s, i as int),
                max_y == max_y_upto(s, i as int),
                forall|k: int| 0 <= k < i ==> min_x <= (#[trigger] s[k]).x <= max_x,
                forall|k: int| 0 <= k < i ==> min_y <= (#[trigger] s[k]).y <= max_y,
                -HALF_LIMIT <= min_x <= max_x <= HALF_LIMIT,
                -HALF_LIMIT <= min_y <= max_y <= HALF_LIMIT,
            decreases n - i,
        {
            let p = self.nodes[i];
            if p.x < min_x {
                min_x = p.x;
            }
            if p.x > max_x {
                max_x = p.x;
            }
            if p.y < min_y {
                min_y = p.y;
            }
            if p.y > max_y {
                max_y = p.y;
            }
            i = i + 1;
        }
        let span_x = max_x - min_x;
        let span_y = max_y - min_y;
        let wm = self.bounds.width as i64 * SCALE;
        let hm = self.bounds.height as i64 * SCALE;
        let ht = hm * 6 / 7;
        let off = hm - ht;
        let mut out: Vec<Point> = Vec::new();
        let mut j: usize = 0;
        while j < n
            invariant
                j <= n,
                n == s.len(),
                s == self.model().nodes,
                self == old(self),
                forall|k: int| 0 <= k < n ==> half_range(#[trigger] s[k]),
                min_x == min_x_upto(s, n as int),
                max_x == max_x_upto(s, n as int),
                min_y == min_y_upto(s, n as int),
                max_y == max_y_upto(s, n as int),
                span_x == max_x - min_x,
                span_y == max_y - min_y,
                forall|k: int| 0 <= k < n ==> min_x <= (#[trigger] s[k]).x <= max_x,
                forall|k: int| 0 <= k < n ==> min_y <= (#[trigger] s[k]).y <= max_y,
                -HALF_LIMIT <= min_x <= max_x <= HALF_LIMIT,
                -HALF_LIMIT <= min_y <= max_y <= HALF_LIMIT,
                wm == self.dims().width as int * SCALE,
                hm == self.dims().height as int * SCALE,
                ht == band_height(self.dims()),
                off == hm - ht,
                1000 <= wm <= 66000000,
                0 <= ht < hm <= 66000000,
                out@.len() == j,
                forall|k: int|
                    0 <= k < j ==> #[trigger] out@[k] == spec_norm_point(
                        s[k],
                        min_x as int,
                        span_x as int,
                        min_y as int,
                        span_y as int,
                        self.dims(),
                    ),
                forall|k: int|
                    0 <= k < j ==> 0 <= (#[trigger] out@[k]).x <= wm && 0 <= out@[k].y <= hm,
            decreases n - j,
        {
            let mut p = self.nodes[j];
            let min_p = Point { x: min_x, y: min_y };
            let max_p = Point { x: max_x, y: max_y };
            p.normalize(&min_p, &max_p, self.bounds);
            out.push(p);
            j = j + 1;
        }
        self.nodes = out;
        proof {
            assert(self.model().nodes =~= spec_normalized(s, self.dims()));
            assert(wf_model(self.model()));
        }
    }
}

// ---------------------------------------------------------------------------
// Animation: replaying construction as a stream of newly revealed points

/// How many chord samples one edge reveals per tick; each sample advances
/// the interpolation parameter by one milli-step, so an edge completes
/// after `SCALE / ANIM_SWEEP` ticks.
pub const ANIM_SWEEP: i64 = 100;

/// How many of a cluster's offsets one tick reveals.
pub const LEAF_BATCH: usize = 10;

/// One newly revealed point, tagged for the renderer.
#[derive(Clone, Copy, Debug, PartialEq, Eq, Structural)]
pub enum PointType {
    /// A sample of a trunk or branch edge.
    Tree(Point),
    /// A point of a leaf cluster.
    Leaf(Point),
    /// A point of the container outline.
    Pot(Point),
}

/// The absolute position of offset `j` of the cluster of `node`.
pub open spec fn leaf_abs(m: TreeModel, node: int, j: int) -> Point {
    Point {
        x: (m.nodes[node].x + m.leaves[node][j].x) as i64,
        y: (m.nodes[node].y + m.leaves[node][j].y) as i64,
    }
}

/// The chord samples an edge still owes from parameter `from` on: one
/// point per milli-step up to, but not including, the full parameter.
pub open spec fn edge_samples(m: TreeModel, parent: int, child: int, from: int) -> Seq<PointType> {
    if 0 <= from <= SCALE {
        Seq::new(
            (SCALE - from) as nat,
            |k: int| PointType::Tree(lerp(m.nodes[parent], m.nodes[child], from + k)),
        )
    } else {
        Seq::empty()
    }
}

/// The reveals a leaf cluster still owes from offset index `from` on.
pub open spec fn leaf_samples(m: TreeModel, node: int, from: int) -> Seq<PointType> {
    if 0 <= from <= m.leaves[node].len() {
        Seq::new(
            (m.leaves[node].len() - from) as nat,
            |k: int| PointType::Leaf(leaf_abs(m, node, from + k)),
        )
    } else {
        Seq::empty()
    }
}

/// Everything one in-flight edge still owes: its remaining chord samples
/// and, below them, the whole subtree hanging from its child.
pub open spec fn pending_edge(m: TreeModel, parent: int, child: int, t: int) -> Multiset<
    PointType,
>
    decreases m.nodes.len() - child, 2int, 0int
        when wf_model(m) && 0 <= child < m.nodes.len()
{
    edge_samples(m, parent, child, t).to_multiset().add(pending_subtree(m, child))
}

/// Everything below node `c`: its own leaf cluster and, for each child,
/// the child's edge and subtree.
pub open spec fn pending_subtree(m: TreeModel, c: int) -> Multiset<PointType>
    decreases m.nodes.len() - c, 1int, 0int
        when wf_model(m) && 0 <= c < m.nodes.len()
{
    leaf_samples(m, c, 0).to_multiset().add(pending_kids(m, c, 0))
}

/// The pending work of children `j..` of node `c`.
pub open spec fn pending_kids(m: TreeModel, c: int, j: int) -> Multiset<PointType>
    decreases m.nodes.len() - c, 0int, m.children[c].len() - j
        when wf_model(m) && 0 <= c < m.nodes.len() && 0 <= j
{
    if j >= m.children[c].len() {
        Multiset::empty()
    } else {
        pending_edge(m, c, m.children[c][j] as int, 0).add(pending_kids(m, c, j + 1))
    }
}

/// What one queue item still owes.
pub open spec fn pending_item(m: TreeModel, it: AnimationItem) -> Multiset<PointType> {
    match it {
        AnimationItem::Start => if m.nodes.len() > 0 {
            pending_kids(m, 0, 0)
        } else {
            Multiset::empty()
        },
        AnimationItem::Edge { parent, child, t } => pending_edge(
            m,
            parent as int,
            child as int,
            t as int,
        ),
        AnimationItem::Leaf { node, next } => leaf_samples(m, node as int, next as int).to_multiset(),
    }
}

/// What the first `n` items of a queue still owe, together.
pub open spec fn pending_upto(m: TreeModel, q: Seq<AnimationItem>, n: int) -> Multiset<PointType>
    decreases n,
{
    if n <= 0 {
        Multiset::empty()
    } else {
        pending_upto(m, q, n - 1).add(pending_item(m, q[n - 1]))
    }
}

/// Everything a queue still owes: the union, with multiplicity, of the
/// points its items will ever emit.
pub open spec fn pending_queue(m: TreeModel, q: Seq<AnimationItem>) -> Multiset<PointType> {
    pending_upto(m, q, q.len() as int)
}

/// One `Edge` item at sweep start for every child of `node`, in child
/// order: what starting the animation at the root, or completing the edge
/// into `node`, enqueues.
pub open spec fn child_edge_items(m: TreeModel, node: int) -> Seq<AnimationItem> {
    Seq::new(
        m.children[node].len(),
        |j: int| AnimationItem::Edge { parent: node as usize, child: m.children[node][j], t: 0 },
    )
}

/// What one queue item does in one tick. `Start` emits nothing and enqueues
/// the root's edges. An edge emits its next `ANIM_SWEEP` chord samples in
/// parameter order; when the sweep reaches the full parameter the edge is
/// complete and enqueues its child's edges, then the child's leaf reveal if
/// it owns a cluster; otherwise it re-enqueues itself advanced by the
/// sweep. A leaf reveal emits the next `LEAF_BATCH` offsets, translated by
/// the node, and re-enqueues the rest if any remain.
pub open spec fn spec_tick_item(m: TreeModel, it: AnimationItem) -> (Seq<PointType>, Seq<
    AnimationItem,
>) {
    match it {
        AnimationItem::Start => (
            Seq::empty(),
            if m.nodes.len() > 0 {
                child_edge_items(m, 0)
            } else {
                Seq::empty()
            },
        ),
        AnimationItem::Edge { parent, child, t } => {
            let swept = Seq::new(
                ANIM_SWEEP as nat,
                |k: int|
                    PointType::Tree(lerp(m.nodes[parent as int], m.nodes[child as int], t + k)),
            );
            if t + ANIM_SWEEP == SCALE {
                let kids = child_edge_items(m, child as int);
                (
                    swept,
                    if m.leaves[child as int].len() > 0 {
                        kids.push(AnimationItem::Leaf { node: child, next: 0 })
                    } else {
                        kids
                    },
                )
            } else {
                (
                    swept,
                    seq![AnimationItem::Edge { parent, child, t: (t + ANIM_SWEEP) as i64 }],
                )
            }
        },
        AnimationItem::Leaf { node, next } => {
            let len = m.leaves[node as int].len() as int;
            let end = if next + LEAF_BATCH < len {
                next + LEAF_BATCH
            } else {
                len
            };
            (
                Seq::new(
                    (end - next) as nat,
                    |k: int| PointType::Leaf(leaf_abs(m, node as int, next + k)),
                ),
                if end < len {
                    seq![AnimationItem::Leaf { node, next: end as usize }]
                } else {
                    Seq::empty()
                },
            )
        },
    }
}

/// The emissions and follow-up work of the first `n` queue items, in queue
/// order.
pub open spec fn spec_tick_upto(m: TreeModel, q: Seq<AnimationItem>, n: int) -> (Seq<PointType>, Seq<
    AnimationItem,
>)
    decreases n,
{
    if n <= 0 {
        (Seq::empty(), Seq::empty())
    } else {
        let prev = spec_tick_upto(m, q, n - 1);
        let step = spec_tick_item(m, q[n - 1]);
        (prev.0 + step.0, prev.1 + step.1)
    }
}

/// The exact effect of one animation tick on a graph and its queue: the
/// batch it emits and the queue it leaves for the next tick.
pub open spec fn spec_tick(m: TreeModel, q: Seq<AnimationItem>) -> (Seq<PointType>, Seq<
    AnimationItem,
>) {
    spec_tick_upto(m, q, q.len() as int)
}

/// A queue item that still has work of its own: an edge always does, a leaf
/// reveal only while offsets remain, and the start marker never does (it
/// only seeds the queue).
pub open spec fn settled_item(m: TreeModel, it: AnimationItem) -> bool {
    match it {
        AnimationItem::Start => false,
        AnimationItem::Edge { parent, child, t } => true,
        AnimationItem::Leaf { node, next } => (next as int) < m.leaves[node as int].len(),
    }
}

/// Every queued item still has work of its own.
pub open spec fn settled_queue(m: TreeModel, q: Seq<AnimationItem>) -> bool {
    forall|k: int| 0 <= k < q.len() ==> settled_item(m, #[trigger] q[k])
}

/// A tick never enqueues the start marker or an exhausted leaf reveal.
proof fn lemma_tick_upto_settled(m: TreeModel, q: Seq<AnimationItem>, n: int)
    requires
        n <= q.len(),
    ensures
        settled_queue(m, spec_tick_upto(m, q, n).1),
    decreases n,
{
    if n > 0 {
        lemma_tick_upto_settled(m, q, n - 1);
        let prev = spec_tick_upto(m, q, n - 1).1;
        let stepped = spec_tick_item(m, q[n - 1]).1;
        assert forall|k: int| 0 <= k < stepped.len() implies settled_item(
            m,
            #[trigger] stepped[k],
        ) by {
            match q[n - 1] {
                AnimationItem::Start => {},
                AnimationItem::Edge { parent, child, t } => {},
                AnimationItem::Leaf { node, next } => {},
            }
        }
        let whole = spec_tick_upto(m, q, n).1;
        assert forall|k: int| 0 <= k < whole.len() implies settled_item(
            m,
            #[trigger] whole[k],
        ) by {
            if k < prev.len() {
                assert(whole[k] == prev[k]);
            } else {
                assert(whole[k] == stepped[k - prev.len()]);
            }
        }
    }
}

/// Liveness of the replay, stated over the tick's exact effect: after any
/// tick the queue holds only items with work left, and a tick of a
/// non-empty such queue emits at least one point. With the conservation
/// clause of `animation_step`, each such tick strictly shrinks the queue's
/// debt, so the animation drains within as many ticks as the debt counts
/// points.
pub proof fn lemma_tick_progress(m: TreeModel, q: Seq<AnimationItem>)
    ensures
        settled_queue(m, spec_tick(m, q).1),
        settled_queue(m, q) && q.len() > 0 ==> spec_tick(m, q).0.len() > 0,
{
    lemma_tick_upto_settled(m, q, q.len() as int);
    if settled_queue(m, q) && q.len() > 0 {
        let n = q.len() as int;
        let prev = spec_tick_upto(m, q, n - 1);
        let stepped = spec_tick_item(m, q[n - 1]);
        assert(settled_item(m, q[n - 1]));
        match q[n - 1] {
            AnimationItem::Start => {
                assert(false);
            },
            AnimationItem::Edge { parent, child, t } => {
                assert(stepped.0.len() == ANIM_SWEEP);
            },
            AnimationItem::Leaf { node, next } => {
                assert(stepped.0.len() >= 1);
            },
        }
        assert(spec_tick(m, q).0.len() == prev.0.len() + stepped.0.len());
    }
}

/// A non-empty queue of items with work left owes at least one point: the
/// animation's debt reaches zero only once the queue is empty.
pub proof fn lemma_settled_queue_owes(m: TreeModel, q: Seq<AnimationItem>)
    requires
        wf_model(m),
        wf_queue(m, q),
        settled_queue(m, q),
        q.len() > 0,
    ensures
        pending_queue(m, q).len() > 0,
{
    broadcast use vstd::multiset::group_multiset_axioms;
    broadcast use vstd::seq_lib::group_to_multiset_ensures;

    let n = q.len() as int;
    let last = q[n - 1];
    assert(wf_item(m, last));
    assert(settled_item(m, last));
    assert(pending_queue(m, q) == pending_upto(m, q, n - 1).add(pending_item(m, last)));
    match last {
        AnimationItem::Start => {
            assert(false);
        },
        AnimationItem::Edge { parent, child, t } => {
            let samples = edge_samples(m, parent as int, child as int, t as int);
            assert(samples.len() == SCALE - t);
            assert(samples.to_multiset().len() == samples.len());
            assert(pending_item(m, last).len() >= SCALE - t);
        },
        AnimationItem::Leaf { node, next } => {
            let samples = leaf_samples(m, node as int, next as int);
            assert(samples.len() == m.leaves[node as int].len() - next);
            assert(samples.to_multiset().len() == samples.len());
        },
    }
}

/// An empty sequence's multiset is empty.
proof fn lemma_to_multiset_empty(s: Seq<PointType>)
    requires
        s.len() == 0,
    ensures
        s.to_multiset() =~= Multiset::<PointType>::empty(),
{
    broadcast use vstd::seq_lib::group_to_multiset_ensures;
    broadcast use vstd::multiset::group_multiset_axioms;

    assert forall|x: PointType| s.to_multiset().count(x) == 0 by {
        if s.to_multiset().count(x) > 0 {
            assert(s.contains(x));
        }
    }
}

/// The first `n` items of two queues that agree there owe the same.
proof fn lemma_pending_upto_agree(
    m: TreeModel,
    q1: Seq<AnimationItem>,
    q2: Seq<AnimationItem>,
    n: int,
)
    requires
        n <= q1.len(),
        n <= q2.len(),
        forall|k: int| 0 <= k < n ==> q1[k] == q2[k],
    ensures
        pending_upto(m, q1, n) == pending_upto(m, q2, n),
    decreases n,
{
    if n > 0 {
        lemma_pending_upto_agree(m, q1, q2, n - 1);
    }
}

/// Appending an item adds exactly that item's debt to the queue's.
proof fn lemma_pending_push(m: TreeModel, q: Seq<AnimationItem>, it: AnimationItem)
    ensures
        pending_queue(m, q.push(it)) == pending_queue(m, q).add(pending_item(m, it)),
{
    lemma_pending_upto_agree(m, q, q.push(it), q.len() as int);
}

/// Pushes one `Edge` item for every child of `node`: the queue takes on
/// exactly the pending work of those children.
fn push_child_edges(
    neighbours: &Vec<Vec<usize>>,
    next_q: &mut Vec<AnimationItem>,
    Ghost(m): Ghost<TreeModel>,
    node: usize,
)
    requires
        wf_model(m),
        m.children == neighbours@.map_values(|inner: Vec<usize>| inner@),
        (node as int) < m.nodes.len(),
        wf_queue(m, old(next_q)@),
    ensures
        wf_queue(m, final(next_q)@),
        pending_queue(m, final(next_q)@) == pending_queue(m, old(next_q)@).add(
            pending_kids(m, node as int, 0),
        ),
        final(next_q)@ == old(next_q)@ + child_edge_items(m, node as int),
{
    let list = &neighbours[node];
    let n = list.len();
    let mut j: usize = 0;
    while j < n
        invariant
            j <= n,
            wf_model(m),
            m.children == neighbours@.map_values(|inner: Vec<usize>| inner@),
            (node as int) < m.nodes.len(),
            list == &neighbours[node as int],
            n == list@.len(),
            wf_queue(m, next_q@),
            pending_queue(m, next_q@).add(pending_kids(m, node as int, j as int))
                == pending_queue(m, old(next_q)@).add(pending_kids(m, node as int, 0)),
            next_q@ == old(next_q)@ + child_edge_items(m, node as int).take(j as int),
        decreases n - j,
    {
        let child = list[j];
        let it = AnimationItem::Edge { parent: node, child, t: 0 };
        proof {
            assert(m.children[node as int][j as int] == child);
            assert(wf_item(m, it));
            lemma_pending_push(m, next_q@, it);
            assert(pending_kids(m, node as int, j as int) == pending_edge(
                m,
                node as int,
                child as int,
                0,
            ).add(pending_kids(m, node as int, j as int + 1)));
            let items = child_edge_items(m, node as int);
            assert(items[j as int] == it);
            assert(items.take(j as int + 1) =~= items.take(j as int).push(it));
            assert((old(next_q)@ + items.take(j as int)).push(it) =~= old(next_q)@ + items.take(
                j as int + 1,
            ));
        }
        next_q.push(it);
        j = j + 1;
    }
    proof {
        assert(child_edge_items(m, node as int).take(n as int) =~= child_edge_items(
            m,
            node as int,
        ));
    }
}

/// Sweeps one edge forward by one tick: emits `ANIM_SWEEP` chord samples
/// and either re-enqueues the edge or, on completion, enqueues its child's
/// children and leaf cluster. The emitted points and the queue's new debt
/// together equal the edge's old debt.
fn step_edge(
    nodes: &Vec<Point>,
    neighbours: &Vec<Vec<usize>>,
    leaves: &Vec<Vec<Point>>,
    result: &mut Vec<PointType>,
    next_q: &mut Vec<AnimationItem>,
    Ghost(m): Ghost<TreeModel>,
    parent: usize,
    child: usize,
    t: i64,
)
    requires
        wf_model(m),
        m.nodes == nodes@,
        m.children == neighbours@.map_values(|inner: Vec<usize>| inner@),
        m.leaves == leaves@.map_values(|inner: Vec<Point>| inner@),
        parent < child,
        (child as int) < m.nodes.len(),
        0 <= t <= 900,
        t % 100 == 0,
        wf_queue(m, old(next_q)@),
    ensures
        wf_queue(m, final(next_q)@),
        final(result)@.to_multiset().add(pending_queue(m, final(next_q)@)) == old(
            result,
        )@.to_multiset().add(pending_queue(m, old(next_q)@)).add(
            pending_edge(m, parent as int, child as int, t as int),
        ),
        final(result)@ == old(result)@ + spec_tick_item(
            m,
            (AnimationItem::Edge { parent, child, t }),
        ).0,
        final(next_q)@ == old(next_q)@ + spec_tick_item(
            m,
            (AnimationItem::Edge { parent, child, t }),
        ).1,
{
    let ghost swept = Seq::new(
        ANIM_SWEEP as nat,
        |k: int| PointType::Tree(lerp(m.nodes[parent as int], m.nodes[child as int], t + k)),
    );
    let a = nodes[parent];
    let b = nodes[child];
    let mut k: i64 = 0;
    while k < ANIM_SWEEP
        invariant
            0 <= k <= ANIM_SWEEP,
            0 <= t <= 900,
            a == m.nodes[parent as int],
            b == m.nodes[child as int],
            (parent as int) < m.nodes.len(),
            (child as int) < m.nodes.len(),
            wf_model(m),
            swept == Seq::new(
                ANIM_SWEEP as nat,
                |x: int| PointType::Tree(lerp(m.nodes[parent as int], m.nodes[child as int], t + x)),
            ),
            result@ == old(result)@ + swept.take(k as int),
        decreases ANIM_SWEEP - k,
    {
        let p = crate::geom::linear_interpolate(&a, &b, t + k);
        proof {
            assert(swept.take(k as int + 1) =~= swept.take(k as int).push(
                PointType::Tree(lerp(a, b, t + k)),
            ));
            assert((old(result)@ + swept.take(k as int)).push(PointType::Tree(lerp(a, b, t + k)))
                =~= old(result)@ + swept.take(k as int + 1));
        }
        result.push(PointType::Tree(p));
        k = k + 1;
    }
    proof {
        assert(swept.take(ANIM_SWEEP as int) =~= swept);
    }
    let next_t = t + ANIM_SWEEP;
    if next_t == SCALE {
        push_child_edges(neighbours, next_q, Ghost(m), child);
        let has_leaves = leaves[child].len() > 0;
        proof {
            assert(m.leaves[child as int] == leaves@[child as int]@);
        }
        if has_leaves {
            let it = AnimationItem::Leaf { node: child, next: 0 };
            proof {
                assert(wf_item(m, it));
                lemma_pending_push(m, next_q@, it);
            }
            next_q.push(it);
        }
        proof {
            // A completed edge owes exactly this tick's sweep plus its
            // child's subtree, which the enqueued items now carry.
            assert(edge_samples(m, parent as int, child as int, t as int) =~= swept);
            lemma_multiset_commutative(old(result)@, swept);
            if !has_leaves {
                assert(leaf_samples(m, child as int, 0).len() == 0);
                lemma_to_multiset_empty(leaf_samples(m, child as int, 0));
            }
            broadcast use vstd::multiset::group_multiset_axioms;

            assert(final(result)@.to_multiset().add(pending_queue(m, final(next_q)@)) =~= old(
                result,
            )@.to_multiset().add(pending_queue(m, old(next_q)@)).add(
                pending_edge(m, parent as int, child as int, t as int),
            ));
            let step = spec_tick_item(m, AnimationItem::Edge { parent, child, t });
            assert(step.0 =~= swept);
            let kids = child_edge_items(m, child as int);
            if has_leaves {
                assert((old(next_q)@ + kids).push(AnimationItem::Leaf { node: child, next: 0 })
                    =~= old(next_q)@ + kids.push(AnimationItem::Leaf { node: child, next: 0 }));
            }
            assert(next_q@ =~= old(next_q)@ + step.1);
        }
    } else {
        let it = AnimationItem::Edge { parent, child, t: next_t };
        proof {
            assert(wf_item(m, it));
            lemma_pending_push(m, next_q@, it);
            assert(edge_samples(m, parent as int, child as int, t as int) =~= swept + edge_samples(
                m,
                parent as int,
                child as int,
                next_t as int,
            ));
            lemma_multiset_commutative(swept, edge_samples(m, parent as int, child as int, next_t as int));
            lemma_multiset_commutative(old(result)@, swept);
            broadcast use vstd::multiset::group_multiset_axioms;

            assert(final(result)@.to_multiset().add(
                pending_queue(m, old(next_q)@).add(pending_item(m, it)),
            ) =~= old(result)@.to_multiset().add(pending_queue(m, old(next_q)@)).add(
                pending_edge(m, parent as int, child as int, t as int),
            ));
            let step = spec_tick_item(m, AnimationItem::Edge { parent, child, t });
            assert(step.0 =~= swept);
            assert(step.1 =~= seq![it]);
            assert(old(next_q)@.push(it) =~= old(next_q)@ + seq![it]);
        }
        next_q.push(it);
    }
}

/// Reveals the next batch of a leaf cluster: emits up to `LEAF_BATCH`
/// offsets translated by the node's position, re-enqueueing the rest.
fn step_leaf(
    nodes: &Vec<Point>,
    leaves: &Vec<Vec<Point>>,
    result: &mut Vec<PointType>,
    next_q: &mut Vec<AnimationItem>,
    Ghost(m): Ghost<TreeModel>,
    node: usize,
    next: usize,
)
    requires
        wf_model(m),
        m.nodes == nodes@,
        m.leaves == leaves@.map_values(|inner: Vec<Point>| inner@),
        (node as int) < m.nodes.len(),
        next <= m.leaves[node as int].len(),
        wf_queue(m, old(next_q)@),
    ensures
        wf_queue(m, final(next_q)@),
        final(result)@.to_multiset().add(pending_queue(m, final(next_q)@)) == old(
            result,
        )@.to_multiset().add(pending_queue(m, old(next_q)@)).add(
            leaf_samples(m, node as int, next as int).to_multiset(),
        ),
        final(result)@ == old(result)@ + spec_tick_item(
            m,
            (AnimationItem::Leaf { node, next }),
        ).0,
        final(next_q)@ == old(next_q)@ + spec_tick_item(
            m,
            (AnimationItem::Leaf { node, next }),
        ).1,
{
    let cluster = &leaves[node];
    let len = cluster.len();
    proof {
        assert(m.leaves[node as int] == leaves@[node as int]@);
    }
    let end = if len - next > LEAF_BATCH {
        next + LEAF_BATCH
    } else {
        len
    };
    let ghost batch = Seq::new(
        (end - next) as nat,
        |k: int| PointType::Leaf(leaf_abs(m, node as int, next + k)),
    );
    let base = nodes[node];
    let mut j: usize = next;
    while j < end
        invariant
            next <= j <= end <= len,
            len == m.leaves[node as int].len(),
            (node as int) < m.nodes.len(),
            wf_model(m),
            m.leaves == leaves@.map_values(|inner: Vec<Point>| inner@),
            cluster == &leaves[node as int],
            cluster@ == m.leaves[node as int],
            base == m.nodes[node as int],
            batch == Seq::new(
                (end - next) as nat,
                |k: int| PointType::Leaf(leaf_abs(m, node as int, next + k)),
            ),
            result@ == old(result)@ + batch.take(j - next),
        decreases end - j,
    {
        let off = cluster[j];
        let p = base.add(off);
        proof {
            assert(p == leaf_abs(m, node as int, j as int));
            assert(batch.take(j - next + 1) =~= batch.take(j - next).push(
                PointType::Leaf(leaf_abs(m, node as int, j as int)),
            ));
            assert((old(result)@ + batch.take(j - next)).push(
                PointType::Leaf(leaf_abs(m, node as int, j as int)),
            ) =~= old(result)@ + batch.take(j - next + 1));
        }
        result.push(PointType::Leaf(p));
        j = j + 1;
    }
    proof {
        assert(batch.take((end - next) as int) =~= batch);
    }
    if end < len {
        let it = AnimationItem::Leaf { node, next: end };
        proof {
            assert(wf_item(m, it));
            lemma_pending_push(m, next_q@, it);
            assert(leaf_samples(m, node as int, next as int) =~= batch + leaf_samples(
                m,
                node as int,
                end as int,
            ));
            lemma_multiset_commutative(batch, leaf_samples(m, node as int, end as int));
            lemma_multiset_commutative(old(result)@, batch);
            broadcast use vstd::multiset::group_multiset_axioms;

            assert(final(result)@.to_multiset().add(
                pending_queue(m, old(next_q)@).add(pending_item(m, it)),
            ) =~= old(result)@.to_multiset().add(pending_queue(m, old(next_q)@)).add(
                leaf_samples(m, node as int, next as int).to_multiset(),
            ));
            let step = spec_tick_item(m, AnimationItem::Leaf { node, next });
            assert(step.0 =~= batch);
            assert(step.1 =~= seq![it]);
            assert(old(next_q)@.push(it) =~= old(next_q)@ + seq![it]);
        }
        next_q.push(it);
    } else {
        proof {
            assert(leaf_samples(m, node as int, next as int) =~= batch);
            lemma_multiset_commutative(old(result)@, batch);
            broadcast use vstd::multiset::group_multiset_axioms;

            assert(final(result)@.to_multiset().add(pending_queue(m, final(next_q)@)) =~= old(
                result,
            )@.to_multiset().add(pending_queue(m, old(next_q)@)).add(
                leaf_samples(m, node as int, next as int).to_multiset(),
            ));
            let step = spec_tick_item(m, AnimationItem::Leaf { node, next });
            assert(step.0 =~= batch);
            assert(step.1 =~= Seq::<AnimationItem>::empty());
            assert(next_q@ =~= old(next_q)@ + step.1);
        }
    }
}

impl BonsaiTree {
    /// Advances the growth animation by one tick and returns the points
    /// revealed by it: exactly the batch `spec_tick` names for the queue,
    /// item by item, leaving exactly the follow-up queue it names — so a
    /// queued edge contributes its next sweep of chord samples in parameter
    /// order, enqueues its child's edges and leaf reveal on completion and
    /// itself otherwise, and a leaf reveal emits its next batch of offsets.
    /// The batch emitted and the debt of the new queue together equal the
    /// debt of the old queue, with multiplicity: each tick is a piece of a
    /// temporal partition of the whole animation, and the graph itself
    /// never changes. Once the queue is empty every later call returns an
    /// empty batch and leaves the tree untouched.
    pub fn animation_step(&mut self) -> (result: Vec<PointType>)
        requires
            old(self).wf(),
        ensures
            final(self).wf(),
            final(self).model() == old(self).model(),
            result@ == spec_tick(old(self).model(), old(self).queue()).0,
            final(self).queue() == spec_tick(old(self).model(), old(self).queue()).1,
            result@.to_multiset().add(pending_queue(final(self).model(), final(self).queue()))
                == pending_queue(old(self).model(), old(self).queue()),
            old(self).queue().len() == 0 ==> *final(self) == *old(self) && result@ == Seq::<
                PointType,
            >::empty(),
            final(self).seed() == old(self).seed(),
            final(self).cfg() == old(self).cfg(),
            final(self).dims() == old(self).dims(),
            final(self).pot_corners() == old(self).pot_corners(),
    {
        if self.animation_queue.is_empty() {
            let result: Vec<PointType> = Vec::new();
            proof {
                broadcast use vstd::multiset::group_multiset_axioms;

                lemma_to_multiset_empty(result@);
                assert(result@ =~= spec_tick(self.model(), self.queue()).0);
                assert(self.queue() =~= spec_tick(self.model(), self.queue()).1);
            }
            return result;
        }
        let ghost m = self.model();
        let ghost q0 = self.queue();
        let mut result: Vec<PointType> = Vec::new();
        let mut next_q: Vec<AnimationItem> = Vec::new();
        let n = self.animation_queue.len();
        let mut i: usize = 0;
        proof {
            broadcast use vstd::multiset::group_multiset_axioms;

            lemma_to_multiset_empty(result@);
        }
        while i < n
            invariant
                i <= n,
                m == self.model(),
                q0 == self.queue(),
                self == old(self),
                n == q0.len(),
                wf_model(m),
                wf_queue(m, q0),
                wf_queue(m, next_q@),
                result@.to_multiset().add(pending_queue(m, next_q@)) == pending_upto(m, q0, i as int),
                result@ == spec_tick_upto(m, q0, i as int).0,
                next_q@ == spec_tick_upto(m, q0, i as int).1,
            decreases n - i,
        {
            let it = self.animation_queue[i];
            proof {
                assert(wf_item(m, q0[i as int]));
                broadcast use vstd::multiset::group_multiset_axioms;

            }
            match it {
                AnimationItem::Start => {
                    if self.nodes.len() > 0 {
                        push_child_edges(&self.neighbours, &mut next_q, Ghost(m), 0);
                    }
                },
                AnimationItem::Edge { parent, child, t } => {
                    step_edge(
                        &self.nodes,
                        &self.neighbours,
                        &self.leaves,
                        &mut result,
                        &mut next_q,
                        Ghost(m),
                        parent,
                        child,
                        t,
                    );
                },
                AnimationItem::Leaf { node, next } => {
                    step_leaf(
                        &self.nodes,
                        &self.leaves,
                        &mut result,
                        &mut next_q,
                        Ghost(m),
                        node,
                        next,
                    );
                },
            }
            proof {
                let prev = spec_tick_upto(m, q0, i as int);
                let stepped = spec_tick_item(m, q0[i as int]);
                assert(result@ =~= prev.0 + stepped.0);
                assert(next_q@ =~= prev.1 + stepped.1);
            }
            i = i + 1;
        }
        self.animation_queue = next_q;
        result
    }
}

// ---------------------------------------------------------------------------
// Static mode: sampling the whole finished graph at once

/// The full chord of one edge: one sample per milli-step of the parameter.
pub open spec fn chord(m: TreeModel, p: int, c: int) -> Seq<Point> {
    Seq::new(SCALE as nat, |k: int| lerp(m.nodes[p], m.nodes[c], k))
}

/// The chords of the first `j` edges of node `i`, in child order.
pub open spec fn node_chords_upto(m: TreeModel, i: int, j: int) -> Seq<Point>
    decreases j,
{
    if j <= 0 {
        Seq::empty()
    } else {
        node_chords_upto(m, i, j - 1) + chord(m, i, m.children[i][j - 1] as int)
    }
}

/// The chords of every edge of the first `i` nodes, in node order.
pub open spec fn tree_chords_upto(m: TreeModel, i: int) -> Seq<Point>
    decreases i,
{
    if i <= 0 {
        Seq::empty()
    } else {
        tree_chords_upto(m, i - 1) + node_chords_upto(m, i - 1, m.children[i - 1].len() as int)
    }
}

/// The whole static branch render: every edge sampled densely, edges in
/// node order, samples in parameter order.
pub open spec fn spec_get_tree(m: TreeModel) -> Seq<Point> {
    tree_chords_upto(m, m.nodes.len() as int)
}

/// The absolute leaf points of the first `i` nodes, in node then offset
/// order.
pub open spec fn leaves_abs_upto(m: TreeModel, i: int) -> Seq<Point>
    decreases i,
{
    if i <= 0 {
        Seq::empty()
    } else {
        leaves_abs_upto(m, i - 1) + Seq::new(
            m.leaves[i - 1].len(),
            |j: int| leaf_abs(m, i - 1, j),
        )
    }
}

/// The whole static leaf render.
pub open spec fn spec_get_leaves(m: TreeModel) -> Seq<Point> {
    leaves_abs_upto(m, m.nodes.len() as int)
}

/// The outline edges of the container, corner `k` to the next, sampled
/// densely; the first `k` edges of the cycle.
pub open spec fn pot_outline_upto(pot: Seq<Point>, k: int) -> Seq<Point>
    decreases k,
{
    if k <= 0 {
        Seq::empty()
    } else {
        pot_outline_upto(pot, k - 1) + Seq::new(
            SCALE as nat,
            |t: int| lerp(pot[k - 1], pot[(k % 4) as int], t),
        )
    }
}

/// The eight decorative points beside the container's rim corners.
pub open spec fn pot_squares(pot: Seq<Point>) -> Seq<Point> {
    let p1 = pot[2];
    let p2 = pot[3];
    seq![
        Point { x: p1.x, y: (p1.y + SCALE) as i64 },
        Point { x: (p1.x - SCALE) as i64, y: (p1.y + SCALE) as i64 },
        Point { x: p1.x, y: (p1.y + 2 * SCALE) as i64 },
        Point { x: (p1.x - SCALE) as i64, y: (p1.y + 2 * SCALE) as i64 },
        Point { x: p2.x, y: (p2.y + SCALE) as i64 },
        Point { x: (p2.x + 1500) as i64, y: (p2.y + SCALE) as i64 },
        Point { x: p2.x, y: (p2.y + 2 * SCALE) as i64 },
        Point { x: (p2.x + 1500) as i64, y: (p2.y + 2 * SCALE) as i64 },
    ]
}

/// The whole static container render: the four outline edges sampled
/// densely, then the decorative rim points.
pub open spec fn spec_get_pot(b: Bounds) -> Seq<Point> {
    pot_outline_upto(spec_pot(b), 4) + pot_squares(spec_pot(b))
}

impl BonsaiTree {
    /// How many nodes the graph holds.
    pub fn node_count(&self) -> (n: usize)
        ensures
            n == self.model().nodes.len(),
    {
        self.nodes.len()
    }

    /// The coordinates of node `i`.
    pub fn node(&self, i: usize) -> (p: Point)
        requires
            (i as int) < self.model().nodes.len(),
        ensures
            p == self.model().nodes[i as int],
    {
        self.nodes[i]
    }

    /// The ids of the children of node `i`, in creation order.
    pub fn children_of(&self, i: usize) -> (r: Vec<usize>)
        requires
            self.wf(),
            (i as int) < self.model().nodes.len(),
        ensures
            r@ == self.model().children[i as int],
    {
        let mut r: Vec<usize> = Vec::new();
        let list = &self.neighbours[i];
        let n = list.len();
        let mut j: usize = 0;
        while j < n
            invariant
                j <= n,
                list == &self.neighbours[i as int],
                n == list@.len(),
                r@ == list@.take(j as int),
            decreases n - j,
        {
            proof {
                assert(list@.take(j as int + 1) =~= list@.take(j as int).push(list@[j as int]));
            }
            r.push(list[j]);
            j = j + 1;
        }
        proof {
            assert(list@.take(n as int) =~= list@);
            assert(self.model().children[i as int] == list@);
        }
        r
    }

    /// The leaf-cluster offsets of node `i`, in reveal order.
    pub fn leaves_of(&self, i: usize) -> (r: Vec<Point>)
        requires
            self.wf(),
            (i as int) < self.model().nodes.len(),
        ensures
            r@ == self.model().leaves[i as int],
    {
        let mut r: Vec<Point> = Vec::new();
        let list = &self.leaves[i];
        let n = list.len();
        let mut j: usize = 0;
        while j < n
            invariant
                j <= n,
                list == &self.leaves[i as int],
                n == list@.len(),
                r@ == list@.take(j as int),
            decreases n - j,
        {
            proof {
                assert(list@.take(j as int + 1) =~= list@.take(j as int).push(list@[j as int]));
            }
            r.push(list[j]);
            j = j + 1;
        }
        proof {
            assert(list@.take(n as int) =~= list@);
            assert(self.model().leaves[i as int] == list@);
        }
        r
    }

    /// The whole branch structure at once: every edge of the graph sampled
    /// densely, for the static (non-animated) rendering mode.
    pub fn get_tree(&self) -> (r: Vec<Point>)
        requires
            self.wf(),
        ensures
            r@ == spec_get_tree(self.model()),
    {
        let ghost m = self.model();
        let mut r: Vec<Point> = Vec::new();
        let n = self.nodes.len();
        let mut i: usize = 0;
        while i < n
            invariant
                i <= n,
                self.wf(),
                m == self.model(),
                n == m.nodes.len(),
                r@ == tree_chords_upto(m, i as int),
            decreases n - i,
        {
            let a = self.nodes[i];
            let list = &self.neighbours[i];
            let cn = list.len();
            let mut j: usize = 0;
            while j < cn
                invariant
                    j <= cn,
                    i < n,
                    self.wf(),
                    m == self.model(),
                    n == m.nodes.len(),
                    a == m.nodes[i as int],
                    list == &self.neighbours[i as int],
                    cn == list@.len(),
                    cn == m.children[i as int].len(),
                    forall|jj: int| 0 <= jj < cn ==> list@[jj] == m.children[i as int][jj],
                    r@ == tree_chords_upto(m, i as int) + node_chords_upto(m, i as int, j as int),
                decreases cn - j,
            {
                let c = list[j];
                let b = self.nodes[c];
                let ghost cseq = chord(m, i as int, c as int);
                let mut k: i64 = 0;
                while k < SCALE
                    invariant
                        0 <= k <= SCALE,
                        half_range(a),
                        half_range(b),
                        a == m.nodes[i as int],
                        b == m.nodes[c as int],
                        0 <= (i as int) < m.nodes.len(),
                        0 <= (c as int) < m.nodes.len(),
                        cseq == chord(m, i as int, c as int),
                        r@ == tree_chords_upto(m, i as int) + node_chords_upto(
                            m,
                            i as int,
                            j as int,
                        ) + cseq.take(k as int),
                    decreases SCALE - k,
                {
                    let p = crate::geom::linear_interpolate(&a, &b, k);
                    proof {
                        assert(cseq.take(k as int + 1) =~= cseq.take(k as int).push(
                            lerp(a, b, k as int),
                        ));
                    }
                    r.push(p);
                    k = k + 1;
                }
                proof {
                    assert(cseq.take(SCALE as int) =~= cseq);
                    assert(node_chords_upto(m, i as int, j as int + 1) == node_chords_upto(
                        m,
                        i as int,
                        j as int,
                    ) + chord(m, i as int, c as int));
                    assert(tree_chords_upto(m, i as int) + node_chords_upto(m, i as int, j as int)
                        + cseq =~= tree_chords_upto(m, i as int) + node_chords_upto(
                        m,
                        i as int,
                        j as int + 1,
                    ));
                }
                j = j + 1;
            }
            proof {
                assert(r@ =~= tree_chords_upto(m, i as int + 1));
            }
            i = i + 1;
        }
        r
    }

    /// Every leaf point of the graph at once, absolute, for the static
    /// rendering mode.
    pub fn get_leaves(&self) -> (r: Vec<Point>)
        requires
            self.wf(),
        ensures
            r@ == spec_get_leaves(self.model()),
    {
        let ghost m = self.model();
        let mut r: Vec<Point> = Vec::new();
        let n = self.nodes.len();
        let mut i: usize = 0;
        while i < n
            invariant
                i <= n,
                self.wf(),
                m == self.model(),
                n == m.nodes.len(),
                r@ == leaves_abs_upto(m, i as int),
            decreases n - i,
        {
            let base = self.nodes[i];
            let list = &self.leaves[i];
            let cn = list.len();
            let ghost row = Seq::new(m.leaves[i as int].len(), |j: int| leaf_abs(m, i as int, j));
            let mut j: usize = 0;
            while j < cn
                invariant
                    j <= cn,
                    i < n,
                    self.wf(),
                    m == self.model(),
                    n == m.nodes.len(),
                    base == m.nodes[i as int],
                    list == &self.leaves[i as int],
                    cn == list@.len(),
                    list@ == m.leaves[i as int],
                    row == Seq::new(m.leaves[i as int].len(), |jj: int| leaf_abs(m, i as int, jj)),
                    r@ == leaves_abs_upto(m, i as int) + row.take(j as int),
                decreases cn - j,
            {
                let off = list[j];
                let p = base.add(off);
                proof {
                    assert(p == leaf_abs(m, i as int, j as int));
                    assert(row.take(j as int + 1) =~= row.take(j as int).push(
                        leaf_abs(m, i as int, j as int),
                    ));
                }
                r.push(p);
                j = j + 1;
            }
            proof {
                assert(row.take(cn as int) =~= row);
                assert(r@ =~= leaves_abs_upto(m, i as int + 1));
            }
            i = i + 1;
        }
        r
    }

    /// The container outline and its decorative rim points, for any
    /// rendering mode.
    pub fn get_pot(&self) -> (r: Vec<Point>)
        requires
            self.wf(),
        ensures
            r@ == spec_get_pot(self.dims()),
    {
        let ghost potv = spec_pot(self.dims());
        let mut r: Vec<Point> = Vec::new();
        let mut e: usize = 0;
        proof {
            assert(self.pot@ == potv);
        }
        while e < 4
            invariant
                e <= 4,
                self.wf(),
                potv == spec_pot(self.dims()),
                self.pot@ == potv,
                r@ == pot_outline_upto(potv, e as int),
            decreases 4 - e,
        {
            let a = self.pot[e];
            let b = self.pot[if e == 3 {
                0
            } else {
                e + 1
            }];
            let ghost eseq = Seq::new(
                SCALE as nat,
                |t: int| lerp(potv[e as int], potv[((e + 1) % 4) as int], t),
            );
            proof {
                assert(in_range(a) && in_range(b));
                assert(b == potv[((e as int + 1) % 4) as int]);
            }
            let mut k: i64 = 0;
            while k < SCALE
                invariant
                    0 <= k <= SCALE,
                    e < 4,
                    in_range(a),
                    in_range(b),
                    a == potv[e as int],
                    b == potv[((e as int + 1) % 4) as int],
                    eseq == Seq::new(
                        SCALE as nat,
                        |t: int| lerp(potv[e as int], potv[((e as int + 1) % 4) as int], t),
                    ),
                    r@ == pot_outline_upto(potv, e as int) + eseq.take(k as int),
                decreases SCALE - k,
            {
                let p = crate::geom::linear_interpolate(&a, &b, k);
                proof {
                    assert(eseq.take(k as int + 1) =~= eseq.take(k as int).push(
                        lerp(a, b, k as int),
                    ));
                }
                r.push(p);
                k = k + 1;
            }
            proof {
                assert(eseq.take(SCALE as int) =~= eseq);
                assert(r@ =~= pot_outline_upto(potv, e as int + 1));
            }
            e = e + 1;
        }
        let p1 = self.pot[2];
        let p2 = self.pot[3];
        let mut squares: Vec<Point> = Vec::new();
        squares.push(Point { x: p1.x, y: p1.y + SCALE });
        squares.push(Point { x: p1.x - SCALE, y: p1.y + SCALE });
        squares.push(Point { x: p1.x, y: p1.y + 2 * SCALE });
        squares.push(Point { x: p1.x - SCALE, y: p1.y + 2 * SCALE });
        squares.push(Point { x: p2.x, y: p2.y + SCALE });
        squares.push(Point { x: p2.x + 1500, y: p2.y + SCALE });
        squares.push(Point { x: p2.x, y: p2.y + 2 * SCALE });
        squares.push(Point { x: p2.x + 1500, y: p2.y + 2 * SCALE });
        let mut sq = squares;
        proof {
            assert(sq@ =~= pot_squares(potv));
        }
        r.append(&mut sq);
        proof {
            assert(r@ =~= spec_get_pot(self.dims()));
        }
        r
    }
}

/// Some child list of `ch` holds `c` under parent `p`.
pub open spec fn child_of(ch: Seq<Seq<usize>>, p: int, c: int) -> bool {
    exists|j: int| #[trigger] is_entry(ch, p, j, c)
}

/// Pushing node `k` under its placed parent registers it there and keeps
/// every earlier placement registered.
proof fn lemma_children_preserved(m0: TreeModel, m1: TreeModel, ns: Seq<CurvedNode>, k: int)
    requires
        wf_model(m0),
        1 <= k < ns.len(),
        m0.nodes.len() == k,
        0 <= (ns[k].parent as int) < k,
        m1 == spec_push(m0, ns[k].pos, ns[k].parent as int),
        forall|i: int| 1 <= i < k ==> child_of(m0.children, (#[trigger] ns[i]).parent as int, i),
    ensures
        forall|i: int|
            1 <= i < k + 1 ==> child_of(m1.children, (#[trigger] ns[i]).parent as int, i),
{
    let parent = ns[k].parent as int;
    let jn = m0.children[parent].len() as int;
    assert(is_entry(m1.children, parent, jn, k));
    assert forall|i: int| 1 <= i < k + 1 implies child_of(
        m1.children,
        (#[trigger] ns[i]).parent as int,
        i,
    ) by {
        if i < k {
            let j = choose|j: int| #[trigger] is_entry(m0.children, ns[i].parent as int, j, i);
            assert(is_entry(m1.children, ns[i].parent as int, j, i));
        } else {
            assert(is_entry(m1.children, parent, jn, k));
        }
    }
}

impl BonsaiTree {
    /// Builds the graph with the curved rejection-sampling strategy and
    /// returns the placement it realised: node `k` of the graph sits at the
    /// `k`-th placed position, every non-root placed node is a child of the
    /// parent it was placed under, and the placement is well formed in the
    /// sense of `wf_curved` — in particular its accepted segments are
    /// pairwise non-intersecting. Curved growth lays no leaf clusters.
    #[verifier::rlimit(100)]
    pub fn generate_curved(&mut self) -> (g: CurvedGrowth)
        requires
            old(self).wf(),
            old(self).model().nodes.len() == 0,
        ensures
            final(self).wf(),
            wf_curved(g.nodes@, g.segs@, old(self).cfg()),
            final(self).model() == spec_generate_curved(
                old(self).model(),
                old(self).seed(),
                old(self).cfg(),
            ),
            final(self).model().nodes.len() == g.nodes@.len(),
            forall|k: int|
                0 <= k < g.nodes@.len() ==> final(self).model().nodes[k] == (
                #[trigger] g.nodes@[k]).pos,
            forall|k: int|
                1 <= k < g.nodes@.len() ==> child_of(
                    final(self).model().children,
                    (#[trigger] g.nodes@[k]).parent as int,
                    k,
                ),
            forall|k: int|
                0 <= k < final(self).model().leaves.len()
                    ==> (#[trigger] final(self).model().leaves[k]).len() == 0,
            final(self).model().nodes.len() >= 1,
            final(self).model().nodes[0] == (Point { x: 0i64, y: 0i64 }),
            final(self).seed() == old(self).seed(),
            final(self).cfg() == old(self).cfg(),
            final(self).dims() == old(self).dims(),
            final(self).queue() == old(self).queue(),
            final(self).pot_corners() == old(self).pot_corners(),
    {
        let ghost m0 = old(self).model();
        let ghost cm = crate::curved::spec_grow(old(self).seed(), m0.taken, old(self).cfg());
        let g = crate::curved::grow(&mut self.rng, self.config);
        let n = g.nodes.len();
        proof {
            assert(g.nodes@ == cm.nodes);
            assert(self.model() == spec_import(
                (TreeModel { taken: cm.taken, ..m0 }),
                cm.nodes,
                0,
            ));
        }
        proof {
            assert forall|i: int| 0 <= i < g.nodes@.len() implies half_range(
                (#[trigger] g.nodes@[i]).pos,
            ) && (i >= 1 ==> (g.nodes@[i].parent as int) < i) by {
                let nd = g.nodes@[i];
                assert(0 <= 200000 * (nd.depth as int) <= 6400000) by (nonlinear_arith)
                    requires 0 <= nd.depth <= 32;
            }
        }
        let mut k: usize = 0;
        while k < n
            invariant
                k <= n,
                n == g.nodes@.len(),
                n <= 1 + crate::curved::STEP_CAP as int,
                forall|i: int|
                    0 <= i < g.nodes@.len() ==> half_range((#[trigger] g.nodes@[i]).pos) && (i >= 1
                        ==> (g.nodes@[i].parent as int) < i),
                self.wf(),
                self.model().nodes.len() == k,
                forall|i: int|
                    0 <= i < k ==> self.model().nodes[i] == (#[trigger] g.nodes@[i]).pos,
                forall|i: int|
                    1 <= i < k ==> child_of(
                        self.model().children,
                        (#[trigger] g.nodes@[i]).parent as int,
                        i,
                    ),
                forall|i: int|
                    0 <= i < k ==> (#[trigger] self.model().leaves[i]).len() == 0,
                m0 == old(self).model(),
                cm == crate::curved::spec_grow(old(self).seed(), m0.taken, old(self).cfg()),
                g.nodes@ == cm.nodes,
                self.model() == spec_import(
                    (TreeModel { taken: cm.taken, ..m0 }),
                    cm.nodes,
                    k as int,
                ),
                self.seed() == old(self).seed(),
                self.cfg() == old(self).cfg(),
                self.dims() == old(self).dims(),
                self.queue() == old(self).queue(),
                self.pot_corners() == old(self).pot_corners(),
            decreases n - k,
        {
            let nd = g.nodes[k];
            let parent = if k == 0 {
                0
            } else {
                nd.parent
            };
            let ghost m0 = self.model();
            self.push(&nd.pos, parent);
            proof {
                if k >= 1 {
                    lemma_children_preserved(m0, self.model(), g.nodes@, k as int);
                }
            }
            k = k + 1;
        }
        g
    }
}

// ---------------------------------------------------------------------------
// Replay covers the static render: what the freshly enqueued animation owes
// is exactly the full static output, with multiplicity.

/// A branch-sample tagging of raw points.
pub open spec fn tag_tree(s: Seq<Point>) -> Seq<PointType> {
    s.map_values(|p: Point| PointType::Tree(p))
}

/// A leaf tagging of raw points.
pub open spec fn tag_leaf(s: Seq<Point>) -> Seq<PointType> {
    s.map_values(|p: Point| PointType::Leaf(p))
}

/// Node `c` has a parent below `k`.
pub open spec fn rooted_below(m: TreeModel, k: int, c: int) -> bool {
    exists|i: int| 0 <= i < k && #[trigger] child_of(m.children, i, c)
}

/// The full chord multisets of the edges `j..` of node `c`.
pub open spec fn kid_edges(m: TreeModel, c: int, j: int) -> Multiset<PointType>
    decreases m.children[c].len() - j
        when wf_model(m) && 0 <= c < m.nodes.len() && 0 <= j
{
    if j >= m.children[c].len() {
        Multiset::empty()
    } else {
        edge_samples(m, c, m.children[c][j] as int, 0).to_multiset().add(kid_edges(m, c, j + 1))
    }
}

/// The whole subtrees hanging from children `j..` of node `c`.
pub open spec fn kids_subtrees(m: TreeModel, c: int, j: int) -> Multiset<PointType>
    decreases m.nodes.len() - c, 3int, m.children[c].len() - j
        when wf_model(m) && 0 <= c < m.nodes.len() && 0 <= j
{
    if j >= m.children[c].len() {
        Multiset::empty()
    } else {
        pending_subtree(m, m.children[c][j] as int).add(kids_subtrees(m, c, j + 1))
    }
}

/// What node `d` itself adds to the render: its leaf cluster and the
/// full chords of its own edges.
pub open spec fn node_share(m: TreeModel, d: int) -> Multiset<PointType> {
    leaf_samples(m, d, 0).to_multiset().add(kid_edges(m, d, 0))
}

/// The shares of every node from `d` on.
pub open spec fn shares_from(m: TreeModel, d: int) -> Multiset<PointType>
    decreases m.nodes.len() - d,
{
    if d >= m.nodes.len() || d < 0 {
        Multiset::empty()
    } else {
        node_share(m, d).add(shares_from(m, d + 1))
    }
}

/// The subtrees, among nodes `c..`, whose root hangs from a parent below
/// `k`: the forest left standing once everything below `k` is cut away.
pub open spec fn roots_from(m: TreeModel, k: int, c: int) -> Multiset<PointType>
    decreases m.nodes.len() - c
        when wf_model(m) && c >= 0
{
    if c >= m.nodes.len() {
        Multiset::empty()
    } else {
        (if 0 < c && rooted_below(m, k, c) {
            pending_subtree(m, c)
        } else {
            Multiset::empty()
        }).add(roots_from(m, k, c + 1))
    }
}

/// The subtrees, among nodes `c..`, hanging directly from node `k`.
pub open spec fn desc_from(m: TreeModel, k: int, c: int) -> Multiset<PointType>
    decreases m.nodes.len() - c
        when wf_model(m) && c >= 0
{
    if c >= m.nodes.len() {
        Multiset::empty()
    } else {
        (if 0 < c && child_of(m.children, k, c) {
            pending_subtree(m, c)
        } else {
            Multiset::empty()
        }).add(desc_from(m, k, c + 1))
    }
}

/// The pending work of children `j..` splits into their own full chords and
/// their subtrees.
proof fn lemma_kids_split(m: TreeModel, c: int, j: int)
    requires
        wf_model(m),
        0 <= c < m.nodes.len(),
        0 <= j,
    ensures
        pending_kids(m, c, j) == kid_edges(m, c, j).add(kids_subtrees(m, c, j)),
    decreases m.children[c].len() - j,
{
    broadcast use vstd::multiset::group_multiset_axioms;

    if j >= m.children[c].len() {
        assert(pending_kids(m, c, j) =~= kid_edges(m, c, j).add(kids_subtrees(m, c, j)));
    } else {
        lemma_kids_split(m, c, j + 1);
        let ch = m.children[c][j] as int;
        assert(pending_edge(m, c, ch, 0) == edge_samples(m, c, ch, 0).to_multiset().add(
            pending_subtree(m, ch),
        ));
        assert(pending_kids(m, c, j) =~= kid_edges(m, c, j).add(kids_subtrees(m, c, j)));
    }
}

/// A child registered under two parents is registered once: `child_of` is
/// functional on well-formed trees.
proof fn lemma_child_of_unique(m: TreeModel, i1: int, i2: int, c: int)
    requires
        wf_model(m),
        child_of(m.children, i1, c),
        child_of(m.children, i2, c),
    ensures
        i1 == i2,
{
    let j1 = choose|j: int| #[trigger] is_entry(m.children, i1, j, c);
    let j2 = choose|j: int| #[trigger] is_entry(m.children, i2, j, c);
    assert(is_entry(m.children, i1, j1, c) && is_entry(m.children, i2, j2, c));
}

/// Raising the cut from `k` to `k + 1` adds exactly the subtrees hanging
/// from node `k` to the standing forest.
proof fn lemma_roots_raise(m: TreeModel, k: int, c: int)
    requires
        wf_model(m),
        0 <= k < m.nodes.len(),
        k < c,
    ensures
        roots_from(m, k + 1, c) == roots_from(m, k, c).add(desc_from(m, k, c)),
    decreases m.nodes.len() - c,
{
    broadcast use vstd::multiset::group_multiset_axioms;

    if c >= m.nodes.len() {
        assert(roots_from(m, k + 1, c) =~= roots_from(m, k, c).add(desc_from(m, k, c)));
    } else {
        lemma_roots_raise(m, k, c + 1);
        if 0 < c && rooted_below(m, k + 1, c) {
            if child_of(m.children, k, c) {
                // Hangs from k itself; by uniqueness not from anything lower.
                if rooted_below(m, k, c) {
                    let i = choose|i: int| 0 <= i < k && #[trigger] child_of(m.children, i, c);
                    lemma_child_of_unique(m, i, k, c);
                    assert(false);
                }
            } else {
                let i = choose|i: int| 0 <= i < k + 1 && #[trigger] child_of(m.children, i, c);
                assert(i < k);
                assert(rooted_below(m, k, c));
            }
        } else {
            if 0 < c && rooted_below(m, k, c) {
                let i = choose|i: int| 0 <= i < k && #[trigger] child_of(m.children, i, c);
                assert(rooted_below(m, k + 1, c));
                assert(false);
            }
            if 0 < c && child_of(m.children, k, c) {
                assert(rooted_below(m, k + 1, c));
                assert(false);
            }
        }
        assert(roots_from(m, k + 1, c) =~= roots_from(m, k, c).add(desc_from(m, k, c)));
    }
}

/// The id scan over `c..` for children of `k` matches the walk down `k`'s
/// child list from position `j`, when the list entries below `j` are
/// exactly the children below `c`.
proof fn lemma_desc_align(m: TreeModel, k: int, c: int, j: int)
    requires
        wf_model(m),
        0 <= k < m.nodes.len(),
        k < c,
        0 <= j <= m.children[k as int].len(),
        forall|q: int| 0 <= q < j ==> (#[trigger] m.children[k as int][q]) < c,
        forall|q: int|
            j <= q < m.children[k as int].len() ==> (#[trigger] m.children[k as int][q]) >= c,
    ensures
        desc_from(m, k, c) == kids_subtrees(m, k, j),
    decreases m.nodes.len() - c,
{
    broadcast use vstd::multiset::group_multiset_axioms;

    let list = m.children[k as int];
    if c >= m.nodes.len() {
        if j < list.len() {
            assert(list[j] < m.nodes.len());
            assert(false);
        }
        assert(desc_from(m, k, c) =~= kids_subtrees(m, k, j));
    } else {
        if j < list.len() && list[j] == c {
            assert(is_entry(m.children, k, j, c));
            assert(child_of(m.children, k, c));
            assert forall|q: int| 0 <= q < j + 1 implies (#[trigger] list[q]) < c + 1 by {}
            assert forall|q: int| j + 1 <= q < list.len() implies (#[trigger] list[q]) >= c + 1 by {
                assert(list[j] < list[q]);
            }
            lemma_desc_align(m, k, c + 1, j + 1);
            assert(desc_from(m, k, c) =~= kids_subtrees(m, k, j));
        } else {
            if child_of(m.children, k, c) {
                let jq = choose|jq: int| #[trigger] is_entry(m.children, k, jq, c);
                if jq < j {
                    assert(list[jq] < c);
                } else {
                    if j < list.len() && jq > j {
                        assert(list[j] < list[jq]);
                    }
                }
                assert(false);
            }
            assert forall|q: int| j <= q < list.len() implies (#[trigger] list[q]) >= c + 1 by {
                if list[q] == c {
                    assert(is_entry(m.children, k, q, c));
                    assert(child_of(m.children, k, c));
                }
            }
            lemma_desc_align(m, k, c + 1, j);
            assert(desc_from(m, k, c) =~= kids_subtrees(m, k, j));
        }
    }
}

/// Cutting everything below `k` and everything below `k + 1` differ by
/// exactly node `k`'s own share.
proof fn lemma_forest_step(m: TreeModel, k: int)
    requires
        wf_model(m),
        1 <= k < m.nodes.len(),
    ensures
        roots_from(m, k, k) == node_share(m, k).add(roots_from(m, k + 1, k + 1)),
{
    broadcast use vstd::multiset::group_multiset_axioms;

    // Node k hangs from a parent below itself, so it stands in the forest
    // cut at k.
    assert(has_parent(m.children, k));
    let (pi, pj) = choose|pi: int, pj: int| #[trigger] is_entry(m.children, pi, pj, k);
    assert(pi < m.children[pi][pj]);
    assert(child_of(m.children, pi, k));
    assert(rooted_below(m, k, k));
    assert(roots_from(m, k, k) == pending_subtree(m, k).add(roots_from(m, k, k + 1)));
    lemma_kids_split(m, k, 0);
    assert forall|q: int| 0 <= q < m.children[k as int].len() implies (#[trigger] m.children[k
        as int][q]) >= k + 1 by {}
    lemma_desc_align(m, k, k + 1, 0);
    lemma_roots_raise(m, k, k + 1);
    assert(pending_subtree(m, k).add(roots_from(m, k, k + 1)) =~= node_share(m, k).add(
        roots_from(m, k + 1, k + 1),
    ));
}

/// The forest cut at `k` carries exactly the shares of the nodes `k..`.
proof fn lemma_forest_sum(m: TreeModel, k: int)
    requires
        wf_model(m),
        1 <= k <= m.nodes.len(),
    ensures
        roots_from(m, k, k) == shares_from(m, k),
    decreases m.nodes.len() - k,
{
    broadcast use vstd::multiset::group_multiset_axioms;

    if k == m.nodes.len() {
        assert(roots_from(m, k, k) =~= shares_from(m, k));
    } else {
        lemma_forest_step(m, k);
        lemma_forest_sum(m, k + 1);
        assert(roots_from(m, k, k) =~= shares_from(m, k));
    }
}

/// With the cut at one, being a child of the root is the only way to stand.
proof fn lemma_desc_root(m: TreeModel, c: int)
    requires
        wf_model(m),
        1 <= c,
    ensures
        desc_from(m, 0, c) == roots_from(m, 1, c),
    decreases m.nodes.len() - c,
{
    broadcast use vstd::multiset::group_multiset_axioms;

    if c >= m.nodes.len() {
        assert(desc_from(m, 0, c) =~= roots_from(m, 1, c));
    } else {
        lemma_desc_root(m, c + 1);
        if rooted_below(m, 1, c) {
            let i = choose|i: int| 0 <= i < 1 && #[trigger] child_of(m.children, i, c);
            assert(child_of(m.children, 0, c));
        }
        if child_of(m.children, 0, c) {
            assert(rooted_below(m, 1, c));
        }
        assert(desc_from(m, 0, c) =~= roots_from(m, 1, c));
    }
}

/// The whole pending work of a fresh animation queue is the sum of every
/// node's share.
proof fn lemma_start_is_shares(m: TreeModel)
    requires
        wf_model(m),
        m.nodes.len() >= 1,
        m.leaves[0].len() == 0,
    ensures
        pending_queue(m, seq![AnimationItem::Start]) == shares_from(m, 0),
{
    broadcast use vstd::multiset::group_multiset_axioms;

    let q = seq![AnimationItem::Start];
    assert(pending_upto(m, q, 1) == pending_upto(m, q, 0).add(pending_item(m, q[0])));
    assert(pending_queue(m, q) =~= pending_kids(m, 0, 0));
    lemma_kids_split(m, 0, 0);
    assert forall|qi: int| 0 <= qi < m.children[0].len() implies (#[trigger] m.children[0][qi])
        >= 1 by {}
    lemma_desc_align(m, 0, 1, 0);
    lemma_desc_root(m, 1);
    if m.nodes.len() > 1 {
        lemma_forest_sum(m, 1);
    } else {
        assert(roots_from(m, 1, 1) =~= shares_from(m, 1));
    }
    assert(leaf_samples(m, 0, 0).len() == 0);
    lemma_to_multiset_empty(leaf_samples(m, 0, 0));
    assert(node_share(m, 0) =~= kid_edges(m, 0, 0));
    assert(pending_kids(m, 0, 0) =~= shares_from(m, 0));
}

/// A node's edge chords, walked down the child list, tagged and counted.
proof fn lemma_kid_edges_prefix(m: TreeModel, d: int, j: int)
    requires
        wf_model(m),
        0 <= d < m.nodes.len(),
        0 <= j <= m.children[d].len(),
    ensures
        kid_edges(m, d, 0) == tag_tree(node_chords_upto(m, d, j)).to_multiset().add(
            kid_edges(m, d, j),
        ),
    decreases j,
{
    broadcast use vstd::multiset::group_multiset_axioms;

    if j == 0 {
        lemma_to_multiset_empty(tag_tree(node_chords_upto(m, d, 0)));
        assert(kid_edges(m, d, 0) =~= tag_tree(node_chords_upto(m, d, 0)).to_multiset().add(
            kid_edges(m, d, 0),
        ));
    } else {
        lemma_kid_edges_prefix(m, d, j - 1);
        let ch = m.children[d][j - 1] as int;
        let pre = node_chords_upto(m, d, j - 1);
        let cs = chord(m, d, ch);
        assert(node_chords_upto(m, d, j) == pre + cs);
        assert(tag_tree(pre + cs) =~= tag_tree(pre) + tag_tree(cs));
        lemma_multiset_commutative(tag_tree(pre), tag_tree(cs));
        assert(tag_tree(cs) =~= edge_samples(m, d, ch, 0));
        assert(kid_edges(m, d, j - 1) == edge_samples(m, d, ch, 0).to_multiset().add(
            kid_edges(m, d, j),
        ));
        assert(kid_edges(m, d, 0) =~= tag_tree(node_chords_upto(m, d, j)).to_multiset().add(
            kid_edges(m, d, j),
        ));
    }
}

/// The first `n` nodes' slices of the static render, together with the
/// shares still to scan, always make up the whole.
proof fn lemma_static_prefix(m: TreeModel, n: int)
    requires
        wf_model(m),
        0 <= n <= m.nodes.len(),
    ensures
        tag_tree(tree_chords_upto(m, n)).to_multiset().add(
            tag_leaf(leaves_abs_upto(m, n)).to_multiset(),
        ).add(shares_from(m, n)) == shares_from(m, 0),
    decreases n,
{
    broadcast use vstd::multiset::group_multiset_axioms;

    if n == 0 {
        lemma_to_multiset_empty(tag_tree(tree_chords_upto(m, 0)));
        lemma_to_multiset_empty(tag_leaf(leaves_abs_upto(m, 0)));
        assert(tag_tree(tree_chords_upto(m, 0)).to_multiset().add(
            tag_leaf(leaves_abs_upto(m, 0)).to_multiset(),
        ).add(shares_from(m, 0)) =~= shares_from(m, 0));
    } else {
        lemma_static_prefix(m, n - 1);
        let d = n - 1;
        let tpre = tree_chords_upto(m, d);
        let trow = node_chords_upto(m, d, m.children[d].len() as int);
        assert(tree_chords_upto(m, n) == tpre + trow);
        assert(tag_tree(tpre + trow) =~= tag_tree(tpre) + tag_tree(trow));
        lemma_multiset_commutative(tag_tree(tpre), tag_tree(trow));
        let lpre = leaves_abs_upto(m, d);
        let lrow = Seq::new(m.leaves[d].len(), |j: int| leaf_abs(m, d, j));
        assert(leaves_abs_upto(m, n) == lpre + lrow);
        assert(tag_leaf(lpre + lrow) =~= tag_leaf(lpre) + tag_leaf(lrow));
        lemma_multiset_commutative(tag_leaf(lpre), tag_leaf(lrow));
        assert(tag_leaf(lrow) =~= leaf_samples(m, d, 0));
        lemma_kid_edges_prefix(m, d, m.children[d].len() as int);
        assert(kid_edges(m, d, m.children[d].len() as int) =~= Multiset::<PointType>::empty());
        assert(kid_edges(m, d, 0) == tag_tree(trow).to_multiset().add(
            kid_edges(m, d, m.children[d].len() as int),
        ));
        assert(shares_from(m, d) == node_share(m, d).add(shares_from(m, n)));
        assert(tag_tree(tree_chords_upto(m, n)).to_multiset().add(
            tag_leaf(leaves_abs_upto(m, n)).to_multiset(),
        ).add(shares_from(m, n)) =~= tag_tree(tpre).to_multiset().add(
            tag_leaf(lpre).to_multiset(),
        ).add(shares_from(m, d)));
    }
}

/// Replay is a temporal partition of the static render: everything a fresh
/// animation queue will ever emit for a graph whose root carries no leaf
/// cluster is, with multiplicity, exactly the static branch render plus the
/// static leaf render of the same graph. Together with the conservation
/// clause of `animation_step`, the union of the batches of successive ticks
/// until the queue drains equals the static output.
pub proof fn lemma_replay_covers_static(m: TreeModel)
    requires
        wf_model(m),
        m.nodes.len() >= 1,
        m.leaves[0].len() == 0,
    ensures
        pending_queue(m, seq![AnimationItem::Start]) == tag_tree(spec_get_tree(m)).to_multiset()
            .add(tag_leaf(spec_get_leaves(m)).to_multiset()),
{
    broadcast use vstd::multiset::group_multiset_axioms;

    lemma_start_is_shares(m);
    lemma_static_prefix(m, m.nodes.len() as int);
    assert(shares_from(m, m.nodes.len() as int) =~= Multiset::<PointType>::empty());
    assert(pending_queue(m, seq![AnimationItem::Start]) =~= tag_tree(
        spec_get_tree(m),
    ).to_multiset().add(tag_leaf(spec_get_leaves(m)).to_multiset()));
}

} // verus!
