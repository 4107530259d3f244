use bonsai::config::{Bounds, Config, Strategy};
use bonsai::curved::grow;
use bonsai::rng::Prng;
use bonsai::tree::BonsaiTree;

fn circ(a: u8, b: u8) -> u8 {
    let d = if a >= b { a - b } else { b - a };
    d.min(16 - d)
}

#[test]
fn accepted_segments_never_intersect() {
    for seed in [1u64, 7, 42, 1000] {
        let mut rng = Prng::from_seed_value(seed);
        let g = grow(&mut rng, Config::default_config());
        for i in 0..g.segs.len() {
            for j in (i + 1)..g.segs.len() {
                assert!(
                    !g.segs[i].intersects(&g.segs[j]),
                    "seed {seed}: segments {i} and {j} intersect"
                );
            }
        }
    }
}

#[test]
fn placements_respect_angular_tolerances() {
    let cfg = Config::default_config();
    let mut rng = Prng::from_seed_value(42);
    let g = grow(&mut rng, cfg);
    assert!(g.nodes.len() >= 2, "nothing was placed");
    assert_eq!(g.nodes.len(), g.segs.len() + 1);
    for k in 1..g.nodes.len() {
        let nd = g.nodes[k];
        assert!(nd.parent < k);
        let pd = g.nodes[nd.parent].dir;
        assert!(circ(nd.dir, pd) > cfg.phi_tolerance, "node {k} hugs its parent direction");
        if nd.has_sib {
            assert!(circ(nd.dir, nd.sib) > cfg.phi_neigh_tolerance, "node {k} hugs its sibling");
        }
        assert!(nd.pos.y >= 0, "node {k} fell below the floor");
        assert_eq!(g.segs[k - 1].start, g.nodes[nd.parent].pos);
        assert_eq!(g.segs[k - 1].end, nd.pos);
    }
}

#[test]
fn curved_strategy_builds_the_graph() {
    let mut config = Config::default_config();
    config.strategy = Strategy::Curved;
    let mut t = BonsaiTree::with_config(Bounds { width: 50, height: 50 }, Some(42), config)
        .unwrap();
    let placement = t.generate_curved();
    assert_eq!(t.node_count(), placement.nodes.len());
    for k in 0..t.node_count() {
        assert_eq!(t.node(k), placement.nodes[k].pos);
        assert!(t.leaves_of(k).is_empty());
    }
    // Every placed node is a child of the parent it was placed under.
    for k in 1..t.node_count() {
        let p = placement.nodes[k].parent;
        assert!(t.children_of(p).contains(&k), "node {k} missing under parent {p}");
    }
    t.normalize();
    for k in 0..t.node_count() {
        let q = t.node(k);
        assert!(q.x >= 0 && q.x <= 50_000 && q.y >= 0 && q.y <= 50_000);
    }
}
