use bonsai::config::{Bounds, Config, ConfigError, Strategy};
use bonsai::geom::Point;
use bonsai::tree::BonsaiTree;

fn bounds50() -> Bounds {
    Bounds { width: 50, height: 50 }
}

#[test]
fn scenario_seed_42_default_tiers() {
    let mut t = BonsaiTree::new(bounds50(), Some(42)).unwrap();
    t.generate();
    // Non-empty node list with node 0 at the generation origin.
    assert!(t.node_count() > 1);
    assert_eq!(t.node(0), Point { x: 0, y: 0 });
    t.normalize();
    // Post-normalisation the bounding box exactly fills the target in the
    // horizontal axis (milli-scale 0..=50000), and every node is in bounds.
    let n = t.node_count();
    let mut min_x = i64::MAX;
    let mut max_x = i64::MIN;
    for i in 0..n {
        let p = t.node(i);
        assert!(p.x >= 0 && p.x <= 50_000, "x out of bounds: {}", p.x);
        assert!(p.y >= 0 && p.y <= 50_000, "y out of bounds: {}", p.y);
        min_x = min_x.min(p.x);
        max_x = max_x.max(p.x);
    }
    assert_eq!(min_x, 0);
    assert_eq!(max_x, 50_000);
}

#[test]
fn scenario_single_node_tree() {
    // tiers = 0 asks for the degenerate single-node tree; it normalizes
    // without any division error and lands on the midpoint of the target
    // ranges: the width midpoint, and the vertical midpoint of the band
    // above the container.
    let mut config = Config::default_config();
    config.tiers = 0;
    let mut t = BonsaiTree::with_config(bounds50(), Some(9), config).unwrap();
    t.generate();
    assert_eq!(t.node_count(), 1);
    assert!(t.leaves_of(0).is_empty());
    assert!(t.get_leaves().is_empty());
    t.normalize();
    assert_eq!(t.node_count(), 1);
    let hm = 50_000i64;
    let ht = hm * 6 / 7;
    let off = hm - ht;
    assert_eq!(t.node(0), Point { x: 25_000, y: off + ht / 2 });
}

#[test]
fn same_seed_same_tree() {
    for strategy in [Strategy::Jitter, Strategy::Curved] {
        let mut config = Config::default_config();
        config.strategy = strategy;
        let mut a = BonsaiTree::with_config(bounds50(), Some(7), config).unwrap();
        let mut b = BonsaiTree::with_config(bounds50(), Some(7), config).unwrap();
        a.generate();
        b.generate();
        assert_eq!(a.node_count(), b.node_count());
        for i in 0..a.node_count() {
            assert_eq!(a.node(i), b.node(i));
            assert_eq!(a.children_of(i), b.children_of(i));
            assert_eq!(a.leaves_of(i), b.leaves_of(i));
        }
    }
}

#[test]
fn different_seeds_differ() {
    let mut a = BonsaiTree::new(bounds50(), Some(1)).unwrap();
    let mut b = BonsaiTree::new(bounds50(), Some(2)).unwrap();
    a.generate();
    b.generate();
    let same = a.node_count() == b.node_count()
        && (0..a.node_count()).all(|i| a.node(i) == b.node(i));
    assert!(!same, "distinct seeds produced identical trees");
}

#[test]
fn every_non_root_has_exactly_one_parent() {
    for (seed, strategy) in [(3u64, Strategy::Jitter), (4, Strategy::Curved)] {
        let mut config = Config::default_config();
        config.strategy = strategy;
        let mut t = BonsaiTree::with_config(bounds50(), Some(seed), config).unwrap();
        t.generate();
        let n = t.node_count();
        let mut parent_count = vec![0usize; n];
        for i in 0..n {
            for c in t.children_of(i) {
                assert!(c > i, "child {c} not created after parent {i}");
                parent_count[c] += 1;
            }
        }
        assert_eq!(parent_count[0], 0, "the root has a parent");
        for c in 1..n {
            assert_eq!(parent_count[c], 1, "node {c} has {} parents", parent_count[c]);
        }
    }
}

#[test]
fn leaf_clusters_sorted_inside_out() {
    let mut t = BonsaiTree::new(bounds50(), Some(42)).unwrap();
    t.generate();
    let mut saw_cluster = false;
    for i in 0..t.node_count() {
        let cluster = t.leaves_of(i);
        if !cluster.is_empty() {
            saw_cluster = true;
            for w in cluster.windows(2) {
                let a = w[0].x * w[0].x + w[0].y * w[0].y;
                let b = w[1].x * w[1].x + w[1].y * w[1].y;
                assert!(a <= b, "cluster of node {i} not sorted by distance");
            }
        }
    }
    assert!(saw_cluster, "no leaf cluster was generated");
}

#[test]
fn config_rejections_name_the_rule() {
    let c = Config::default_config();
    let b = bounds50();
    let r = BonsaiTree::new(Bounds { width: 0, height: 50 }, None);
    assert!(matches!(r, Err(ConfigError::ZeroWidth)));
    let r = BonsaiTree::new(Bounds { width: 50, height: 0 }, None);
    assert!(matches!(r, Err(ConfigError::ZeroHeight)));
    let mut bad = c;
    bad.tiers = 17;
    assert!(matches!(BonsaiTree::with_config(b, None, bad), Err(ConfigError::TooManyTiers)));
    let mut bad = c;
    bad.branch_cooldown = 0;
    assert!(matches!(BonsaiTree::with_config(b, None, bad), Err(ConfigError::ZeroCooldown)));
    let mut bad = c;
    bad.leaf_depth = 9;
    assert!(matches!(BonsaiTree::with_config(b, None, bad), Err(ConfigError::LeafDepthTooLarge)));
    let mut bad = c;
    bad.min_dist = 0;
    assert!(matches!(BonsaiTree::with_config(b, None, bad), Err(ConfigError::BadDistance)));
    let mut bad = c;
    bad.min_dist = 7000;
    assert!(matches!(BonsaiTree::with_config(b, None, bad), Err(ConfigError::BadDistance)));
    let mut bad = c;
    bad.phi_tolerance = 8;
    assert!(matches!(BonsaiTree::with_config(b, None, bad), Err(ConfigError::BadTolerance)));
    let mut bad = c;
    bad.max_depth = 33;
    assert!(matches!(BonsaiTree::with_config(b, None, bad), Err(ConfigError::DepthTooLarge)));
    let mut bad = c;
    bad.retry_budget = 0;
    assert!(matches!(BonsaiTree::with_config(b, None, bad), Err(ConfigError::ZeroRetryBudget)));
    assert!(BonsaiTree::with_config(b, None, c).is_ok());
}

#[test]
fn entropy_seeded_construction_works() {
    let mut t = BonsaiTree::new(bounds50(), None).unwrap();
    t.generate();
    assert!(t.node_count() >= 1);
}

#[test]
fn pot_outline_starts_at_base_corner() {
    let t = BonsaiTree::new(bounds50(), Some(1)).unwrap();
    let pot = t.get_pot();
    // Four densely sampled edges plus eight decorative points.
    assert_eq!(pot.len(), 4 * 1000 + 8);
    // The first sample is the base-left corner: centre 25000 minus a sixth
    // of the width.
    assert_eq!(pot[0], Point { x: 25_000 - 8_333, y: 0 });
    // The decorative points sit beside the rim corners, above the rim.
    let rim_y = 50_000 / 7;
    assert_eq!(pot[4000], Point { x: 25_000 + 10_000, y: rim_y + 1000 });
}
