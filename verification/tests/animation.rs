use bonsai::config::{Bounds, Config, Strategy};
use bonsai::geom::Point;
use bonsai::tree::{BonsaiTree, PointType};

fn bounds50() -> Bounds {
    Bounds { width: 50, height: 50 }
}

fn run_to_completion(t: &mut BonsaiTree) -> (Vec<Point>, Vec<Point>) {
    let mut tree_points: Vec<Point> = Vec::new();
    let mut leaf_points: Vec<Point> = Vec::new();
    let mut idle = 0usize;
    for _ in 0..100_000 {
        let batch = t.animation_step();
        if batch.is_empty() {
            idle += 1;
            if idle >= 3 {
                break;
            }
        } else {
            idle = 0;
        }
        for item in batch {
            match item {
                PointType::Tree(p) => tree_points.push(p),
                PointType::Leaf(p) => leaf_points.push(p),
                PointType::Pot(p) => panic!("animation emitted a pot point {p:?}"),
            }
        }
    }
    assert!(idle >= 3, "animation did not drain");
    (tree_points, leaf_points)
}

fn sorted(mut v: Vec<Point>) -> Vec<Point> {
    v.sort_by(|a, b| (a.x, a.y).cmp(&(b.x, b.y)));
    v
}

#[test]
fn animation_is_a_partition_of_the_static_render() {
    let mut t = BonsaiTree::new(bounds50(), Some(42)).unwrap();
    t.generate();
    t.normalize();
    let static_tree = t.get_tree();
    let static_leaves = t.get_leaves();
    let (anim_tree, anim_leaves) = run_to_completion(&mut t);
    // The union of all points emitted across ticks equals the static-mode
    // output, with multiplicity.
    assert_eq!(anim_tree.len(), static_tree.len());
    assert_eq!(anim_leaves.len(), static_leaves.len());
    assert_eq!(sorted(anim_tree), sorted(static_tree));
    assert_eq!(sorted(anim_leaves), sorted(static_leaves));
}

#[test]
fn curved_animation_is_a_partition_too() {
    let mut config = Config::default_config();
    config.strategy = Strategy::Curved;
    let mut t = BonsaiTree::with_config(bounds50(), Some(11), config).unwrap();
    t.generate();
    t.normalize();
    let static_tree = t.get_tree();
    let (anim_tree, anim_leaves) = run_to_completion(&mut t);
    assert!(anim_leaves.is_empty(), "curved growth lays no leaf clusters");
    assert_eq!(sorted(anim_tree), sorted(static_tree));
}

#[test]
fn tick_after_drain_is_a_no_op() {
    let mut t = BonsaiTree::new(bounds50(), Some(5)).unwrap();
    t.generate();
    t.normalize();
    let _ = run_to_completion(&mut t);
    let before: Vec<Point> = (0..t.node_count()).map(|i| t.node(i)).collect();
    for _ in 0..10 {
        let batch = t.animation_step();
        assert!(batch.is_empty());
    }
    let after: Vec<Point> = (0..t.node_count()).map(|i| t.node(i)).collect();
    assert_eq!(before, after, "an idle tick changed the graph");
    assert_eq!(t.get_tree(), {
        let mut u = BonsaiTree::new(bounds50(), Some(5)).unwrap();
        u.generate();
        u.normalize();
        u.get_tree()
    });
}

#[test]
fn first_tick_reveals_only_trunk_starts() {
    let mut t = BonsaiTree::new(bounds50(), Some(42)).unwrap();
    t.generate();
    t.normalize();
    // The first tick only enqueues the root's edges and emits nothing; the
    // second emits, for each root edge in child order, exactly its first
    // hundred chord samples in parameter order.
    let first = t.animation_step();
    assert!(first.is_empty());
    let second = t.animation_step();
    let root_children = t.children_of(0);
    assert_eq!(second.len(), root_children.len() * 100);
    let a = t.node(0);
    for (j, &c) in root_children.iter().enumerate() {
        let b = t.node(c);
        for k in 0..100 {
            let expected = bonsai::geom::linear_interpolate(&a, &b, k as i64);
            assert_eq!(second[j * 100 + k], PointType::Tree(expected));
        }
    }
}

#[test]
fn static_render_samples_every_edge_densely() {
    let mut t = BonsaiTree::new(bounds50(), Some(42)).unwrap();
    t.generate();
    t.normalize();
    let n = t.node_count();
    let edge_count: usize = (0..n).map(|i| t.children_of(i).len()).sum();
    assert_eq!(t.get_tree().len(), edge_count * 1000);
    let leaf_count: usize = (0..n).map(|i| t.leaves_of(i).len()).sum();
    assert_eq!(t.get_leaves().len(), leaf_count);
}
