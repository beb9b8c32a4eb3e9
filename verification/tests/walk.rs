use trees::linked::fully::forest::Forest;
use trees::linked::fully::node::Node;
use trees::linked::fully::tree::Tree;
use trees::linked::fully::walk::{ForestWalk, TreeWalk, Visit};
use trees::linked::notation::tr;
use trees::sib::walk::Walk;

fn show(node: &Node<i32>) -> String {
    let mut s = node.data.to_string();
    if !node.is_leaf() {
        s.push_str("( ");
        let mut iter = node.iter();
        while let Some(child) = iter.next() {
            s.push_str(&show(child));
            s.push(' ');
        }
        s.push(')');
    }
    s
}

fn seen(visit: Option<Visit<i32>>) -> String {
    match visit {
        Some(Visit::Begin(node)) => format!("Begin {}", show(node)),
        Some(Visit::End(node)) => format!("End {}", show(node)),
        Some(Visit::Leaf(node)) => format!("Leaf {}", show(node)),
        None => String::from("None"),
    }
}

fn sample() -> Tree<i32> {
    tr(0) / (tr(1) / tr(2) / tr(3)) / (tr(4) / tr(5) / tr(6))
}

fn sample_forest() -> Forest<i32> {
    -(tr(1) / tr(2) / tr(3)) - (tr(4) / tr(5) / tr(6))
}

#[test]
fn tree_walk_get() {
    let tree = tr(0) / tr(1) / tr(2) / tr(3);
    let walk = TreeWalk::from(tree);
    assert_eq!(seen(walk.get()), "Begin 0( 1 2 3 )");
    let visit = walk.get().unwrap();
    assert_eq!(visit.node().data, 0);
}

#[test]
fn tree_walk_forward() {
    let mut walk = TreeWalk::from(sample());
    assert_eq!(seen(walk.get()), "Begin 0( 1( 2 3 ) 4( 5 6 ) )");
    walk.forward();
    assert_eq!(seen(walk.get()), "Begin 1( 2 3 )");
    walk.forward();
    assert_eq!(seen(walk.get()), "Leaf 2");
    walk.forward();
    assert_eq!(seen(walk.get()), "Leaf 3");
    walk.forward();
    assert_eq!(seen(walk.get()), "End 1( 2 3 )");
    walk.forward();
    assert_eq!(seen(walk.get()), "Begin 4( 5 6 )");
    walk.forward();
    assert_eq!(seen(walk.get()), "Leaf 5");
    walk.forward();
    assert_eq!(seen(walk.get()), "Leaf 6");
    walk.forward();
    assert_eq!(seen(walk.get()), "End 4( 5 6 )");
    walk.forward();
    assert_eq!(seen(walk.get()), "End 0( 1( 2 3 ) 4( 5 6 ) )");
    walk.forward();
    assert_eq!(seen(walk.get()), "None");
    walk.forward();
    assert_eq!(seen(walk.get()), "None");
    assert_eq!(show(walk.into_tree().root()), "0( 1( 2 3 ) 4( 5 6 ) )");
}

#[test]
fn tree_walk_next() {
    let tree = tr(0) / tr(1) / tr(2) / tr(3);
    let mut walk = TreeWalk::from(tree);
    assert_eq!(seen(walk.next()), "Leaf 1");
    assert_eq!(seen(walk.next()), "Leaf 2");
    assert_eq!(seen(walk.next()), "Leaf 3");
    assert_eq!(seen(walk.next()), "End 0( 1 2 3 )");
    assert_eq!(seen(walk.next()), "None");
    assert_eq!(seen(walk.next()), "None");
}

#[test]
fn tree_walk_to_parent() {
    let mut walk = TreeWalk::from(sample());
    assert_eq!(seen(walk.get()), "Begin 0( 1( 2 3 ) 4( 5 6 ) )");
    walk.forward();
    assert_eq!(seen(walk.get()), "Begin 1( 2 3 )");
    assert_eq!(seen(walk.to_parent()), "End 0( 1( 2 3 ) 4( 5 6 ) )");
    assert_eq!(seen(walk.to_parent()), "None");
    assert_eq!(seen(walk.get()), "None");
}

#[test]
fn tree_walk_get_parent() {
    let mut walk = TreeWalk::from(sample());
    assert_eq!(seen(walk.get()), "Begin 0( 1( 2 3 ) 4( 5 6 ) )");
    assert!(walk.get_parent().is_none());
    walk.forward();
    assert_eq!(seen(walk.get()), "Begin 1( 2 3 )");
    assert_eq!(show(walk.get_parent().unwrap()), "0( 1( 2 3 ) 4( 5 6 ) )");
}

#[test]
fn tree_walk_to_child() {
    let mut walk = TreeWalk::from(sample());
    assert_eq!(seen(walk.get()), "Begin 0( 1( 2 3 ) 4( 5 6 ) )");
    walk.to_child(1);
    assert_eq!(seen(walk.get()), "Begin 4( 5 6 )");
    assert_eq!(seen(walk.to_child(0)), "Leaf 5");
    assert_eq!(seen(walk.to_child(0)), "None");
    assert_eq!(seen(walk.get()), "Leaf 5");
    let mut walk = TreeWalk::from(sample());
    assert_eq!(seen(walk.to_child(2)), "None");
    assert_eq!(seen(walk.get()), "Begin 1( 2 3 )");
    walk.forward();
    assert_eq!(seen(walk.get()), "End 0( 1( 2 3 ) 4( 5 6 ) )");
}

#[test]
fn tree_walk_to_sib() {
    let tree = tr(0) / tr(1) / tr(2) / tr(3);
    let mut walk = TreeWalk::from(tree);
    assert_eq!(seen(walk.next()), "Leaf 1");
    assert_eq!(seen(walk.to_sib(0)), "Leaf 1");
    assert_eq!(seen(walk.to_sib(2)), "Leaf 3");
    assert_eq!(seen(walk.to_sib(1)), "None");
    assert_eq!(seen(walk.get()), "Leaf 3");
    walk.forward();
    assert_eq!(seen(walk.get()), "End 0( 1 2 3 )");
}

#[test]
fn tree_walk_revisit() {
    let mut walk = TreeWalk::from(sample());
    for _ in 0..3 {
        for _ in 0..3 {
            walk.revisit();
            assert_eq!(seen(walk.get()), "Begin 0( 1( 2 3 ) 4( 5 6 ) )");
            walk.forward();
            for _ in 0..3 {
                walk.revisit();
                assert_eq!(seen(walk.get()), "Begin 1( 2 3 )");
                walk.forward();
                assert_eq!(seen(walk.get()), "Leaf 2");
                walk.forward();
                assert_eq!(seen(walk.get()), "Leaf 3");
                walk.forward();
                assert_eq!(seen(walk.get()), "End 1( 2 3 )");
            }
            walk.forward();
            for _ in 0..3 {
                walk.revisit();
                assert_eq!(seen(walk.get()), "Begin 4( 5 6 )");
                walk.forward();
                assert_eq!(seen(walk.get()), "Leaf 5");
                walk.forward();
                assert_eq!(seen(walk.get()), "Leaf 6");
                walk.forward();
                assert_eq!(seen(walk.get()), "End 4( 5 6 )");
            }
            walk.forward();
            assert_eq!(seen(walk.get()), "End 0( 1( 2 3 ) 4( 5 6 ) )");
        }
        walk.forward();
        assert_eq!(seen(walk.get()), "None");
        walk.forward();
        assert_eq!(seen(walk.get()), "None");
    }
}

#[test]
fn forest_walk_get() {
    let forest = -tr(1) - tr(2) - tr(3);
    let walk = ForestWalk::from(forest);
    assert_eq!(seen(walk.get()), "Leaf 1");
    let empty = ForestWalk::from(Forest::<i32>::new());
    assert_eq!(seen(empty.get()), "None");
}

#[test]
fn forest_walk_forward() {
    let mut walk = ForestWalk::from(sample_forest());
    assert_eq!(seen(walk.get()), "Begin 1( 2 3 )");
    walk.forward();
    assert_eq!(seen(walk.get()), "Leaf 2");
    walk.forward();
    assert_eq!(seen(walk.get()), "Leaf 3");
    walk.forward();
    assert_eq!(seen(walk.get()), "End 1( 2 3 )");
    walk.forward();
    assert_eq!(seen(walk.get()), "Begin 4( 5 6 )");
    walk.forward();
    assert_eq!(seen(walk.get()), "Leaf 5");
    walk.forward();
    assert_eq!(seen(walk.get()), "Leaf 6");
    walk.forward();
    assert_eq!(seen(walk.get()), "End 4( 5 6 )");
    walk.forward();
    assert_eq!(seen(walk.get()), "None");
    walk.forward();
    assert_eq!(seen(walk.get()), "None");
    walk.forward();
    assert_eq!(walk.into_forest().degree(), 2);
}

#[test]
fn forest_walk_next() {
    let forest = -tr(1) - tr(2) - tr(3);
    let mut walk = ForestWalk::from(forest);
    assert_eq!(seen(walk.next()), "Leaf 2");
    assert_eq!(seen(walk.next()), "Leaf 3");
    assert_eq!(seen(walk.next()), "None");
    assert_eq!(seen(walk.next()), "None");
}

#[test]
fn forest_walk_to_parent() {
    let mut walk = ForestWalk::from(sample_forest());
    assert_eq!(seen(walk.get()), "Begin 1( 2 3 )");
    walk.forward();
    assert_eq!(seen(walk.get()), "Leaf 2");
    assert_eq!(seen(walk.to_parent()), "End 1( 2 3 )");
}

#[test]
fn forest_walk_get_parent() {
    let mut walk = ForestWalk::from(sample_forest());
    assert_eq!(seen(walk.get()), "Begin 1( 2 3 )");
    assert!(walk.get_parent().is_none());
    walk.forward();
    assert_eq!(seen(walk.get()), "Leaf 2");
    assert_eq!(show(walk.get_parent().unwrap()), "1( 2 3 )");
}

#[test]
fn forest_walk_to_child() {
    let mut walk = ForestWalk::from(sample_forest());
    assert_eq!(seen(walk.get()), "Begin 1( 2 3 )");
    walk.to_child(1);
    assert_eq!(seen(walk.get()), "Leaf 3");
}

#[test]
fn forest_walk_to_sib() {
    let forest = -tr(1) - tr(2) - tr(3);
    let mut walk = ForestWalk::from(forest);
    assert_eq!(seen(walk.get()), "Leaf 1");
    assert_eq!(seen(walk.to_sib(0)), "Leaf 1");
    assert_eq!(seen(walk.to_sib(2)), "Leaf 3");
}

#[test]
fn forest_walk_revisit() {
    let mut walk = ForestWalk::from(sample_forest());
    for _ in 0..3 {
        walk.revisit();
        assert_eq!(seen(walk.get()), "Begin 1( 2 3 )");
        for _ in 0..3 {
            walk.revisit();
            assert_eq!(seen(walk.get()), "Begin 1( 2 3 )");
            walk.forward();
            assert_eq!(seen(walk.get()), "Leaf 2");
            walk.forward();
            assert_eq!(seen(walk.get()), "Leaf 3");
            walk.forward();
            assert_eq!(seen(walk.get()), "End 1( 2 3 )");
        }
        walk.forward();
        for _ in 0..3 {
            walk.revisit();
            assert_eq!(seen(walk.get()), "Begin 4( 5 6 )");
            walk.forward();
            assert_eq!(seen(walk.get()), "Leaf 5");
            walk.forward();
            assert_eq!(seen(walk.get()), "Leaf 6");
            walk.forward();
            assert_eq!(seen(walk.get()), "End 4( 5 6 )");
        }
        walk.forward();
        assert_eq!(seen(walk.get()), "None");
        walk.forward();
        assert_eq!(seen(walk.get()), "None");
    }
}

#[test]
fn walk_yields_every_visit_in_order() {
    let tree = sample();
    let mut walk = Walk::new(tree.root());
    let mut all = Vec::new();
    loop {
        let visit = walk.next();
        if visit.is_none() {
            break;
        }
        all.push(seen(visit));
    }
    assert_eq!(
        all,
        vec![
            "Begin 0( 1( 2 3 ) 4( 5 6 ) )",
            "Begin 1( 2 3 )",
            "Leaf 2",
            "Leaf 3",
            "End 1( 2 3 )",
            "Begin 4( 5 6 )",
            "Leaf 5",
            "Leaf 6",
            "End 4( 5 6 )",
            "End 0( 1( 2 3 ) 4( 5 6 ) )",
        ]
    );
    assert_eq!(seen(walk.next()), "None");
    let leaf = tr(9);
    walk.on(leaf.root());
    assert_eq!(seen(walk.next()), "Leaf 9");
    assert_eq!(seen(walk.next()), "None");
    let other = tr(1) / tr(2);
    let mut walk = other.root().walk();
    assert_eq!(seen(walk.next()), "Begin 1( 2 )");
    assert_eq!(seen(walk.next()), "Leaf 2");
    assert_eq!(seen(walk.next()), "End 1( 2 )");
    assert_eq!(seen(walk.next()), "None");
}
