use trees::linked::fully::tree::Tree as LinkedTree;
use trees::potted::forest::Forest;
use trees::potted::node::NullIndex;
use trees::potted::notation::fr;
use trees::potted::pot::{Pot, NULL, ROOT};
use trees::potted::tree::Tree;
use trees::size::Size;

fn show(pot: &Pot<&'static str>, index: usize) -> String {
    let mut s = match pot.data(index) {
        Some(data) => data.to_string(),
        None => String::new(),
    };
    if !pot.is_leaf(index) {
        s.push_str("( ");
        let mut n = 0;
        while let Some(child) = pot.nth_child(index, n) {
            s.push_str(&show(pot, child));
            s.push(' ');
            n += 1;
        }
        s.push(')');
    }
    s
}

fn show_ints(pot: &Pot<i32>, index: usize) -> String {
    let mut s = match pot.data(index) {
        Some(data) => data.to_string(),
        None => String::new(),
    };
    if !pot.is_leaf(index) {
        s.push_str("( ");
        let mut n = 0;
        while let Some(child) = pot.nth_child(index, n) {
            s.push_str(&show_ints(pot, child));
            s.push(' ');
            n += 1;
        }
        s.push(')');
    }
    s
}

fn linked_sample() -> LinkedTree<i32> {
    let mut one = LinkedTree::new(1);
    one.root_mut().push_back(LinkedTree::new(2));
    one.root_mut().push_back(LinkedTree::new(3));
    let mut four = LinkedTree::new(4);
    four.root_mut().push_back(LinkedTree::new(5));
    four.root_mut().push_back(LinkedTree::new(6));
    let mut tree = LinkedTree::new(0);
    tree.root_mut().push_back(one);
    tree.root_mut().push_back(four);
    tree
}

#[test]
fn test_crud() {
    let mut tree = Tree::new("0");
    assert_eq!(show(tree.pot(), ROOT), "0");

    tree.pot_mut().append(ROOT, "1");
    assert_eq!(show(tree.pot(), ROOT), "0( 1 )");

    let two = tree.pot_mut().append(ROOT, "2");
    tree.pot_mut().append(two, "3");
    assert_eq!(show(tree.pot(), ROOT), "0( 1 2( 3 ) )");

    tree.pot_mut().set_data(ROOT, "_");
    assert_eq!(show(tree.pot(), ROOT), "_( 1 2( 3 ) )");

    tree.pot_mut().append(ROOT, "4");
    assert_eq!(show(tree.pot(), ROOT), "_( 1 2( 3 ) 4 )");

    assert_eq!(tree.pot().nth_child(1, 0).unwrap(), 2);
    assert_eq!(tree.pot().nth_child(1, 1).unwrap(), 3);
    assert_eq!(tree.pot().nth_child(1, 2).unwrap(), 5);
    assert_eq!(tree.pot().nth_child(1, 3), None);

    let second = tree.pot().nth_child(ROOT, 1).unwrap();
    tree.pot_mut().drop_back(second);
    assert_eq!(show(tree.pot(), ROOT), "_( 1 2 4 )");

    tree.pot_mut().drop_back(ROOT);
    assert_eq!(show(tree.pot(), ROOT), "_( 1 2 )");

    tree.pot_mut().drop_back(ROOT);
    assert_eq!(show(tree.pot(), ROOT), "_( 1 )");

    tree.pot_mut().drop_back(ROOT);
    assert_eq!(show(tree.pot(), ROOT), "_");
}

#[test]
fn tree_from_bfs() {
    let linked = linked_sample();
    let potted = Tree::from_bfs(linked.into_bfs());
    assert_eq!(show_ints(potted.pot(), ROOT), "0( 1( 2 3 ) 4( 5 6 ) )");
    assert_eq!(potted.node_count(), 7);
    assert_eq!(potted.degree(), 2);
}

#[test]
fn forest_from_bfs() {
    let mut linked = linked_sample();
    let forest = linked.abandon();
    let potted = Forest::from_bfs(forest.into_bfs());
    assert_eq!(show_ints(potted.pot(), ROOT), "( 1( 2 3 ) 4( 5 6 ) )");
    assert_eq!(potted.degree(), 2);
}

#[test]
fn sizes_follow_every_change() {
    let mut tree = Tree::new(0);
    let a = tree.pot_mut().append(ROOT, 1);
    let b = tree.pot_mut().append(a, 2);
    tree.pot_mut().append(b, 3);
    tree.pot_mut().append(a, 4);
    assert_eq!(tree.pot().node_cnt(ROOT), 5);
    assert_eq!(tree.pot().node_cnt(a), 4);
    assert_eq!(tree.pot().node_cnt(b), 2);
    assert_eq!(tree.pot().degree(a), 2);
    tree.pot_mut().drop_front(a);
    assert_eq!(tree.pot().node_cnt(ROOT), 3);
    assert_eq!(tree.pot().node_cnt(a), 2);
    assert_eq!(tree.pot().degree(a), 1);
    assert_eq!(tree.pot().node_cnt(b), 2);
    assert_eq!(tree.pot().parent(b), 0);
    let (data, forest) = tree.abandon();
    assert_eq!(data, 0);
    assert_eq!(show_ints(forest.pot(), ROOT), "( 1( 4 ) )");
    let tree = forest.adopt(9);
    assert_eq!(show_ints(tree.pot(), ROOT), "9( 1( 4 ) )");
}

#[test]
fn tree_from_tuple() {
    let tuple = (0, (1, 2, 3), (4, 5, 6));
    let potted = Tree::<i32>::from_tuple(tuple);
    assert_eq!(show_ints(potted.pot(), ROOT), "0( 1( 2 3 ) 4( 5 6 ) )");
    assert_eq!(potted.node_count(), 7);
}

#[test]
fn forest_from_tuple() {
    let tuple = (fr(), (2, 3, 4), (5, 6, 7));
    let potted = Forest::<i32>::from_tuple(tuple);
    assert_eq!(show_ints(potted.pot(), ROOT), "( 2( 3 4 ) 5( 6 7 ) )");
    assert_eq!(potted.degree(), 2);
    assert!(!potted.is_empty());
    assert!(Forest::<i32>::new().is_empty());
    assert_eq!(show_ints(Forest::<i32>::from_tuple((fr(),)).pot(), ROOT), "");
}

#[test]
fn test_tree_to_string() {
    let tree = Tree::from_tuple(("0", ("1", "2", "3"), ("4", "5", "6")));
    assert_eq!(show(tree.pot(), ROOT), "0( 1( 2 3 ) 4( 5 6 ) )");
}

#[test]
fn test_grow() {
    let mut tree = Tree::from_tuple((0, 1, 2));
    {
        let first = tree.pot().nth_child(ROOT, 0).unwrap();
        let second = tree.pot().nth_child(ROOT, 1).unwrap();
        tree.pot_mut().append_fr(second, (fr(), 3, 4, 5, 6, 7));
        tree.pot_mut().append_fr(first, (fr(), 8, 9));
    }
    let expected = Tree::from_tuple((0, (1, 8, 9), (2, 3, 4, 5, 6, 7)));
    assert_eq!(show_ints(tree.pot(), ROOT), show_ints(expected.pot(), ROOT));
    assert_eq!(show_ints(tree.pot(), ROOT), "0( 1( 8 9 ) 2( 3 4 5 6 7 ) )");
    assert_eq!(tree.node_count(), expected.node_count());
}

#[test]
fn tuples_are_planted_where_asked() {
    let mut tree = Tree::from_tuple((0, 1, 2));
    tree.pot_mut().append_tr(ROOT, (3, 4));
    assert_eq!(show_ints(tree.pot(), ROOT), "0( 1 2 3( 4 ) )");
    tree.pot_mut().prepend_tr(ROOT, (5, 6, 7));
    assert_eq!(show_ints(tree.pot(), ROOT), "0( 5( 6 7 ) 1 2 3( 4 ) )");
    tree.pot_mut().insert_tr(ROOT, 2, 8);
    assert_eq!(show_ints(tree.pot(), ROOT), "0( 5( 6 7 ) 1 8 2 3( 4 ) )");
    tree.pot_mut().insert_tr(ROOT, 0, 9);
    tree.pot_mut().insert_tr(ROOT, 6, 10);
    assert_eq!(show_ints(tree.pot(), ROOT), "0( 9 5( 6 7 ) 1 8 2 3( 4 ) 10 )");
    tree.pot_mut().prepend_fr(ROOT, (fr(), 11, (12, 13)));
    assert_eq!(show_ints(tree.pot(), ROOT), "0( 11 12( 13 ) 9 5( 6 7 ) 1 8 2 3( 4 ) 10 )");
    assert_eq!(tree.node_count(), 14);
    assert_eq!(tree.degree(), 9);
    let leaf = tree.pot().nth_child(ROOT, 0).unwrap();
    tree.pot_mut().prepend(leaf, 14);
    tree.pot_mut().prepend(leaf, 15);
    tree.pot_mut().insert(leaf, 1, 16);
    tree.pot_mut().insert(leaf, 3, 17);
    tree.pot_mut().insert(leaf, 0, 18);
    assert_eq!(show_ints(tree.pot(), leaf), "11( 18 15 16 14 17 )");
    assert_eq!(tree.pot().node_cnt(leaf), 6);
    assert_eq!(tree.node_count(), 19);
    tree.pot_mut().drop_nth(leaf, 2);
    tree.pot_mut().drop_nth(leaf, 0);
    tree.pot_mut().drop_nth(leaf, 2);
    assert_eq!(show_ints(tree.pot(), leaf), "11( 15 14 )");
    assert_eq!(tree.node_count(), 16);
}

#[test]
fn breadth_first_over_a_pot() {
    let tree = Tree::from_tuple((0, (1, 2, 3), (4, 5, 6)));
    let bfs = tree.bfs();
    assert_eq!(bfs.size, Size { degree: 1, node_cnt: 7 });
    let visits = bfs.iter.collect();
    let seen: Vec<(i32, u32, u32)> = visits.iter().map(|v| (*v.data, v.size.degree, v.size.node_cnt)).collect();
    assert_eq!(seen, vec![(0, 2, 7), (1, 2, 3), (4, 2, 3), (2, 0, 1), (3, 0, 1), (5, 0, 1), (6, 0, 1)]);
    let (_, forest) = tree.abandon();
    let bfs = forest.bfs();
    assert_eq!(bfs.size, Size { degree: 2, node_cnt: 6 });
    let mut iter = bfs.iter;
    let mut data = Vec::new();
    while let Some(visit) = iter.next() {
        data.push(*visit.data);
    }
    assert_eq!(data, vec![1, 4, 2, 3, 5, 6]);
}

#[test]
fn children_of_a_potted_node() {
    let tree = Tree::from_tuple((0, (1, 2, 3), 4, 5));
    let mut iter = tree.iter();
    assert_eq!(iter.len(), 3);
    let first = iter.next().unwrap();
    assert_eq!(*first.data(), 1);
    assert_eq!(first.degree(), 2);
    assert_eq!(first.node_count(), 3);
    assert!(!first.is_leaf());
    let second = iter.next().unwrap();
    assert_eq!(*second.data(), 4);
    assert!(second.is_leaf());
    assert_eq!(second.index(), tree.pot().nth_child(ROOT, 1).unwrap());
    assert_eq!(*iter.next().unwrap().data(), 5);
    assert!(iter.next().is_none());
    assert_eq!(*tree.root().data(), 0);
    assert_eq!(tree.pot().head(ROOT), first.index());
    assert_eq!(tree.pot().tail(ROOT), tree.pot().nth_child(ROOT, 2).unwrap());
    assert_eq!(tree.pot().parent(first.index()), ROOT);
    assert_eq!(tree.pot().parent(ROOT), NULL);
    assert_eq!(tree.pot().len(), 7);
    assert!(usize::null().is_null());
    assert!(u32::null().is_null());
    assert!(!ROOT.is_null());
    assert!(!7u32.is_null());
}

#[test]
fn data_of_a_potted_node_can_be_changed() {
    let mut tree = Tree::from_tuple((0, 1));
    let child = tree.pot().nth_child(ROOT, 0).unwrap();
    tree.pot_mut().set_data(child, 5);
    assert_eq!(tree.pot().data(child), Some(&5));
    assert_eq!(show_ints(tree.pot(), ROOT), "0( 5 )");
    let mut forest = Forest::from_tuple((fr(), 1, 2));
    assert_eq!(forest.pot().data(ROOT), None);
    forest.pot_mut().prepend_bfs(ROOT, linked_sample().into_bfs().wrap());
    assert_eq!(show_ints(forest.pot(), ROOT), "( 0( 1( 2 3 ) 4( 5 6 ) ) 1 2 )");
    forest.pot_mut().append_bfs(ROOT, linked_sample().abandon().into_bfs().wrap());
    assert_eq!(show_ints(forest.pot(), ROOT), "( 0( 1( 2 3 ) 4( 5 6 ) ) 1 2 1( 2 3 ) 4( 5 6 ) )");
    assert_eq!(forest.degree(), 5);
}

#[test]
fn data_is_changed_in_place() {
    let mut tree = Tree::from_tuple((1, 2, 3));
    let child = tree.pot().nth_child(ROOT, 1).unwrap();
    *tree.pot_mut().data_mut(child) += 40;
    *tree.pot_mut().data_mut(ROOT) *= 10;
    assert_eq!(show_ints(tree.pot(), ROOT), "10( 2 43 )");
    assert_eq!(tree.node_count(), 3);
}
