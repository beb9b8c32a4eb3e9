use std::cell::Cell;
use std::cmp::Ordering;
use std::rc::Rc;
use trees::bfs::Visit as BfsVisit;
use trees::linked::fully::forest::Forest;
use trees::linked::fully::heap::make_node;
use trees::linked::fully::node::Node;
use trees::linked::fully::tree::Tree;
use trees::linked::notation::{fr, tr};
use trees::size::Size;

fn show<T: ToString>(node: &Node<T>) -> String {
    let mut s = node.data.to_string();
    if !node.is_leaf() {
        s.push_str("( ");
        let mut iter = node.iter();
        while let Some(child) = iter.next() {
            s.push_str(&show(child));
            s.push(' ');
        }
        s.push(')');
    }
    s
}

fn show_forest<T: ToString>(forest: &Forest<T>) -> String {
    if forest.is_empty() {
        return String::from("()");
    }
    let mut s = String::from("( ");
    let mut iter = forest.iter();
    while let Some(child) = iter.next() {
        s.push_str(&show(child));
        s.push(' ');
    }
    s.push(')');
    s
}

fn sample() -> Tree<i32> {
    tr(0) / (tr(1) / tr(2) / tr(3)) / (tr(4) / tr(5) / tr(6))
}

struct Counted {
    value: i32,
    count: Rc<Cell<usize>>,
}

impl Drop for Counted {
    fn drop(&mut self) {
        self.count.set(self.count.get() - 1);
    }
}

fn counted(value: i32, count: &Rc<Cell<usize>>) -> Tree<Counted> {
    count.set(count.get() + 1);
    tr(Counted { value, count: count.clone() })
}

#[test]
fn mod_tree_drop() {
    let count = Rc::new(Cell::new(0));
    let c = &count;
    let tree = counted(0, c) / (counted(1, c) / counted(2, c) / counted(3, c)) / (counted(4, c) / counted(5, c) / counted(6, c));
    assert_eq!(count.get(), 7);
    assert_eq!(tree.root().data.value, 0);
    drop(tree);
    assert_eq!(count.get(), 0);
}

#[test]
fn mod_tree_equal() {
    let tr1 = tr(0) / tr(1) / tr(2);
    let tr2 = tr(0) / tr(1) / tr(2);
    let tr3 = tr(0) / tr(1) / tr(3);
    assert!(tr1.eq(&tr2));
    assert!(!tr1.eq(&tr3));
}

#[test]
fn mod_notation() {
    let classic = tr(0) / (-(tr(1) / (-tr(2) - tr(3))) - (tr(4) / (-tr(5) - tr(6))));
    let mordern = tr(0) / (tr(1) / tr(2) / tr(3)) / (tr(4) / tr(5) / tr(6));
    assert_eq!(show(classic.root()), "0( 1( 2 3 ) 4( 5 6 ) )");
    assert_eq!(show(mordern.root()), "0( 1( 2 3 ) 4( 5 6 ) )");
}

#[test]
fn mod_forest_from() {
    let trees = [tr(0), tr(1) / tr(2) / tr(3), tr(4) / tr(5) / tr(6)];
    let mut copies = Vec::new();
    for tree in trees.iter() {
        copies.push(tree.clone());
    }
    let forest = Forest::from_iter(copies);
    assert!(forest.eq(&(tr(0) - tr(1) / tr(2) / tr(3) - tr(4) / tr(5) / tr(6))));
}

#[test]
fn mod_forest_into() {
    let forest = tr(0) - tr(1) / tr(2) / tr(3) - tr(4) / tr(5) / tr(6);
    let mut iter = forest.into_iter();
    assert!(iter.next().unwrap().eq(&tr(0)));
    assert!(iter.next().unwrap().eq(&(tr(1) / tr(2) / tr(3))));
    assert!(iter.next().unwrap().eq(&(tr(4) / tr(5) / tr(6))));
    assert!(iter.next().is_none());
}

#[test]
fn mod_tree_extend() {
    let mut tree = tr(0) / tr(1);
    tree.root_mut().extend(tr(2) - tr(3));
    assert!(tree.eq(&(tr(0) / tr(1) / tr(2) / tr(3))));
}

#[test]
fn mod_forest_extend() {
    let mut forest = tr(1) - tr(2);
    forest.extend((tr(3) - tr(4)).into_iter());
    assert!(forest.eq(&(tr(1) - tr(2) - tr(3) - tr(4))));
}

#[test]
fn borrow_forest() {
    let mut tree = tr(0) / tr(1) / tr(2);
    {
        let forest: &Forest<_> = tree.root().forest();
        assert_eq!(show_forest(forest), "( 1 2 )");
    }
    {
        let forest: &mut Forest<_> = tree.root_mut().forest_mut();
        let mut iter = forest.iter_mut();
        while let Some(node) = iter.next() {
            node.data *= 10;
        }
    }
    assert_eq!(show(tree.root()), "0( 10 20 )");
}

#[test]
fn abandon_then_append_gives_the_tree_back() {
    let mut tree = sample();
    let forest = tree.abandon();
    assert_eq!(show(tree.root()), "0");
    assert!(tree.root().is_leaf());
    assert_eq!(show_forest(&forest), "( 1( 2 3 ) 4( 5 6 ) )");
    tree.root_mut().append(forest);
    assert!(tree.eq(&sample()));
}

fn check_sizes(node: &Node<i32>) -> usize {
    let mut count = 1;
    let mut degree = 0;
    let mut iter = node.iter();
    while let Some(child) = iter.next() {
        count += check_sizes(child);
        degree += 1;
    }
    assert_eq!(node.node_count(), count);
    assert_eq!(node.degree(), degree);
    count
}

#[test]
fn sizes_hold_after_every_operation() {
    let mut tree = tr(0);
    check_sizes(tree.root());
    tree.root_mut().push_back(tr(1) / tr(2));
    check_sizes(tree.root());
    tree.root_mut().push_front(tr(3));
    check_sizes(tree.root());
    tree.root_mut().append(tr(4) - tr(5) / tr(6));
    check_sizes(tree.root());
    tree.root_mut().prepend(tr(7) - tr(8));
    check_sizes(tree.root());
    assert_eq!(show(tree.root()), "0( 7 8 3 1( 2 ) 4 5( 6 ) )");
    assert_eq!(tree.root().node_count(), 9);
    assert_eq!(tree.root().degree(), 6);
    tree.root_mut().pop_front();
    check_sizes(tree.root());
    tree.root_mut().pop_back();
    check_sizes(tree.root());
    assert_eq!(tree.root().node_count(), 6);
    {
        let mut iter = tree.root_mut().onto_iter();
        while let Some(mut sub) = iter.next() {
            if sub.node().data == 3 {
                sub.insert_before(tr(9) / tr(10));
            } else if sub.node().data == 1 {
                sub.depart();
            }
        }
    }
    check_sizes(tree.root());
    assert_eq!(show(tree.root()), "0( 8 9( 10 ) 3 4 )");
    assert_eq!(tree.root().node_count(), 6);
    tree.root_mut().first_mut().unwrap().push_back(tr(11));
    check_sizes(tree.root());
    assert_eq!(tree.root().node_count(), 7);
}

#[test]
fn push_back_is_fifo_and_push_front_is_lifo() {
    let mut forest = fr();
    forest.push_back(tr('A'));
    forest.push_back(tr('B'));
    forest.push_back(tr('C'));
    assert_eq!(show_forest(&forest), "( A B C )");
    let mut forest = fr();
    forest.push_front(tr('A'));
    forest.push_front(tr('B'));
    forest.push_front(tr('C'));
    assert_eq!(show_forest(&forest), "( C B A )");
}

#[test]
fn pop_takes_from_the_end_it_names() {
    let mut forest = fr();
    forest.push_back(tr('A'));
    forest.push_back(tr('B'));
    assert_eq!(forest.pop_front().unwrap().root().data, 'A');
    assert_eq!(show_forest(&forest), "( B )");
    let mut forest = tr('A') - tr('B');
    assert_eq!(forest.pop_back().unwrap().root().data, 'B');
    assert_eq!(show_forest(&forest), "( A )");
    assert_eq!(forest.pop_back().unwrap().root().data, 'A');
    assert!(forest.is_empty());
    assert!(forest.pop_back().is_none());
    assert!(forest.pop_front().is_none());
}

#[test]
fn insert_after_is_not_visited() {
    let mut forest = tr(1) - tr(2) - tr(3);
    let mut seen = Vec::new();
    {
        let mut iter = forest.onto_iter();
        while let Some(mut sub) = iter.next() {
            seen.push(sub.node().data);
            sub.insert_after(tr(99));
        }
    }
    assert_eq!(seen, vec![1, 2, 3]);
    assert_eq!(show_forest(&forest), "( 1 99 2 99 3 99 )");
}

#[test]
fn insert_before_is_not_visited() {
    let mut forest = tr(1) - tr(2) - tr(3);
    let mut seen = Vec::new();
    {
        let mut iter = forest.onto_iter();
        while let Some(mut sub) = iter.next() {
            seen.push(sub.node().data);
            sub.insert_before(tr(0));
        }
    }
    assert_eq!(seen, vec![1, 2, 3]);
    assert_eq!(show_forest(&forest), "( 0 1 0 2 0 3 )");
}

#[test]
fn depart_while_iterating() {
    let mut forest = fr();
    for i in 1..7 {
        forest.push_back(tr(i));
    }
    {
        let mut iter = forest.onto_iter();
        while let Some(sub) = iter.next() {
            let data = sub.node().data;
            if data % 2 == 0 || data % 3 == 0 {
                sub.depart();
            }
        }
    }
    assert_eq!(show_forest(&forest), "( 1 5 )");
}

#[test]
fn departing_the_last_remaining_tree_leaves_a_leaf() {
    let mut tree = tr(0) / tr(1);
    {
        let mut iter = tree.root_mut().onto_iter();
        let sub = iter.next().unwrap();
        let gone = sub.depart();
        assert_eq!(gone.root().data, 1);
        assert!(iter.next().is_none());
    }
    assert!(tree.root().is_leaf());
    assert_eq!(tree.root().degree(), 0);
    let mut forest = -tr(7);
    {
        let mut iter = forest.onto_iter();
        while let Some(sub) = iter.next() {
            sub.depart();
        }
    }
    assert!(forest.is_empty());
    forest.push_back(tr(8));
    assert_eq!(show_forest(&forest), "( 8 )");
}

#[test]
fn insert_after_then_depart_in_one_visit() {
    let mut forest = tr(1) - tr(2) - tr(3);
    {
        let mut iter = forest.onto_iter();
        while let Some(mut sub) = iter.next() {
            let data = sub.node().data;
            sub.insert_after(tr(data * 10));
            if data == 2 {
                sub.insert_before(tr(-2));
                sub.depart();
            }
        }
    }
    assert_eq!(show_forest(&forest), "( 1 10 -2 20 3 30 )");
}

fn grow(depth: u32, width: u32, count: &Rc<Cell<usize>>) -> Tree<Counted> {
    let mut tree = counted(depth as i32, count);
    if depth > 1 {
        for _ in 0..width {
            tree.root_mut().push_back(grow(depth - 1, width, count));
        }
    }
    tree
}

#[test]
fn every_node_is_dropped_once() {
    let count = Rc::new(Cell::new(0));
    let tree = grow(4, 3, &count);
    assert_eq!(count.get(), (81 - 1) / (3 - 1));
    assert_eq!(tree.root().node_count(), 40);
    drop(tree);
    assert_eq!(count.get(), 0);

    let mut tree = grow(3, 2, &count);
    assert_eq!(count.get(), 7);
    let popped = tree.root_mut().pop_front().unwrap();
    drop(tree);
    assert_eq!(count.get(), 3);
    drop(popped);
    assert_eq!(count.get(), 0);

    let tree = grow(3, 2, &count);
    let visits = tree.into_bfs().iter.collect();
    assert_eq!(visits.len(), 7);
    assert_eq!(count.get(), 7);
    drop(visits);
    assert_eq!(count.get(), 0);
}

#[test]
fn append_joins_two_forests_in_order() {
    let mut left = tr('A') - tr('B');
    let right = tr('C') - tr('D');
    left.append(right);
    assert_eq!(show_forest(&left), "( A B C D )");
    assert_eq!(left.degree(), 4);
    let mut other = tr('X') - tr('Y');
    other.prepend(left);
    assert_eq!(show_forest(&other), "( A B C D X Y )");
    let count = Rc::new(Cell::new(0));
    let mut one = -counted(1, &count) - counted(2, &count);
    let two = -counted(3, &count) - counted(4, &count);
    one.append(two);
    assert_eq!(count.get(), 4);
    drop(one);
    assert_eq!(count.get(), 0);
}

#[test]
fn depth_first_and_breadth_first_orders() {
    let mut tree = Tree::new(0);
    tree.root_mut().push_back(Tree::new(1));
    tree.root_mut().push_back(Tree::new(4));
    {
        let mut children = tree.root_mut().iter_mut();
        let node_1 = children.next().unwrap();
        node_1.push_back(Tree::new(2));
        node_1.push_back(Tree::new(3));
        let node_4 = children.next().unwrap();
        node_4.push_back(Tree::new(5));
        node_4.push_back(Tree::new(6));
    }
    assert_eq!(show(tree.root()), "0( 1( 2 3 ) 4( 5 6 ) )");

    let mut pre = Vec::new();
    let mut walk = tree.root().walk();
    while let Some(visit) = walk.next() {
        match visit {
            trees::linked::fully::walk::Visit::Begin(node) => pre.push(node.data),
            trees::linked::fully::walk::Visit::Leaf(node) => pre.push(node.data),
            trees::linked::fully::walk::Visit::End(_) => {},
        }
    }
    assert_eq!(pre, vec![0, 1, 2, 3, 4, 5, 6]);

    let mut level = Vec::new();
    let mut bfs = tree.root().bfs().iter;
    while let Some(visit) = bfs.next() {
        level.push(*visit.data);
    }
    assert_eq!(level, vec![0, 1, 4, 2, 3, 5, 6]);
}

fn same(visit: &BfsVisit<&i32>, data: i32, degree: u32, node_cnt: u32) -> bool {
    *visit.data == data && visit.size == Size { degree, node_cnt }
}

#[test]
fn breadth_first_visits_carry_sizes() {
    let tree = sample();
    let bfs = tree.root().bfs();
    assert_eq!(bfs.size, Size { degree: 1, node_cnt: 7 });
    let visits = bfs.iter.collect();
    assert_eq!(visits.len(), 7);
    assert!(same(&visits[0], 0, 2, 7));
    assert!(same(&visits[1], 1, 2, 3));
    assert!(same(&visits[2], 4, 2, 3));
    assert!(same(&visits[3], 2, 0, 1));
    assert!(same(&visits[4], 3, 0, 1));
    assert!(same(&visits[5], 5, 0, 1));
    assert!(same(&visits[6], 6, 0, 1));

    let forest = tr(1) / tr(2) / tr(3) - tr(4) / tr(5) / tr(6);
    let bfs = forest.bfs();
    assert_eq!(bfs.size, Size { degree: 2, node_cnt: 6 });
    let mut iter = bfs.wrap().iter();
    let mut seen = Vec::new();
    while let Some(visit) = iter.next() {
        seen.push((*visit.data, visit.size.degree, visit.size.node_cnt));
    }
    assert_eq!(seen, vec![(1, 2, 3), (4, 2, 3), (2, 0, 1), (3, 0, 1), (5, 0, 1), (6, 0, 1)]);

    let moved = forest.into_bfs().wrap();
    assert!(moved.tree_iter().is_none());
    let (iter, size) = sample().into_bfs().wrap().iter_and_size();
    assert_eq!(size, Size { degree: 1, node_cnt: 7 });
    let data: Vec<i32> = iter.collect().into_iter().map(|visit| visit.data).collect();
    assert_eq!(data, vec![0, 1, 4, 2, 3, 5, 6]);
}

#[test]
fn first_and_last_children() {
    let mut tree = tr(0) / tr(1) / tr(2) / tr(3);
    assert_eq!(tree.root().first().unwrap().data, 1);
    assert_eq!(tree.root().last().unwrap().data, 3);
    tree.root_mut().first_mut().unwrap().data = 10;
    tree.root_mut().last_mut().unwrap().push_back(tr(4));
    assert_eq!(show(tree.root()), "0( 10 2 3( 4 ) )");
    let mut leaf = tr(5);
    assert!(leaf.root().first().is_none());
    assert!(leaf.root().last().is_none());
    assert!(leaf.root_mut().first_mut().is_none());
    assert!(leaf.root_mut().last_mut().is_none());
    assert!(leaf.root_mut().pop_front().is_none());
    assert!(leaf.root().iter().next().is_none());
    let mut forest = tr(1) - tr(2);
    assert_eq!(forest.first().unwrap().data, 1);
    assert_eq!(forest.last().unwrap().data, 2);
    forest.first_mut().unwrap().data = 7;
    forest.last_mut().unwrap().data = 9;
    assert_eq!(show_forest(&forest), "( 7 9 )");
    assert_eq!(forest.node_count(), 2);
}

#[test]
fn push_and_pop_examples() {
    let mut tree = tr(0);
    tree.root_mut().push_front(tr(1));
    assert_eq!(show(tree.root()), "0( 1 )");
    tree.root_mut().push_front(tr(2));
    assert_eq!(show(tree.root()), "0( 2 1 )");
    let mut tree = tr(0) / tr(1) / tr(2);
    assert!(tree.root_mut().pop_front().unwrap().eq(&tr(1)));
    assert_eq!(show(tree.root()), "0( 2 )");
    assert!(tree.root_mut().pop_front().unwrap().eq(&tr(2)));
    assert_eq!(show(tree.root()), "0");
    let mut tree = tr(0) / tr(1) / tr(2);
    assert!(tree.root_mut().pop_back().unwrap().eq(&tr(2)));
    assert_eq!(show(tree.root()), "0( 1 )");
    let mut tree = tr(0);
    tree.root_mut().prepend(-tr(1) - tr(2));
    assert_eq!(show(tree.root()), "0( 1 2 )");
    tree.root_mut().prepend(-tr(3) - tr(4));
    assert_eq!(show(tree.root()), "0( 3 4 1 2 )");
    let mut tree = tr(0);
    tree.root_mut().append(-tr(1) - tr(2));
    tree.root_mut().append(-tr(3) - tr(4));
    assert_eq!(show(tree.root()), "0( 1 2 3 4 )");
    tree.root_mut().set_data(5);
    assert_eq!(*tree.root().data(), 5);
    let (data, forest) = tree.into_parts();
    assert_eq!(data, 5);
    assert_eq!(show_forest(&forest), "( 1 2 3 4 )");
    let tree = Tree::from_parts(6, forest);
    assert_eq!(show(tree.root()), "6( 1 2 3 4 )");
}

#[test]
fn references_in_notation_copy_the_trees() {
    let one = tr(1) / tr(2);
    let two = tr(3);
    let forest = &one - &two;
    assert_eq!(show_forest(&forest), "( 1( 2 ) 3 )");
    let tree = &one / &forest;
    assert_eq!(show(tree.root()), "1( 2 1( 2 ) 3 )");
    let tree = &one / &two / ();
    assert_eq!(show(tree.root()), "1( 2 3 )");
    let forest = &forest - &one - &forest;
    assert_eq!(show_forest(&forest), "( 1( 2 ) 3 1( 2 ) 1( 2 ) 3 )");
    assert_eq!(show(one.root()), "1( 2 )");
    assert_eq!(show_forest(&(-&two)), "( 3 )");
    assert!(one.root().to_owned().eq(&one));
}

#[test]
fn sizes_add_up_count_by_count() {
    let a = Size { degree: 2, node_cnt: 7 };
    let b = Size { degree: 1, node_cnt: 3 };
    assert_eq!(a + b, Size { degree: 3, node_cnt: 10 });
    assert_eq!(a - b, Size { degree: 1, node_cnt: 4 });
    let mut c = a;
    c.add_assign(b);
    assert_eq!(c, Size { degree: 3, node_cnt: 10 });
    c.sub_assign(a);
    assert_eq!(c, b);
}

#[test]
fn a_made_node_is_a_leaf() {
    let node = make_node(5);
    assert!(node.is_leaf());
    assert_eq!(node.degree(), 0);
    assert_eq!(node.node_count(), 1);
    assert_eq!(node.data, 5);
}

#[test]
fn wrapped_visits_know_what_they_are_of() {
    let tree = sample();
    assert!(tree.root().bfs().wrap().forest_iter().is_none());
    assert!(tree.root().bfs().wrap().tree_iter().is_some());
    let forest = tr(1) - tr(2);
    assert!(forest.bfs().wrap().tree_iter().is_none());
    let mut iter = forest.bfs().wrap().forest_iter().unwrap();
    assert_eq!(*iter.next().unwrap().data, 1);
    assert_eq!(*iter.next().unwrap().data, 2);
    assert!(iter.next().is_none());
}

#[test]
fn trees_are_ordered_by_data_then_by_children() {
    let a = tr(1) / tr(2) / tr(3);
    let b = tr(1) / tr(2) / tr(4);
    let c = tr(1) / tr(2);
    let d = tr(0) / tr(9) / tr(9) / tr(9);
    assert_eq!(a.cmp(&b), Ordering::Less);
    assert_eq!(b.cmp(&a), Ordering::Greater);
    assert_eq!(a.cmp(&a), Ordering::Equal);
    assert_eq!(c.cmp(&a), Ordering::Less);
    assert_eq!(a.cmp(&c), Ordering::Greater);
    assert_eq!(d.cmp(&a), Ordering::Less);
    assert_eq!(a.partial_cmp(&b), Some(Ordering::Less));
    assert_eq!(a.root().partial_cmp(c.root()), Some(Ordering::Greater));
    assert_eq!(a.root().cmp(a.root()), Ordering::Equal);
    let f = tr(1) - tr(2);
    let g = tr(1) - tr(2) - tr(0);
    assert_eq!(f.cmp(&g), Ordering::Less);
    assert_eq!(g.partial_cmp(&f), Some(Ordering::Greater));
    assert_eq!(fr::<i32>().cmp(&fr()), Ordering::Equal);
    assert_eq!(f.partial_cmp(&f), Some(Ordering::Equal));
}
