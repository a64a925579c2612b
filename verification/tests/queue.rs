use par_dfs::collatz::CollatzNode;
use par_dfs::sync::queue::unvisited;
use par_dfs::sync::queue::Queue;
use par_dfs::sync::queue::QueueWrapper;
use par_dfs::sync::ExtendQueue;
use std::collections::HashSet;
use std::convert::Infallible;

type Entry = (usize, Result<CollatzNode, String>);

fn node(n: u32) -> Result<CollatzNode, String> {
    Ok(CollatzNode(n))
}

fn drain_front(mut queue: Queue<CollatzNode, String>) -> Vec<Entry> {
    let mut out = Vec::new();
    while let Some(entry) = queue.pop_front() {
        out.push(entry);
    }
    out
}

#[test]
fn new_queue_is_empty() {
    let mut queue: Queue<CollatzNode, String> = Queue::new(true);
    assert_eq!(queue.len(), 0);
    assert!(queue.is_empty());
    assert_eq!(queue.pop_front(), None);
    assert_eq!(queue.pop_back(), None);
    let queue: Queue<CollatzNode, String> = Queue::default();
    assert!(queue.is_empty());
}

#[test]
fn add_appends_everything_when_circles_are_allowed() {
    let mut queue = Queue::new(true);
    queue.add(1, node(7));
    queue.add(2, node(7));
    queue.add(2, Err("lost".to_string()));
    assert_eq!(queue.len(), 3);
    assert!(!queue.is_empty());
    assert_eq!(
        drain_front(queue),
        vec![(1, node(7)), (2, node(7)), (2, Err("lost".to_string()))]
    );
}

#[test]
fn add_drops_seen_nodes_and_keeps_failures() {
    let mut queue = Queue::new(false);
    queue.add(1, node(7));
    queue.add(2, node(7));
    queue.add(2, Err("lost".to_string()));
    queue.add(3, Err("lost".to_string()));
    queue.add(3, node(8));
    assert_eq!(
        drain_front(queue),
        vec![
            (1, node(7)),
            (2, Err("lost".to_string())),
            (3, Err("lost".to_string())),
            (3, node(8))
        ]
    );
}

#[test]
fn default_queue_suppresses_repeats() {
    let mut queue: Queue<CollatzNode, String> = Queue::default();
    queue.add(1, node(7));
    queue.add(1, node(7));
    assert_eq!(queue.len(), 1);
}

#[test]
fn a_popped_node_stays_seen() {
    let mut queue = Queue::new(false);
    queue.add(1, node(7));
    assert_eq!(queue.pop_back(), Some((1, node(7))));
    queue.add(2, node(7));
    assert!(queue.is_empty());
}

#[test]
fn add_all_collapses_repeats_within_the_batch() {
    let mut queue = Queue::new(false);
    queue.add_all(4, vec![node(1), node(2), node(1), Err("x".to_string()), node(2), node(3)]);
    assert_eq!(
        drain_front(queue),
        vec![(4, node(1)), (4, node(2)), (4, Err("x".to_string())), (4, node(3))]
    );
}

#[test]
fn add_all_keeps_the_order_of_the_batch() {
    let mut queue = Queue::new(true);
    queue.add(0, node(9));
    queue.add_all(1, vec![node(3), node(1), node(3)]);
    queue.add_all(1, Vec::new());
    assert_eq!(
        drain_front(queue),
        vec![(0, node(9)), (1, node(3)), (1, node(1)), (1, node(3))]
    );
}

#[test]
fn expand_offers_children_or_the_failure() {
    let mut queue = Queue::new(false);
    queue.expand(1, Ok(vec![node(5), node(5), node(6)]));
    queue.expand(2, Err("gone".to_string()));
    assert_eq!(
        drain_front(queue),
        vec![(1, node(5)), (1, node(6)), (2, Err("gone".to_string()))]
    );
}

#[test]
fn expand_in_place_lets_the_node_offer() {
    let mut queue: Queue<CollatzNode, Infallible> = Queue::new(false);
    queue.add(0, Ok(CollatzNode(3)));
    queue.expand_in_place(&CollatzNode(10), 1);
    let mut found = Vec::new();
    while let Some((depth, item)) = queue.pop_front() {
        found.push((depth, item.unwrap().0));
    }
    // 3 was seen before, so only 20 is new
    assert_eq!(found, vec![(0, 3), (1, 20)]);
}

#[test]
fn mark_hides_a_node_from_a_suppressing_queue() {
    let mut queue = Queue::new(false);
    queue.mark(7);
    queue.add(1, node(7));
    queue.add(1, node(8));
    assert_eq!(drain_front(queue), vec![(1, node(8))]);
    let mut queue = Queue::new(true);
    queue.mark(7);
    queue.add(1, node(7));
    assert_eq!(drain_front(queue), vec![(1, node(7))]);
}

#[test]
fn pops_take_from_both_ends() {
    let mut queue = Queue::new(true);
    queue.add_all(1, vec![node(1), node(2), node(3)]);
    assert_eq!(queue.pop_front(), Some((1, node(1))));
    assert_eq!(queue.pop_back(), Some((1, node(3))));
    assert_eq!(queue.len(), 1);
    assert_eq!(queue.pop_back(), Some((1, node(2))));
    assert_eq!(queue.pop_front(), None);
}

#[test]
fn split_off_covers_the_queue_at_half_its_length() {
    let mut queue = Queue::new(true);
    queue.add_all(1, vec![node(1), node(2), node(3), node(4), node(5)]);
    let n = queue.len();
    let tail = queue.split_off(n / 2);
    assert_eq!(queue.len(), 2);
    assert_eq!(tail.len(), 3);
    let mut all = drain_front(queue);
    all.extend(drain_front(tail));
    assert_eq!(
        all,
        vec![(1, node(1)), (1, node(2)), (1, node(3)), (1, node(4)), (1, node(5))]
    );
}

#[test]
fn split_off_at_the_ends() {
    let mut queue = Queue::new(true);
    queue.add_all(1, vec![node(1), node(2)]);
    let tail = queue.split_off(2);
    assert_eq!(queue.len(), 2);
    assert!(tail.is_empty());
    let tail = queue.split_off(0);
    assert!(queue.is_empty());
    assert_eq!(tail.len(), 2);
}

#[test]
fn split_off_switches_suppression_off_in_both_halves() {
    let mut queue = Queue::new(false);
    queue.add_all(1, vec![node(1), node(2)]);
    let mut tail = queue.split_off(1);
    queue.add(2, node(1));
    queue.add(2, node(1));
    tail.add(2, node(2));
    assert_eq!(drain_front(queue), vec![(1, node(1)), (2, node(1)), (2, node(1))]);
    assert_eq!(drain_front(tail), vec![(1, node(2)), (2, node(2))]);
}

#[test]
fn unvisited_reports_and_records() {
    let mut seen = HashSet::new();
    assert!(unvisited(&mut seen, 4));
    assert!(!unvisited(&mut seen, 4));
    assert!(unvisited(&mut seen, 5));
    assert_eq!(seen.len(), 2);
}

#[test]
fn wrapper_offers_at_its_depth() {
    let mut queue = Queue::new(false);
    queue.add(1, node(1));
    let mut wrapper = QueueWrapper::new(6, queue);
    wrapper.add(node(2));
    wrapper.add(node(1));
    wrapper.add_all(vec![node(3), node(2), Err("e".to_string())]);
    let queue = wrapper.into_inner();
    assert_eq!(
        drain_front(queue),
        vec![(1, node(1)), (6, node(2)), (6, node(3)), (6, Err("e".to_string()))]
    );
}
