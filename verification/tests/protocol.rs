use std::collections::HashSet;
use parallel_astar::{
    compute_recipient, route_message, BarrierSignal, Buffer, Channel, DynamicHurdle, Incumbent,
    Node, NodeTable, OpenSet, Point, SlotStatus,
};

fn node_at(x: i32, y: i32, g: i128) -> Node {
    Node::new(x, y, g, g, 0, Point::default())
}

#[test]
fn incumbent_keeps_the_cheaper_of_two_racing_updates() {
    // Two goal-reaching paths of cost 7 and 5 discovered in the same round:
    // whichever update lands first, the recorded cost is 5.
    let seven = node_at(3, 3, 7);
    let five = node_at(3, 3, 5);

    let mut first = Incumbent::new(node_at(0, 0, 0), i128::MAX);
    assert!(first.offer(seven, 7));
    assert!(first.offer(five, 5));
    assert_eq!(first.cost, 5);

    let mut second = Incumbent::new(node_at(0, 0, 0), i128::MAX);
    assert!(second.offer(five, 5));
    assert!(!second.offer(seven, 7));
    assert_eq!(second.cost, 5);
    assert_eq!(second.node.g, 5);
}

#[test]
fn incumbent_never_loses_the_minimum_over_many_offers() {
    let mut inc = Incumbent::new(node_at(0, 0, 0), i128::MAX);
    for g in [9i128, 4, 11, 4, 6, 3, 100, 3] {
        inc.offer(node_at(1, 1, g), g);
    }
    assert_eq!(inc.cost, 3);
}

#[test]
fn monotonic_best_stores_the_lower_cost_in_either_order() {
    // A position receiving updates with costs 5 and 9 ends at 5 both ways.
    let p = Point::new(2, 1);
    let mut t = NodeTable::new(4);
    assert!(t.should_accept(p, 9));
    t.set_open(node_at(2, 1, 9));
    assert!(t.should_accept(p, 5));
    t.set_open(node_at(2, 1, 5));
    assert!(!t.should_accept(p, 9));
    assert_eq!(t.stored(p).g, 5);

    let mut u = NodeTable::new(4);
    assert!(u.should_accept(p, 5));
    u.set_open(node_at(2, 1, 5));
    assert!(!u.should_accept(p, 9));
    assert_eq!(u.stored(p).g, 5);
}

#[test]
fn equal_cost_update_is_discarded() {
    let p = Point::new(0, 3);
    let mut t = NodeTable::new(4);
    t.set_open(node_at(0, 3, 7));
    assert!(!t.should_accept(p, 7));
}

#[test]
fn closing_a_slot_keeps_its_node() {
    let p = Point::new(1, 2);
    let mut t = NodeTable::new(3);
    assert!(matches!(t.status_of(p), SlotStatus::Absent));
    t.set_open(node_at(1, 2, 4));
    assert!(matches!(t.status_of(p), SlotStatus::Open));
    t.set_closed(p);
    assert!(matches!(t.status_of(p), SlotStatus::Closed));
    assert_eq!(t.stored(p).g, 4);
}

#[test]
fn open_set_pops_lowest_f_first_and_breaks_ties_by_arrival() {
    let mut open = OpenSet::new();
    let a = Node::new(0, 0, 7, 0, 7, Point::default());
    let b = Node::new(1, 1, 3, 1, 2, Point::default());
    let c = Node::new(2, 2, 3, 2, 1, Point::default());
    open.push(a);
    open.push(b);
    open.push(c);
    assert_eq!(open.best_f(), 3);
    // b and c tie on f; b entered the scan first.
    assert_eq!(open.pop_best().position, Point::new(1, 1));
    assert_eq!(open.pop_best().position, Point::new(2, 2));
    assert_eq!(open.pop_best().position, Point::new(0, 0));
    assert!(open.is_empty());
}

#[test]
fn router_is_deterministic_and_in_range() {
    let node = node_at(5, 9, 0);
    let empty: HashSet<i32> = HashSet::new();
    let first = compute_recipient(&node, &empty, 8, 2);
    let again = compute_recipient(&node, &empty, 8, 2);
    assert_eq!(first, again);
    assert!(0 <= first && first < 8);
    // A different worker count may move the owner, but stays in range.
    let other = compute_recipient(&node, &empty, 3, 1);
    assert!(0 <= other && other < 3);
}

#[test]
fn router_skips_excluded_owners_and_falls_back_to_self() {
    let node = node_at(4, 4, 0);
    let mut excluded: HashSet<i32> = HashSet::new();
    let primary = compute_recipient(&node, &excluded, 4, 1);
    excluded.insert(primary);
    let secondary = compute_recipient(&node, &excluded, 4, 1);
    assert_ne!(primary, secondary);
    // With every owner excluded the sender keeps the work itself.
    for i in 0..4 {
        excluded.insert(i);
    }
    assert_eq!(compute_recipient(&node, &excluded, 4, 1), 1);
}

#[test]
fn barrier_releases_when_every_participant_arrives() {
    let mut root = DynamicHurdle::new(3);
    let mut h = root.create();
    h.begin_wait();
    assert!(!h.wait(BarrierSignal::AtCheckPoint));
    assert!(!h.wait(BarrierSignal::AtCheckPoint));
    assert!(h.wait(BarrierSignal::AtCheckPoint));
}

#[test]
fn barrier_retirement_lowers_the_required_arrivals() {
    // Three participants; one retires. The survivors' round releases after
    // two arrivals plus the retirement signal, in any order.
    let mut root = DynamicHurdle::new(3);
    let mut h = root.create();
    let retiring = root.create();
    h.begin_wait();
    assert!(!h.wait(BarrierSignal::AtCheckPoint));
    assert!(!h.wait(retiring.exit()));
    assert!(h.wait(BarrierSignal::AtCheckPoint));

    let mut g = root.create();
    g.begin_wait();
    assert!(!g.wait(retiring.exit()));
    assert!(!g.wait(BarrierSignal::AtCheckPoint));
    assert!(g.wait(BarrierSignal::AtCheckPoint));
}

#[test]
fn barrier_handles_are_stamped_in_order() {
    let mut root = DynamicHurdle::new(2);
    let a = root.create();
    let b = root.create();
    assert_eq!(a.cur, 0);
    assert_eq!(b.cur, 1);
    assert_eq!(a.threads, 2);
}

#[test]
fn routing_counts_the_send_and_skips_closed_queues() {
    let node = node_at(2, 3, 1);
    let msg = Buffer(node, 1, node);
    let mut tried: HashSet<i32> = HashSet::new();
    let mut channels = vec![
        Channel { msgs: Vec::new(), closed: false },
        Channel { msgs: Vec::new(), closed: true },
    ];
    let mut sent: u64 = 0;
    let fallback = route_message(msg, 0, &mut tried, &mut channels, &mut sent, 2, 4);
    // The message was delivered to the one open queue and counted once;
    // the closed queue took nothing and the work was not dropped.
    assert!(fallback.is_none());
    assert_eq!(sent, 1);
    assert_eq!(channels[0].msgs.len(), 1);
    assert_eq!(channels[1].msgs.len(), 0);
    assert_eq!(channels[0].msgs[0].1, 1);
}
