//! Concrete engine scenarios: event sequences with known expected
//! forests and analysis results.

use flower::analysis::WeightMode;
use flower::events::{sat_add, sat_sub, FutexArgs, FutexEvent, FUTEX_PRIVATE_FLAG, FUTEX_REQUEUE, FUTEX_WAIT};
use flower::events::{FUTEX_WAIT_BITSET, FUTEX_WAKE, FUTEX_WAKE_BITSET};
use flower::flow_web::FlowWeb;

fn ev(tid: u32, uaddr: usize, futex_op: i32, ret: i64, timestamp_ns: u64) -> FutexEvent {
    FutexEvent {
        tid,
        args: FutexArgs { uaddr, futex_op, val: 0, uaddr2: 0, val3: 0 },
        timestamp_ns,
        ret,
    }
}

fn wake(tid: u32, uaddr: usize, ret: i64, t: u64) -> FutexEvent {
    ev(tid, uaddr, FUTEX_WAKE, ret, t)
}

fn wait(tid: u32, uaddr: usize, t: u64) -> FutexEvent {
    ev(tid, uaddr, FUTEX_WAIT, 0, t)
}

const X: usize = 0x1000;
const Y: usize = 0x2000;
const Z: usize = 0x3000;

#[test]
fn simple_chain() {
    let mut web = FlowWeb::new(None);
    web.process_event(wake(1, X, 1, 100));
    web.process_event(wait(2, X, 110));
    web.process_event(wake(2, Y, 1, 120));
    web.process_event(wait(3, Y, 130));

    // single root owned by thread 1, one child owned by thread 2
    assert_eq!(web.roots, vec![0]);
    assert_eq!(web.nodes[0].owner, 1);
    assert_eq!(web.nodes[0].children, vec![1]);
    assert_eq!(web.nodes[1].owner, 2);
    assert_eq!(web.nodes[1].parent, Some(0));
    assert!(web.nodes[1].children.is_empty());

    let path = web.analyze().expect("nonempty forest");
    assert_eq!(path.len(), 2);
    assert_eq!((path[0].tid, path[0].timestamp_ns), (1, 100));
    assert_eq!((path[1].tid, path[1].timestamp_ns), (2, 120));
    // time weight of the reported path
    assert_eq!(path[1].timestamp_ns - path[0].timestamp_ns, 20);
}

#[test]
fn credits_exhausted() {
    let mut web = FlowWeb::new(None);
    web.process_event(wake(1, X, 1, 0));
    web.process_event(wait(2, X, 1));
    web.process_event(wait(3, X, 2));

    // the second wait is dropped: credits are spent and thread 3 has
    // no cursor
    assert_eq!(web.nodes[0].max_wake_count, 0);
    assert!(web.by_tid.get(2).is_some());
    assert!(web.by_tid.get(3).is_none());
    assert_eq!(web.nodes.len(), 1);
}

#[test]
fn wait_before_wake() {
    let mut web = FlowWeb::new(None);
    web.process_event(wait(5, X, 0));
    // no address entry yet: dropped entirely
    assert!(web.roots.is_empty());
    assert!(web.by_tid.get(5).is_none());
    assert!(web.by_addr.get(X as u64).is_none());

    web.process_event(wake(1, X, 1, 10));
    web.process_event(wait(5, X, 20));
    // the second wait attaches thread 5 to the new node
    let cur = web.by_tid.get(5).expect("cursor for thread 5");
    assert_eq!(cur.position, Some(0));
    assert_eq!(web.nodes[0].max_wake_count, 0);
}

#[test]
fn window_eviction() {
    let mut web = FlowWeb::new(Some(1000));
    web.process_event(wake(1, X, 0, 0));
    assert_eq!(web.roots, vec![0]);

    web.process_event(wake(1, Y, 0, 2000));
    // the X node fell out of the window; the fresh Y node, although
    // created as its child, is promoted to the only root
    assert_eq!(web.roots, vec![1]);
    assert!(!web.live[0]);
    assert!(web.live[1]);
    assert_eq!(web.nodes[1].parent, None);
    assert!(web.by_addr.get(X as u64).is_none());
    assert_eq!(web.by_addr.get(Y as u64), Some(1));
    // the evicted node's slot is no longer referenced by the cursor
    let cur = web.by_tid.get(1).expect("cursor for thread 1");
    assert_eq!(cur.position, Some(1));
}

#[test]
fn unknown_command() {
    let mut web = FlowWeb::new(Some(1000));
    web.process_event(wake(1, X, 1, 5));
    let roots_before = web.roots.clone();
    let last_before = web.last_event_timestamp_ns;

    web.process_event(ev(9, Y, FUTEX_REQUEUE, 1, 50));
    web.process_event(ev(9, Y, FUTEX_REQUEUE | FUTEX_PRIVATE_FLAG, 1, 60));

    // no mutation at all, the clock included
    assert_eq!(web.roots, roots_before);
    assert_eq!(web.last_event_timestamp_ns, last_before);
    assert_eq!(web.nodes.len(), 1);
    assert!(web.by_tid.get(9).is_none());
    assert!(web.by_addr.get(Y as u64).is_none());
}

#[test]
fn fan_out() {
    let mut web = FlowWeb::new(None);
    web.process_event(wake(1, X, 2, 0));
    web.process_event(wait(2, X, 1));
    web.process_event(wait(3, X, 2));
    web.process_event(wake(2, Y, 1, 3));
    web.process_event(wait(4, Y, 4));

    // thread 2 sat on the X node, so its own wake hangs below it
    assert_eq!(web.roots, vec![0]);
    assert_eq!(web.nodes[0].children, vec![1]);
    assert_eq!(web.nodes[1].owner, 2);
    assert_eq!(web.by_tid.get(3).unwrap().position, Some(0));
    assert_eq!(web.by_tid.get(4).unwrap().position, Some(1));

    let path = web.analyze().expect("nonempty forest");
    assert_eq!(path.len(), 2);
    assert_eq!((path[0].tid, path[0].timestamp_ns), (1, 0));
    assert_eq!((path[1].tid, path[1].timestamp_ns), (2, 3));
    // the path's time weight is the gap between its two wakes
    assert_eq!(path[1].timestamp_ns - path[0].timestamp_ns, 3);
}

#[test]
fn bitset_variants_dispatch_like_base() {
    let mut web = FlowWeb::new(None);
    web.process_event(ev(1, X, FUTEX_WAKE_BITSET, 1, 10));
    web.process_event(ev(2, X, FUTEX_WAIT_BITSET, 0, 20));
    assert_eq!(web.nodes.len(), 1);
    assert_eq!(web.nodes[0].max_wake_count, 0);
    assert_eq!(web.by_tid.get(2).unwrap().position, Some(0));
}

#[test]
fn private_flag_is_masked_off() {
    let mut web = FlowWeb::new(None);
    web.process_event(ev(1, X, FUTEX_WAKE | FUTEX_PRIVATE_FLAG, 1, 10));
    web.process_event(ev(2, X, FUTEX_WAIT | FUTEX_PRIVATE_FLAG, 0, 20));
    assert_eq!(web.nodes.len(), 1);
    assert_eq!(web.by_tid.get(2).unwrap().position, Some(0));
}

#[test]
fn empty_forest_analyzes_to_none() {
    let web = FlowWeb::new(None);
    assert!(web.analyze().is_none());
}

#[test]
fn negative_wake_return_attaches_no_waiter() {
    let mut web = FlowWeb::new(None);
    web.process_event(wake(1, X, -11, 0));
    web.process_event(wait(2, X, 1));
    // the node exists and serves as its waker's position, but the
    // wait claimed nothing
    assert_eq!(web.nodes[0].max_wake_count, -11);
    assert_eq!(web.by_tid.get(1).unwrap().position, Some(0));
    assert!(web.by_tid.get(2).is_none());
}

#[test]
fn address_index_keeps_newest_wake() {
    let mut web = FlowWeb::new(None);
    web.process_event(wake(1, X, 1, 0));
    web.process_event(wake(2, X, 1, 5));
    assert_eq!(web.by_addr.get(X as u64), Some(1));
    web.process_event(wait(3, X, 6));
    // the wait claims from the newest node on the address
    assert_eq!(web.by_tid.get(3).unwrap().position, Some(1));
    assert_eq!(web.nodes[0].max_wake_count, 1);
    assert_eq!(web.nodes[1].max_wake_count, 0);
}

#[test]
fn ties_resolve_to_first_path_in_traversal_order() {
    let mut web = FlowWeb::new(None);
    // two single-node roots, equal (zero) weights
    web.process_event(wake(1, X, 0, 10));
    web.process_event(wake(2, Y, 0, 20));
    let path = web.analyze().expect("two roots");
    assert_eq!(path.len(), 1);
    assert_eq!(path[0].tid, 1);
}

#[test]
fn heavier_second_path_wins() {
    let mut web = FlowWeb::new(None);
    // first root: chain with gap 5; second root: chain with gap 50
    web.process_event(wake(1, X, 1, 0));
    web.process_event(wait(2, X, 1));
    web.process_event(wake(2, Z, 1, 5));
    web.process_event(wake(3, Y, 1, 10));
    web.process_event(wait(4, Y, 11));
    web.process_event(wake(4, Z, 1, 60));
    let path = web.analyze().expect("two chains");
    assert_eq!(path.len(), 2);
    assert_eq!((path[0].tid, path[1].tid), (3, 4));
}

#[test]
fn set_window_enables_and_disables_sweep() {
    let mut web = FlowWeb::new(None);
    web.process_event(wake(1, X, 0, 0));
    web.process_event(wake(2, Y, 0, 1_000_000));
    // no window: both roots stay
    assert_eq!(web.roots.len(), 2);

    web.set_window(Some(10));
    web.process_event(wake(3, Z, 0, 2_000_000));
    // with a tight window only the fresh node survives
    assert_eq!(web.roots, vec![2]);
    assert!(!web.live[0] && !web.live[1] && web.live[2]);

    web.set_window(None);
    web.process_event(wake(4, X, 0, 9_000_000));
    assert_eq!(web.roots.len(), 2);
}

#[test]
fn zero_window_disables_sweep() {
    let mut web = FlowWeb::new(Some(0));
    web.process_event(wake(1, X, 0, 0));
    web.process_event(wake(2, Y, 0, 1_000_000_000));
    assert_eq!(web.roots.len(), 2);
    assert!(web.live[0] && web.live[1]);
}

#[test]
fn eviction_promotes_fresh_subtree_intact() {
    let mut web = FlowWeb::new(Some(100));
    // chain 0 -> 1 -> 2: node 0 last touched at t=20, node 1 at
    // t=28, node 2 at t=30
    web.process_event(wake(1, X, 1, 10));
    web.process_event(wait(2, X, 20));
    web.process_event(wake(2, Y, 1, 25));
    web.process_event(wait(3, Y, 28));
    web.process_event(wake(3, Z, 1, 30));
    assert_eq!(web.roots, vec![0]);
    // at t=124 node 0 is stale (104 > 100) but node 1 is not
    // (96 <= 100): node 1 is promoted with its whole subtree
    web.process_event(wake(7, X, 0, 124));
    assert_eq!(web.roots, vec![1, 3]);
    assert!(!web.live[0] && web.live[1] && web.live[2] && web.live[3]);
    assert_eq!(web.nodes[1].parent, None);
    assert_eq!(web.nodes[1].children, vec![2]);
    assert_eq!(web.nodes[2].parent, Some(1));
    assert!(web.by_addr.get(X as u64) == Some(3));
    assert!(web.by_addr.get(Y as u64) == Some(1));
    assert!(web.by_addr.get(Z as u64) == Some(2));
}

#[test]
fn manual_sweep_call_evicts_stale_roots() {
    let mut web = FlowWeb::new(None);
    web.process_event(wake(1, X, 0, 0));
    web.process_event(wake(2, Y, 0, 5_000));
    assert_eq!(web.roots.len(), 2);
    // arm the window afterwards and sweep by hand
    web.set_window(Some(1_000));
    web.retain_timeout_nodes();
    assert_eq!(web.roots, vec![1]);
    assert!(!web.live[0] && web.live[1]);
}

#[test]
fn saturating_helpers_clamp() {
    assert_eq!(sat_sub(7, 3), 4);
    assert_eq!(sat_sub(3, 7), 0);
    assert_eq!(sat_add(1, 2), 3);
    assert_eq!(sat_add(u64::MAX - 1, 5), u64::MAX);
}

#[test]
fn weight_mode_round_trip() {
    let mut web = FlowWeb::new(None);
    assert_eq!(web.weight_mode, WeightMode::Time);
    web.set_weight_mode(WeightMode::Instructions);
    assert_eq!(web.weight_mode, WeightMode::Instructions);
    web.set_weight_mode(WeightMode::Time);
    assert_eq!(web.weight_mode, WeightMode::Time);
}
