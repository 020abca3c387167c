//! Concrete instances of the library's laws, exercised end to end,
//! plus the counter-driven work weights.

use flower::analysis::WeightMode;
use flower::counter::{InstructionCounter, NullCounter};
use flower::events::{FutexArgs, FutexEvent, FUTEX_WAIT, FUTEX_WAKE};
use flower::flow_web::FlowWeb;

fn ev(tid: u32, uaddr: usize, futex_op: i32, ret: i64, timestamp_ns: u64) -> FutexEvent {
    FutexEvent {
        tid,
        args: FutexArgs { uaddr, futex_op, val: 0, uaddr2: 0, val3: 0 },
        timestamp_ns,
        ret,
    }
}

fn wake(tid: u32, uaddr: usize, ret: i64, t: u64) -> FutexEvent {
    ev(tid, uaddr, FUTEX_WAKE, ret, t)
}

fn wait(tid: u32, uaddr: usize, t: u64) -> FutexEvent {
    ev(tid, uaddr, FUTEX_WAIT, 0, t)
}

const X: usize = 0x1000;
const Y: usize = 0x2000;
const Z: usize = 0x3000;

fn mixed_trace() -> Vec<FutexEvent> {
    vec![
        wake(1, X, 2, 10),
        wait(2, X, 11),
        wake(2, Y, 1, 12),
        wait(3, X, 13),
        wait(4, Y, 14),
        ev(9, Z, 3, 1, 15), // unrecognized command
        wake(4, Z, 0, 16),
        wait(5, Z, 17),
    ]
}

/// Checks the forest invariants on the concrete representation.
fn check_invariants(web: &FlowWeb) {
    let n = web.nodes.len();
    assert_eq!(web.live.len(), n);
    for r in &web.roots {
        assert!(*r < n && web.live[*r]);
        assert_eq!(web.nodes[*r].parent, None);
    }
    for (a, r1) in web.roots.iter().enumerate() {
        for r2 in &web.roots[a + 1..] {
            assert_ne!(r1, r2);
        }
    }
    for i in 0..n {
        let node = &web.nodes[i];
        let mut prev: Option<usize> = None;
        for &c in &node.children {
            // children were created after their parents, in order
            assert!(i < c && c < n);
            if let Some(p) = prev {
                assert!(p < c);
            }
            prev = Some(c);
            if web.live[i] {
                assert!(web.live[c]);
                assert_eq!(web.nodes[c].parent, Some(i));
                // a live child is no older than its parent
                assert!(web.nodes[c].timestamp_ns >= node.timestamp_ns);
            }
        }
        if web.live[i] {
            // credits stay nonnegative under nonnegative wake returns
            assert!(node.max_wake_count >= 0);
            match node.parent {
                Some(p) => {
                    assert!(p < i && web.live[p]);
                    assert!(web.nodes[p].children.contains(&i));
                }
                None => assert!(web.roots.contains(&i)),
            }
        }
    }
}

#[test]
fn invariants_hold_after_each_event() {
    for window in [None, Some(3u64), Some(0)] {
        let mut web = FlowWeb::new(window);
        for e in mixed_trace() {
            web.process_event(e);
            check_invariants(&web);
        }
    }
}

#[test]
fn analyze_is_idempotent_and_pure() {
    let mut web = FlowWeb::new(None);
    for e in mixed_trace() {
        web.process_event(e);
    }
    let roots_before = web.roots.clone();
    let live_before = web.live.clone();
    let len_before = web.nodes.len();
    let first = web.analyze();
    let second = web.analyze();
    assert_eq!(first, second);
    assert_eq!(web.roots, roots_before);
    assert_eq!(web.live, live_before);
    assert_eq!(web.nodes.len(), len_before);
}

#[test]
fn clear_then_replay_matches_fresh_replay() {
    let mut dirty = FlowWeb::new(Some(1000));
    for e in mixed_trace() {
        dirty.process_event(e);
    }
    dirty.clear();
    assert!(dirty.roots.is_empty());
    assert!(dirty.nodes.is_empty());
    assert_eq!(dirty.last_event_timestamp_ns, None);

    let mut fresh = FlowWeb::new(Some(1000));
    for e in mixed_trace() {
        dirty.process_event(e);
        fresh.process_event(e);
    }
    assert_eq!(dirty.roots, fresh.roots);
    assert_eq!(dirty.live, fresh.live);
    assert_eq!(dirty.nodes.len(), fresh.nodes.len());
    for i in 0..dirty.nodes.len() {
        assert_eq!(dirty.nodes[i].owner, fresh.nodes[i].owner);
        assert_eq!(dirty.nodes[i].children, fresh.nodes[i].children);
        assert_eq!(dirty.nodes[i].max_wake_count, fresh.nodes[i].max_wake_count);
    }
    assert_eq!(dirty.analyze(), fresh.analyze());
}

#[test]
fn zero_return_wakes_build_no_edges() {
    let mut web = FlowWeb::new(None);
    web.process_event(wake(1, X, 0, 1));
    web.process_event(wait(8, X, 2));
    web.process_event(wake(2, Y, 0, 3));
    web.process_event(wait(9, Y, 4));
    web.process_event(wake(3, Z, 0, 5));
    for i in 0..web.nodes.len() {
        assert!(web.nodes[i].children.is_empty());
        assert_eq!(web.nodes[i].parent, None);
    }
    assert_eq!(web.roots, vec![0, 1, 2]);
    // every wait was dropped
    assert!(web.by_tid.get(8).is_none());
    assert!(web.by_tid.get(9).is_none());
}

#[test]
fn credit_decrements_match_claiming_waits() {
    let mut web = FlowWeb::new(None);
    let trace = mixed_trace();
    let mut wake_rets: i64 = 0;
    let mut claims: i64 = 0;
    for e in &trace {
        let cmd = e.args.futex_op & flower::events::FUTEX_CMD_MASK;
        if cmd == FUTEX_WAKE {
            wake_rets += e.ret;
        }
        if cmd == FUTEX_WAIT {
            if let Some(i) = web.by_addr.get(e.args.uaddr as u64) {
                if web.nodes[i].max_wake_count > 0 {
                    claims += 1;
                }
            }
        }
        web.process_event(*e);
    }
    let total: i64 = (0..web.nodes.len())
        .filter(|&i| web.live[i])
        .map(|i| web.nodes[i].max_wake_count)
        .sum();
    assert_eq!(total, wake_rets - claims);
    assert_eq!(claims, 3);
}

#[test]
fn wake_feeds_exactly_its_return() {
    let mut web = FlowWeb::new(None);
    web.process_event(wake(1, X, 2, 0));
    web.process_event(wait(21, X, 1));
    web.process_event(wait(22, X, 2));
    assert_eq!(web.nodes[0].owner, 1);
    assert_eq!(web.nodes[0].max_wake_count, 0);
    assert_eq!(web.by_tid.get(21).unwrap().position, Some(0));
    assert_eq!(web.by_tid.get(22).unwrap().position, Some(0));
    // the third wait observes no credits and is dropped
    let roots_before = web.roots.clone();
    web.process_event(wait(23, X, 3));
    assert_eq!(web.roots, roots_before);
    assert_eq!(web.nodes[0].max_wake_count, 0);
    assert!(web.by_tid.get(23).is_none());
}

#[test]
fn counter_deltas_become_node_weights() {
    let mut web = FlowWeb::new(None);
    // first wake of thread 1: a reading is stored but there is no
    // prior one, so the node's weight is zero
    web.process_event_counted(wake(1, X, 1, 10), Some(100));
    assert_eq!(web.nodes[0].len, 0);
    assert_eq!(web.by_tid.get(1).unwrap().counter_reading, Some(100));
    // second wake of thread 1: the delta since the prior reading
    web.process_event_counted(wake(1, Y, 1, 20), Some(160));
    assert_eq!(web.nodes[1].len, 60);
    assert_eq!(web.by_tid.get(1).unwrap().counter_reading, Some(160));
    // a missing reading keeps the old one and contributes zero
    web.process_event_counted(wake(1, Z, 1, 30), None);
    assert_eq!(web.nodes[2].len, 0);
    assert_eq!(web.by_tid.get(1).unwrap().counter_reading, Some(160));
    // a reading that went backwards saturates to zero
    web.process_event_counted(wake(1, X, 1, 40), Some(40));
    assert_eq!(web.nodes[3].len, 0);
}

struct ScriptedCounter {
    readings: Vec<u64>,
    next: usize,
}

impl InstructionCounter for ScriptedCounter {
    fn read_counter(&mut self, _tid: u32) -> Option<u64> {
        let r = self.readings.get(self.next).copied();
        self.next += 1;
        r
    }
}

#[test]
fn injected_counter_backend_drives_weights() {
    let mut web = FlowWeb::new(None);
    let mut counter = ScriptedCounter { readings: vec![5, 35], next: 0 };
    web.process_event_with(wake(1, X, 1, 10), &mut counter);
    web.process_event_with(wake(1, Y, 1, 20), &mut counter);
    assert_eq!(web.nodes[0].len, 0);
    assert_eq!(web.nodes[1].len, 30);

    let mut null_web = FlowWeb::new(None);
    let mut null = NullCounter;
    null_web.process_event_with(wake(1, X, 1, 10), &mut null);
    null_web.process_event_with(wake(1, Y, 1, 20), &mut null);
    assert_eq!(null_web.nodes[0].len, 0);
    assert_eq!(null_web.nodes[1].len, 0);
}

#[test]
fn instruction_weighted_analysis_prefers_heavier_work() {
    let mut web = FlowWeb::new(None);
    web.set_weight_mode(WeightMode::Instructions);
    // chain under thread 1 with instruction weight 70
    web.process_event_counted(wake(1, X, 1, 0), Some(0));
    web.process_event_counted(wait(2, X, 1), None);
    web.process_event_counted(wake(1, Y, 1, 2), Some(70));
    // a second chain whose time weight dwarfs the first but whose
    // instruction weight is zero
    web.process_event_counted(wake(5, Z, 1, 1_000), None);
    web.process_event_counted(wait(6, Z, 1_001), None);
    web.process_event_counted(wake(6, 0x4000, 1, 500_000), None);

    let path = web.analyze().expect("nonempty forest");
    assert_eq!(path.len(), 2);
    assert_eq!((path[0].tid, path[1].tid), (1, 1));
    assert_eq!((path[0].len, path[1].len), (0, 70));

    web.set_weight_mode(WeightMode::Time);
    let path2 = web.analyze().expect("nonempty forest");
    assert_eq!(path2.len(), 2);
    assert_eq!((path2[0].tid, path2[1].tid), (5, 6));
}
