//! The library's laws: properties of whole event sequences, proved
//! over the engine's transition model.
//!
//! `run_model` replays a sequence of events (each paired with the
//! counter reading sampled for it) through `step_model`, which is
//! exactly what repeated `process_event_counted` calls do.

use vstd::prelude::*;

use crate::analysis::analyze_model;
use crate::events::{is_wait_op, is_wake_op, FutexEvent};
use crate::flow_web::{child_edge_ok, cursor_ok, idx_live, node_wf, web_wf};
use crate::flow_web::{init_model, lemma_step_wf, retain_model, step_model, wait_claims};
use crate::flow_web::{wait_model, wake_model, wake_parent, with_last, WebModel};

verus! {

/// The state after replaying a sequence of (event, reading) pairs.
pub open spec fn run_model(w: WebModel, es: Seq<(FutexEvent, Option<u64>)>) -> WebModel
    decreases es.len(),
{
    if es.len() == 0 {
        w
    } else {
        run_model(step_model(w, es[0].0, es[0].1), es.drop_first())
    }
}

/// One step grows the arena by at most one slot.
pub proof fn lemma_step_len(w: WebModel, e: FutexEvent, r: Option<u64>)
    requires
        web_wf(w),
    ensures
        step_model(w, e, r).nodes.len() <= w.nodes.len() + 1,
        w.nodes.len() <= step_model(w, e, r).nodes.len(),
{
    let a = e.args.uaddr as u64;
    if is_wait_op(e.args.futex_op) {
        if w.by_addr.dom().contains(a) {
            assert(idx_live(w, w.by_addr[a] as int));
        }
        let w1 = wait_model(with_last(w, e.timestamp_ns), e, r);
        assert(w1.nodes.len() == w.nodes.len());
        assert(retain_model(w1).nodes.len() == w1.nodes.len());
    } else if is_wake_op(e.args.futex_op) {
        let w1x = with_last(w, e.timestamp_ns);
        match wake_parent(w1x, e.tid) {
            Some(p) => {
                assert(w.by_tid.dom().contains(e.tid as u64));
                assert(cursor_ok(w, w.by_tid[e.tid as u64]));
                assert(idx_live(w, p as int));
            },
            None => {},
        }
        let w1 = wake_model(w1x, e, r);
        assert(w1.nodes.len() <= w.nodes.len() + 1);
        assert(w.nodes.len() <= w1.nodes.len());
        assert(retain_model(w1).nodes.len() == w1.nodes.len());
    }
}

/// One step either keeps the clock or sets it to the event's time.
pub proof fn lemma_step_last(w: WebModel, e: FutexEvent, r: Option<u64>)
    ensures
        step_model(w, e, r).last_event_timestamp_ns == w.last_event_timestamp_ns || step_model(
            w,
            e,
            r,
        ).last_event_timestamp_ns == Some(e.timestamp_ns),
{
}

/// One step never changes the configuration.
pub proof fn lemma_step_config(w: WebModel, e: FutexEvent, r: Option<u64>)
    ensures
        step_model(w, e, r).window_ns == w.window_ns,
        step_model(w, e, r).weight_mode == w.weight_mode,
{
}

/// Law (forest invariants, structural part): replaying any event
/// sequence from a well-formed state leaves a well-formed state —
/// indices reference live nodes, roots are parentless and listed
/// once, children are created after their parents, stay ordered by
/// creation and belong to exactly one parent.  The arena must have
/// room for the new nodes, which is what the length bound says.
pub proof fn lemma_run_wf(w: WebModel, es: Seq<(FutexEvent, Option<u64>)>)
    requires
        web_wf(w),
        w.nodes.len() + es.len() <= usize::MAX as nat,
    ensures
        web_wf(run_model(w, es)),
    decreases es.len(),
{
    if es.len() > 0 {
        lemma_step_wf(w, es[0].0, es[0].1);
        lemma_step_len(w, es[0].0, es[0].1);
        lemma_run_wf(step_model(w, es[0].0, es[0].1), es.drop_first());
    }
}

/// Timestamp discipline of one state: a live child was created no
/// earlier than its parent, and the clock bounds every live node's
/// times; before any event the arena is empty.
pub open spec fn ts_wf(w: WebModel) -> bool {
    &&& forall|i: int, k: int|
        0 <= i < w.nodes.len() && w.live[i] && 0 <= k < w.nodes[i].children.len()
            ==> w.nodes[(#[trigger] w.nodes[i].children[k]) as int].timestamp_ns
            >= w.nodes[i].timestamp_ns
    &&& match w.last_event_timestamp_ns {
        Some(l) => forall|i: int|
            0 <= i < w.nodes.len() && #[trigger] w.live[i] ==> w.nodes[i].timestamp_ns <= l
                && w.nodes[i].last_update_timestamp <= l,
        None => w.nodes.len() == 0,
    }
}

/// Credits of live nodes are nonnegative.
pub open spec fn credits_wf(w: WebModel) -> bool {
    forall|i: int|
        0 <= i < w.nodes.len() && #[trigger] w.live[i] ==> w.nodes[i].max_wake_count >= 0
}

/// Is `t` no earlier than the clock?
pub open spec fn clock_ok(last: Option<u64>, t: u64) -> bool {
    match last {
        Some(l) => t >= l,
        None => true,
    }
}

/// The sweep preserves the timestamp discipline: it only removes
/// nodes and clears parent links.
proof fn lemma_retain_ts(w: WebModel)
    requires
        web_wf(w),
        ts_wf(w),
    ensures
        ts_wf(retain_model(w)),
{
    let m = retain_model(w);
    match (w.window_ns, w.last_event_timestamp_ns) {
        (Some(win), Some(last)) => {
            if win > 0 {
                assert forall|i: int, k: int|
                    0 <= i < m.nodes.len() && m.live[i] && 0 <= k
                        < m.nodes[i].children.len() implies m.nodes[(
                #[trigger] m.nodes[i].children[k]) as int].timestamp_ns
                    >= m.nodes[i].timestamp_ns by {
                    assert(w.live[i]);
                    assert(m.nodes[i].children == w.nodes[i].children);
                    let c = w.nodes[i].children[k];
                    assert(node_wf(w, i));
                    assert(child_edge_ok(w, i, c));
                    assert(w.nodes[c as int].timestamp_ns >= w.nodes[i].timestamp_ns);
                    assert(m.nodes[c as int].timestamp_ns == w.nodes[c as int].timestamp_ns);
                }
                assert forall|i: int|
                    0 <= i < m.nodes.len() && #[trigger] m.live[i] implies m.nodes[
                i].timestamp_ns <= last && m.nodes[i].last_update_timestamp <= last by {
                    assert(w.live[i]);
                }
            }
        },
        _ => {},
    }
}

/// One step preserves the timestamp discipline when the event's time
/// is no earlier than the clock.
pub proof fn lemma_step_ts_wf(w: WebModel, e: FutexEvent, r: Option<u64>)
    requires
        web_wf(w),
        ts_wf(w),
        w.nodes.len() < usize::MAX as nat,
        clock_ok(w.last_event_timestamp_ns, e.timestamp_ns),
    ensures
        ts_wf(step_model(w, e, r)),
{
    let t = e.timestamp_ns;
    let w1 = with_last(w, t);
    crate::flow_web::lemma_wf_congruence(w, w1);
    if is_wait_op(e.args.futex_op) {
        let a = e.args.uaddr as u64;
        if w.by_addr.dom().contains(a) {
            assert(idx_live(w, w.by_addr[a] as int));
        }
        let w2 = wait_model(w1, e, r);
        assert(ts_wf(w2)) by {
            assert forall|i: int, k: int|
                0 <= i < w2.nodes.len() && w2.live[i] && 0 <= k
                    < w2.nodes[i].children.len() implies w2.nodes[(
            #[trigger] w2.nodes[i].children[k]) as int].timestamp_ns
                >= w2.nodes[i].timestamp_ns by {
                assert(w.live[i]);
                assert(w2.nodes[i].children == w.nodes[i].children);
                let c = w.nodes[i].children[k];
                assert(node_wf(w, i));
                assert(child_edge_ok(w, i, c));
                assert(w.nodes[c as int].timestamp_ns >= w.nodes[i].timestamp_ns);
                assert(w2.nodes[c as int].timestamp_ns == w.nodes[c as int].timestamp_ns);
                assert(w2.nodes[i].timestamp_ns == w.nodes[i].timestamp_ns);
            }
            assert forall|i: int|
                0 <= i < w2.nodes.len() && #[trigger] w2.live[i] implies w2.nodes[
            i].timestamp_ns <= t && w2.nodes[i].last_update_timestamp <= t by {
                assert(w.live[i]);
                match w.last_event_timestamp_ns {
                    Some(l) => {
                        assert(w.nodes[i].timestamp_ns <= l);
                        assert(w.nodes[i].last_update_timestamp <= l);
                    },
                    None => {},
                }
            }
        }
        crate::flow_web::lemma_wait_wf(w1, e, r);
        lemma_retain_ts(w2);
    } else if is_wake_op(e.args.futex_op) {
        let idx = w.nodes.len() as usize;
        match wake_parent(w1, e.tid) {
            Some(p) => {
                assert(w.by_tid.dom().contains(e.tid as u64));
                assert(cursor_ok(w, w.by_tid[e.tid as u64]));
                assert(idx_live(w, p as int));
            },
            None => {},
        }
        let w2 = wake_model(w1, e, r);
        assert(ts_wf(w2)) by {
            assert forall|i: int, k: int|
                0 <= i < w2.nodes.len() && w2.live[i] && 0 <= k
                    < w2.nodes[i].children.len() implies w2.nodes[(
            #[trigger] w2.nodes[i].children[k]) as int].timestamp_ns
                >= w2.nodes[i].timestamp_ns by {
                if i < w.nodes.len() {
                    assert(w.live[i]);
                    assert(node_wf(w, i));
                    let c = w2.nodes[i].children[k];
                    if k < w.nodes[i].children.len() {
                        assert(c == w.nodes[i].children[k]);
                        assert(child_edge_ok(w, i, c));
                        assert(w.nodes[c as int].timestamp_ns >= w.nodes[i].timestamp_ns);
                        assert(w2.nodes[c as int].timestamp_ns == w.nodes[
                            c as int
                        ].timestamp_ns);
                    } else {
                        // the appended child is the fresh node
                        assert(c == idx);
                        assert(w2.nodes[c as int].timestamp_ns == t);
                        match w.last_event_timestamp_ns {
                            Some(l) => {
                                assert(w.nodes[i].timestamp_ns <= l);
                            },
                            None => {
                                assert(w.nodes.len() == 0);
                            },
                        }
                    }
                }
            }
            assert forall|i: int|
                0 <= i < w2.nodes.len() && #[trigger] w2.live[i] implies w2.nodes[
            i].timestamp_ns <= t && w2.nodes[i].last_update_timestamp <= t by {
                if i < w.nodes.len() {
                    assert(w.live[i]);
                    match w.last_event_timestamp_ns {
                        Some(l) => {
                            assert(w.nodes[i].timestamp_ns <= l);
                            assert(w.nodes[i].last_update_timestamp <= l);
                        },
                        None => {},
                    }
                }
            }
        }
        crate::flow_web::lemma_wake_wf(w1, e, r);
        lemma_retain_ts(w2);
    }
}

/// One step keeps live credits nonnegative when wake returns are.
pub proof fn lemma_step_credits_wf(w: WebModel, e: FutexEvent, r: Option<u64>)
    requires
        web_wf(w),
        credits_wf(w),
        is_wake_op(e.args.futex_op) ==> e.ret >= 0,
    ensures
        credits_wf(step_model(w, e, r)),
{
    let m = step_model(w, e, r);
    let w1 = with_last(w, e.timestamp_ns);
    if is_wait_op(e.args.futex_op) {
        let a = e.args.uaddr as u64;
        if w.by_addr.dom().contains(a) {
            assert(idx_live(w, w.by_addr[a] as int));
        }
        let w2 = wait_model(w1, e, r);
        assert forall|i: int|
            0 <= i < m.nodes.len() && #[trigger] m.live[i] implies m.nodes[i].max_wake_count
            >= 0 by {
            assert(w.live[i]);
            assert(w2.nodes[i].max_wake_count >= 0);
        }
    } else if is_wake_op(e.args.futex_op) {
        match wake_parent(w1, e.tid) {
            Some(p) => {
                assert(w.by_tid.dom().contains(e.tid as u64));
                assert(cursor_ok(w, w.by_tid[e.tid as u64]));
                assert(idx_live(w, p as int));
            },
            None => {},
        }
        let w2 = wake_model(w1, e, r);
        assert forall|i: int|
            0 <= i < m.nodes.len() && #[trigger] m.live[i] implies m.nodes[i].max_wake_count
            >= 0 by {
            assert(w2.live[i]);
            if i < w.nodes.len() {
                assert(w.live[i]);
            }
            assert(w2.nodes[i].max_wake_count >= 0);
        }
    }
}

/// Law (credits only decrease): one step never raises the credit
/// count of an arena slot that already existed.
pub proof fn lemma_step_credits_monotone(w: WebModel, e: FutexEvent, r: Option<u64>)
    requires
        web_wf(w),
    ensures
        forall|i: int|
            0 <= i < w.nodes.len() ==> step_model(w, e, r).nodes[i].max_wake_count <= (
            #[trigger] w.nodes[i]).max_wake_count,
{
    let m = step_model(w, e, r);
    let w1 = with_last(w, e.timestamp_ns);
    if is_wait_op(e.args.futex_op) {
        let a = e.args.uaddr as u64;
        if w.by_addr.dom().contains(a) {
            assert(idx_live(w, w.by_addr[a] as int));
        }
        let w2 = wait_model(w1, e, r);
        assert forall|i: int| 0 <= i < w.nodes.len() implies m.nodes[i].max_wake_count <= (
        #[trigger] w.nodes[i]).max_wake_count by {
            assert(w2.nodes[i].max_wake_count <= w.nodes[i].max_wake_count);
            assert(m.nodes[i].max_wake_count == w2.nodes[i].max_wake_count);
        }
    } else if is_wake_op(e.args.futex_op) {
        match wake_parent(w1, e.tid) {
            Some(p) => {
                assert(w.by_tid.dom().contains(e.tid as u64));
                assert(cursor_ok(w, w.by_tid[e.tid as u64]));
                assert(idx_live(w, p as int));
            },
            None => {},
        }
        let w2 = wake_model(w1, e, r);
        assert forall|i: int| 0 <= i < w.nodes.len() implies m.nodes[i].max_wake_count <= (
        #[trigger] w.nodes[i]).max_wake_count by {
            assert(w2.nodes[i].max_wake_count == w.nodes[i].max_wake_count);
            assert(m.nodes[i].max_wake_count == w2.nodes[i].max_wake_count);
        }
    }
}

/// Law (forest invariants over any replay): starting from a state
/// that satisfies them — a fresh engine does — the invariants hold
/// again after every processed event: the two indices reference live
/// forest nodes, every live node is a root or exactly one parent's
/// child, children stay in creation order, live credits stay
/// nonnegative (wake returns being nonnegative), and descendants are
/// no older than their ancestors (timestamps being monotone).  The
/// prefixes of `es` satisfy the same hypotheses, so the conclusion
/// holds after each intermediate event as well.
pub proof fn lemma_run_invariants(w: WebModel, es: Seq<(FutexEvent, Option<u64>)>)
    requires
        web_wf(w),
        ts_wf(w),
        credits_wf(w),
        w.nodes.len() + es.len() <= usize::MAX as nat,
        forall|k: int|
            0 <= k < es.len() ==> clock_ok(
                w.last_event_timestamp_ns,
                (#[trigger] es[k]).0.timestamp_ns,
            ),
        forall|k1: int, k2: int|
            0 <= k1 < k2 < es.len() ==> (#[trigger] es[k1]).0.timestamp_ns <= (
            #[trigger] es[k2]).0.timestamp_ns,
        forall|k: int|
            0 <= k < es.len() && is_wake_op((#[trigger] es[k]).0.args.futex_op) ==> es[k].0.ret
                >= 0,
    ensures
        web_wf(run_model(w, es)),
        ts_wf(run_model(w, es)),
        credits_wf(run_model(w, es)),
    decreases es.len(),
{
    if es.len() > 0 {
        let e = es[0].0;
        let r = es[0].1;
        let rest = es.drop_first();
        lemma_step_wf(w, e, r);
        lemma_step_ts_wf(w, e, r);
        lemma_step_credits_wf(w, e, r);
        lemma_step_len(w, e, r);
        lemma_step_last(w, e, r);
        let w2 = step_model(w, e, r);
        assert forall|k: int| 0 <= k < rest.len() implies clock_ok(
            w2.last_event_timestamp_ns,
            (#[trigger] rest[k]).0.timestamp_ns,
        ) by {
            assert(rest[k] == es[k + 1]);
            assert(es[0].0.timestamp_ns <= es[k + 1].0.timestamp_ns);
        }
        assert forall|k1: int, k2: int| 0 <= k1 < k2 < rest.len() implies (
        #[trigger] rest[k1]).0.timestamp_ns <= (#[trigger] rest[k2]).0.timestamp_ns by {
            assert(rest[k1] == es[k1 + 1]);
            assert(rest[k2] == es[k2 + 1]);
        }
        assert forall|k: int|
            0 <= k < rest.len() && is_wake_op(
                (#[trigger] rest[k]).0.args.futex_op,
            ) implies rest[k].0.ret >= 0 by {
            assert(rest[k] == es[k + 1]);
        }
        lemma_run_invariants(w2, rest);
    }
}

/// Law (each live node appears exactly once — placement): a live node
/// is a root or some live parent's child.
pub proof fn lemma_node_placed(w: WebModel, i: int)
    requires
        web_wf(w),
        idx_live(w, i),
    ensures
        w.roots.contains(i as usize) || (exists|p: int|
            idx_live(w, p) && (#[trigger] w.nodes[p]).children.contains(i as usize)),
{
    assert(node_wf(w, i));
    match w.nodes[i].parent {
        Some(p) => {
            assert(idx_live(w, p as int) && w.nodes[p as int].children.contains(i as usize));
        },
        None => {},
    }
}

/// Law (each live node appears exactly once — no two child slots): an
/// index never occupies two distinct child slots of live parents.
pub proof fn lemma_child_slot_unique(w: WebModel, p1: int, k1: int, p2: int, k2: int)
    requires
        web_wf(w),
        w.nodes.len() <= usize::MAX as nat,
        idx_live(w, p1),
        idx_live(w, p2),
        0 <= k1 < w.nodes[p1].children.len(),
        0 <= k2 < w.nodes[p2].children.len(),
        w.nodes[p1].children[k1] == w.nodes[p2].children[k2],
    ensures
        p1 == p2 && k1 == k2,
{
    let c = w.nodes[p1].children[k1];
    assert(node_wf(w, p1));
    assert(node_wf(w, p2));
    assert(child_edge_ok(w, p1, c));
    assert(child_edge_ok(w, p2, c));
    assert(w.nodes[c as int].parent == Some(p1 as usize));
    assert(w.nodes[c as int].parent == Some(p2 as usize));
    assert(p1 == p2);
    if k1 != k2 {
        assert(w.nodes[p1].children[k1] != w.nodes[p1].children[k2]);
    }
}

/// Law (each live node appears exactly once — roots are no children):
/// a root index never occupies a live parent's child slot.  Together
/// with the previous two laws and the distinctness of the root list
/// itself (a well-formedness clause), every live node appears exactly
/// once in the forest.
pub proof fn lemma_root_not_child(w: WebModel, kr: int, p: int, kc: int)
    requires
        web_wf(w),
        0 <= kr < w.roots.len(),
        idx_live(w, p),
        0 <= kc < w.nodes[p].children.len(),
    ensures
        w.roots[kr] != w.nodes[p].children[kc],
{
    let c = w.nodes[p].children[kc];
    assert(node_wf(w, p));
    assert(child_edge_ok(w, p, c));
    assert(w.nodes[c as int].parent == Some(p as usize));
    assert(idx_live(w, w.roots[kr] as int));
    assert(w.nodes[w.roots[kr] as int].parent is None);
}

/// Law (analysis is pure): `analyze` takes the engine by shared
/// reference, so it cannot mutate the forest, and its result is a
/// function of the state alone — two calls in succession return equal
/// results on the bit-identical state.
pub proof fn lemma_analyze_deterministic(w1: WebModel, w2: WebModel)
    requires
        w1 == w2,
    ensures
        analyze_model(w1) == analyze_model(w2),
{
}

/// Law (clear restarts cleanly): replay is a function of the starting
/// state, and `clear` leaves exactly the state `new` creates with the
/// same configuration (both contracts say `init_model`), so clearing
/// and then processing any event sequence reaches the same state as
/// processing it on a freshly constructed engine.
pub proof fn lemma_clear_replay_equals_fresh_replay(
    cleared: WebModel,
    window_ns: Option<u64>,
    mode: crate::analysis::WeightMode,
    es: Seq<(FutexEvent, Option<u64>)>,
)
    requires
        cleared == init_model(window_ns, mode),
    ensures
        run_model(cleared, es) == run_model(init_model(window_ns, mode), es),
{
}

/// The retention sweep is disabled: no window, or a zero one.
pub open spec fn windowing_off(w: WebModel) -> bool {
    match w.window_ns {
        Some(x) => x == 0,
        None => true,
    }
}

/// No live node has children.
pub open spec fn no_edges(w: WebModel) -> bool {
    forall|i: int|
        0 <= i < w.nodes.len() && #[trigger] w.live[i] ==> w.nodes[i].children.len() == 0
}

/// No live node has positive credits.
pub open spec fn no_credits(w: WebModel) -> bool {
    forall|i: int|
        0 <= i < w.nodes.len() && #[trigger] w.live[i] ==> w.nodes[i].max_wake_count <= 0
}

/// How many waits of the replay observed positive credits (and hence
/// claimed one).
pub open spec fn claims_count(w: WebModel, es: Seq<(FutexEvent, Option<u64>)>) -> int
    decreases es.len(),
{
    if es.len() == 0 {
        0
    } else {
        (if is_wait_op(es[0].0.args.futex_op) && wait_claims(w, es[0].0) {
            1int
        } else {
            0int
        }) + claims_count(step_model(w, es[0].0, es[0].1), es.drop_first())
    }
}

/// Sum of the return values of the replay's wake events.
pub open spec fn wake_ret_sum(es: Seq<(FutexEvent, Option<u64>)>) -> int
    decreases es.len(),
{
    if es.len() == 0 {
        0
    } else {
        (if is_wake_op(es[0].0.args.futex_op) {
            es[0].0.ret as int
        } else {
            0int
        }) + wake_ret_sum(es.drop_first())
    }
}

/// One step under zero-return wakes from fresh threads: the forest
/// stays edge-free and credit-free, waits claim nothing, and the
/// thread index grows only at a wake's own thread.
proof fn lemma_step_no_edges(w: WebModel, e: FutexEvent, r: Option<u64>)
    requires
        web_wf(w),
        no_edges(w),
        no_credits(w),
        w.nodes.len() < usize::MAX as nat,
        is_wake_op(e.args.futex_op) ==> e.ret <= 0 && !w.by_tid.dom().contains(e.tid as u64),
    ensures
        web_wf(step_model(w, e, r)),
        no_edges(step_model(w, e, r)),
        no_credits(step_model(w, e, r)),
        is_wait_op(e.args.futex_op) ==> !wait_claims(w, e),
        step_model(w, e, r).by_tid.dom() <= (if is_wake_op(e.args.futex_op) {
            w.by_tid.dom().insert(e.tid as u64)
        } else {
            w.by_tid.dom()
        }),
{
    lemma_step_wf(w, e, r);
    let m = step_model(w, e, r);
    let w1 = with_last(w, e.timestamp_ns);
    if is_wait_op(e.args.futex_op) {
        let a = e.args.uaddr as u64;
        if w.by_addr.dom().contains(a) {
            assert(idx_live(w, w.by_addr[a] as int));
            assert(w.nodes[w.by_addr[a] as int].max_wake_count <= 0);
        }
        assert(!wait_claims(w, e));
        assert(wait_model(w1, e, r) == w1);
        assert forall|i: int|
            0 <= i < m.nodes.len() && #[trigger] m.live[i] implies m.nodes[i].children.len() == 0
            && m.nodes[i].max_wake_count <= 0 by {
            assert(w.live[i]);
        }
        assert(m.by_tid.dom() =~= w.by_tid.dom());
    } else if is_wake_op(e.args.futex_op) {
        let w2 = wake_model(w1, e, r);
        assert(wake_parent(w1, e.tid) is None);
        assert forall|i: int|
            0 <= i < m.nodes.len() && #[trigger] m.live[i] implies m.nodes[i].children.len() == 0
            && m.nodes[i].max_wake_count <= 0 by {
            assert(w2.live[i]);
            if i < w.nodes.len() {
                assert(w.live[i]);
                assert(w2.nodes[i] == w.nodes[i]);
            } else {
                assert(w2.nodes[i].children.len() == 0);
                assert(w2.nodes[i].max_wake_count == e.ret);
            }
            assert(m.nodes[i].children == w2.nodes[i].children);
            assert(m.nodes[i].max_wake_count == w2.nodes[i].max_wake_count);
        }
        assert(m.by_tid.dom() <= w.by_tid.dom().insert(e.tid as u64)) by {
            assert forall|t: u64| #[trigger] m.by_tid.dom().contains(t) implies w.by_tid.dom()
                .insert(e.tid as u64).contains(t) by {
                assert(w2.by_tid.dom().contains(t));
            }
        }
    }
}

/// Law (zero-return wakes build no edges): if every wake of the
/// replay returns zero or less and comes from a thread the engine has
/// never indexed — in particular, when no thread wakes twice — then
/// no wait ever observes positive credits, so every wait is dropped,
/// and the forest never grows an edge: every live node stays
/// childless.
pub proof fn lemma_run_no_edges(w: WebModel, es: Seq<(FutexEvent, Option<u64>)>)
    requires
        web_wf(w),
        no_edges(w),
        no_credits(w),
        w.nodes.len() + es.len() <= usize::MAX as nat,
        forall|k: int|
            0 <= k < es.len() && is_wake_op((#[trigger] es[k]).0.args.futex_op) ==> es[k].0.ret
                <= 0 && !w.by_tid.dom().contains(es[k].0.tid as u64),
        forall|k1: int, k2: int|
            0 <= k1 < k2 < es.len() && is_wake_op((#[trigger] es[k1]).0.args.futex_op)
                && is_wake_op((#[trigger] es[k2]).0.args.futex_op) ==> es[k1].0.tid
                != es[k2].0.tid,
    ensures
        web_wf(run_model(w, es)),
        no_edges(run_model(w, es)),
        no_credits(run_model(w, es)),
        claims_count(w, es) == 0,
    decreases es.len(),
{
    if es.len() > 0 {
        let e = es[0].0;
        let r = es[0].1;
        let rest = es.drop_first();
        lemma_step_no_edges(w, e, r);
        lemma_step_len(w, e, r);
        let w2 = step_model(w, e, r);
        assert forall|k: int|
            0 <= k < rest.len() && is_wake_op(
                (#[trigger] rest[k]).0.args.futex_op,
            ) implies rest[k].0.ret <= 0 && !w2.by_tid.dom().contains(rest[k].0.tid as u64) by {
            assert(rest[k] == es[k + 1]);
            if w2.by_tid.dom().contains(es[k + 1].0.tid as u64) {
                if is_wake_op(e.args.futex_op) {
                    assert(w.by_tid.dom().insert(e.tid as u64).contains(es[k + 1].0.tid as u64));
                    assert(es[k + 1].0.tid == e.tid);
                    assert(false);
                } else {
                    assert(w.by_tid.dom().contains(es[k + 1].0.tid as u64));
                    assert(false);
                }
            }
        }
        assert forall|k1: int, k2: int|
            0 <= k1 < k2 < rest.len() && is_wake_op((#[trigger] rest[k1]).0.args.futex_op)
                && is_wake_op((#[trigger] rest[k2]).0.args.futex_op) implies rest[k1].0.tid
            != rest[k2].0.tid by {
            assert(rest[k1] == es[k1 + 1]);
            assert(rest[k2] == es[k2 + 1]);
        }
        lemma_run_no_edges(w2, rest);
    }
}

/// Sum of the credits of the first `k` live arena slots.
pub open spec fn credit_sum(w: WebModel, k: int) -> int
    decreases k,
{
    if k <= 0 {
        0
    } else {
        credit_sum(w, k - 1) + (if 0 <= k - 1 < w.live.len() && w.live[k - 1] {
            w.nodes[k - 1].max_wake_count as int
        } else {
            0int
        })
    }
}

/// Total credits of the forest.
pub open spec fn total_credits(w: WebModel) -> int {
    credit_sum(w, w.nodes.len() as int)
}

/// Slot-wise equal prefixes have equal credit sums.
proof fn lemma_credit_sum_congruence(w1: WebModel, w2: WebModel, k: int)
    requires
        w1.live.len() == w2.live.len(),
        forall|j: int|
            0 <= j < k ==> (#[trigger] w1.live[j]) == w2.live[j] && (w1.live[j]
                ==> w1.nodes[j].max_wake_count == w2.nodes[j].max_wake_count),
    ensures
        credit_sum(w1, k) == credit_sum(w2, k),
    decreases k,
{
    if k > 0 {
        lemma_credit_sum_congruence(w1, w2, k - 1);
    }
}

/// Changing one slot's credits changes the sum by the difference.
proof fn lemma_credit_sum_update(w1: WebModel, w2: WebModel, i: int, d: int, k: int)
    requires
        w1.live.len() == w2.live.len(),
        0 <= i < w1.live.len(),
        w1.live[i],
        w2.live[i],
        w2.nodes[i].max_wake_count == w1.nodes[i].max_wake_count + d,
        forall|j: int|
            0 <= j < w1.live.len() && j != i ==> (#[trigger] w1.live[j]) == w2.live[j] && (
            w1.live[j] ==> w1.nodes[j].max_wake_count == w2.nodes[j].max_wake_count),
    ensures
        credit_sum(w2, k) == credit_sum(w1, k) + (if i < k {
            d
        } else {
            0int
        }),
    decreases k,
{
    if k > 0 {
        lemma_credit_sum_update(w1, w2, i, d, k - 1);
    }
}

/// Appending one live slot adds its credits to the sum.
proof fn lemma_credit_sum_extend(w1: WebModel, w2: WebModel, k: int)
    requires
        w2.live.len() == w1.live.len() + 1,
        forall|j: int|
            0 <= j < w1.live.len() ==> (#[trigger] w1.live[j]) == w2.live[j] && (w1.live[j]
                ==> w1.nodes[j].max_wake_count == w2.nodes[j].max_wake_count),
        k <= w1.live.len(),
    ensures
        credit_sum(w2, k) == credit_sum(w1, k),
    decreases k,
{
    if k > 0 {
        lemma_credit_sum_extend(w1, w2, k - 1);
    }
}

/// One step's credit ledger, with the sweep disabled: a wake deposits
/// its return value, a claiming wait withdraws one.
proof fn lemma_step_credit_balance(w: WebModel, e: FutexEvent, r: Option<u64>)
    requires
        web_wf(w),
        windowing_off(w),
        w.nodes.len() < usize::MAX as nat,
    ensures
        web_wf(step_model(w, e, r)),
        windowing_off(step_model(w, e, r)),
        total_credits(step_model(w, e, r)) == total_credits(w) + (if is_wake_op(
            e.args.futex_op,
        ) {
            e.ret as int
        } else {
            0int
        }) - (if is_wait_op(e.args.futex_op) && wait_claims(w, e) {
            1int
        } else {
            0int
        }),
{
    lemma_step_wf(w, e, r);
    let m = step_model(w, e, r);
    let w1 = with_last(w, e.timestamp_ns);
    assert(credit_sum(w1, w.nodes.len() as int) == credit_sum(w, w.nodes.len() as int)) by {
        lemma_credit_sum_congruence(w, w1, w.nodes.len() as int);
    }
    if is_wait_op(e.args.futex_op) {
        let a = e.args.uaddr as u64;
        if w.by_addr.dom().contains(a) {
            assert(idx_live(w, w.by_addr[a] as int));
        }
        let w2 = wait_model(w1, e, r);
        assert(retain_model(w2) == w2);
        if wait_claims(w, e) {
            let i = w.by_addr[a] as int;
            lemma_credit_sum_update(w1, w2, i, -1, w.nodes.len() as int);
        } else {
            lemma_credit_sum_congruence(w1, w2, w.nodes.len() as int);
        }
    } else if is_wake_op(e.args.futex_op) {
        match wake_parent(w1, e.tid) {
            Some(p) => {
                assert(w.by_tid.dom().contains(e.tid as u64));
                assert(cursor_ok(w, w.by_tid[e.tid as u64]));
                assert(idx_live(w, p as int));
            },
            None => {},
        }
        let w2 = wake_model(w1, e, r);
        assert(retain_model(w2) == w2);
        let n = w.nodes.len() as int;
        lemma_credit_sum_extend(w1, w2, n);
        assert(credit_sum(w2, n + 1) == credit_sum(w2, n) + e.ret as int);
        assert(total_credits(w2) == credit_sum(w2, n + 1));
    } else {
        assert(m == w);
    }
}

/// Law (credit conservation, windowing disabled): over any replay the
/// total live credit changes by exactly the wake returns deposited
/// minus one per wait that observed positive credits.  Rearranged:
/// the sum of all `max_wake_count` decrements across all nodes equals
/// the number of waits that claimed a credit.
pub proof fn lemma_run_credit_balance(w: WebModel, es: Seq<(FutexEvent, Option<u64>)>)
    requires
        web_wf(w),
        windowing_off(w),
        w.nodes.len() + es.len() <= usize::MAX as nat,
    ensures
        web_wf(run_model(w, es)),
        total_credits(run_model(w, es)) == total_credits(w) + wake_ret_sum(es) - claims_count(
            w,
            es,
        ),
    decreases es.len(),
{
    if es.len() > 0 {
        let e = es[0].0;
        let r = es[0].1;
        lemma_step_credit_balance(w, e, r);
        lemma_step_len(w, e, r);
        lemma_run_credit_balance(step_model(w, e, r), es.drop_first());
    }
}

/// Draining waits against one node, with the sweep disabled: each
/// wait claims one credit of the indexed node and parks its thread's
/// cursor there, and cursors already parked there stay.
proof fn lemma_waits_drain(
    m: WebModel,
    x: u64,
    idx: usize,
    waits: Seq<(FutexEvent, Option<u64>)>,
)
    requires
        web_wf(m),
        windowing_off(m),
        m.by_addr.dom().contains(x),
        m.by_addr[x] == idx,
        m.nodes[idx as int].max_wake_count as int >= waits.len(),
        forall|j: int|
            0 <= j < waits.len() ==> is_wait_op((#[trigger] waits[j]).0.args.futex_op)
                && waits[j].0.args.uaddr as u64 == x,
        forall|j1: int, j2: int|
            0 <= j1 < j2 < waits.len() ==> (#[trigger] waits[j1]).0.tid != (
            #[trigger] waits[j2]).0.tid,
    ensures
        ({
            let fin = run_model(m, waits);
            &&& fin.nodes.len() == m.nodes.len()
            &&& fin.nodes[idx as int].owner == m.nodes[idx as int].owner
            &&& fin.nodes[idx as int].max_wake_count as int == m.nodes[
                idx as int
            ].max_wake_count - waits.len()
            &&& forall|j: int|
                0 <= j < waits.len() ==> fin.by_tid.dom().contains(
                    (#[trigger] waits[j]).0.tid as u64,
                ) && fin.by_tid[waits[j].0.tid as u64].position == Some(idx)
            &&& forall|t: u64|
                #[trigger] m.by_tid.dom().contains(t) && m.by_tid[t].position == Some(idx)
                    ==> fin.by_tid.dom().contains(t) && fin.by_tid[t].position == Some(idx)
        }),
    decreases waits.len(),
{
    assert(idx_live(m, idx as int));
    if waits.len() > 0 {
        let e = waits[0].0;
        let r = waits[0].1;
        let rest = waits.drop_first();
        let w1 = with_last(m, e.timestamp_ns);
        assert(wait_claims(m, e));
        let w2 = wait_model(w1, e, r);
        assert(retain_model(w2) == w2);
        let m2 = step_model(m, e, r);
        assert(m2 == w2);
        crate::flow_web::lemma_wf_congruence(m, w1);
        crate::flow_web::lemma_wait_wf(w1, e, r);
        assert(web_wf(m2));
        assert(m2.by_addr == m.by_addr);
        assert(m2.nodes.len() == m.nodes.len());
        assert(m2.nodes[idx as int].max_wake_count == m.nodes[idx as int].max_wake_count - 1);
        assert(m2.nodes[idx as int].owner == m.nodes[idx as int].owner);
        assert(m2.by_tid.dom().contains(e.tid as u64));
        assert(m2.by_tid[e.tid as u64].position == Some(idx));
        assert forall|j: int|
            0 <= j < rest.len() implies is_wait_op((#[trigger] rest[j]).0.args.futex_op)
                && rest[j].0.args.uaddr as u64 == x by {
            assert(rest[j] == waits[j + 1]);
        }
        assert forall|j1: int, j2: int|
            0 <= j1 < j2 < rest.len() implies (#[trigger] rest[j1]).0.tid != (
        #[trigger] rest[j2]).0.tid by {
            assert(rest[j1] == waits[j1 + 1]);
            assert(rest[j2] == waits[j2 + 1]);
        }
        lemma_waits_drain(m2, x, idx, rest);
        let fin = run_model(m, waits);
        assert(fin == run_model(m2, rest));
        assert(fin.nodes[idx as int].max_wake_count as int == m2.nodes[
            idx as int
        ].max_wake_count - rest.len());
        assert(fin.nodes[idx as int].max_wake_count as int == m.nodes[
            idx as int
        ].max_wake_count - waits.len());
        assert forall|j: int| 0 <= j < waits.len() implies fin.by_tid.dom().contains(
            (#[trigger] waits[j]).0.tid as u64,
        ) && fin.by_tid[waits[j].0.tid as u64].position == Some(idx) by {
            if j == 0 {
                assert(m2.by_tid.dom().contains(e.tid as u64) && m2.by_tid[e.tid
                    as u64].position == Some(idx));
            } else {
                assert(rest[j - 1] == waits[j]);
            }
        }
        assert forall|t: u64|
            #[trigger] m.by_tid.dom().contains(t) && m.by_tid[t].position == Some(
                idx,
            ) implies fin.by_tid.dom().contains(t) && fin.by_tid[t].position == Some(idx) by {
            if t == e.tid as u64 {
                assert(m2.by_tid[t].position == Some(idx));
            } else {
                assert(m2.by_tid.dom().contains(t));
                assert(m2.by_tid[t] == m.by_tid[t]);
            }
            assert(m2.by_tid.dom().contains(t) && m2.by_tid[t].position == Some(idx));
        }
    }
}

/// Law (a wake feeds exactly its return's worth of waits): with the
/// sweep disabled, processing a wake with return `k` and then up to
/// `k` waits on the same address from pairwise-distinct threads
/// produces one node owned by the waking thread whose credits drop by
/// one per wait, and every one of those waiters' cursors ends up
/// parked on that node.  When all `k` credits are consumed the node
/// holds none, so any further wait on the address observes no credits
/// and is dropped (see `lemma_exhausted_wait_noop`).
pub proof fn lemma_wake_then_waits(
    w: WebModel,
    wk: FutexEvent,
    rk: Option<u64>,
    waits: Seq<(FutexEvent, Option<u64>)>,
)
    requires
        web_wf(w),
        windowing_off(w),
        w.nodes.len() < usize::MAX as nat,
        is_wake_op(wk.args.futex_op),
        wk.ret >= waits.len(),
        forall|j: int|
            0 <= j < waits.len() ==> is_wait_op((#[trigger] waits[j]).0.args.futex_op)
                && waits[j].0.args.uaddr == wk.args.uaddr,
        forall|j1: int, j2: int|
            0 <= j1 < j2 < waits.len() ==> (#[trigger] waits[j1]).0.tid != (
            #[trigger] waits[j2]).0.tid,
    ensures
        ({
            let idx = w.nodes.len() as usize;
            let fin = run_model(w, seq![(wk, rk)] + waits);
            &&& fin.nodes.len() == w.nodes.len() + 1
            &&& fin.nodes[idx as int].owner == wk.tid
            &&& fin.nodes[idx as int].max_wake_count as int == wk.ret - waits.len()
            &&& forall|j: int|
                0 <= j < waits.len() ==> fin.by_tid.dom().contains(
                    (#[trigger] waits[j]).0.tid as u64,
                ) && fin.by_tid[waits[j].0.tid as u64].position == Some(idx)
        }),
{
    let idx = w.nodes.len() as usize;
    let x = wk.args.uaddr as u64;
    let w1 = with_last(w, wk.timestamp_ns);
    match wake_parent(w1, wk.tid) {
        Some(p) => {
            assert(w.by_tid.dom().contains(wk.tid as u64));
            assert(cursor_ok(w, w.by_tid[wk.tid as u64]));
            assert(idx_live(w, p as int));
        },
        None => {},
    }
    let w2 = wake_model(w1, wk, rk);
    assert(retain_model(w2) == w2);
    lemma_step_wf(w, wk, rk);
    let m2 = step_model(w, wk, rk);
    assert(m2 == w2);
    assert(m2.by_addr[x] == idx);
    assert(m2.nodes[idx as int].owner == wk.tid);
    assert(m2.nodes[idx as int].max_wake_count == wk.ret);
    assert(m2.nodes.len() == w.nodes.len() + 1);
    lemma_waits_drain(m2, x, idx, waits);
    let all = seq![(wk, rk)] + waits;
    assert(all[0] == (wk, rk));
    assert(all.drop_first() =~= waits);
    assert(run_model(w, all) == run_model(m2, waits));
}

/// Law (exhausted waits are no-ops): with the sweep disabled, a wait
/// that observes no positive credits changes nothing but the clock.
pub proof fn lemma_exhausted_wait_noop(w: WebModel, e: FutexEvent, r: Option<u64>)
    requires
        web_wf(w),
        windowing_off(w),
        is_wait_op(e.args.futex_op),
        !wait_claims(w, e),
    ensures
        step_model(w, e, r) == with_last(w, e.timestamp_ns),
{
    let w1 = with_last(w, e.timestamp_ns);
    assert(wait_model(w1, e, r) == w1);
    assert(retain_model(w1) == w1);
}

} // verus!
