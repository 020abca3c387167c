//! The causal-graph engine.
//!
//! The engine ingests futex events one at a time and maintains a
//! forest of wake nodes.  Nodes live in an arena (`nodes`); a parallel
//! `live` vector marks which slots still belong to the forest.  Edges
//! are arena indices: a node records its parent and its children, and
//! a child is always created after its parent, so every child index is
//! strictly greater than its parent's index.  Two indices find join
//! points: `by_addr` maps a futex address to the newest node created
//! at it, `by_tid` maps a thread to its cursor.
//!
//! Every mutation is specified exactly by `step_model` over the
//! abstract `WebModel`, and `web_wf` states the forest invariants that
//! every reachable state satisfies.

use vstd::prelude::*;

use crate::analysis::WeightMode;
use crate::events::{is_wait_op, is_wake_op, sat_sub_spec, FutexEvent};
use crate::events::{mask_op, sat_sub, FUTEX_WAIT, FUTEX_WAIT_BITSET, FUTEX_WAKE, FUTEX_WAKE_BITSET};
use crate::maps::{assoc_map, distinct_keys, has_key, lemma_assoc_props, VMap};

verus! {

broadcast use vstd::std_specs::vec::axiom_spec_len;

/// Per-thread bookkeeping: the node the thread currently sits on and
/// the last instruction-counter reading sampled for it.
#[derive(Clone, Copy, Debug, PartialEq, Eq, Structural)]
pub struct ThreadCursor {
    /// Node that most recently woke this thread, or that the thread
    /// itself created last; `None` means the thread floats at the root.
    pub position: Option<usize>,
    /// Last counter reading, if one was ever sampled.
    pub counter_reading: Option<u64>,
}

/// A node of the causal forest: one observed wake.
pub struct FlowWebNode {
    /// Thread that performed the wake.
    pub owner: u32,
    /// Timestamp of the wake.
    pub timestamp_ns: u64,
    /// Remaining unclaimed wake credits; initialized from the wake's
    /// return value and decremented by each wait that claims it.
    pub max_wake_count: i64,
    /// Work weight credited to this node (counter delta of `owner`).
    pub len: u64,
    /// Timestamp of the last event that touched this node.
    pub last_update_timestamp: u64,
    /// Arena index of the parent node, if any.
    pub parent: Option<usize>,
    /// Arena indices of the children, in causal-discovery order.
    pub children: Vec<usize>,
}

/// Mathematical image of a node.
#[verifier::ext_equal]
pub struct NodeModel {
    pub owner: u32,
    pub timestamp_ns: u64,
    pub max_wake_count: i64,
    pub len: u64,
    pub last_update_timestamp: u64,
    pub parent: Option<usize>,
    pub children: Seq<usize>,
}

impl View for FlowWebNode {
    type V = NodeModel;

    open spec fn view(&self) -> NodeModel {
        NodeModel {
            owner: self.owner,
            timestamp_ns: self.timestamp_ns,
            max_wake_count: self.max_wake_count,
            len: self.len,
            last_update_timestamp: self.last_update_timestamp,
            parent: self.parent,
            children: self.children@,
        }
    }
}

/// Mathematical image of the whole engine state.
#[verifier::ext_equal]
pub struct WebModel {
    pub nodes: Seq<NodeModel>,
    pub live: Seq<bool>,
    pub roots: Seq<usize>,
    pub by_tid: Map<u64, ThreadCursor>,
    pub by_addr: Map<u64, usize>,
    pub last_event_timestamp_ns: Option<u64>,
    pub window_ns: Option<u64>,
    pub weight_mode: WeightMode,
}

/// The node sequence denoted by the arena vector.
pub open spec fn arena_view(ns: Seq<FlowWebNode>) -> Seq<NodeModel> {
    Seq::new(ns.len(), |i: int| ns[i]@)
}

/// The engine.  The fields are exposed read-only in spirit: they are
/// mutated only through the methods below, whose contracts pin every
/// change; reading them (as the tests do) is always safe.
pub struct FlowWeb {
    /// Node arena; slots are reclaimed only by `clear`.
    pub nodes: Vec<FlowWebNode>,
    /// Which arena slots still belong to the forest.
    pub live: Vec<bool>,
    /// Arena indices of the parentless nodes, in creation order.
    pub roots: Vec<usize>,
    /// Thread id (widened to `u64`) to cursor.
    pub by_tid: VMap<ThreadCursor>,
    /// Futex address (widened to `u64`) to the newest node created at
    /// it; the join index waits use to find their wake.
    pub by_addr: VMap<usize>,
    /// Timestamp of the most recent recognized event.
    pub last_event_timestamp_ns: Option<u64>,
    /// Retention horizon; `None` or zero disables the sweep.
    pub window_ns: Option<u64>,
    /// Which weight `analyze` maximizes.
    pub weight_mode: WeightMode,
}

impl View for FlowWeb {
    type V = WebModel;

    open spec fn view(&self) -> WebModel {
        WebModel {
            nodes: arena_view(self.nodes@),
            live: self.live@,
            roots: self.roots@,
            by_tid: self.by_tid@,
            by_addr: self.by_addr@,
            last_event_timestamp_ns: self.last_event_timestamp_ns,
            window_ns: self.window_ns,
            weight_mode: self.weight_mode,
        }
    }
}

// ---------------------------------------------------------------------------
// Forest invariants.
// ---------------------------------------------------------------------------

/// Index `i` denotes a node that is part of the forest.
pub open spec fn idx_live(w: WebModel, i: int) -> bool {
    0 <= i < w.nodes.len() && w.live[i]
}

/// The edge from node `i` to its child `c` is well formed: children
/// are created after their parents, and a live parent has live
/// children that point back at it.
pub open spec fn child_edge_ok(w: WebModel, i: int, c: usize) -> bool {
    &&& i < c as int
    &&& (c as int) < w.nodes.len()
    &&& (w.live[i] ==> w.live[c as int] && w.nodes[c as int].parent == Some(i as usize))
}

/// Per-node invariant over the arena.
pub open spec fn node_wf(w: WebModel, i: int) -> bool {
    let n = w.nodes[i];
    &&& forall|k: int| 0 <= k < n.children.len() ==> child_edge_ok(w, i, #[trigger] n.children[k])
    &&& forall|k1: int, k2: int|
        0 <= k1 < k2 < n.children.len() ==> (#[trigger] n.children[k1]) < (#[trigger] n.children[k2])
    &&& (w.live[i] ==> match n.parent {
        Some(p) => (p as int) < i && w.live[p as int] && w.nodes[p as int].children.contains(
            i as usize,
        ),
        None => w.roots.contains(i as usize),
    })
}

/// A cursor may only point at a live node.
pub open spec fn cursor_ok(w: WebModel, c: ThreadCursor) -> bool {
    match c.position {
        Some(p) => idx_live(w, p as int),
        None => true,
    }
}

/// The forest invariants (section-level statement for one state):
/// the indices reference live nodes, roots are parentless and listed
/// once, children are ordered by creation and owned by exactly one
/// parent via their back pointer.
pub open spec fn web_wf(w: WebModel) -> bool {
    &&& w.live.len() == w.nodes.len()
    &&& forall|i: int| 0 <= i < w.nodes.len() ==> #[trigger] node_wf(w, i)
    &&& forall|k: int|
        0 <= k < w.roots.len() ==> idx_live(w, (#[trigger] w.roots[k]) as int)
            && w.nodes[w.roots[k] as int].parent is None
    &&& forall|k1: int, k2: int|
        0 <= k1 < k2 < w.roots.len() ==> (#[trigger] w.roots[k1]) != (#[trigger] w.roots[k2])
    &&& forall|a: u64|
        #[trigger] w.by_addr.dom().contains(a) ==> idx_live(w, w.by_addr[a] as int)
    &&& forall|t: u64| #[trigger] w.by_tid.dom().contains(t) ==> cursor_ok(w, w.by_tid[t])
}

/// The forest invariants ignore the clock and the configuration:
/// two models with the same forest and indices are equally well formed.
pub proof fn lemma_wf_congruence(w1: WebModel, w2: WebModel)
    requires
        web_wf(w1),
        w2.nodes == w1.nodes,
        w2.live == w1.live,
        w2.roots == w1.roots,
        w2.by_tid == w1.by_tid,
        w2.by_addr == w1.by_addr,
    ensures
        web_wf(w2),
{
    assert forall|i: int| 0 <= i < w2.nodes.len() implies #[trigger] node_wf(w2, i) by {
        assert(node_wf(w1, i));
        let n = w2.nodes[i];
        assert forall|k: int| 0 <= k < n.children.len() implies child_edge_ok(
            w2,
            i,
            #[trigger] n.children[k],
        ) by {
            assert(child_edge_ok(w1, i, n.children[k]));
        }
    }
    assert forall|a: u64| #[trigger] w2.by_addr.dom().contains(a) implies idx_live(
        w2,
        w2.by_addr[a] as int,
    ) by {
        assert(idx_live(w1, w1.by_addr[a] as int));
    }
    assert forall|t: u64| #[trigger] w2.by_tid.dom().contains(t) implies cursor_ok(
        w2,
        w2.by_tid[t],
    ) by {
        assert(cursor_ok(w1, w1.by_tid[t]));
    }
}

// ---------------------------------------------------------------------------
// The transition relation, as total functions on the model.
// ---------------------------------------------------------------------------

/// The empty engine state with the given configuration.
pub open spec fn init_model(window_ns: Option<u64>, mode: WeightMode) -> WebModel {
    WebModel {
        nodes: Seq::empty(),
        live: Seq::empty(),
        roots: Seq::empty(),
        by_tid: Map::empty(),
        by_addr: Map::empty(),
        last_event_timestamp_ns: None,
        window_ns,
        weight_mode: mode,
    }
}

/// The cursor registered for a thread, if any.
pub open spec fn cursor_of(w: WebModel, tid: u32) -> Option<ThreadCursor> {
    if w.by_tid.dom().contains(tid as u64) {
        Some(w.by_tid[tid as u64])
    } else {
        None
    }
}

/// Parent of a node created by a wake of `tid`: the node the thread
/// currently sits on.
pub open spec fn wake_parent(w: WebModel, tid: u32) -> Option<usize> {
    match cursor_of(w, tid) {
        Some(c) => c.position,
        None => None,
    }
}

/// Work weight of a new wake node: the counter delta of the waking
/// thread, available only when both a prior and a fresh reading exist.
pub open spec fn wake_len(w: WebModel, tid: u32, reading: Option<u64>) -> u64 {
    match cursor_of(w, tid) {
        Some(c) => match (c.counter_reading, reading) {
            (Some(p), Some(r)) => sat_sub_spec(r, p),
            _ => 0,
        },
        None => 0,
    }
}

/// The reading stored in the cursor after a wake: the fresh one if the
/// counter answered, else whatever was stored before.
pub open spec fn merged_reading(w: WebModel, tid: u32, reading: Option<u64>) -> Option<u64> {
    match reading {
        Some(r) => Some(r),
        None => match cursor_of(w, tid) {
            Some(c) => c.counter_reading,
            None => None,
        },
    }
}

/// `n` with one more child appended.
pub open spec fn child_appended(n: NodeModel, c: usize) -> NodeModel {
    NodeModel {
        owner: n.owner,
        timestamp_ns: n.timestamp_ns,
        max_wake_count: n.max_wake_count,
        len: n.len,
        last_update_timestamp: n.last_update_timestamp,
        parent: n.parent,
        children: n.children.push(c),
    }
}

/// Effect of a wake event: append a node owned by the waker, attach it
/// under the waker's position (or as a root), and point both indices
/// at it.
pub open spec fn wake_model(w: WebModel, e: FutexEvent, reading: Option<u64>) -> WebModel {
    let idx = w.nodes.len() as usize;
    let n = NodeModel {
        owner: e.tid,
        timestamp_ns: e.timestamp_ns,
        max_wake_count: e.ret,
        len: wake_len(w, e.tid, reading),
        last_update_timestamp: e.timestamp_ns,
        parent: wake_parent(w, e.tid),
        children: Seq::empty(),
    };
    let nodes1 = w.nodes.push(n);
    let nodes2 = match wake_parent(w, e.tid) {
        Some(p) => nodes1.update(p as int, child_appended(w.nodes[p as int], idx)),
        None => nodes1,
    };
    let roots2 = match wake_parent(w, e.tid) {
        Some(p) => w.roots,
        None => w.roots.push(idx),
    };
    WebModel {
        nodes: nodes2,
        live: w.live.push(true),
        roots: roots2,
        by_tid: w.by_tid.insert(
            e.tid as u64,
            ThreadCursor {
                position: Some(idx),
                counter_reading: merged_reading(w, e.tid, reading),
            },
        ),
        by_addr: w.by_addr.insert(e.args.uaddr as u64, idx),
        last_event_timestamp_ns: w.last_event_timestamp_ns,
        window_ns: w.window_ns,
        weight_mode: w.weight_mode,
    }
}

/// Node a wait on this event's address would claim from, if any.
pub open spec fn wait_target(w: WebModel, e: FutexEvent) -> Option<usize> {
    if w.by_addr.dom().contains(e.args.uaddr as u64) {
        Some(w.by_addr[e.args.uaddr as u64])
    } else {
        None
    }
}

/// Does this wait observe a node with positive credits (and hence
/// claim one)?
pub open spec fn wait_claims(w: WebModel, e: FutexEvent) -> bool {
    match wait_target(w, e) {
        Some(i) => w.nodes[i as int].max_wake_count > 0,
        None => false,
    }
}

/// `n` with one credit claimed at time `t`.
pub open spec fn credit_claimed(n: NodeModel, t: u64) -> NodeModel {
    NodeModel {
        owner: n.owner,
        timestamp_ns: n.timestamp_ns,
        max_wake_count: (n.max_wake_count - 1) as i64,
        len: n.len,
        last_update_timestamp: t,
        parent: n.parent,
        children: n.children,
    }
}

/// Cursor of a waiter that claimed node `i`: the position moves there;
/// an existing reading is kept, a fresh cursor stores the new reading.
pub open spec fn wait_cursor(w: WebModel, tid: u32, i: usize, reading: Option<u64>) -> ThreadCursor {
    match cursor_of(w, tid) {
        Some(c) => ThreadCursor { position: Some(i), counter_reading: c.counter_reading },
        None => ThreadCursor { position: Some(i), counter_reading: reading },
    }
}

/// Effect of a wait event: if the newest node on the address has
/// credits left, claim one and move the waiter's cursor there;
/// otherwise the wait is dropped.
pub open spec fn wait_model(w: WebModel, e: FutexEvent, reading: Option<u64>) -> WebModel {
    match wait_target(w, e) {
        None => w,
        Some(i) => if w.nodes[i as int].max_wake_count > 0 {
            WebModel {
                nodes: w.nodes.update(i as int, credit_claimed(w.nodes[i as int], e.timestamp_ns)),
                live: w.live,
                roots: w.roots,
                by_tid: w.by_tid.insert(e.tid as u64, wait_cursor(w, e.tid, i, reading)),
                by_addr: w.by_addr,
                last_event_timestamp_ns: w.last_event_timestamp_ns,
                window_ns: w.window_ns,
                weight_mode: w.weight_mode,
            }
        } else {
            w
        },
    }
}

/// A wait preserves the forest invariants: it only touches a node's
/// credit and update time, and repoints one cursor at a live node.
pub proof fn lemma_wait_wf(w: WebModel, e: FutexEvent, reading: Option<u64>)
    requires
        web_wf(w),
    ensures
        web_wf(wait_model(w, e, reading)),
{
    let w2 = wait_model(w, e, reading);
    if wait_claims(w, e) {
        let i = w.by_addr[e.args.uaddr as u64];
        assert(idx_live(w, i as int));
        assert(w2.nodes.len() == w.nodes.len());
        assert forall|j: int| 0 <= j < w2.nodes.len() implies #[trigger] node_wf(w2, j) by {
            assert(node_wf(w, j));
            let n2 = w2.nodes[j];
            let n1 = w.nodes[j];
            assert(n2.children == n1.children);
            assert(n2.parent == n1.parent);
            assert forall|k: int| 0 <= k < n2.children.len() implies child_edge_ok(
                w2,
                j,
                #[trigger] n2.children[k],
            ) by {
                assert(child_edge_ok(w, j, n1.children[k]));
                let c = n1.children[k];
                assert(w2.nodes[c as int].parent == w.nodes[c as int].parent);
            }
            if w.live[j] {
                match n1.parent {
                    Some(p) => {
                        assert(w2.nodes[p as int].children == w.nodes[p as int].children);
                    },
                    None => {},
                }
            }
        }
        assert forall|k: int| 0 <= k < w2.roots.len() implies idx_live(
            w2,
            (#[trigger] w2.roots[k]) as int,
        ) && w2.nodes[w2.roots[k] as int].parent is None by {
            assert(idx_live(w, w.roots[k] as int));
            assert(w2.nodes[w.roots[k] as int].parent == w.nodes[w.roots[k] as int].parent);
        }
        assert forall|a: u64| #[trigger] w2.by_addr.dom().contains(a) implies idx_live(
            w2,
            w2.by_addr[a] as int,
        ) by {
            assert(idx_live(w, w.by_addr[a] as int));
        }
        assert forall|t: u64| #[trigger] w2.by_tid.dom().contains(t) implies cursor_ok(
            w2,
            w2.by_tid[t],
        ) by {
            if t == e.tid as u64 {
                assert(idx_live(w2, i as int));
            } else {
                assert(w.by_tid.dom().contains(t));
                assert(cursor_ok(w, w.by_tid[t]));
            }
        }
    }
}

/// A wake preserves the forest invariants: the fresh node is appended
/// at the end of the arena, so all edge-ordering constraints carry
/// over, and both indices are repointed at the live new node.
pub proof fn lemma_wake_wf(w: WebModel, e: FutexEvent, reading: Option<u64>)
    requires
        web_wf(w),
        w.nodes.len() < usize::MAX as nat,
    ensures
        web_wf(wake_model(w, e, reading)),
{
    let w2 = wake_model(w, e, reading);
    let idx = w.nodes.len() as usize;
    let po = wake_parent(w, e.tid);
    match po {
        Some(p) => {
            assert(w.by_tid.dom().contains(e.tid as u64));
            assert(cursor_ok(w, w.by_tid[e.tid as u64]));
            assert(idx_live(w, p as int));
        },
        None => {},
    }
    assert(w2.live.len() == w2.nodes.len());
    assert forall|j: int| 0 <= j < w2.nodes.len() implies #[trigger] node_wf(w2, j) by {
        if j < w.nodes.len() {
            assert(node_wf(w, j));
        }
        let n2 = w2.nodes[j];
        assert forall|k: int| 0 <= k < n2.children.len() implies child_edge_ok(
            w2,
            j,
            #[trigger] n2.children[k],
        ) by {
            let c = n2.children[k];
            if j == idx as int {
                // the new node has no children
                assert(false);
            } else if po is Some && j == po->0 as int {
                let p = po->0;
                if k < w.nodes[j].children.len() {
                    assert(child_edge_ok(w, j, c));
                    assert((c as int) < w.nodes.len());
                    assert(w2.nodes[c as int].parent == w.nodes[c as int].parent);
                } else {
                    assert(c == idx);
                    assert(w2.nodes[idx as int].parent == Some(p));
                }
            } else {
                assert(child_edge_ok(w, j, c));
                assert((c as int) < w.nodes.len());
                if po is Some && c as int == po->0 as int {
                    assert(w2.nodes[c as int].parent == w.nodes[c as int].parent);
                } else {
                    assert(w2.nodes[c as int].parent == w.nodes[c as int].parent);
                }
            }
        }
        assert forall|k1: int, k2: int| 0 <= k1 < k2 < n2.children.len() implies (
        #[trigger] n2.children[k1]) < (#[trigger] n2.children[k2]) by {
            if j != idx as int {
                let n1 = w.nodes[j];
                if po is Some && j == po->0 as int && k2 == n2.children.len() - 1 {
                    assert(n2.children[k1] == n1.children[k1]);
                    assert(child_edge_ok(w, j, n1.children[k1]));
                    assert((n1.children[k1] as int) < w.nodes.len());
                } else {
                    assert(n2.children[k1] == n1.children[k1]);
                    assert(n2.children[k2] == n1.children[k2]);
                }
            }
        }
        if w2.live[j] {
            if j == idx as int {
                match po {
                    Some(p) => {
                        assert((p as int) < j);
                        assert(w2.live[p as int]);
                        assert(w2.nodes[p as int].children == w.nodes[p as int].children.push(idx));
                        assert(w2.nodes[p as int].children[w.nodes[p as int].children.len() as int]
                            == idx);
                        assert(w2.nodes[p as int].children.contains(idx));
                    },
                    None => {
                        assert(w2.roots == w.roots.push(idx));
                        assert(w2.roots[w.roots.len() as int] == idx);
                        assert(w2.roots.contains(idx));
                    },
                }
            } else {
                assert(w.live[j]);
                let n1 = w.nodes[j];
                assert(n2.parent == n1.parent);
                match n1.parent {
                    Some(q) => {
                        assert(w.nodes[q as int].children.contains(j as usize));
                        let kq = choose|kq: int|
                            0 <= kq < w.nodes[q as int].children.len() && w.nodes[q as int].children[kq]
                                == j as usize;
                        assert(w2.nodes[q as int].children[kq] == j as usize);
                        assert(w2.nodes[q as int].children.contains(j as usize));
                    },
                    None => {
                        assert(w.roots.contains(j as usize));
                        let kr = choose|kr: int|
                            0 <= kr < w.roots.len() && w.roots[kr] == j as usize;
                        assert(w2.roots[kr] == j as usize);
                        assert(w2.roots.contains(j as usize));
                    },
                }
            }
        }
    }
    assert forall|k: int| 0 <= k < w2.roots.len() implies idx_live(
        w2,
        (#[trigger] w2.roots[k]) as int,
    ) && w2.nodes[w2.roots[k] as int].parent is None by {
        if k < w.roots.len() {
            assert(idx_live(w, w.roots[k] as int));
            assert(w2.roots[k] == w.roots[k]);
        } else {
            assert(w2.roots[k] == idx);
        }
    }
    assert forall|k1: int, k2: int| 0 <= k1 < k2 < w2.roots.len() implies (
    #[trigger] w2.roots[k1]) != (#[trigger] w2.roots[k2]) by {
        if k2 < w.roots.len() {
        } else {
            assert(idx_live(w, w.roots[k1] as int));
            assert((w.roots[k1] as int) < w.nodes.len());
        }
    }
    assert forall|a: u64| #[trigger] w2.by_addr.dom().contains(a) implies idx_live(
        w2,
        w2.by_addr[a] as int,
    ) by {
        if a == e.args.uaddr as u64 {
            assert(w2.by_addr[a] == idx);
        } else {
            assert(w.by_addr.dom().contains(a));
            assert(idx_live(w, w.by_addr[a] as int));
        }
    }
    assert forall|t: u64| #[trigger] w2.by_tid.dom().contains(t) implies cursor_ok(
        w2,
        w2.by_tid[t],
    ) by {
        if t == e.tid as u64 {
            assert(w2.by_tid[t].position == Some(idx));
        } else {
            assert(w.by_tid.dom().contains(t));
            assert(cursor_ok(w, w.by_tid[t]));
        }
    }
}

// ---------------------------------------------------------------------------
// The retention sweep.
// ---------------------------------------------------------------------------

/// Result of sweeping part of the forest: the subtree roots that stay,
/// and the set of nodes elided.
#[verifier::ext_equal]
pub struct SweepOut {
    pub kept: Seq<usize>,
    pub dead: Set<usize>,
}

/// A sweep that found nothing.
pub open spec fn sweep_empty() -> SweepOut {
    SweepOut { kept: Seq::empty(), dead: Set::empty() }
}

/// Is the node recent enough to stay, given the latest event time and
/// the window?
pub open spec fn node_fresh(n: NodeModel, last: u64, win: u64) -> bool {
    sat_sub_spec(last, n.last_update_timestamp) <= win
}

/// Sweep of the subtree rooted at `i`: a fresh node keeps its whole
/// subtree; a stale node is elided and its children are swept in turn.
pub open spec fn sweep_node(nodes: Seq<NodeModel>, last: u64, win: u64, i: usize) -> SweepOut
    decreases nodes.len() - i, 1int, 0int,
{
    if (i as int) < nodes.len() {
        if node_fresh(nodes[i as int], last, win) {
            SweepOut { kept: seq![i], dead: Set::empty() }
        } else {
            let sub = sweep_list(nodes, last, win, nodes[i as int].children, i as int);
            SweepOut { kept: sub.kept, dead: sub.dead.insert(i) }
        }
    } else {
        sweep_empty()
    }
}

/// Sweep of a list of sibling subtrees; `lb` is a strict lower bound
/// on the indices in `idxs`, which makes the recursion terminate.
pub open spec fn sweep_list(
    nodes: Seq<NodeModel>,
    last: u64,
    win: u64,
    idxs: Seq<usize>,
    lb: int,
) -> SweepOut
    decreases nodes.len() - lb, 0int, idxs.len(),
{
    if idxs.len() == 0 {
        sweep_empty()
    } else {
        let j = idxs[0];
        let head = if lb < j as int && (j as int) < nodes.len() {
            sweep_node(nodes, last, win, j)
        } else {
            sweep_empty()
        };
        let rest = sweep_list(nodes, last, win, idxs.drop_first(), lb);
        SweepOut { kept: head.kept + rest.kept, dead: head.dead.union(rest.dead) }
    }
}

/// Bounds discipline of the arena: every child index lies strictly
/// between its parent's index and the arena length.  This holds for
/// every slot, elided ones included, and is what makes traversals
/// terminate.
pub open spec fn children_bounded(ns: Seq<NodeModel>) -> bool {
    forall|i: int, k: int|
        0 <= i < ns.len() && 0 <= k < ns[i].children.len() ==> i < (
        #[trigger] ns[i].children[k]) as int && (ns[i].children[k] as int) < ns.len()
}

/// Well-formed forests have bounded children.
pub proof fn lemma_wf_children_bounded(w: WebModel)
    requires
        web_wf(w),
    ensures
        children_bounded(w.nodes),
{
    assert forall|i: int, k: int|
        0 <= i < w.nodes.len() && 0 <= k < w.nodes[i].children.len() implies i < (
    #[trigger] w.nodes[i].children[k]) as int && (w.nodes[i].children[k] as int)
        < w.nodes.len() by {
        assert(node_wf(w, i));
        assert(child_edge_ok(w, i, w.nodes[i].children[k]));
    }
}

/// Everything a sweep reports lies inside the arena.
pub proof fn lemma_sweep_node_bounds(nodes: Seq<NodeModel>, last: u64, win: u64, i: usize)
    ensures
        ({
            let sw = sweep_node(nodes, last, win, i);
            &&& forall|j: int|
                0 <= j < sw.kept.len() ==> ((#[trigger] sw.kept[j]) as int) < nodes.len()
            &&& forall|j: usize| sw.dead.contains(j) ==> (j as int) < nodes.len()
        }),
    decreases nodes.len() - i, 1int, 0int,
{
    let sw = sweep_node(nodes, last, win, i);
    if (i as int) < nodes.len() {
        if node_fresh(nodes[i as int], last, win) {
            assert(sw.kept == seq![i]);
            assert(sw.kept[0] == i);
        } else {
            let sub = sweep_list(nodes, last, win, nodes[i as int].children, i as int);
            lemma_sweep_list_bounds(nodes, last, win, nodes[i as int].children, i as int);
            assert(sw.kept == sub.kept);
            assert forall|j: usize| sw.dead.contains(j) implies (j as int) < nodes.len() by {
                if j != i {
                    assert(sub.dead.contains(j));
                }
            }
        }
    } else {
        assert(sw.kept.len() == 0);
    }
}

/// Everything a list sweep reports lies inside the arena.
pub proof fn lemma_sweep_list_bounds(
    nodes: Seq<NodeModel>,
    last: u64,
    win: u64,
    idxs: Seq<usize>,
    lb: int,
)
    ensures
        ({
            let sw = sweep_list(nodes, last, win, idxs, lb);
            &&& forall|j: int|
                0 <= j < sw.kept.len() ==> ((#[trigger] sw.kept[j]) as int) < nodes.len()
            &&& forall|j: usize| sw.dead.contains(j) ==> (j as int) < nodes.len()
        }),
    decreases nodes.len() - lb, 0int, idxs.len(),
{
    let sw = sweep_list(nodes, last, win, idxs, lb);
    if idxs.len() > 0 {
        let j0 = idxs[0];
        let head = if lb < j0 as int && (j0 as int) < nodes.len() {
            sweep_node(nodes, last, win, j0)
        } else {
            sweep_empty()
        };
        let rest = sweep_list(nodes, last, win, idxs.drop_first(), lb);
        if lb < j0 as int && (j0 as int) < nodes.len() {
            lemma_sweep_node_bounds(nodes, last, win, j0);
        }
        lemma_sweep_list_bounds(nodes, last, win, idxs.drop_first(), lb);
        assert(sw.kept == head.kept + rest.kept);
        assert forall|j: int| 0 <= j < sw.kept.len() implies ((#[trigger] sw.kept[j]) as int)
            < nodes.len() by {
            if j < head.kept.len() {
                assert(sw.kept[j] == head.kept[j]);
            } else {
                assert(sw.kept[j] == rest.kept[j - head.kept.len()]);
            }
        }
        assert forall|j: usize| sw.dead.contains(j) implies (j as int) < nodes.len() by {
            assert(head.dead.contains(j) || rest.dead.contains(j));
        }
    } else {
        assert(sw.kept.len() == 0);
    }
}

/// Sweeping a concatenation of sibling lists sweeps each part.
pub proof fn lemma_sweep_list_append(
    nodes: Seq<NodeModel>,
    last: u64,
    win: u64,
    a: Seq<usize>,
    b: Seq<usize>,
    lb: int,
)
    ensures
        ({
            let t = sweep_list(nodes, last, win, a + b, lb);
            let x = sweep_list(nodes, last, win, a, lb);
            let y = sweep_list(nodes, last, win, b, lb);
            t.kept == x.kept + y.kept && t.dead == x.dead.union(y.dead)
        }),
    decreases a.len(),
{
    let t = sweep_list(nodes, last, win, a + b, lb);
    let x = sweep_list(nodes, last, win, a, lb);
    let y = sweep_list(nodes, last, win, b, lb);
    if a.len() == 0 {
        assert(a + b =~= b);
        assert(t.kept =~= x.kept + y.kept);
        assert(t.dead =~= x.dead.union(y.dead));
    } else {
        assert((a + b).len() > 0);
        assert((a + b)[0] == a[0]);
        assert((a + b).drop_first() =~= a.drop_first() + b);
        lemma_sweep_list_append(nodes, last, win, a.drop_first(), b, lb);
        assert(t.kept =~= x.kept + y.kept);
        assert(t.dead =~= x.dead.union(y.dead));
    }
}

/// Liveness flags after a sweep.
pub open spec fn live_after(lv: Seq<bool>, dead: Set<usize>) -> Seq<bool> {
    Seq::new(lv.len(), |j: int| lv[j] && !dead.contains(j as usize))
}

/// `n` promoted to a root.
pub open spec fn parent_cleared(n: NodeModel) -> NodeModel {
    NodeModel {
        owner: n.owner,
        timestamp_ns: n.timestamp_ns,
        max_wake_count: n.max_wake_count,
        len: n.len,
        last_update_timestamp: n.last_update_timestamp,
        parent: None,
        children: n.children,
    }
}

/// The arena after a sweep: every kept subtree root is promoted.
pub open spec fn nodes_after(ns: Seq<NodeModel>, kept: Seq<usize>) -> Seq<NodeModel> {
    Seq::new(
        ns.len(),
        |j: int|
            if kept.contains(j as usize) {
                parent_cleared(ns[j])
            } else {
                ns[j]
            },
    )
}

/// Address-index keys whose node survived.
pub open spec fn addr_keep_set(m: Map<u64, usize>, lv: Seq<bool>) -> Set<u64> {
    Set::new(|a: u64| m.dom().contains(a) && (m[a] as int) < lv.len() && lv[m[a] as int])
}

/// A cursor after a sweep: a position whose node was elided is dropped.
pub open spec fn scrub_cursor(c: ThreadCursor, lv: Seq<bool>) -> ThreadCursor {
    match c.position {
        Some(p) => if (p as int) < lv.len() && lv[p as int] {
            c
        } else {
            ThreadCursor { position: None, counter_reading: c.counter_reading }
        },
        None => c,
    }
}

/// The thread index after a sweep.
pub open spec fn scrub_tid_map(m: Map<u64, ThreadCursor>, lv: Seq<bool>) -> Map<u64, ThreadCursor> {
    Map::new(|t: u64| m.dom().contains(t), |t: u64| scrub_cursor(m[t], lv))
}

/// Effect of the retention sweep: when a window is configured and an
/// event has been seen, stale subtree roots are elided, their fresh
/// descendants promoted, and the two indices are purged of references
/// to elided nodes.
pub open spec fn retain_model(w: WebModel) -> WebModel {
    match (w.window_ns, w.last_event_timestamp_ns) {
        (Some(win), Some(last)) => if win > 0 {
            let out = sweep_list(w.nodes, last, win, w.roots, -1);
            let lv2 = live_after(w.live, out.dead);
            WebModel {
                nodes: nodes_after(w.nodes, out.kept),
                live: lv2,
                roots: out.kept,
                by_tid: scrub_tid_map(w.by_tid, lv2),
                by_addr: w.by_addr.restrict(addr_keep_set(w.by_addr, lv2)),
                last_event_timestamp_ns: w.last_event_timestamp_ns,
                window_ns: w.window_ns,
                weight_mode: w.weight_mode,
            }
        } else {
            w
        },
        _ => w,
    }
}

// ---------------------------------------------------------------------------
// Why the sweep preserves the forest invariants.
// ---------------------------------------------------------------------------

/// Is node `j` a descendant of node `i` (or `i` itself), following
/// parent links?  Parent indices are smaller than child indices, so
/// the chain is well founded.
pub open spec fn desc(w: WebModel, i: int, j: int) -> bool
    decreases j,
{
    if j == i {
        true
    } else if j < 0 {
        false
    } else {
        match w.nodes[j].parent {
            Some(p) => 0 <= (p as int) < j && desc(w, i, p as int),
            None => false,
        }
    }
}

/// A descendant's index is at least its ancestor's.
pub proof fn lemma_desc_le(w: WebModel, i: int, j: int)
    requires
        desc(w, i, j),
    ensures
        i <= j,
    decreases j,
{
    if j != i {
        let p = w.nodes[j].parent->0;
        lemma_desc_le(w, i, p as int);
    }
}

/// In a well-formed forest, ancestors of live nodes are live.
pub proof fn lemma_desc_live(w: WebModel, i: int, j: int)
    requires
        web_wf(w),
        desc(w, i, j),
        idx_live(w, j),
    ensures
        idx_live(w, i),
    decreases j,
{
    if j != i {
        let p = w.nodes[j].parent->0;
        assert(node_wf(w, j));
        assert(idx_live(w, p as int));
        lemma_desc_live(w, i, p as int);
    }
}

/// Descendancy is transitive.
pub proof fn lemma_desc_trans(w: WebModel, a: int, b: int, c: int)
    requires
        desc(w, a, b),
        desc(w, b, c),
    ensures
        desc(w, a, c),
    decreases c,
{
    if c != b {
        let p = w.nodes[c].parent->0;
        lemma_desc_trans(w, a, b, p as int);
    }
}

/// Two ancestors of one node lie on one chain.
pub proof fn lemma_desc_total(w: WebModel, a: int, b: int, x: int)
    requires
        desc(w, a, x),
        desc(w, b, x),
    ensures
        desc(w, a, b) || desc(w, b, a),
    decreases x,
{
    if x != a && x != b {
        let p = w.nodes[x].parent->0;
        lemma_desc_total(w, a, b, p as int);
    }
}

/// Was `c` reported by the sweep at all?
pub open spec fn in_sweep(sw: SweepOut, c: usize) -> bool {
    sw.kept.contains(c) || sw.dead.contains(c)
}

/// Does `j`'s parent belong to the elided set?
pub open spec fn parent_dead(w: WebModel, j: usize, d: Set<usize>) -> bool {
    match w.nodes[j as int].parent {
        Some(p) => d.contains(p),
        None => false,
    }
}

/// Structural soundness of a sweep result: everything reported was a
/// live node, kept and elided nodes are disjoint, the kept list has
/// no duplicates, and an elided node had all its children visited.
pub open spec fn sweep_sound(w: WebModel, sw: SweepOut) -> bool {
    &&& forall|j: usize| #[trigger] sw.kept.contains(j) ==> idx_live(w, j as int)
    &&& forall|j: usize| #[trigger] sw.dead.contains(j) ==> idx_live(w, j as int)
    &&& forall|j: usize| #[trigger] sw.kept.contains(j) ==> !sw.dead.contains(j)
    &&& forall|k1: int, k2: int|
        0 <= k1 < k2 < sw.kept.len() ==> (#[trigger] sw.kept[k1]) != (#[trigger] sw.kept[k2])
    &&& forall|j: usize|
        #[trigger] sw.dead.contains(j) ==> (forall|k: int|
            0 <= k < w.nodes[j as int].children.len() ==> in_sweep(
                sw,
                #[trigger] w.nodes[j as int].children[k],
            ))
}

/// Membership in a sequence extended by one element.
pub proof fn lemma_push_contains(s: Seq<usize>, x: usize, y: usize)
    ensures
        s.push(x).contains(y) <==> (s.contains(y) || x == y),
{
    if s.contains(y) {
        let k = choose|k: int| 0 <= k < s.len() && s[k] == y;
        assert(s.push(x)[k] == y);
    }
    assert(s.push(x)[s.len() as int] == x);
    if s.push(x).contains(y) && y != x {
        let k = choose|k: int| 0 <= k < s.push(x).len() && s.push(x)[k] == y;
        assert(k < s.len());
        assert(s[k] == y);
    }
}

/// Membership in a concatenation, from membership in a part.
pub proof fn lemma_concat_contains(a: Seq<usize>, b: Seq<usize>, x: usize)
    requires
        a.contains(x) || b.contains(x),
    ensures
        (a + b).contains(x),
{
    if a.contains(x) {
        let k = choose|k: int| 0 <= k < a.len() && a[k] == x;
        assert((a + b)[k] == x);
    } else {
        let k = choose|k: int| 0 <= k < b.len() && b[k] == x;
        assert((a + b)[k + a.len()] == x);
    }
}

/// Soundness of a subtree sweep, by mutual induction with the list
/// form below: everything reported descends from `i`, and whatever is
/// reported besides `i` has an elided parent.
#[verifier::rlimit(60)]
pub proof fn lemma_sweep_node_props(w: WebModel, last: u64, win: u64, i: usize)
    requires
        web_wf(w),
        idx_live(w, i as int),
    ensures
        ({
            let sw = sweep_node(w.nodes, last, win, i);
            &&& sweep_sound(w, sw)
            &&& in_sweep(sw, i)
            &&& forall|j: usize|
                in_sweep(sw, j) ==> desc(w, i as int, j as int) && (j == i || parent_dead(
                    w,
                    j,
                    sw.dead,
                ))
        }),
    decreases w.nodes.len() - i, 1int, 0int,
{
    let sw = sweep_node(w.nodes, last, win, i);
    if node_fresh(w.nodes[i as int], last, win) {
        assert(sw.kept == seq![i]);
        assert(sw.kept[0] == i);
        assert(sw.kept.contains(i));
        assert forall|j: usize| #[trigger] sw.kept.contains(j) implies j == i by {
            let k = choose|k: int| 0 <= k < sw.kept.len() && sw.kept[k] == j;
        }
    } else {
        let ch = w.nodes[i as int].children;
        let sub = sweep_list(w.nodes, last, win, ch, i as int);
        assert(node_wf(w, i as int));
        assert forall|k: int| 0 <= k < ch.len() implies idx_live(w, (#[trigger] ch[k]) as int)
            && (i as int) < ch[k] as int by {
            assert(child_edge_ok(w, i as int, ch[k]));
        }
        assert forall|k1: int, k2: int|
            0 <= k1 < k2 < ch.len() implies !desc(w, (#[trigger] ch[k1]) as int, (
        #[trigger] ch[k2]) as int) && !desc(w, ch[k2] as int, ch[k1] as int) by {
            assert(child_edge_ok(w, i as int, ch[k1]));
            assert(child_edge_ok(w, i as int, ch[k2]));
            assert(ch[k1] != ch[k2]);
            assert(w.nodes[ch[k1] as int].parent == Some(i as usize));
            assert(w.nodes[ch[k2] as int].parent == Some(i as usize));
            if desc(w, ch[k1] as int, ch[k2] as int) {
                assert(desc(w, ch[k1] as int, i as int));
                lemma_desc_le(w, ch[k1] as int, i as int);
            }
            if desc(w, ch[k2] as int, ch[k1] as int) {
                assert(desc(w, ch[k2] as int, i as int));
                lemma_desc_le(w, ch[k2] as int, i as int);
            }
        }
        lemma_sweep_list_props(w, last, win, ch, i as int);
        assert(sw.kept == sub.kept);
        assert(sw.dead == sub.dead.insert(i));
        // everything the list sweep reports descends from some child
        assert forall|j: usize| in_sweep(sw, j) implies desc(w, i as int, j as int) && (j == i
            || parent_dead(w, j, sw.dead)) by {
            if j == i {
            } else {
                assert(in_sweep(sub, j));
                let k = choose|k: int|
                    0 <= k < ch.len() && desc(w, (#[trigger] ch[k]) as int, j as int);
                assert(child_edge_ok(w, i as int, ch[k]));
                assert(w.nodes[ch[k] as int].parent == Some(i as usize));
                assert(desc(w, i as int, i as int));
                assert(desc(w, i as int, ch[k] as int));
                lemma_desc_trans(w, i as int, ch[k] as int, j as int);
                if ch.contains(j) {
                    assert(w.nodes[j as int].parent == Some(i as usize));
                    assert(sw.dead.contains(i));
                } else {
                    assert(parent_dead(w, j, sub.dead));
                    match w.nodes[j as int].parent {
                        Some(p) => {
                            assert(sw.dead.contains(p));
                        },
                        None => {},
                    }
                }
            }
        }
        // kept and the inserted root stay disjoint
        assert forall|j: usize| #[trigger] sw.kept.contains(j) implies !sw.dead.contains(j) by {
            assert(sub.kept.contains(j));
            assert(!sub.dead.contains(j));
            if j == i {
                assert(in_sweep(sub, i));
                let k = choose|k: int|
                    0 <= k < ch.len() && desc(w, (#[trigger] ch[k]) as int, i as int);
                assert(child_edge_ok(w, i as int, ch[k]));
                lemma_desc_le(w, ch[k] as int, i as int);
            }
        }
        assert forall|j: usize|
            #[trigger] sw.dead.contains(j) implies (forall|k: int|
            0 <= k < w.nodes[j as int].children.len() ==> in_sweep(
                sw,
                #[trigger] w.nodes[j as int].children[k],
            )) by {
            if j == i {
                assert forall|k: int| 0 <= k < ch.len() implies in_sweep(
                    sw,
                    #[trigger] ch[k],
                ) by {
                    assert(in_sweep(sub, ch[k]));
                }
            } else {
                assert(sub.dead.contains(j));
                assert forall|k: int| 0 <= k < w.nodes[j as int].children.len() implies in_sweep(
                    sw,
                    #[trigger] w.nodes[j as int].children[k],
                ) by {
                    assert(in_sweep(sub, w.nodes[j as int].children[k]));
                }
            }
        }
    }
}

/// Soundness of a sibling-list sweep.  The list's indices must be
/// live, above the bound, and pairwise subtree-disjoint.
pub proof fn lemma_sweep_list_props(
    w: WebModel,
    last: u64,
    win: u64,
    idxs: Seq<usize>,
    lb: int,
)
    requires
        web_wf(w),
        forall|k: int|
            0 <= k < idxs.len() ==> idx_live(w, (#[trigger] idxs[k]) as int) && lb < idxs[k] as int,
        forall|k1: int, k2: int|
            0 <= k1 < k2 < idxs.len() ==> !desc(w, (#[trigger] idxs[k1]) as int, (
            #[trigger] idxs[k2]) as int) && !desc(w, idxs[k2] as int, idxs[k1] as int),
    ensures
        ({
            let sw = sweep_list(w.nodes, last, win, idxs, lb);
            &&& sweep_sound(w, sw)
            &&& forall|k: int| 0 <= k < idxs.len() ==> in_sweep(sw, #[trigger] idxs[k])
            &&& forall|j: usize|
                in_sweep(sw, j) ==> (exists|k: int|
                    0 <= k < idxs.len() && desc(w, (#[trigger] idxs[k]) as int, j as int)) && (
                idxs.contains(j) || parent_dead(w, j, sw.dead))
        }),
    decreases w.nodes.len() - lb, 0int, idxs.len(),
{
    let sw = sweep_list(w.nodes, last, win, idxs, lb);
    if idxs.len() == 0 {
    } else {
        let j0 = idxs[0];
        assert(idx_live(w, j0 as int) && lb < j0 as int);
        let head = sweep_node(w.nodes, last, win, j0);
        let rest_idxs = idxs.drop_first();
        let rest = sweep_list(w.nodes, last, win, rest_idxs, lb);
        assert(sw.kept == head.kept + rest.kept);
        assert(sw.dead == head.dead.union(rest.dead));
        lemma_sweep_node_props(w, last, win, j0);
        assert forall|k: int| 0 <= k < rest_idxs.len() implies idx_live(
            w,
            (#[trigger] rest_idxs[k]) as int,
        ) && lb < rest_idxs[k] as int by {
            assert(rest_idxs[k] == idxs[k + 1]);
        }
        assert forall|k1: int, k2: int| 0 <= k1 < k2 < rest_idxs.len() implies !desc(
            w,
            (#[trigger] rest_idxs[k1]) as int,
            (#[trigger] rest_idxs[k2]) as int,
        ) && !desc(w, rest_idxs[k2] as int, rest_idxs[k1] as int) by {
            assert(rest_idxs[k1] == idxs[k1 + 1]);
            assert(rest_idxs[k2] == idxs[k2 + 1]);
        }
        lemma_sweep_list_props(w, last, win, rest_idxs, lb);
        // a node reported by both parts would put two of the list's
        // indices on one ancestor chain
        assert forall|j: usize| in_sweep(head, j) && in_sweep(rest, j) implies false by {
            assert(desc(w, j0 as int, j as int));
            let k = choose|k: int|
                0 <= k < rest_idxs.len() && desc(w, (#[trigger] rest_idxs[k]) as int, j as int);
            assert(rest_idxs[k] == idxs[k + 1]);
            lemma_desc_total(w, j0 as int, idxs[k + 1] as int, j as int);
        }
        assert forall|j: usize| #[trigger] sw.kept.contains(j) implies idx_live(w, j as int)
            && !sw.dead.contains(j) by {
            let k = choose|k: int| 0 <= k < sw.kept.len() && sw.kept[k] == j;
            if k < head.kept.len() {
                assert(head.kept.contains(j));
                assert(in_sweep(head, j));
                if rest.dead.contains(j) {
                    assert(in_sweep(rest, j));
                }
            } else {
                assert(rest.kept[k - head.kept.len()] == j);
                assert(rest.kept.contains(j));
                assert(in_sweep(rest, j));
                if head.dead.contains(j) {
                    assert(in_sweep(head, j));
                }
            }
        }
        assert forall|k1: int, k2: int| 0 <= k1 < k2 < sw.kept.len() implies (
        #[trigger] sw.kept[k1]) != (#[trigger] sw.kept[k2]) by {
            if k1 < head.kept.len() && k2 >= head.kept.len() {
                let j1 = sw.kept[k1];
                let j2 = sw.kept[k2];
                assert(head.kept.contains(j1));
                assert(rest.kept[k2 - head.kept.len()] == j2);
                assert(rest.kept.contains(j2));
                if j1 == j2 {
                    assert(in_sweep(head, j1) && in_sweep(rest, j1));
                }
            } else if k1 >= head.kept.len() {
                assert(sw.kept[k1] == rest.kept[k1 - head.kept.len()]);
                assert(sw.kept[k2] == rest.kept[k2 - head.kept.len()]);
            }
        }
        assert forall|j: usize| #[trigger] sw.dead.contains(j) implies idx_live(w, j as int)
            && (forall|k: int|
            0 <= k < w.nodes[j as int].children.len() ==> in_sweep(
                sw,
                #[trigger] w.nodes[j as int].children[k],
            )) by {
            if head.dead.contains(j) {
                assert forall|k: int|
                    0 <= k < w.nodes[j as int].children.len() implies in_sweep(
                    sw,
                    #[trigger] w.nodes[j as int].children[k],
                ) by {
                    let c = w.nodes[j as int].children[k];
                    assert(in_sweep(head, c));
                    if head.kept.contains(c) {
                        lemma_concat_contains(head.kept, rest.kept, c);
                    }
                }
            } else {
                assert(rest.dead.contains(j));
                assert forall|k: int|
                    0 <= k < w.nodes[j as int].children.len() implies in_sweep(
                    sw,
                    #[trigger] w.nodes[j as int].children[k],
                ) by {
                    let c = w.nodes[j as int].children[k];
                    assert(in_sweep(rest, c));
                    if rest.kept.contains(c) {
                        lemma_concat_contains(head.kept, rest.kept, c);
                    }
                }
            }
        }
        assert forall|k: int| 0 <= k < idxs.len() implies in_sweep(sw, #[trigger] idxs[k]) by {
            if k == 0 {
                assert(in_sweep(head, j0));
                if head.kept.contains(j0) {
                    lemma_concat_contains(head.kept, rest.kept, j0);
                }
            } else {
                assert(idxs[k] == rest_idxs[k - 1]);
                assert(in_sweep(rest, idxs[k]));
                if rest.kept.contains(idxs[k]) {
                    lemma_concat_contains(head.kept, rest.kept, idxs[k]);
                }
            }
        }
        assert forall|j: usize| in_sweep(sw, j) implies (exists|k: int|
            0 <= k < idxs.len() && desc(w, (#[trigger] idxs[k]) as int, j as int)) && (
        idxs.contains(j) || parent_dead(w, j, sw.dead)) by {
            if sw.kept.contains(j) {
                let kk = choose|kk: int| 0 <= kk < sw.kept.len() && sw.kept[kk] == j;
                if kk < head.kept.len() {
                    assert(head.kept[kk] == j);
                    assert(head.kept.contains(j));
                } else {
                    assert(rest.kept[kk - head.kept.len()] == j);
                    assert(rest.kept.contains(j));
                }
            }
            if in_sweep(head, j) {
                assert(desc(w, (idxs[0]) as int, j as int));
                if j == j0 {
                    assert(idxs.contains(j));
                } else {
                    assert(parent_dead(w, j, head.dead));
                }
            } else {
                assert(in_sweep(rest, j));
                let k = choose|k: int|
                    0 <= k < rest_idxs.len() && desc(w, (#[trigger] rest_idxs[k]) as int, j as int);
                assert(idxs[k + 1] == rest_idxs[k]);
                assert(desc(w, (idxs[k + 1]) as int, j as int));
                if rest_idxs.contains(j) {
                    let kk = choose|kk: int| 0 <= kk < rest_idxs.len() && rest_idxs[kk] == j;
                    assert(idxs[kk + 1] == j);
                    assert(idxs.contains(j));
                } else {
                    assert(parent_dead(w, j, rest.dead));
                }
            }
        }
    }
}

/// The retention sweep preserves the forest invariants: surviving
/// subtrees stay intact, promoted roots lose their parent link, and
/// both indices are purged of elided nodes.
#[verifier::rlimit(100)]
pub proof fn lemma_retain_wf(w: WebModel)
    requires
        web_wf(w),
        w.nodes.len() <= usize::MAX as nat,
    ensures
        web_wf(retain_model(w)),
{
    let m = retain_model(w);
    match (w.window_ns, w.last_event_timestamp_ns) {
        (Some(win), Some(last)) => {
            if win > 0 {
                let out = sweep_list(w.nodes, last, win, w.roots, -1);
                let lv2 = live_after(w.live, out.dead);
                assert forall|k: int| 0 <= k < w.roots.len() implies idx_live(
                    w,
                    (#[trigger] w.roots[k]) as int,
                ) && -1 < w.roots[k] as int by {}
                assert forall|k1: int, k2: int| 0 <= k1 < k2 < w.roots.len() implies !desc(
                    w,
                    (#[trigger] w.roots[k1]) as int,
                    (#[trigger] w.roots[k2]) as int,
                ) && !desc(w, w.roots[k2] as int, w.roots[k1] as int) by {
                    assert(w.nodes[w.roots[k1] as int].parent is None);
                    assert(w.nodes[w.roots[k2] as int].parent is None);
                    assert(w.roots[k1] != w.roots[k2]);
                }
                lemma_sweep_list_props(w, last, win, w.roots, -1);
                assert(m.nodes == nodes_after(w.nodes, out.kept));
                assert(m.live == lv2);
                assert(m.roots == out.kept);
                assert(m.live.len() == m.nodes.len());
                assert forall|j: int| 0 <= j < m.nodes.len() implies #[trigger] node_wf(
                    m,
                    j,
                ) by {
                    assert(node_wf(w, j));
                    let nm = m.nodes[j];
                    let nw = w.nodes[j];
                    assert(nm.children == nw.children);
                    assert forall|k: int| 0 <= k < nm.children.len() implies child_edge_ok(
                        m,
                        j,
                        #[trigger] nm.children[k],
                    ) by {
                        let c = nm.children[k];
                        assert(child_edge_ok(w, j, c));
                        if m.live[j] {
                            assert(w.live[j] && !out.dead.contains(j as usize));
                            assert(w.nodes[c as int].parent == Some(j as usize));
                            if in_sweep(out, c) {
                                assert(w.roots.contains(c) || parent_dead(w, c, out.dead));
                                if w.roots.contains(c) {
                                    let kk = choose|kk: int|
                                        0 <= kk < w.roots.len() && w.roots[kk] == c;
                                    assert(w.nodes[w.roots[kk] as int].parent is None);
                                    assert(false);
                                } else {
                                    assert(out.dead.contains(j as usize));
                                    assert(false);
                                }
                            }
                            assert(!out.dead.contains(c));
                            assert(!out.kept.contains(c));
                            assert(m.live[c as int]);
                            assert(m.nodes[c as int].parent == w.nodes[c as int].parent);
                        }
                    }
                    assert forall|k1: int, k2: int|
                        0 <= k1 < k2 < nm.children.len() implies (#[trigger] nm.children[k1]) < (
                    #[trigger] nm.children[k2]) by {
                        assert(nw.children[k1] < nw.children[k2]);
                    }
                    if m.live[j] {
                        assert(w.live[j] && !out.dead.contains(j as usize));
                        if out.kept.contains(j as usize) {
                            assert(nm.parent is None);
                            assert(m.roots.contains(j as usize));
                        } else {
                            assert(nm.parent == nw.parent);
                            match nw.parent {
                                Some(p) => {
                                    assert((p as int) < j && w.live[p as int]);
                                    assert(w.nodes[p as int].children.contains(j as usize));
                                    if out.dead.contains(p) {
                                        let kk = choose|kk: int|
                                            0 <= kk < w.nodes[p as int].children.len()
                                                && w.nodes[p as int].children[kk] == j as usize;
                                        assert(in_sweep(
                                            out,
                                            w.nodes[p as int].children[kk],
                                        ));
                                        assert(false);
                                    }
                                    assert(m.live[p as int]);
                                    assert(m.nodes[p as int].children == w.nodes[
                                        p as int
                                    ].children);
                                    assert(m.nodes[p as int].children.contains(j as usize));
                                },
                                None => {
                                    assert(w.roots.contains(j as usize));
                                    let kk = choose|kk: int|
                                        0 <= kk < w.roots.len() && w.roots[kk] == j as usize;
                                    assert(in_sweep(out, w.roots[kk]));
                                    assert(false);
                                },
                            }
                        }
                    }
                }
                assert forall|k: int| 0 <= k < m.roots.len() implies idx_live(
                    m,
                    (#[trigger] m.roots[k]) as int,
                ) && m.nodes[m.roots[k] as int].parent is None by {
                    let r = out.kept[k];
                    assert(out.kept.contains(r));
                    assert(idx_live(w, r as int));
                    assert(!out.dead.contains(r));
                    assert(m.live[r as int]);
                    assert(m.nodes[r as int].parent is None);
                }
                assert forall|a: u64| #[trigger] m.by_addr.dom().contains(a) implies idx_live(
                    m,
                    m.by_addr[a] as int,
                ) by {
                    assert(addr_keep_set(w.by_addr, lv2).contains(a));
                    assert(w.by_addr.dom().contains(a));
                    assert(m.by_addr[a] == w.by_addr[a]);
                    assert(idx_live(w, w.by_addr[a] as int));
                }
                assert forall|t: u64| #[trigger] m.by_tid.dom().contains(t) implies cursor_ok(
                    m,
                    m.by_tid[t],
                ) by {
                    assert(w.by_tid.dom().contains(t));
                    assert(m.by_tid[t] == scrub_cursor(w.by_tid[t], lv2));
                    assert(cursor_ok(w, w.by_tid[t]));
                }
            }
        },
        _ => {},
    }
}

/// `w` with the last-event clock advanced.
pub open spec fn with_last(w: WebModel, t: u64) -> WebModel {
    WebModel {
        nodes: w.nodes,
        live: w.live,
        roots: w.roots,
        by_tid: w.by_tid,
        by_addr: w.by_addr,
        last_event_timestamp_ns: Some(t),
        window_ns: w.window_ns,
        weight_mode: w.weight_mode,
    }
}

/// Effect of one `process_event` call: recognized commands update the
/// clock, apply their mutation and run the retention sweep; all other
/// commands leave the state untouched.
pub open spec fn step_model(w: WebModel, e: FutexEvent, reading: Option<u64>) -> WebModel {
    if is_wait_op(e.args.futex_op) {
        retain_model(wait_model(with_last(w, e.timestamp_ns), e, reading))
    } else if is_wake_op(e.args.futex_op) {
        retain_model(wake_model(with_last(w, e.timestamp_ns), e, reading))
    } else {
        w
    }
}

/// One full step preserves the forest invariants.
pub proof fn lemma_step_wf(w: WebModel, e: FutexEvent, reading: Option<u64>)
    requires
        web_wf(w),
        w.nodes.len() < usize::MAX as nat,
    ensures
        web_wf(step_model(w, e, reading)),
{
    if is_wait_op(e.args.futex_op) {
        let w1 = with_last(w, e.timestamp_ns);
        lemma_wf_congruence(w, w1);
        lemma_wait_wf(w1, e, reading);
        lemma_retain_wf(wait_model(w1, e, reading));
    } else if is_wake_op(e.args.futex_op) {
        let w1 = with_last(w, e.timestamp_ns);
        lemma_wf_congruence(w, w1);
        lemma_wake_wf(w1, e, reading);
        lemma_retain_wf(wake_model(w1, e, reading));
    }
}

// ---------------------------------------------------------------------------
// The engine's methods.
// ---------------------------------------------------------------------------

impl FlowWeb {
    /// Representation invariant: the model is a well-formed forest and
    /// the two index structures have distinct keys.  `new` establishes
    /// it and every method preserves it.
    pub open spec fn inv(&self) -> bool {
        &&& web_wf(self@)
        &&& self.by_tid.wf()
        &&& self.by_addr.wf()
    }

    /// Constructs an empty engine.  A `window_ns` of `None` or zero
    /// disables the retention sweep.  The weight mode starts as
    /// time-weighted.
    pub fn new(window_ns: Option<u64>) -> (w: Self)
        ensures
            w@ == init_model(window_ns, WeightMode::Time),
            w.inv(),
    {
        let w = FlowWeb {
            nodes: Vec::new(),
            live: Vec::new(),
            roots: Vec::new(),
            by_tid: VMap::new(),
            by_addr: VMap::new(),
            last_event_timestamp_ns: None,
            window_ns,
            weight_mode: WeightMode::Time,
        };
        proof {
            assert(w@ =~~= init_model(window_ns, WeightMode::Time));
        }
        w
    }

    /// Reconfigures the retention horizon.
    pub fn set_window(&mut self, window_ns: Option<u64>)
        requires
            old(self).inv(),
        ensures
            final(self).inv(),
            final(self)@ == (WebModel { window_ns, ..old(self)@ }),
    {
        self.window_ns = window_ns;
        proof {
            assert(self@ =~~= WebModel { window_ns, ..old(self)@ });
            lemma_wf_congruence(old(self)@, self@);
        }
    }

    /// Reconfigures which weight `analyze` maximizes.
    pub fn set_weight_mode(&mut self, mode: WeightMode)
        requires
            old(self).inv(),
        ensures
            final(self).inv(),
            final(self)@ == (WebModel { weight_mode: mode, ..old(self)@ }),
    {
        self.weight_mode = mode;
        proof {
            assert(self@ =~~= WebModel { weight_mode: mode, ..old(self)@ });
            lemma_wf_congruence(old(self)@, self@);
        }
    }

    /// Recursive worker of the retention sweep: visits the subtree at
    /// `i`, appends the roots of the surviving subtrees to `out`, and
    /// clears the live flag of every elided node.  Mirrors
    /// `sweep_node` exactly.
    fn search_new_childs(
        nodes: &Vec<FlowWebNode>,
        live: &mut Vec<bool>,
        last: u64,
        win: u64,
        i: usize,
        out: &mut Vec<usize>,
    )
        requires
            children_bounded(arena_view(nodes@)),
            (i as int) < nodes@.len(),
            old(live)@.len() == nodes@.len(),
        ensures
            ({
                let sw = sweep_node(arena_view(nodes@), last, win, i);
                &&& final(out)@ == old(out)@ + sw.kept
                &&& final(live)@.len() == old(live)@.len()
                &&& forall|j: int|
                    0 <= j < old(live)@.len() ==> final(live)@[j] == (old(live)@[j]
                        && !sw.dead.contains(j as usize))
            }),
        decreases nodes@.len() - i,
    {
        let ghost ns = arena_view(nodes@);
        let n_total = nodes.len();
        proof {
            assert(n_total as nat == nodes@.len());
        }
        let lu = nodes[i].last_update_timestamp;
        if sat_sub(last, lu) <= win {
            proof {
                assert(node_fresh(ns[i as int], last, win));
            }
            out.push(i);
            proof {
                assert(out@ =~= old(out)@ + seq![i]);
            }
        } else {
            proof {
                assert(!node_fresh(ns[i as int], last, win));
            }
            live[i] = false;
            let ghost live1 = live@;
            let n_children = nodes[i].children.len();
            let ghost ch = ns[i as int].children;
            proof {
                assert(ch == nodes@[i as int].children@);
                assert(ch.len() == n_children);
                assert(ch.take(0) =~= Seq::<usize>::empty());
                assert(sweep_list(arena_view(nodes@), last, win, ch.take(0), i as int)
                    == sweep_empty());
                assert(out@ =~= out@ + sweep_empty().kept);
                assert forall|j: int| 0 <= j < old(live)@.len() implies live@[j] == (old(live)@[j]
                    && !sweep_empty().dead.insert(i).contains(j as usize)) by {
                    if j == i as int {
                        assert(!live@[j]);
                        assert(sweep_empty().dead.insert(i).contains(j as usize));
                    } else {
                        assert(j < n_total as int);
                        assert(j as usize != i);
                        assert(!sweep_empty().dead.insert(i).contains(j as usize));
                    }
                }
            }
            let mut k: usize = 0;
            while k < n_children
                invariant
                    children_bounded(arena_view(nodes@)),
                    (i as int) < nodes@.len(),
                    live@.len() == nodes@.len(),
                    n_children == nodes@[i as int].children@.len(),
                    ch == arena_view(nodes@)[i as int].children,
                    k <= n_children,
                    ({
                        let part = sweep_list(
                            arena_view(nodes@),
                            last,
                            win,
                            ch.take(k as int),
                            i as int,
                        );
                        &&& out@ == old(out)@ + part.kept
                        &&& live@.len() == old(live)@.len()
                        &&& forall|j: int|
                            0 <= j < old(live)@.len() ==> live@[j] == (old(live)@[j]
                                && !part.dead.insert(i).contains(j as usize))
                    }),
                decreases n_children - k,
            {
                let ghost part_pre = sweep_list(arena_view(nodes@), last, win, ch.take(k as int), i as int);
                let c = nodes[i].children[k];
                proof {
                    assert(ch[k as int] == c);
                    assert((i as int) < c as int && (c as int) < nodes@.len());
                }
                let ghost live_pre = live@;
                let ghost out_pre = out@;
                Self::search_new_childs(nodes, live, last, win, c, out);
                proof {
                    let swc = sweep_node(arena_view(nodes@), last, win, c);
                    assert(ch.take(k + 1 as int) =~= ch.take(k as int) + seq![c]);
                    lemma_sweep_list_append(
                        arena_view(nodes@),
                        last,
                        win,
                        ch.take(k as int),
                        seq![c],
                        i as int,
                    );
                    let single = sweep_list(arena_view(nodes@), last, win, seq![c], i as int);
                    reveal_with_fuel(sweep_list, 3);
                    assert(seq![c].drop_first() =~= Seq::<usize>::empty());
                    assert(sweep_list(arena_view(nodes@), last, win, seq![c].drop_first(), i as int)
                        == sweep_empty());
                    assert(single.kept =~= swc.kept);
                    assert(single.dead =~= swc.dead);
                    let part_post = sweep_list(
                        arena_view(nodes@),
                        last,
                        win,
                        ch.take(k + 1 as int),
                        i as int,
                    );
                    assert(part_post.kept =~= part_pre.kept + swc.kept);
                    assert(out@ =~= old(out)@ + part_post.kept);
                    assert forall|j: int| 0 <= j < old(live)@.len() implies live@[j] == (old(
                        live,
                    )@[j] && !part_post.dead.insert(i).contains(j as usize)) by {
                        assert(live@[j] == (live_pre[j] && !swc.dead.contains(j as usize)));
                        assert(part_post.dead =~= part_pre.dead.union(swc.dead));
                    }
                }
                k += 1;
            }
            proof {
                assert(ch.take(n_children as int) =~= ch);
                let sw = sweep_node(arena_view(nodes@), last, win, i);
                let sub = sweep_list(arena_view(nodes@), last, win, ch, i as int);
                assert(sw.kept == sub.kept && sw.dead == sub.dead.insert(i));
            }
        }
    }

    /// Ingests one event.  Total: unrecognized commands are no-ops.
    /// The effect is exactly `step_model` with no counter reading.
    pub fn process_event(&mut self, e: FutexEvent)
        requires
            old(self).inv(),
        ensures
            final(self).inv(),
            final(self)@ == step_model(old(self)@, e, None),
    {
        self.process_event_counted(e, None);
    }

    /// Ingests one event together with a fresh instruction-counter
    /// reading for the event's thread (or `None` when the host has no
    /// counter).  Recognized commands advance the clock, apply their
    /// mutation and run the retention sweep; everything else is a
    /// no-op.
    pub fn process_event_counted(&mut self, e: FutexEvent, reading: Option<u64>)
        requires
            old(self).inv(),
        ensures
            final(self).inv(),
            final(self)@ == step_model(old(self)@, e, reading),
    {
        let cmd = mask_op(e.args.futex_op);
        if cmd == FUTEX_WAIT || cmd == FUTEX_WAIT_BITSET {
            self.last_event_timestamp_ns = Some(e.timestamp_ns);
            proof {
                assert(self@ =~~= with_last(old(self)@, e.timestamp_ns));
                lemma_wf_congruence(old(self)@, self@);
            }
            self.process_wait_event(e, reading);
            self.retain_timeout_nodes();
        } else if cmd == FUTEX_WAKE || cmd == FUTEX_WAKE_BITSET {
            self.last_event_timestamp_ns = Some(e.timestamp_ns);
            proof {
                assert(self@ =~~= with_last(old(self)@, e.timestamp_ns));
                lemma_wf_congruence(old(self)@, self@);
            }
            self.process_wake_event(e, reading);
            self.retain_timeout_nodes();
        }
    }

    /// The retention sweep: when a window is configured and at least
    /// one event has been seen, elides every subtree root that was not
    /// touched within the window, promotes its fresh descendants, and
    /// purges index entries that referenced elided nodes.
    pub fn retain_timeout_nodes(&mut self)
        requires
            old(self).inv(),
        ensures
            final(self).inv(),
            final(self)@ == retain_model(old(self)@),
    {
        let ghost w0 = old(self)@;
        let win = match self.window_ns {
            Some(x) => x,
            None => {
                return ;
            },
        };
        if win == 0 {
            return ;
        }
        let last = match self.last_event_timestamp_ns {
            Some(l) => l,
            None => {
                return ;
            },
        };
        let n_nodes = self.nodes.len();
        proof {
            lemma_wf_children_bounded(w0);
            assert(n_nodes as nat == w0.nodes.len());
            assert(w0.roots.take(0) =~= Seq::<usize>::empty());
            assert(sweep_list(w0.nodes, last, win, w0.roots.take(0), -1) == sweep_empty());
        }
        let mut new_roots: Vec<usize> = Vec::new();
        let nr = self.roots.len();
        let mut k: usize = 0;
        while k < nr
            invariant
                old(self).inv(),
                w0 == old(self)@,
                self.nodes == old(self).nodes,
                self.roots == old(self).roots,
                self.by_tid == old(self).by_tid,
                self.by_addr == old(self).by_addr,
                self.window_ns == old(self).window_ns,
                self.last_event_timestamp_ns == old(self).last_event_timestamp_ns,
                self.weight_mode == old(self).weight_mode,
                w0.window_ns == Some(win),
                win > 0,
                w0.last_event_timestamp_ns == Some(last),
                nr == self.roots@.len(),
                k <= nr,
                n_nodes as nat == w0.nodes.len(),
                self.live@.len() == w0.live.len(),
                children_bounded(w0.nodes),
                ({
                    let part = sweep_list(w0.nodes, last, win, w0.roots.take(k as int), -1);
                    &&& new_roots@ == part.kept
                    &&& forall|j: int|
                        0 <= j < w0.live.len() ==> self.live@[j] == (w0.live[j]
                            && !part.dead.contains(j as usize))
                }),
            decreases nr - k,
        {
            let ghost part_pre = sweep_list(w0.nodes, last, win, w0.roots.take(k as int), -1);
            let r = self.roots[k];
            proof {
                assert(idx_live(w0, (w0.roots[k as int]) as int));
            }
            let ghost live_pre = self.live@;
            proof {
                assert(arena_view(self.nodes@) == w0.nodes);
                assert(forall|j: int|
                    0 <= j < w0.live.len() ==> live_pre[j] == (w0.live[j]
                        && !part_pre.dead.contains(j as usize)));
            }
            FlowWeb::search_new_childs(&self.nodes, &mut self.live, last, win, r, &mut new_roots);
            proof {
                assert(arena_view(self.nodes@) == w0.nodes);
                let swc = sweep_node(w0.nodes, last, win, r);
                assert(w0.roots.take(k + 1 as int) =~= w0.roots.take(k as int) + seq![r]);
                lemma_sweep_list_append(w0.nodes, last, win, w0.roots.take(k as int), seq![r], -1);
                reveal_with_fuel(sweep_list, 3);
                assert(seq![r].drop_first() =~= Seq::<usize>::empty());
                assert(sweep_list(w0.nodes, last, win, seq![r].drop_first(), -1) == sweep_empty());
                let single = sweep_list(w0.nodes, last, win, seq![r], -1);
                assert(single.kept =~= swc.kept);
                assert(single.dead =~= swc.dead);
                let part_post = sweep_list(w0.nodes, last, win, w0.roots.take(k + 1 as int), -1);
                assert(part_post.kept =~= part_pre.kept + swc.kept);
                assert(part_post.dead =~= part_pre.dead.union(swc.dead));
                assert(new_roots@ =~= part_post.kept);
                assert forall|j: int| 0 <= j < w0.live.len() implies self.live@[j] == (w0.live[j]
                    && !part_post.dead.contains(j as usize)) by {
                    assert(live_pre[j] == (w0.live[j] && !part_pre.dead.contains(j as usize)));
                    assert(self.live@[j] == (live_pre[j] && !swc.dead.contains(j as usize)));
                    assert(part_post.dead.contains(j as usize) == (part_pre.dead.contains(
                        j as usize,
                    ) || swc.dead.contains(j as usize)));
                }
            }
            k += 1;
        }
        let ghost out = sweep_list(w0.nodes, last, win, w0.roots, -1);
        let ghost lv2 = live_after(w0.live, out.dead);
        proof {
            assert(w0.roots.take(nr as int) =~= w0.roots);
            assert(new_roots@ == out.kept);
            assert(self.live@ =~= lv2);
            lemma_sweep_list_bounds(w0.nodes, last, win, w0.roots, -1);
        }
        self.roots = new_roots;
        // promote the kept subtree roots
        let nk = self.roots.len();
        let mut k2: usize = 0;
        proof {
            assert(self.roots@.take(0) =~= Seq::<usize>::empty());
        }
        while k2 < nk
            invariant
                w0 == old(self)@,
                self.roots@ == out.kept,
                self.by_tid == old(self).by_tid,
                self.by_addr == old(self).by_addr,
                self.window_ns == old(self).window_ns,
                self.last_event_timestamp_ns == old(self).last_event_timestamp_ns,
                self.weight_mode == old(self).weight_mode,
                old(self).inv(),
                nk == self.roots@.len(),
                k2 <= nk,
                n_nodes as nat == w0.nodes.len(),
                self.nodes@.len() == w0.nodes.len(),
                self.live@ == lv2,
                out == sweep_list(w0.nodes, last, win, w0.roots, -1),
                lv2 == live_after(w0.live, out.dead),
                forall|j: int|
                    0 <= j < nk ==> ((#[trigger] self.roots@[j]) as int) < w0.nodes.len(),
                forall|j: int|
                    0 <= j < w0.nodes.len() ==> arena_view(self.nodes@)[j] == (
                    if self.roots@.take(k2 as int).contains(j as usize) {
                        parent_cleared(w0.nodes[j])
                    } else {
                        w0.nodes[j]
                    }),
            decreases nk - k2,
        {
            let r = self.roots[k2];
            let ghost pre_nodes = self.nodes@;
            self.nodes[r].parent = None;
            proof {
                assert(self.roots@.take(k2 + 1 as int) =~= self.roots@.take(k2 as int).push(r));
                assert forall|j: int|
                    0 <= j < w0.nodes.len() implies arena_view(self.nodes@)[j] == (
                if self.roots@.take(k2 + 1 as int).contains(j as usize) {
                    parent_cleared(w0.nodes[j])
                } else {
                    w0.nodes[j]
                }) by {
                    lemma_push_contains(self.roots@.take(k2 as int), r, j as usize);
                    if j == r as int {
                        assert(arena_view(pre_nodes)[j] == (
                        if self.roots@.take(k2 as int).contains(r) {
                            parent_cleared(w0.nodes[j])
                        } else {
                            w0.nodes[j]
                        }));
                        assert(self.nodes@[j].parent is None);
                        assert(self.nodes@[j].children == pre_nodes[j].children);
                        assert(self.nodes@[j]@.children == pre_nodes[j]@.children);
                        assert(arena_view(self.nodes@)[j] =~= parent_cleared(w0.nodes[j]));
                    } else {
                        assert(j as usize != r);
                        assert(self.nodes@[j] == pre_nodes[j]);
                        assert(arena_view(self.nodes@)[j] == arena_view(pre_nodes)[j]);
                    }
                }
            }
            k2 += 1;
        }
        proof {
            assert(self.roots@.take(nk as int) =~= self.roots@);
            assert forall|j: int| 0 <= j < w0.nodes.len() implies arena_view(self.nodes@)[j]
                =~= nodes_after(w0.nodes, out.kept)[j] by {}
            assert(arena_view(self.nodes@) =~~= nodes_after(w0.nodes, out.kept));
        }
        // purge the address index of elided nodes
        let mut kept_addr: VMap<usize> = VMap::new();
        let na = self.by_addr.entries.len();
        let mut k3: usize = 0;
        while k3 < na
            invariant
                w0 == old(self)@,
                self.by_addr == old(self).by_addr,
                self.by_tid == old(self).by_tid,
                self.window_ns == old(self).window_ns,
                self.last_event_timestamp_ns == old(self).last_event_timestamp_ns,
                self.weight_mode == old(self).weight_mode,
                old(self).inv(),
                na == self.by_addr.entries@.len(),
                k3 <= na,
                self.live@ == lv2,
                out == sweep_list(w0.nodes, last, win, w0.roots, -1),
                lv2 == live_after(w0.live, out.dead),
                self.roots@ == out.kept,
                arena_view(self.nodes@) == nodes_after(w0.nodes, out.kept),
                kept_addr.wf(),
                forall|a: u64|
                    #[trigger] kept_addr@.dom().contains(a) ==> w0.by_addr.dom().contains(a)
                        && kept_addr@[a] == w0.by_addr[a] && ((w0.by_addr[a] as int) < lv2.len()
                        && lv2[w0.by_addr[a] as int]),
                forall|j: int|
                    0 <= j < k3 ==> ((((#[trigger] self.by_addr.entries@[j]).1 as int) < lv2.len()
                        && lv2[self.by_addr.entries@[j].1 as int])
                        ==> kept_addr@.dom().contains(self.by_addr.entries@[j].0)),
            decreases na - k3,
        {
            let e = self.by_addr.entries[k3];
            proof {
                self.by_addr.lemma_wf_is_distinct();
                self.by_addr.lemma_view_is_assoc();
                lemma_assoc_props(self.by_addr.entries@);
                assert(self.by_addr.entries@[k3 as int].0 == e.0);
                assert(has_key(self.by_addr.entries@, e.0));
                assert(w0.by_addr.dom().contains(e.0));
                assert(w0.by_addr[e.0] == e.1);
            }
            if e.1 < self.live.len() && self.live[e.1] {
                kept_addr.insert(e.0, e.1);
            }
            k3 += 1;
        }
        proof {
            self.by_addr.lemma_wf_is_distinct();
            self.by_addr.lemma_view_is_assoc();
            lemma_assoc_props(self.by_addr.entries@);
            let target = w0.by_addr.restrict(addr_keep_set(w0.by_addr, lv2));
            assert forall|a: u64| #[trigger] target.dom().contains(a) implies kept_addr@.dom()
                .contains(a) by {
                assert(w0.by_addr.dom().contains(a));
                assert(has_key(self.by_addr.entries@, a));
                let j = choose|j: int|
                    0 <= j < self.by_addr.entries@.len() && (#[trigger] self.by_addr.entries@[j]).0
                        == a;
                assert(self.by_addr.entries@[j].1 == w0.by_addr[a]);
            }
            assert(kept_addr@ =~= target);
        }
        self.by_addr = kept_addr;
        // drop cursor positions that point at elided nodes
        let nt = self.by_tid.entries.len();
        let mut k4: usize = 0;
        while k4 < nt
            invariant
                w0 == old(self)@,
                old(self).inv(),
                self.window_ns == old(self).window_ns,
                self.last_event_timestamp_ns == old(self).last_event_timestamp_ns,
                self.weight_mode == old(self).weight_mode,
                nt == self.by_tid.entries@.len(),
                nt == old(self).by_tid.entries@.len(),
                k4 <= nt,
                self.live@ == lv2,
                out == sweep_list(w0.nodes, last, win, w0.roots, -1),
                lv2 == live_after(w0.live, out.dead),
                self.roots@ == out.kept,
                arena_view(self.nodes@) == nodes_after(w0.nodes, out.kept),
                self.by_addr.wf(),
                self.by_addr@ == w0.by_addr.restrict(addr_keep_set(w0.by_addr, lv2)),
                forall|j: int|
                    0 <= j < nt ==> (#[trigger] self.by_tid.entries@[j]).0 == old(
                        self,
                    ).by_tid.entries@[j].0,
                forall|j: int|
                    0 <= j < k4 ==> (#[trigger] self.by_tid.entries@[j]).1 == scrub_cursor(
                        old(self).by_tid.entries@[j].1,
                        lv2,
                    ),
                forall|j: int|
                    k4 <= j < nt ==> (#[trigger] self.by_tid.entries@[j]).1 == old(
                        self,
                    ).by_tid.entries@[j].1,
            decreases nt - k4,
        {
            let e = self.by_tid.entries[k4];
            let c2: ThreadCursor = match e.1.position {
                Some(p) => if p < self.live.len() && self.live[p] {
                    e.1
                } else {
                    ThreadCursor { position: None, counter_reading: e.1.counter_reading }
                },
                None => e.1,
            };
            self.by_tid.entries[k4] = (e.0, c2);
            k4 += 1;
        }
        proof {
            old(self).by_tid.lemma_wf_is_distinct();
            old(self).by_tid.lemma_view_is_assoc();
            lemma_assoc_props(old(self).by_tid.entries@);
            assert(distinct_keys(self.by_tid.entries@));
            self.by_tid.lemma_wf_is_distinct();
            self.by_tid.lemma_view_is_assoc();
            lemma_assoc_props(self.by_tid.entries@);
            let target = scrub_tid_map(w0.by_tid, lv2);
            assert forall|t: u64| #[trigger] self.by_tid@.dom().contains(t) implies target.dom()
                .contains(t) && self.by_tid@[t] == target[t] by {
                assert(has_key(self.by_tid.entries@, t));
                let j = choose|j: int|
                    0 <= j < self.by_tid.entries@.len() && (#[trigger] self.by_tid.entries@[j]).0
                        == t;
                assert(old(self).by_tid.entries@[j].0 == t);
                assert(has_key(old(self).by_tid.entries@, t));
                assert(w0.by_tid.dom().contains(t));
                assert(w0.by_tid[t] == old(self).by_tid.entries@[j].1);
                assert(self.by_tid@[t] == self.by_tid.entries@[j].1);
            }
            assert forall|t: u64| #[trigger] target.dom().contains(t) implies self.by_tid@.dom()
                .contains(t) by {
                assert(w0.by_tid.dom().contains(t));
                assert(has_key(old(self).by_tid.entries@, t));
                let j = choose|j: int|
                    0 <= j < old(self).by_tid.entries@.len() && (#[trigger] old(
                        self,
                    ).by_tid.entries@[j]).0 == t;
                assert(self.by_tid.entries@[j].0 == t);
                assert(has_key(self.by_tid.entries@, t));
            }
            assert(self.by_tid@ =~= target);
        }
        proof {
            assert(self@ =~~= retain_model(w0));
            lemma_retain_wf(w0);
        }
    }

    /// Applies a wake event: creates a node owned by the waking
    /// thread, attaches it under the thread's current position (or as
    /// a root), and repoints the address and thread indices at it.
    pub fn process_wake_event(&mut self, e: FutexEvent, reading: Option<u64>)
        requires
            old(self).inv(),
        ensures
            final(self).inv(),
            final(self)@ == wake_model(old(self)@, e, reading),
    {
        let idx = self.nodes.len();
        let cur_opt = self.by_tid.get(e.tid as u64);
        let parent_opt: Option<usize> = match cur_opt {
            Some(c) => c.position,
            None => None,
        };
        let len_w: u64 = match cur_opt {
            Some(c) => match (c.counter_reading, reading) {
                (Some(p), Some(r)) => sat_sub(r, p),
                _ => 0,
            },
            None => 0,
        };
        let new_read: Option<u64> = match reading {
            Some(r) => Some(r),
            None => match cur_opt {
                Some(c) => c.counter_reading,
                None => None,
            },
        };
        proof {
            assert(cursor_of(old(self)@, e.tid) == cur_opt);
            assert(wake_parent(old(self)@, e.tid) == parent_opt);
            assert(wake_len(old(self)@, e.tid, reading) == len_w);
            assert(merged_reading(old(self)@, e.tid, reading) == new_read);
            match parent_opt {
                Some(p) => {
                    assert(old(self)@.by_tid.dom().contains(e.tid as u64));
                    assert(cursor_ok(old(self)@, old(self)@.by_tid[e.tid as u64]));
                    assert(idx_live(old(self)@, p as int));
                },
                None => {},
            }
        }
        let node = FlowWebNode {
            owner: e.tid,
            timestamp_ns: e.timestamp_ns,
            max_wake_count: e.ret,
            len: len_w,
            last_update_timestamp: e.timestamp_ns,
            parent: parent_opt,
            children: Vec::new(),
        };
        self.nodes.push(node);
        self.live.push(true);
        let n_now = self.nodes.len();
        proof {
            assert(n_now as nat == old(self)@.nodes.len() + 1);
            assert(old(self)@.nodes.len() < usize::MAX as nat);
        }
        match parent_opt {
            Some(p) => {
                self.nodes[p].children.push(idx);
            },
            None => {
                self.roots.push(idx);
            },
        }
        self.by_addr.insert(e.args.uaddr as u64, idx);
        self.by_tid.insert(
            e.tid as u64,
            ThreadCursor { position: Some(idx), counter_reading: new_read },
        );
        proof {
            assert(self@.nodes =~~= wake_model(old(self)@, e, reading).nodes);
            assert(self@ =~~= wake_model(old(self)@, e, reading));
            lemma_wake_wf(old(self)@, e, reading);
        }
    }

    /// Applies a wait event: if the newest node on the event's address
    /// still has wake credits, one credit is claimed and the waiting
    /// thread's cursor moves onto that node; otherwise nothing changes.
    pub fn process_wait_event(&mut self, e: FutexEvent, reading: Option<u64>)
        requires
            old(self).inv(),
        ensures
            final(self).inv(),
            final(self)@ == wait_model(old(self)@, e, reading),
    {
        match self.by_addr.get(e.args.uaddr as u64) {
            None => {
                proof {
                    assert(self@ =~~= wait_model(old(self)@, e, reading));
                }
            },
            Some(i) => {
                proof {
                    assert(old(self)@.by_addr.dom().contains(e.args.uaddr as u64));
                    assert(idx_live(old(self)@, i as int));
                }
                if self.nodes[i].max_wake_count > 0 {
                    self.nodes[i].max_wake_count = self.nodes[i].max_wake_count - 1;
                    self.nodes[i].last_update_timestamp = e.timestamp_ns;
                    let cur_opt = self.by_tid.get(e.tid as u64);
                    let new_cur: ThreadCursor = match cur_opt {
                        Some(c) => ThreadCursor {
                            position: Some(i),
                            counter_reading: c.counter_reading,
                        },
                        None => ThreadCursor { position: Some(i), counter_reading: reading },
                    };
                    self.by_tid.insert(e.tid as u64, new_cur);
                    proof {
                        assert(self@.nodes =~~= wait_model(old(self)@, e, reading).nodes);
                        assert(self@ =~~= wait_model(old(self)@, e, reading));
                        lemma_wait_wf(old(self)@, e, reading);
                    }
                } else {
                    proof {
                        assert(self@ =~~= wait_model(old(self)@, e, reading));
                    }
                }
            },
        }
    }

    /// Drops all nodes and cursors; the configuration survives.  The
    /// post-state is the one `new` would produce with this window.
    pub fn clear(&mut self)
        ensures
            final(self).inv(),
            final(self)@ == init_model(old(self)@.window_ns, old(self)@.weight_mode),
    {
        self.nodes.clear();
        self.live.clear();
        self.roots.clear();
        self.by_tid.clear();
        self.by_addr.clear();
        self.last_event_timestamp_ns = None;
        proof {
            assert(self@ =~~= init_model(old(self)@.window_ns, old(self)@.weight_mode));
        }
    }
}

} // verus!
