//! Critical-path analysis over the causal forest.
//!
//! `analyze` enumerates every root-to-leaf path in depth-first,
//! child-order traversal and reports the first path of maximal weight.
//! It reads the forest and never mutates it.

use vstd::prelude::*;

use crate::events::{sat_add, sat_add_spec, sat_sub, sat_sub_spec};
use crate::flow_web::{arena_view, children_bounded, idx_live, lemma_wf_children_bounded};
use crate::flow_web::{FlowWeb, NodeModel, WebModel};

verus! {

/// Which weight `analyze` maximizes over root-to-leaf paths.
#[derive(Clone, Copy, Debug, PartialEq, Eq, Structural)]
pub enum WeightMode {
    /// Sum of the per-node work weights (retired-instruction deltas).
    Instructions,
    /// Sum of the timestamp gaps between consecutive path nodes.
    Time,
}

/// One step of a reported critical path.
#[derive(Clone, Copy, Debug, PartialEq, Eq, Structural)]
pub struct AnalyzeData {
    /// Thread that performed the wake this node stands for.
    pub tid: u32,
    /// Timestamp of that wake.
    pub timestamp_ns: u64,
    /// Work weight credited to the node.
    pub len: u64,
}

/// The path record of one node.
pub open spec fn data_of(n: NodeModel) -> AnalyzeData {
    AnalyzeData { tid: n.owner, timestamp_ns: n.timestamp_ns, len: n.len }
}

/// All root-to-leaf paths of the subtree at `i`, each extending
/// `prefix`, in depth-first child order.
pub open spec fn paths_node(
    nodes: Seq<NodeModel>,
    i: usize,
    prefix: Seq<AnalyzeData>,
) -> Seq<Seq<AnalyzeData>>
    decreases nodes.len() - i, 1int, 0int,
{
    if (i as int) < nodes.len() {
        let p2 = prefix.push(data_of(nodes[i as int]));
        if nodes[i as int].children.len() == 0 {
            seq![p2]
        } else {
            paths_list(nodes, nodes[i as int].children, i as int, p2)
        }
    } else {
        Seq::empty()
    }
}

/// All root-to-leaf paths of a list of sibling subtrees; `lb` bounds
/// the indices from below, which makes the recursion terminate.
pub open spec fn paths_list(
    nodes: Seq<NodeModel>,
    idxs: Seq<usize>,
    lb: int,
    prefix: Seq<AnalyzeData>,
) -> Seq<Seq<AnalyzeData>>
    decreases nodes.len() - lb, 0int, idxs.len(),
{
    if idxs.len() == 0 {
        Seq::empty()
    } else {
        let j = idxs[0];
        let head = if lb < j as int && (j as int) < nodes.len() {
            paths_node(nodes, j, prefix)
        } else {
            Seq::empty()
        };
        head + paths_list(nodes, idxs.drop_first(), lb, prefix)
    }
}

/// Enumerating a concatenation of sibling lists enumerates each part.
pub proof fn lemma_paths_list_append(
    nodes: Seq<NodeModel>,
    a: Seq<usize>,
    b: Seq<usize>,
    lb: int,
    prefix: Seq<AnalyzeData>,
)
    ensures
        paths_list(nodes, a + b, lb, prefix) == paths_list(nodes, a, lb, prefix) + paths_list(
            nodes,
            b,
            lb,
            prefix,
        ),
    decreases a.len(),
{
    if a.len() == 0 {
        assert(a + b =~= b);
        assert(paths_list(nodes, a + b, lb, prefix) =~= paths_list(nodes, a, lb, prefix)
            + paths_list(nodes, b, lb, prefix));
    } else {
        assert((a + b)[0] == a[0]);
        assert((a + b).drop_first() =~= a.drop_first() + b);
        lemma_paths_list_append(nodes, a.drop_first(), b, lb, prefix);
        assert(paths_list(nodes, a + b, lb, prefix) =~= paths_list(nodes, a, lb, prefix)
            + paths_list(nodes, b, lb, prefix));
    }
}

/// Time weight of the first `k` entries of a path: saturating
/// timestamp gaps between consecutive entries, saturating sum, so
/// out-of-order pairs contribute zero.
pub open spec fn time_weight_prefix(p: Seq<AnalyzeData>, k: int) -> u64
    decreases k,
{
    if k <= 1 {
        0
    } else {
        sat_add_spec(
            time_weight_prefix(p, k - 1),
            sat_sub_spec(p[k - 1].timestamp_ns, p[k - 2].timestamp_ns),
        )
    }
}

/// Instruction weight of the first `k` entries: saturating sum of the
/// per-node work weights.
pub open spec fn instr_weight_prefix(p: Seq<AnalyzeData>, k: int) -> u64
    decreases k,
{
    if k <= 0 {
        0
    } else {
        sat_add_spec(instr_weight_prefix(p, k - 1), p[k - 1].len)
    }
}

/// The weight `analyze` assigns to a path under the given mode.
pub open spec fn path_weight(mode: WeightMode, p: Seq<AnalyzeData>) -> u64 {
    match mode {
        WeightMode::Time => time_weight_prefix(p, p.len() as int),
        WeightMode::Instructions => instr_weight_prefix(p, p.len() as int),
    }
}

/// Index of the first heaviest path among the first `k` candidates.
pub open spec fn best_prefix(cands: Seq<Seq<AnalyzeData>>, mode: WeightMode, k: int) -> int
    decreases k,
{
    if k <= 1 {
        0
    } else {
        let b = best_prefix(cands, mode, k - 1);
        if path_weight(mode, cands[k - 1]) > path_weight(mode, cands[b]) {
            k - 1
        } else {
            b
        }
    }
}

/// The chosen index is the first one of maximal weight: no candidate
/// weighs more, and every earlier candidate weighs strictly less.
pub proof fn lemma_best_prefix_maximal(cands: Seq<Seq<AnalyzeData>>, mode: WeightMode, k: int)
    requires
        1 <= k <= cands.len(),
    ensures
        0 <= best_prefix(cands, mode, k) < k,
        forall|j: int|
            0 <= j < k ==> path_weight(mode, #[trigger] cands[j]) <= path_weight(
                mode,
                cands[best_prefix(cands, mode, k)],
            ),
        forall|j: int|
            0 <= j < best_prefix(cands, mode, k) ==> path_weight(mode, #[trigger] cands[j])
                < path_weight(mode, cands[best_prefix(cands, mode, k)]),
    decreases k,
{
    if k > 1 {
        lemma_best_prefix_maximal(cands, mode, k - 1);
    }
}

/// What `analyze` returns: among all root-to-leaf paths in traversal
/// order, the first one of maximal weight; nothing when the forest is
/// empty.
pub open spec fn analyze_model(w: WebModel) -> Option<Seq<AnalyzeData>> {
    let cands = paths_list(w.nodes, w.roots, -1, Seq::empty());
    if cands.len() == 0 {
        None
    } else {
        Some(cands[best_prefix(cands, w.weight_mode, cands.len() as int)])
    }
}

/// Views of a vector of materialized paths.
pub open spec fn views_of(s: Seq<Vec<AnalyzeData>>) -> Seq<Seq<AnalyzeData>> {
    Seq::new(s.len(), |t: int| s[t]@)
}

/// An element-wise copy of a path.
fn copy_path(v: &Vec<AnalyzeData>) -> (r: Vec<AnalyzeData>)
    ensures
        r@ == v@,
{
    let mut r: Vec<AnalyzeData> = Vec::new();
    let n = v.len();
    let mut k: usize = 0;
    while k < n
        invariant
            n == v@.len(),
            k <= n,
            r@ == v@.take(k as int),
        decreases n - k,
    {
        r.push(v[k]);
        proof {
            assert(r@ =~= v@.take(k + 1 as int));
        }
        k += 1;
    }
    proof {
        assert(v@.take(n as int) =~= v@);
    }
    r
}

/// Computes the weight of one materialized path.
fn path_weight_exec(mode: WeightMode, v: &Vec<AnalyzeData>) -> (r: u64)
    ensures
        r == path_weight(mode, v@),
{
    match mode {
        WeightMode::Time => {
            let n = v.len();
            if n <= 1 {
                return 0;
            }
            let mut acc: u64 = 0;
            let mut k: usize = 1;
            while k < n
                invariant
                    n == v@.len(),
                    1 <= k <= n,
                    acc == time_weight_prefix(v@, k as int),
                decreases n - k,
            {
                acc = sat_add(acc, sat_sub(v[k].timestamp_ns, v[k - 1].timestamp_ns));
                k += 1;
            }
            acc
        },
        WeightMode::Instructions => {
            let n = v.len();
            let mut acc: u64 = 0;
            let mut k: usize = 0;
            while k < n
                invariant
                    n == v@.len(),
                    k <= n,
                    acc == instr_weight_prefix(v@, k as int),
                decreases n - k,
            {
                acc = sat_add(acc, v[k].len);
                k += 1;
            }
            acc
        },
    }
}

impl FlowWeb {
    /// Recursive worker of `analyze`: appends to `cache` every
    /// root-to-leaf path of the subtree at `i`, each extending
    /// `datas`, in depth-first child order.  Mirrors `paths_node`.
    fn analyze_inner(&self, datas: Vec<AnalyzeData>, i: usize, cache: &mut Vec<Vec<AnalyzeData>>)
        requires
            children_bounded(arena_view(self.nodes@)),
            (i as int) < self.nodes@.len(),
        ensures
            views_of(final(cache)@) == views_of(old(cache)@) + paths_node(
                arena_view(self.nodes@),
                i,
                datas@,
            ),
        decreases self.nodes@.len() - i,
    {
        let ghost ns = arena_view(self.nodes@);
        let mut d2 = datas;
        d2.push(
            AnalyzeData {
                tid: self.nodes[i].owner,
                timestamp_ns: self.nodes[i].timestamp_ns,
                len: self.nodes[i].len,
            },
        );
        proof {
            assert(d2@ =~= datas@.push(data_of(ns[i as int])));
        }
        let nch = self.nodes[i].children.len();
        let ghost ch = ns[i as int].children;
        proof {
            assert(ch.len() == nch);
        }
        if nch == 0 {
            cache.push(d2);
            proof {
                assert(views_of(cache@) =~~= views_of(old(cache)@) + paths_node(ns, i, datas@));
            }
        } else {
            proof {
                assert(ch.take(0) =~= Seq::<usize>::empty());
                assert(views_of(cache@) =~~= views_of(old(cache)@) + paths_list(
                    ns,
                    ch.take(0),
                    i as int,
                    d2@,
                ));
            }
            let mut k: usize = 0;
            while k < nch
                invariant
                    children_bounded(arena_view(self.nodes@)),
                    (i as int) < self.nodes@.len(),
                    ns == arena_view(self.nodes@),
                    nch == self.nodes@[i as int].children@.len(),
                    ch == arena_view(self.nodes@)[i as int].children,
                    k <= nch,
                    d2@ == datas@.push(data_of(arena_view(self.nodes@)[i as int])),
                    views_of(cache@) == views_of(old(cache)@) + paths_list(
                        arena_view(self.nodes@),
                        ch.take(k as int),
                        i as int,
                        d2@,
                    ),
                decreases nch - k,
            {
                let ghost part_pre = paths_list(ns, ch.take(k as int), i as int, d2@);
                let c = self.nodes[i].children[k];
                proof {
                    assert(ch[k as int] == c);
                    assert((i as int) < c as int && (c as int) < self.nodes@.len());
                }
                let dc = copy_path(&d2);
                let ghost cache_pre = cache@;
                self.analyze_inner(dc, c, cache);
                proof {
                    let sub = paths_node(ns, c, d2@);
                    assert(views_of(cache@) == views_of(cache_pre) + sub);
                    assert(ch.take(k + 1 as int) =~= ch.take(k as int) + seq![c]);
                    lemma_paths_list_append(ns, ch.take(k as int), seq![c], i as int, d2@);
                    reveal_with_fuel(paths_list, 3);
                    assert(seq![c].drop_first() =~= Seq::<usize>::empty());
                    assert(paths_list(ns, seq![c].drop_first(), i as int, d2@)
                        == Seq::<Seq<AnalyzeData>>::empty());
                    assert(paths_list(ns, seq![c], i as int, d2@) =~= sub);
                    assert(views_of(cache@) =~= views_of(old(cache)@) + paths_list(
                        ns,
                        ch.take(k + 1 as int),
                        i as int,
                        d2@,
                    ));
                }
                k += 1;
            }
            proof {
                assert(ch.take(nch as int) =~= ch);
                assert(paths_node(ns, i, datas@) == paths_list(ns, ch, i as int, d2@));
            }
        }
    }

    /// Computes the critical path: the first root-to-leaf path of
    /// maximal weight under the configured mode, in depth-first
    /// traversal order; `None` when the forest is empty.  Read-only.
    pub fn analyze(&self) -> (r: Option<Vec<AnalyzeData>>)
        requires
            self.inv(),
        ensures
            ({
                let m = analyze_model(self@);
                match (r, m) {
                    (None, None) => true,
                    (Some(v), Some(s)) => v@ == s,
                    _ => false,
                }
            }),
    {
        let ghost ns = arena_view(self.nodes@);
        let mut cache: Vec<Vec<AnalyzeData>> = Vec::new();
        proof {
            lemma_wf_children_bounded(self@);
            assert(self@.roots.take(0) =~= Seq::<usize>::empty());
            assert(views_of(cache@) =~= Seq::<Seq<AnalyzeData>>::empty() + paths_list(
                ns,
                self@.roots.take(0),
                -1,
                Seq::empty(),
            ));
        }
        let nr = self.roots.len();
        let mut k: usize = 0;
        while k < nr
            invariant
                self.inv(),
                children_bounded(arena_view(self.nodes@)),
                nr == self.roots@.len(),
                k <= nr,
                views_of(cache@) == Seq::<Seq<AnalyzeData>>::empty() + paths_list(
                    arena_view(self.nodes@),
                    self.roots@.take(k as int),
                    -1,
                    Seq::<AnalyzeData>::empty(),
                ),
            decreases nr - k,
        {
            let r0 = self.roots[k];
            proof {
                assert(idx_live(self@, (self@.roots[k as int]) as int));
            }
            let empty_d: Vec<AnalyzeData> = Vec::new();
            let ghost cache_pre = cache@;
            self.analyze_inner(empty_d, r0, &mut cache);
            proof {
                let sub = paths_node(arena_view(self.nodes@), r0, Seq::<AnalyzeData>::empty());
                assert(views_of(cache@) == views_of(cache_pre) + sub);
                assert(self.roots@.take(k + 1 as int) =~= self.roots@.take(k as int) + seq![r0]);
                lemma_paths_list_append(
                    arena_view(self.nodes@),
                    self.roots@.take(k as int),
                    seq![r0],
                    -1,
                    Seq::<AnalyzeData>::empty(),
                );
                reveal_with_fuel(paths_list, 3);
                assert(seq![r0].drop_first() =~= Seq::<usize>::empty());
                assert(paths_list(
                    arena_view(self.nodes@),
                    seq![r0].drop_first(),
                    -1,
                    Seq::<AnalyzeData>::empty(),
                ) == Seq::<Seq<AnalyzeData>>::empty());
                assert(paths_list(arena_view(self.nodes@), seq![r0], -1, Seq::<AnalyzeData>::empty())
                    =~= sub);
                assert(views_of(cache@) =~= Seq::<Seq<AnalyzeData>>::empty() + paths_list(
                    arena_view(self.nodes@),
                    self.roots@.take(k + 1 as int),
                    -1,
                    Seq::<AnalyzeData>::empty(),
                ));
            }
            k += 1;
        }
        let ghost cands = paths_list(ns, self@.roots, -1, Seq::<AnalyzeData>::empty());
        proof {
            assert(self.roots@.take(nr as int) =~= self.roots@);
            assert(views_of(cache@) =~= cands);
        }
        let nc = cache.len();
        if nc == 0 {
            return None;
        }
        let mode = self.weight_mode;
        let mut best: usize = 0;
        let mut bw = path_weight_exec(mode, &cache[0]);
        proof {
            assert(views_of(cache@)[0] == cache@[0]@);
        }
        let mut k2: usize = 1;
        while k2 < nc
            invariant
                nc == cache@.len(),
                views_of(cache@) == cands,
                1 <= k2 <= nc,
                (best as int) < k2,
                mode == self@.weight_mode,
                bw == path_weight(mode, cands[best as int]),
                best as int == best_prefix(cands, mode, k2 as int),
            decreases nc - k2,
        {
            let w2 = path_weight_exec(mode, &cache[k2]);
            proof {
                assert(views_of(cache@)[k2 as int] == cache@[k2 as int]@);
            }
            if w2 > bw {
                best = k2;
                bw = w2;
            }
            k2 += 1;
        }
        Some(copy_path(&cache[best]))
    }
}

} // verus!
