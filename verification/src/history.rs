//! Laws over sequences of calls on one graph: what a run of `begin_owned`,
//! `end_owned` and `set_root_name` keeps, counts and restores.
//!
//! A run is a sequence of graph models `gs` and the calls `cs` between them, each
//! step related exactly as the call's own contract states.

use vstd::prelude::*;
use std::any::TypeId;
use crate::graph::{
    edge_seq, lemma_begin_keeps_wf, lemma_end_keeps_root, lemma_rename_root,
    lemma_tree_edge_count, GraphView, NodeId,
};

verus! {

/// One call on a graph, as its model sees it.
pub enum Call {
    /// `begin_owned(key, path)`, which returned `id`.
    Begin { key: TypeId, path: Seq<char>, id: NodeId },
    /// `end_owned()`.
    End,
    /// `set_root_name(name)`.
    Rename { name: Seq<char> },
}

/// `g1` is what the call `c` makes of `g0`, as the call's contract states it.
pub open spec fn step(g0: GraphView, c: Call, g1: GraphView) -> bool {
    match c {
        Call::Begin { key, path, id } => {
            &&& g0.can_begin(key)
            &&& g0.begin_rel(g1, key, path, id)
            &&& g1.nodes.len() <= usize::MAX
        },
        Call::End => g0.end_rel(g1),
        Call::Rename { name } => g0.renamed(g1, name),
    }
}

/// `gs[i + 1]` is what the call `cs[i]` makes of `gs[i]`, for every call.
pub open spec fn is_run(gs: Seq<GraphView>, cs: Seq<Call>) -> bool {
    &&& gs.len() == cs.len() + 1
    &&& forall|i: int| #![trigger cs[i]] 0 <= i < cs.len() ==> step(gs[i], cs[i], gs[i + 1])
}

/// How many of the calls `cs` begin the plugin with type identifier `k`.
pub open spec fn begins_of(cs: Seq<Call>, k: TypeId) -> nat
    decreases cs.len(),
{
    if cs.len() == 0 {
        0
    } else {
        begins_of(cs.drop_last(), k) + match cs.last() {
            Call::Begin { key, .. } => if key == k {
                1nat
            } else {
                0nat
            },
            _ => 0nat,
        }
    }
}

/// The distinct plugins that were being built, in `gs`, when the calls `cs` began
/// the plugin with type identifier `k`, in the order in which they first did.
pub open spec fn adders_of(gs: Seq<GraphView>, cs: Seq<Call>, k: TypeId) -> Seq<NodeId>
    decreases cs.len(),
{
    if cs.len() == 0 {
        seq![]
    } else {
        let pre = adders_of(gs, cs.drop_last(), k);
        match cs.last() {
            Call::Begin { key, .. } => if key == k {
                let parent = gs[cs.len() - 1].current();
                if pre.contains(parent) {
                    pre
                } else {
                    pre.push(parent)
                }
            } else {
                pre
            },
            _ => pre,
        }
    }
}

/// What a call does to the depth of the stack of plugins being built, when it
/// does not hit the root.
pub open spec fn depth_change(c: Call) -> int {
    match c {
        Call::Begin { .. } => 1,
        Call::End => -1,
        Call::Rename { .. } => 0,
    }
}

/// Begins minus ends over `cs`.
pub open spec fn balance(cs: Seq<Call>) -> int
    decreases cs.len(),
{
    if cs.len() == 0 {
        0
    } else {
        balance(cs.drop_last()) + depth_change(cs.last())
    }
}

/// No prefix of `cs` ends more plugins than it began.
pub open spec fn never_below(cs: Seq<Call>) -> bool {
    forall|m: int| 0 <= m <= cs.len() ==> balance(#[trigger] cs.take(m)) >= 0
}

proof fn lemma_take_step<A>(s: Seq<A>, n: int)
    requires
        0 < n <= s.len(),
    ensures
        s.take(n).drop_last() == s.take(n - 1),
        s.take(n).last() == s[n - 1],
        s.take(n).len() == n,
{
    assert(s.take(n).drop_last() =~= s.take(n - 1));
}

/// A key recorded at position `p` is found at `p`: keys do not repeat.
pub proof fn lemma_key_pos_at(g: GraphView, p: int)
    requires
        g.wf(),
        0 <= p < g.keys.len(),
    ensures
        g.key_pos(g.keys[p]) == Some(p),
{
    let k = g.keys[p];
    assert(0 <= p < g.keys.len() && g.keys[p] == k);
    let j = choose|i: int| 0 <= i < g.keys.len() && g.keys[i] == k;
    if j < p {
        assert(g.keys[j] != g.keys[p]);
    } else if p < j {
        assert(g.keys[p] != g.keys[j]);
    }
}

proof fn lemma_key_pos_found(g: GraphView, k: TypeId)
    ensures
        match g.key_pos(k) {
            Some(p) => 0 <= p < g.keys.len() && g.keys[p] == k,
            None => forall|i: int| 0 <= i < g.keys.len() ==> g.keys[i] != k,
        },
{
}

/// Every graph along a run from a well-formed graph is well formed.
pub proof fn lemma_run_keeps_wf(gs: Seq<GraphView>, cs: Seq<Call>, n: int)
    requires
        is_run(gs, cs),
        gs[0].wf(),
        0 <= n < gs.len(),
    ensures
        gs[n].wf(),
    decreases n,
{
    if n > 0 {
        lemma_run_keeps_wf(gs, cs, n - 1);
        assert(step(gs[n - 1], cs[n - 1], gs[n]));
        match cs[n - 1] {
            Call::Begin { key, path, id } => lemma_begin_keeps_wf(gs[n - 1], gs[n], key, path, id),
            Call::End => lemma_end_keeps_root(gs[n - 1], gs[n]),
            Call::Rename { name } => lemma_rename_root(gs[n - 1], gs[n], name),
        }
    }
}

/// Nodes are never removed or reordered, and a plugin keeps its node: later calls
/// leave the index, identifier, path, name, crate and module of every plugin node,
/// keep every recorded key in place, and find each recorded plugin where it was.
pub proof fn lemma_run_keeps_nodes(gs: Seq<GraphView>, cs: Seq<Call>, a: int, b: int)
    requires
        is_run(gs, cs),
        gs[0].wf(),
        0 <= a <= b < gs.len(),
    ensures
        gs[a].nodes.len() <= gs[b].nodes.len(),
        gs[b].keys.take(gs[a].keys.len() as int) == gs[a].keys,
        forall|n: int|
            #![trigger gs[b].nodes[n]]
            1 <= n < gs[a].nodes.len() ==> {
                &&& gs[b].nodes[n].id == gs[a].nodes[n].id
                &&& gs[b].nodes[n].path == gs[a].nodes[n].path
                &&& gs[b].nodes[n].name == gs[a].nodes[n].name
                &&& gs[b].nodes[n].krate == gs[a].nodes[n].krate
                &&& gs[b].nodes[n].module == gs[a].nodes[n].module
            },
        forall|k: TypeId| #[trigger] gs[a].key_pos(k) is Some ==> gs[b].key_pos(k) == gs[a].key_pos(k),
    decreases b - a,
{
    lemma_run_keeps_wf(gs, cs, a);
    lemma_run_keeps_wf(gs, cs, b);
    if a == b {
        assert(gs[b].keys.take(gs[a].keys.len() as int) =~= gs[a].keys);
    } else {
        lemma_run_keeps_nodes(gs, cs, a, b - 1);
        lemma_run_keeps_wf(gs, cs, b - 1);
        let g0 = gs[b - 1];
        let g1 = gs[b];
        assert(step(g0, cs[b - 1], g1));
        match cs[b - 1] {
            Call::Begin { key, path, id } => {
                match g0.key_pos(key) {
                    Some(i) => {
                        assert forall|n: int| 1 <= n < gs[a].nodes.len() implies {
                            &&& #[trigger] g1.nodes[n].id == gs[a].nodes[n].id
                            &&& g1.nodes[n].path == gs[a].nodes[n].path
                            &&& g1.nodes[n].name == gs[a].nodes[n].name
                            &&& g1.nodes[n].krate == gs[a].nodes[n].krate
                            &&& g1.nodes[n].module == gs[a].nodes[n].module
                        } by {
                            assert(g0.nodes[n] == gs[b - 1].nodes[n]);
                        }
                    },
                    None => {
                        assert forall|n: int| 1 <= n < gs[a].nodes.len() implies {
                            &&& #[trigger] g1.nodes[n].id == gs[a].nodes[n].id
                            &&& g1.nodes[n].path == gs[a].nodes[n].path
                            &&& g1.nodes[n].name == gs[a].nodes[n].name
                            &&& g1.nodes[n].krate == gs[a].nodes[n].krate
                            &&& g1.nodes[n].module == gs[a].nodes[n].module
                        } by {
                            assert(g1.nodes[n] == g1.nodes.drop_last()[n]);
                            assert(g0.nodes[n] == gs[b - 1].nodes[n]);
                        }
                        assert(g1.keys.take(gs[a].keys.len() as int) =~= g0.keys.take(gs[a].keys.len() as int));
                    },
                }
            },
            Call::End => {
                assert forall|n: int| 1 <= n < gs[a].nodes.len() implies {
                    &&& #[trigger] g1.nodes[n].id == gs[a].nodes[n].id
                    &&& g1.nodes[n].path == gs[a].nodes[n].path
                    &&& g1.nodes[n].name == gs[a].nodes[n].name
                    &&& g1.nodes[n].krate == gs[a].nodes[n].krate
                    &&& g1.nodes[n].module == gs[a].nodes[n].module
                } by {
                    assert(g0.nodes[n] == gs[b - 1].nodes[n]);
                }
            },
            Call::Rename { name } => {
                assert forall|n: int| 1 <= n < gs[a].nodes.len() implies {
                    &&& #[trigger] g1.nodes[n].id == gs[a].nodes[n].id
                    &&& g1.nodes[n].path == gs[a].nodes[n].path
                    &&& g1.nodes[n].name == gs[a].nodes[n].name
                    &&& g1.nodes[n].krate == gs[a].nodes[n].krate
                    &&& g1.nodes[n].module == gs[a].nodes[n].module
                } by {
                    assert(g0.nodes[n] == gs[b - 1].nodes[n]);
                }
            },
        }
    }
    assert forall|k: TypeId| #[trigger] gs[a].key_pos(k) is Some implies gs[b].key_pos(k) == gs[a].key_pos(k) by {
        lemma_key_pos_found(gs[a], k);
        let p = gs[a].key_pos(k)->0;
        assert(gs[b].keys.take(gs[a].keys.len() as int)[p] == gs[b].keys[p]);
        lemma_key_pos_at(gs[b], p);
    }
}

/// From a graph with no plugin recorded, each recorded plugin's add counter counts
/// every call that began it, and its parents are the plugins that were being built
/// at those calls, each once, in the order in which they first added it. A plugin
/// never begun is not recorded.
pub proof fn lemma_run_counts_adds(gs: Seq<GraphView>, cs: Seq<Call>, k: TypeId, n: int)
    requires
        is_run(gs, cs),
        gs[0].wf(),
        gs[0].keys.len() == 0,
        0 <= n < gs.len(),
    ensures
        match gs[n].key_pos(k) {
            Some(p) => {
                &&& gs[n].nodes[p + 1].added == begins_of(cs.take(n), k)
                &&& gs[n].nodes[p + 1].parents@ == adders_of(gs, cs.take(n), k)
            },
            None => begins_of(cs.take(n), k) == 0 && adders_of(gs, cs.take(n), k).len() == 0,
        },
    decreases n,
{
    lemma_key_pos_found(gs[n], k);
    if n == 0 {
        assert(cs.take(0).len() == 0);
    } else {
        lemma_run_counts_adds(gs, cs, k, n - 1);
        lemma_run_keeps_wf(gs, cs, n - 1);
        lemma_run_keeps_wf(gs, cs, n);
        lemma_take_step(cs, n);
        let g0 = gs[n - 1];
        let g1 = gs[n];
        let t = cs.take(n);
        lemma_key_pos_found(g0, k);
        assert(step(g0, cs[n - 1], g1));
        assert(begins_of(t, k) == begins_of(cs.take(n - 1), k) + match cs[n - 1] {
            Call::Begin { key, .. } => if key == k {
                1nat
            } else {
                0nat
            },
            _ => 0nat,
        });
        match cs[n - 1] {
            Call::Begin { key, path, id } => {
                lemma_key_pos_found(g0, key);
                if key == k {
                    match g0.key_pos(k) {
                        Some(i) => {
                            assert(g1.keys == g0.keys);
                            lemma_key_pos_at(g1, i);
                        },
                        None => {
                            let p = g0.keys.len() as int;
                            assert(g1.keys[p] == k);
                            lemma_key_pos_at(g1, p);
                            assert(g1.nodes[p + 1] == g1.nodes.last());
                            assert(adders_of(gs, cs.take(n - 1), k) =~= Seq::<NodeId>::empty());
                        },
                    }
                } else {
                    match g0.key_pos(k) {
                        Some(p) => {
                            assert(g1.keys[p] == k);
                            lemma_key_pos_at(g1, p);
                            match g0.key_pos(key) {
                                Some(i) => {
                                    assert(i != p);
                                },
                                None => {
                                    assert(g1.nodes[p + 1] == g1.nodes.drop_last()[p + 1]);
                                },
                            }
                        },
                        None => {
                            assert forall|i: int| 0 <= i < g1.keys.len() implies g1.keys[i] != k by {
                                if i < g0.keys.len() {
                                    assert(g1.keys[i] == g0.keys[i]);
                                }
                            }
                        },
                    }
                }
            },
            Call::End => {
                if let Some(p) = g0.key_pos(k) {
                    lemma_key_pos_at(g1, p);
                }
            },
            Call::Rename { name } => {
                if let Some(p) = g0.key_pos(k) {
                    lemma_key_pos_at(g1, p);
                    assert(g1.nodes[p + 1] == g0.nodes[p + 1]);
                }
            },
        }
    }
}

proof fn lemma_begins_prefix(cs: Seq<Call>, k: TypeId, n: int)
    requires
        0 <= n <= cs.len(),
    ensures
        begins_of(cs.take(n), k) <= begins_of(cs, k),
    decreases cs.len() - n,
{
    if n == cs.len() {
        assert(cs.take(n) =~= cs);
    } else {
        lemma_take_step(cs, n + 1);
        lemma_begins_prefix(cs, k, n + 1);
    }
}

proof fn lemma_tree_upto(gs: Seq<GraphView>, cs: Seq<Call>, n: int)
    requires
        is_run(gs, cs),
        gs[0].wf(),
        gs[0].keys.len() == 0,
        forall|k: TypeId| #[trigger] begins_of(cs, k) <= 1,
        0 <= n < gs.len(),
    ensures
        forall|i: int|
            1 <= i < gs[n].nodes.len() ==> (#[trigger] gs[n].nodes[i]).parents@.len() == 1
                && gs[n].nodes[i].parents@[0].0 < i,
    decreases n,
{
    if n > 0 {
        lemma_tree_upto(gs, cs, n - 1);
        lemma_run_keeps_wf(gs, cs, n - 1);
        lemma_take_step(cs, n);
        let g0 = gs[n - 1];
        let g1 = gs[n];
        assert(step(g0, cs[n - 1], g1));
        match cs[n - 1] {
            Call::Begin { key, path, id } => {
                match g0.key_pos(key) {
                    Some(i) => {
                        lemma_run_counts_adds(gs, cs, key, n - 1);
                        assert(g0.plugin_node_ok(g0.nodes[i + 1]));
                        lemma_begins_prefix(cs, key, n);
                        assert(begins_of(cs, key) <= 1);
                        assert(false);
                    },
                    None => {
                        let last = g0.nodes.len() as int;
                        assert(g0.stack[g0.stack.len() - 1].0 < g0.nodes.len());
                        assert forall|i: int| 1 <= i < g1.nodes.len() implies (#[trigger] g1.nodes[i]).parents@.len() == 1
                            && g1.nodes[i].parents@[0].0 < i by {
                            if i < last {
                                assert(g1.nodes[i] == g1.nodes.drop_last()[i]);
                                assert(g0.nodes[i] == gs[n - 1].nodes[i]);
                            } else {
                                assert(g1.nodes[i] == g1.nodes.last());
                            }
                        }
                    },
                }
            },
            Call::End => {
                assert forall|i: int| 1 <= i < g1.nodes.len() implies (#[trigger] g1.nodes[i]).parents@.len() == 1
                    && g1.nodes[i].parents@[0].0 < i by {
                    assert(g0.nodes[i] == gs[n - 1].nodes[i]);
                }
            },
            Call::Rename { name } => {
                assert forall|i: int| 1 <= i < g1.nodes.len() implies (#[trigger] g1.nodes[i]).parents@.len() == 1
                    && g1.nodes[i].parents@[0].0 < i by {
                    assert(g0.nodes[i] == gs[n - 1].nodes[i]);
                }
            },
        }
    }
}

/// When no plugin type is begun twice, starting from a graph with no plugin
/// recorded, the graph is a tree under the root: every other node has exactly one
/// parent, an earlier node, and there is one edge per non-root node.
pub proof fn lemma_run_without_repeats_is_tree(gs: Seq<GraphView>, cs: Seq<Call>)
    requires
        is_run(gs, cs),
        gs[0].wf(),
        gs[0].keys.len() == 0,
        forall|k: TypeId| #[trigger] begins_of(cs, k) <= 1,
    ensures
        forall|i: int|
            1 <= i < gs.last().nodes.len() ==> (#[trigger] gs.last().nodes[i]).parents@.len() == 1
                && gs.last().nodes[i].parents@[0].0 < i,
        edge_seq(gs.last().nodes).len() == gs.last().nodes.len() - 1,
{
    let n = gs.len() - 1;
    lemma_tree_upto(gs, cs, n);
    lemma_run_keeps_wf(gs, cs, n);
    lemma_tree_edge_count(gs[n]);
}

proof fn lemma_stack_upto(gs: Seq<GraphView>, cs: Seq<Call>, n: int)
    requires
        is_run(gs, cs),
        gs[0].wf(),
        never_below(cs),
        0 <= n < gs.len(),
    ensures
        gs[n].stack.len() == gs[0].stack.len() + balance(cs.take(n)),
        gs[n].stack.take(gs[0].stack.len() as int) == gs[0].stack,
    decreases n,
{
    if n == 0 {
        assert(cs.take(0).len() == 0);
        assert(gs[0].stack.take(gs[0].stack.len() as int) =~= gs[0].stack);
    } else {
        lemma_stack_upto(gs, cs, n - 1);
        lemma_take_step(cs, n);
        let g0 = gs[n - 1];
        let g1 = gs[n];
        let s0 = gs[0].stack.len() as int;
        assert(step(g0, cs[n - 1], g1));
        assert(balance(cs.take(n)) >= 0);
        match cs[n - 1] {
            Call::Begin { key, path, id } => {
                assert(g1.stack.take(s0) =~= g0.stack.take(s0));
            },
            Call::End => {
                assert(g1.stack.take(s0) =~= g0.stack.take(s0));
            },
            Call::Rename { name } => {
            },
        }
    }
}

/// Calls that never end more plugins than they began keep the stack of plugins
/// being built underneath them: it grows by the surplus of begins over ends, and
/// what was on it stays. Balanced calls therefore leave the current parent as it
/// was, so an `end` after a `begin` and balanced calls restores the parent.
pub proof fn lemma_run_keeps_stack(gs: Seq<GraphView>, cs: Seq<Call>)
    requires
        is_run(gs, cs),
        gs[0].wf(),
        never_below(cs),
    ensures
        gs.last().stack.len() == gs[0].stack.len() + balance(cs),
        gs.last().stack.take(gs[0].stack.len() as int) == gs[0].stack,
        balance(cs) == 0 ==> gs.last().stack == gs[0].stack && gs.last().current() == gs[0].current(),
{
    let n = gs.len() - 1;
    lemma_stack_upto(gs, cs, n);
    assert(cs.take(n) =~= cs);
    if balance(cs) == 0 {
        assert(gs.last().stack =~= gs[0].stack);
    }
}

/// The plugin a `begin` returned stays the current parent across any balanced calls
/// made inside its build: the next plugin begun there is added by it.
pub proof fn lemma_begun_stays_current(gs: Seq<GraphView>, cs: Seq<Call>)
    requires
        is_run(gs, cs),
        gs[0].wf(),
        cs.len() >= 1,
        cs[0] is Begin,
        never_below(cs.skip(1)),
        balance(cs.skip(1)) == 0,
    ensures
        gs.last().current() == cs[0]->id,
{
    assert(step(gs[0], cs[0], gs[1]));
    lemma_run_keeps_wf(gs, cs, 1);
    let hs = gs.skip(1);
    let ds = cs.skip(1);
    assert forall|i: int| #![trigger ds[i]] 0 <= i < ds.len() implies step(hs[i], ds[i], hs[i + 1]) by {
        assert(ds[i] == cs[i + 1]);
        assert(step(gs[i + 1], cs[i + 1], gs[i + 2]));
    }
    assert(is_run(hs, ds));
    lemma_run_keeps_stack(hs, ds);
    assert(hs.last() == gs.last());
}

} // verus!
