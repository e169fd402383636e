//! The recorded graph: nodes are plugins, edges are "was added by".

use vstd::prelude::*;
use vstd::string::StringExecFns;
use std::any::TypeId;
use crate::names::{crate_name, crate_of, defining_module, module_of, short_name, short_name_of};
use crate::text::opt_view;

verus! {

#[verifier::external_type_specification]
#[verifier::external_body]
pub struct ExTypeId(TypeId);

/// Calls `std::any::TypeId::of::<P>()`. Nothing is stated of the value it returns:
/// the identifier of a type is chosen by the compiler.
#[verifier::external_body]
fn type_id_of<P: ?Sized + 'static>() -> TypeId {
    TypeId::of::<P>()
}

/// Calls `<TypeId as PartialEq>::eq`, and claims that it holds exactly when the two
/// identifiers are the same value.
#[verifier::external_body]
fn type_id_eq(a: &TypeId, b: &TypeId) -> (r: bool)
    ensures
        r == (*a == *b),
{
    *a == *b
}

/// Index of a node within a [`PluginGraph`].
///
/// Only meaningful within the graph that produced it.
#[derive(Debug, Clone, Copy, PartialEq, Eq, Structural, Hash, PartialOrd, Ord)]
pub struct NodeId(pub usize);

/// The synthetic root node. Every graph has one, and top-level plugins hang off it
/// so that the rendered result reads as one application rather than a loose forest.
pub open spec fn root_id() -> NodeId {
    NodeId(0)
}

/// The synthetic root node, [`root_id`].
pub fn root() -> (r: NodeId)
    ensures
        r == root_id(),
{
    NodeId(0)
}

/// One plugin in the graph.
#[derive(Debug, Clone)]
pub struct PluginNode {
    pub id: NodeId,
    /// Full type path, e.g. `my_game::combat::CombatPlugin`.
    pub path: String,
    /// `path` with every module qualifier stripped, for labels.
    pub name: String,
    /// The crate the plugin comes from, if the path has any qualifier at all.
    pub krate: Option<String>,
    /// The module the plugin is defined in, if any. Descriptive only.
    pub module: Option<String>,
    /// Plugins that added this one.
    pub parents: Vec<NodeId>,
    /// How many times this plugin was added.
    pub added: u32,
}

/// The graph recorded so far, plus the stack of plugins currently being built.
///
/// Nodes are kept in the order they were first added; the root is index 0. The
/// type identifier of the plugin at index `i + 1` is `keys[i]`.
#[derive(Debug)]
pub struct PluginGraph {
    nodes: Vec<PluginNode>,
    keys: Vec<TypeId>,
    stack: Vec<NodeId>,
}

/// The mathematical model of a [`PluginGraph`].
pub struct GraphView {
    pub nodes: Seq<PluginNode>,
    pub keys: Seq<TypeId>,
    pub stack: Seq<NodeId>,
}

impl View for PluginGraph {
    type V = GraphView;

    closed spec fn view(&self) -> GraphView {
        GraphView { nodes: self.nodes@, keys: self.keys@, stack: self.stack@ }
    }
}

/// The edges contributed by one node: one `(parent, node)` pair per parent.
pub open spec fn node_edges(n: PluginNode) -> Seq<(NodeId, NodeId)> {
    n.parents@.map_values(|p: NodeId| (p, n.id))
}

/// Every edge as `(parent, child)`, in node order.
pub open spec fn edge_seq(nodes: Seq<PluginNode>) -> Seq<(NodeId, NodeId)>
    decreases nodes.len(),
{
    if nodes.len() == 0 {
        seq![]
    } else {
        edge_seq(nodes.drop_last()) + node_edges(nodes.last())
    }
}

/// The total number of parents over `nodes`.
pub open spec fn parent_total(nodes: Seq<PluginNode>) -> nat
    decreases nodes.len(),
{
    if nodes.len() == 0 {
        0
    } else {
        parent_total(nodes.drop_last()) + nodes.last().parents@.len()
    }
}

impl GraphView {
    /// The well-formedness of a recorded graph.
    pub open spec fn wf(self) -> bool {
        &&& self.nodes.len() == self.keys.len() + 1
        &&& self.nodes.len() <= usize::MAX
        &&& forall|i: int| 0 <= i < self.nodes.len() ==> (#[trigger] self.nodes[i]).id.0 == i
        &&& forall|i: int, j: int|
            0 <= i < self.nodes.len() && 0 <= j < self.nodes[i].parents@.len()
                ==> (#[trigger] self.nodes[i].parents@[j]).0 < self.nodes.len()
        &&& forall|i: int, j: int, k: int|
            0 <= i < self.nodes.len() && 0 <= j < k < self.nodes[i].parents@.len()
                ==> #[trigger] self.nodes[i].parents@[j] != #[trigger] self.nodes[i].parents@[k]
        &&& self.nodes[0].parents@.len() == 0
        &&& self.nodes[0].krate is None
        &&& self.nodes[0].module is None
        &&& self.nodes[0].path@ == self.nodes[0].name@
        &&& forall|i: int| 1 <= i < self.nodes.len() ==> self.plugin_node_ok(#[trigger] self.nodes[i])
        &&& forall|a: int, b: int|
            0 <= a < b < self.keys.len() ==> #[trigger] self.keys[a] != #[trigger] self.keys[b]
        &&& self.stack.len() >= 1
        &&& self.stack[0] == root_id()
        &&& forall|i: int| 0 <= i < self.stack.len() ==> (#[trigger] self.stack[i]).0 < self.nodes.len()
    }

    /// What every non-root node carries: at least one parent, at least one add, and
    /// the names derived from its path.
    pub open spec fn plugin_node_ok(self, n: PluginNode) -> bool {
        &&& n.parents@.len() >= 1
        &&& n.added >= 1
        &&& n.name@ == short_name_of(n.path@)
        &&& opt_view(n.krate) == crate_of(n.path@)
        &&& opt_view(n.module) == module_of(n.path@)
    }

    /// A graph holding only the root, named `App`, with nothing being built.
    pub open spec fn is_fresh(self) -> bool {
        &&& self.wf()
        &&& self.nodes.len() == 1
        &&& self.nodes[0].path@ == "App"@
        &&& self.nodes[0].name@ == "App"@
        &&& self.nodes[0].added == 1
        &&& self.keys.len() == 0
        &&& self.stack == seq![root_id()]
    }

    /// Where the plugin with type identifier `k` sits among the keys, if recorded.
    pub open spec fn key_pos(self, k: TypeId) -> Option<int> {
        if exists|i: int| 0 <= i < self.keys.len() && self.keys[i] == k {
            Some(choose|i: int| 0 <= i < self.keys.len() && self.keys[i] == k)
        } else {
            None
        }
    }

    /// Whether `begin` on `k` can be recorded without the add counter overflowing.
    pub open spec fn can_begin(self, k: TypeId) -> bool {
        match self.key_pos(k) {
            Some(i) => self.nodes[i + 1].added < u32::MAX,
            None => true,
        }
    }

    /// The innermost plugin being built.
    pub open spec fn current(self) -> NodeId {
        self.stack.last()
    }

    /// `post` records that the plugin with identifier `k` and type path `path` was
    /// added by the innermost plugin being built in `self`, and is now being built
    /// itself, as node `id`.
    pub open spec fn begin_rel(self, post: GraphView, k: TypeId, path: Seq<char>, id: NodeId) -> bool {
        let parent = self.current();
        &&& post.stack == self.stack.push(id)
        &&& match self.key_pos(k) {
            Some(i) => {
                let old_node = self.nodes[i + 1];
                let new_node = post.nodes[i + 1];
                &&& id == NodeId((i + 1) as usize)
                &&& post.keys == self.keys
                &&& post.nodes.len() == self.nodes.len()
                &&& forall|j: int| 0 <= j < self.nodes.len() && j != i + 1 ==> post.nodes[j] == self.nodes[j]
                &&& new_node.id == old_node.id
                &&& new_node.path == old_node.path
                &&& new_node.name == old_node.name
                &&& new_node.krate == old_node.krate
                &&& new_node.module == old_node.module
                &&& new_node.added == old_node.added + 1
                &&& new_node.parents@ == (if old_node.parents@.contains(parent) {
                    old_node.parents@
                } else {
                    old_node.parents@.push(parent)
                })
            },
            None => {
                let n = post.nodes.last();
                &&& id == NodeId(self.nodes.len() as usize)
                &&& post.keys == self.keys.push(k)
                &&& post.nodes.len() == self.nodes.len() + 1
                &&& post.nodes.drop_last() == self.nodes
                &&& n.id == id
                &&& n.path@ == path
                &&& n.name@ == short_name_of(path)
                &&& opt_view(n.krate) == crate_of(path)
                &&& opt_view(n.module) == module_of(path)
                &&& n.parents@ == seq![parent]
                &&& n.added == 1
            },
        }
    }

    /// `post` is `self` with the root's path and name set to `name`; nothing else
    /// changes.
    pub open spec fn renamed(self, post: GraphView, name: Seq<char>) -> bool {
        &&& post.keys == self.keys
        &&& post.stack == self.stack
        &&& post.nodes.len() == self.nodes.len()
        &&& forall|i: int| 1 <= i < self.nodes.len() ==> post.nodes[i] == self.nodes[i]
        &&& post.nodes[0].path@ == name
        &&& post.nodes[0].name@ == name
        &&& post.nodes[0].id == self.nodes[0].id
        &&& post.nodes[0].krate == self.nodes[0].krate
        &&& post.nodes[0].module == self.nodes[0].module
        &&& post.nodes[0].parents == self.nodes[0].parents
        &&& post.nodes[0].added == self.nodes[0].added
    }

    /// `post` is `self` with the innermost plugin popped, unless only the root is left.
    pub open spec fn end_rel(self, post: GraphView) -> bool {
        &&& post.nodes == self.nodes
        &&& post.keys == self.keys
        &&& post.stack == (if self.stack.len() > 1 {
            self.stack.drop_last()
        } else {
            self.stack
        })
    }
}


/// Ending the build of a plugin undoes the stack push of beginning it: a `begin`
/// followed by an `end` leaves the stack of plugins being built as it was.
pub proof fn lemma_end_undoes_begin(
    g0: GraphView,
    g1: GraphView,
    g2: GraphView,
    k: TypeId,
    path: Seq<char>,
    id: NodeId,
)
    requires
        g0.wf(),
        g0.begin_rel(g1, k, path, id),
        g1.end_rel(g2),
    ensures
        g2.stack == g0.stack,
{
    assert(g1.stack.drop_last() =~= g0.stack);
}

/// The root is never popped: after any `end`, however unbalanced, the root is still
/// at the bottom of the stack and the graph is still well formed.
pub proof fn lemma_end_keeps_root(g0: GraphView, g1: GraphView)
    requires
        g0.wf(),
        g0.end_rel(g1),
    ensures
        g1.wf(),
        g1.stack.len() >= 1,
        g1.stack[0] == root_id(),
{
}

/// Recording a plugin keeps the graph well formed: node indices, parents that
/// exist and do not repeat, one node per plugin type, a non-empty stack over
/// existing nodes. The new graph is one that fits in memory: its node count fits
/// in `usize`, as that of any vector does.
pub proof fn lemma_begin_keeps_wf(
    g0: GraphView,
    g1: GraphView,
    k: TypeId,
    path: Seq<char>,
    id: NodeId,
)
    requires
        g0.wf(),
        g0.can_begin(k),
        g0.begin_rel(g1, k, path, id),
        g1.nodes.len() <= usize::MAX,
    ensures
        g1.wf(),
{
    let parent = g0.current();
    assert(g0.stack[g0.stack.len() - 1] == parent);
    match g0.key_pos(k) {
        Some(i) => {
            let idx = i + 1;
            assert(g1.nodes[idx].parents@.len() >= 1);
            assert forall|a: int, b: int|
                0 <= a < g1.nodes.len() && 0 <= b < g1.nodes[a].parents@.len()
                implies (#[trigger] g1.nodes[a].parents@[b]).0 < g1.nodes.len() by {
                if a == idx {
                    if b < g0.nodes[a].parents@.len() {
                        assert(g1.nodes[a].parents@[b] == g0.nodes[a].parents@[b]);
                    }
                } else {
                    assert(g1.nodes[a] == g0.nodes[a]);
                }
            }
            assert forall|a: int, b: int, c: int|
                0 <= a < g1.nodes.len() && 0 <= b < c < g1.nodes[a].parents@.len()
                implies #[trigger] g1.nodes[a].parents@[b] != #[trigger] g1.nodes[a].parents@[c] by {
                if a == idx {
                    if c < g0.nodes[a].parents@.len() {
                        assert(g1.nodes[a].parents@[b] == g0.nodes[a].parents@[b]);
                        assert(g1.nodes[a].parents@[c] == g0.nodes[a].parents@[c]);
                    } else {
                        assert(!g0.nodes[a].parents@.contains(parent));
                        assert(g1.nodes[a].parents@[b] == g0.nodes[a].parents@[b]);
                    }
                } else {
                    assert(g1.nodes[a] == g0.nodes[a]);
                }
            }
            assert forall|a: int| 0 <= a < g1.nodes.len() implies (#[trigger] g1.nodes[a]).id.0 == a by {
                if a != idx {
                    assert(g1.nodes[a] == g0.nodes[a]);
                }
            }
            assert forall|a: int| 1 <= a < g1.nodes.len() implies g1.plugin_node_ok(#[trigger] g1.nodes[a]) by {
                if a != idx {
                    assert(g1.nodes[a] == g0.nodes[a]);
                } else {
                    assert(g0.plugin_node_ok(g0.nodes[a]));
                }
            }
            assert(g1.nodes[0] == g0.nodes[0]);
        },
        None => {
            let n = g1.nodes.last();
            let len0 = g0.nodes.len() as int;
            assert forall|a: int| 0 <= a < g1.nodes.len() implies (#[trigger] g1.nodes[a]).id.0 == a by {
                if a < len0 {
                    assert(g1.nodes[a] == g1.nodes.drop_last()[a]);
                } else {
                    assert(g1.nodes[a] == n);
                }
            }
            assert forall|a: int, b: int|
                0 <= a < g1.nodes.len() && 0 <= b < g1.nodes[a].parents@.len()
                implies (#[trigger] g1.nodes[a].parents@[b]).0 < g1.nodes.len() by {
                if a < len0 {
                    assert(g1.nodes[a] == g1.nodes.drop_last()[a]);
                }
            }
            assert forall|a: int, b: int, c: int|
                0 <= a < g1.nodes.len() && 0 <= b < c < g1.nodes[a].parents@.len()
                implies #[trigger] g1.nodes[a].parents@[b] != #[trigger] g1.nodes[a].parents@[c] by {
                if a < len0 {
                    assert(g1.nodes[a] == g1.nodes.drop_last()[a]);
                }
            }
            assert forall|a: int| 1 <= a < g1.nodes.len() implies g1.plugin_node_ok(#[trigger] g1.nodes[a]) by {
                if a < len0 {
                    assert(g1.nodes[a] == g1.nodes.drop_last()[a]);
                    assert(g0.plugin_node_ok(g0.nodes[a]));
                }
            }
            assert forall|a: int, b: int|
                0 <= a < b < g1.keys.len() implies #[trigger] g1.keys[a] != #[trigger] g1.keys[b] by {
                if b == g0.keys.len() {
                    assert(g1.keys[a] == g0.keys[a]);
                } else {
                    assert(g1.keys[a] == g0.keys[a]);
                    assert(g1.keys[b] == g0.keys[b]);
                }
            }
            assert(g1.nodes[0] == g1.nodes.drop_last()[0]);
        },
    }
}

/// After a plugin is recorded, looking up its type identifier finds the node that
/// `begin` returned; a plugin type already in the graph keeps its node, and only a
/// new one adds a node.
pub proof fn lemma_begin_then_find(
    g0: GraphView,
    g1: GraphView,
    k: TypeId,
    path: Seq<char>,
    id: NodeId,
)
    requires
        g0.wf(),
        g0.begin_rel(g1, k, path, id),
    ensures
        1 <= id.0 < g1.nodes.len(),
        g1.key_pos(k) == Some(id.0 - 1),
        g1.nodes[id.0 as int].id == id,
        g1.nodes.len() == g0.nodes.len() + (if g0.key_pos(k) is Some { 0int } else { 1int }),
{
    match g0.key_pos(k) {
        Some(i) => {
            assert(g0.keys[i] == k);
            assert(g0.nodes[i + 1].id.0 == i + 1);
            let j = choose|j: int| 0 <= j < g1.keys.len() && g1.keys[j] == k;
            assert(j == i);
        },
        None => {
            let last = g0.keys.len() as int;
            assert(g1.keys[last] == k);
            let j = choose|j: int| 0 <= j < g1.keys.len() && g1.keys[j] == k;
            if j < last {
                assert(g0.keys[j] == k);
            }
        },
    }
}

proof fn lemma_edge_seq_prefix(nodes: Seq<PluginNode>, n: int)
    requires
        0 <= n <= nodes.len(),
        forall|i: int| 0 <= i < nodes.len() ==> (#[trigger] nodes[i]).id.0 == i,
        forall|i: int, j: int|
            0 <= i < nodes.len() && 0 <= j < nodes[i].parents@.len()
                ==> (#[trigger] nodes[i].parents@[j]).0 < nodes.len(),
        n >= 1 ==> nodes[0].parents@.len() == 0,
    ensures
        edge_seq(nodes.take(n)).len() == parent_total(nodes.take(n)),
        forall|e: int| 0 <= e < edge_seq(nodes.take(n)).len() ==> {
            let edge = #[trigger] edge_seq(nodes.take(n))[e];
            &&& edge.0.0 < nodes.len()
            &&& 1 <= edge.1.0 < n
        },
    decreases n,
{
    if n > 0 {
        let pre = nodes.take(n);
        assert(pre.drop_last() =~= nodes.take(n - 1));
        lemma_edge_seq_prefix(nodes, n - 1);
        let last = nodes[n - 1];
        assert(pre.last() == last);
        let es = edge_seq(nodes.take(n - 1));
        let ne = node_edges(last);
        assert(edge_seq(pre) == es + ne);
        assert forall|e: int| 0 <= e < edge_seq(pre).len() implies {
            let edge = #[trigger] edge_seq(pre)[e];
            &&& edge.0.0 < nodes.len()
            &&& 1 <= edge.1.0 < n
        } by {
            if e >= es.len() {
                let j = e - es.len();
                assert(edge_seq(pre)[e] == ne[j]);
                assert(ne[j] == (last.parents@[j], last.id));
                assert(nodes[n - 1].parents@[j].0 < nodes.len());
                if n - 1 == 0 {
                    assert(false);
                }
            } else {
                assert(edge_seq(pre)[e] == es[e]);
            }
        }
    } else {
        assert(nodes.take(0) =~= Seq::<PluginNode>::empty());
    }
}

/// Every edge of a well-formed graph runs from an existing node to an existing
/// node other than the root, and there is one edge per recorded parent.
pub proof fn lemma_edges_well_formed(g: GraphView)
    requires
        g.wf(),
    ensures
        edge_seq(g.nodes).len() == parent_total(g.nodes),
        forall|e: int| 0 <= e < edge_seq(g.nodes).len() ==> {
            let edge = #[trigger] edge_seq(g.nodes)[e];
            &&& edge.0.0 < g.nodes.len()
            &&& 1 <= edge.1.0 < g.nodes.len()
        },
{
    lemma_edge_seq_prefix(g.nodes, g.nodes.len() as int);
    assert(g.nodes.take(g.nodes.len() as int) =~= g.nodes);
}

proof fn lemma_parent_total_single(nodes: Seq<PluginNode>, n: int)
    requires
        1 <= n <= nodes.len(),
        nodes[0].parents@.len() == 0,
        forall|i: int| 1 <= i < nodes.len() ==> (#[trigger] nodes[i]).parents@.len() == 1,
    ensures
        parent_total(nodes.take(n)) == n - 1,
    decreases n,
{
    let pre = nodes.take(n);
    assert(pre.drop_last() =~= nodes.take(n - 1));
    assert(pre.last() == nodes[n - 1]);
    assert(parent_total(pre) == parent_total(pre.drop_last()) + pre.last().parents@.len());
    if n == 1 {
        assert(nodes.take(0) =~= Seq::<PluginNode>::empty());
        assert(parent_total(nodes.take(0)) == 0);
    } else {
        lemma_parent_total_single(nodes, n - 1);
        assert(nodes[n - 1].parents@.len() == 1);
    }
}

/// When every plugin was added from one place only, the graph is a tree: it has
/// exactly one edge fewer than it has nodes.
pub proof fn lemma_tree_edge_count(g: GraphView)
    requires
        g.wf(),
        forall|i: int| 1 <= i < g.nodes.len() ==> (#[trigger] g.nodes[i]).parents@.len() == 1,
    ensures
        edge_seq(g.nodes).len() == g.nodes.len() - 1,
{
    lemma_edges_well_formed(g);
    lemma_parent_total_single(g.nodes, g.nodes.len() as int);
    assert(g.nodes.take(g.nodes.len() as int) =~= g.nodes);
}

/// A graph holding only the root has no edges.
pub proof fn lemma_fresh_has_no_edges(g: GraphView)
    requires
        g.is_fresh(),
    ensures
        edge_seq(g.nodes).len() == 0,
{
    lemma_edges_well_formed(g);
    assert(g.nodes.drop_last() =~= Seq::<PluginNode>::empty());
    assert(g.nodes.last() == g.nodes[0]);
    assert(parent_total(g.nodes) == parent_total(g.nodes.drop_last()) + g.nodes[0].parents@.len());
}


proof fn lemma_edge_seq_same_shape(a: Seq<PluginNode>, b: Seq<PluginNode>)
    requires
        a.len() == b.len(),
        forall|i: int| 0 <= i < a.len() ==> (#[trigger] a[i]).id == b[i].id && a[i].parents == b[i].parents,
    ensures
        edge_seq(a) == edge_seq(b),
    decreases a.len(),
{
    if a.len() > 0 {
        assert forall|i: int| 0 <= i < a.drop_last().len() implies (#[trigger] a.drop_last()[i]).id == b.drop_last()[i].id
            && a.drop_last()[i].parents == b.drop_last()[i].parents by {
            assert(a.drop_last()[i] == a[i]);
            assert(b.drop_last()[i] == b[i]);
        }
        lemma_edge_seq_same_shape(a.drop_last(), b.drop_last());
        assert(a.last().id == b.last().id);
        assert(node_edges(a.last()) == node_edges(b.last()));
    }
}

/// Naming the root is read back by the root's name, and changes no edge, no
/// other node and nothing being built.
pub proof fn lemma_rename_root(g0: GraphView, g1: GraphView, name: Seq<char>)
    requires
        g0.wf(),
        g0.renamed(g1, name),
    ensures
        g1.wf(),
        g1.nodes[0].name@ == name,
        edge_seq(g1.nodes) == edge_seq(g0.nodes),
{
    assert forall|i: int| 0 <= i < g1.nodes.len() implies (#[trigger] g1.nodes[i]).id == g0.nodes[i].id
        && g1.nodes[i].parents == g0.nodes[i].parents by {
    }
    lemma_edge_seq_same_shape(g1.nodes, g0.nodes);
    assert forall|i: int| 0 <= i < g1.nodes.len() implies (#[trigger] g1.nodes[i]).id.0 == i by {
        if i > 0 {
            assert(g1.nodes[i] == g0.nodes[i]);
        }
    }
    assert forall|i: int| 1 <= i < g1.nodes.len() implies g1.plugin_node_ok(#[trigger] g1.nodes[i]) by {
        assert(g1.nodes[i] == g0.nodes[i]);
    }
}

/// Some node `c` lists `p` among its parents.
pub open spec fn has_edge(nodes: Seq<PluginNode>, p: NodeId, c: NodeId) -> bool {
    exists|i: int, j: int|
        0 <= i < nodes.len() && 0 <= j < nodes[i].parents@.len() && #[trigger] nodes[i].parents@[j] == p
            && nodes[i].id == c
}

proof fn lemma_edge_seq_contains(nodes: Seq<PluginNode>, p: NodeId, c: NodeId)
    ensures
        edge_seq(nodes).contains((p, c)) <==> has_edge(nodes, p, c),
    decreases nodes.len(),
{
    if nodes.len() > 0 {
        let d = nodes.drop_last();
        let last = nodes.last();
        let a = edge_seq(d);
        let b = node_edges(last);
        lemma_edge_seq_contains(d, p, c);
        assert(edge_seq(nodes) == a + b);
        if edge_seq(nodes).contains((p, c)) {
            let t = choose|t: int| 0 <= t < (a + b).len() && (a + b)[t] == (p, c);
            if t < a.len() {
                assert(a[t] == (p, c));
                assert(a.contains((p, c)));
                let (i, j) = choose|i: int, j: int|
                    0 <= i < d.len() && 0 <= j < d[i].parents@.len() && #[trigger] d[i].parents@[j] == p && d[i].id == c;
                assert(d[i] == nodes[i]);
                assert(nodes[i].parents@[j] == p);
            } else {
                let j = t - a.len();
                assert(b[j] == (p, c));
                assert(nodes[nodes.len() - 1].parents@[j] == p);
            }
        }
        if has_edge(nodes, p, c) {
            let (i, j) = choose|i: int, j: int|
                0 <= i < nodes.len() && 0 <= j < nodes[i].parents@.len() && #[trigger] nodes[i].parents@[j] == p
                    && nodes[i].id == c;
            if i < d.len() {
                assert(d[i] == nodes[i]);
                assert(d[i].parents@[j] == p);
                assert(a.contains((p, c)));
                let t = choose|t: int| 0 <= t < a.len() && a[t] == (p, c);
                assert((a + b)[t] == (p, c));
            } else {
                assert(b[j] == (p, c));
                assert((a + b)[a.len() + j] == (p, c));
            }
        }
    }
}

/// Edges are recorded, never inferred: beginning a plugin adds exactly the edge
/// from the plugin being built to the returned node (if it was not there yet), and
/// keeps every other edge.
pub proof fn lemma_begin_records_one_edge(
    g0: GraphView,
    g1: GraphView,
    k: TypeId,
    path: Seq<char>,
    id: NodeId,
)
    requires
        g0.wf(),
        g0.begin_rel(g1, k, path, id),
    ensures
        forall|p: NodeId, c: NodeId|
            #[trigger] edge_seq(g1.nodes).contains((p, c)) <==> (edge_seq(g0.nodes).contains((p, c)) || (p
                == g0.current() && c == id)),
{
    let parent = g0.current();
    assert forall|p: NodeId, c: NodeId|
        #[trigger] edge_seq(g1.nodes).contains((p, c)) <==> (edge_seq(g0.nodes).contains((p, c)) || (p
            == parent && c == id)) by {
        lemma_edge_seq_contains(g1.nodes, p, c);
        lemma_edge_seq_contains(g0.nodes, p, c);
        match g0.key_pos(k) {
            Some(x) => {
                let idx = x + 1;
                let o = g0.nodes[idx];
                let n = g1.nodes[idx];
                if has_edge(g1.nodes, p, c) {
                    let (i, j) = choose|i: int, j: int|
                        0 <= i < g1.nodes.len() && 0 <= j < g1.nodes[i].parents@.len() && #[trigger] g1.nodes[i].parents@[j] == p
                            && g1.nodes[i].id == c;
                    if i != idx {
                        assert(g1.nodes[i] == g0.nodes[i]);
                        assert(g0.nodes[i].parents@[j] == p);
                    } else if j < o.parents@.len() {
                        assert(n.parents@[j] == o.parents@[j]);
                        assert(g0.nodes[idx].parents@[j] == p);
                    } else {
                        assert(p == parent);
                        assert(c == n.id);
                    }
                }
                if has_edge(g0.nodes, p, c) {
                    let (i, j) = choose|i: int, j: int|
                        0 <= i < g0.nodes.len() && 0 <= j < g0.nodes[i].parents@.len() && #[trigger] g0.nodes[i].parents@[j] == p
                            && g0.nodes[i].id == c;
                    if i != idx {
                        assert(g1.nodes[i] == g0.nodes[i]);
                        assert(g1.nodes[i].parents@[j] == p);
                    } else {
                        assert(n.parents@[j] == o.parents@[j]);
                        assert(g1.nodes[idx].parents@[j] == p);
                    }
                }
                if p == parent && c == id {
                    assert(g0.nodes[idx].id.0 == idx);
                    if o.parents@.contains(parent) {
                        let j = choose|j: int| 0 <= j < o.parents@.len() && o.parents@[j] == parent;
                        assert(g1.nodes[idx].parents@[j] == p);
                    } else {
                        assert(g1.nodes[idx].parents@[o.parents@.len() as int] == p);
                    }
                }
            },
            None => {
                let last = g0.nodes.len() as int;
                if has_edge(g1.nodes, p, c) {
                    let (i, j) = choose|i: int, j: int|
                        0 <= i < g1.nodes.len() && 0 <= j < g1.nodes[i].parents@.len() && #[trigger] g1.nodes[i].parents@[j] == p
                            && g1.nodes[i].id == c;
                    if i < last {
                        assert(g1.nodes[i] == g1.nodes.drop_last()[i]);
                        assert(g0.nodes[i].parents@[j] == p);
                    } else {
                        assert(g1.nodes[i] == g1.nodes.last());
                    }
                }
                if has_edge(g0.nodes, p, c) {
                    let (i, j) = choose|i: int, j: int|
                        0 <= i < g0.nodes.len() && 0 <= j < g0.nodes[i].parents@.len() && #[trigger] g0.nodes[i].parents@[j] == p
                            && g0.nodes[i].id == c;
                    assert(g1.nodes[i] == g1.nodes.drop_last()[i]);
                    assert(g1.nodes[i].parents@[j] == p);
                }
                if p == parent && c == id {
                    assert(g1.nodes[last] == g1.nodes.last());
                    assert(g1.nodes[last].parents@[0] == p);
                }
            },
        }
    }
}

fn contains_id(v: &Vec<NodeId>, x: NodeId) -> (r: bool)
    ensures
        r == v@.contains(x),
{
    let mut i: usize = 0;
    while i < v.len()
        invariant
            i <= v@.len(),
            forall|j: int| 0 <= j < i ==> v@[j] != x,
        decreases v@.len() - i,
    {
        if v[i] == x {
            return true;
        }
        i += 1;
    }
    false
}

impl Default for PluginGraph {
    fn default() -> (r: Self)
        ensures
            r@.is_fresh(),
    {
        Self::new()
    }
}

impl PluginGraph {
    /// A graph containing only the synthetic root.
    pub fn new() -> (r: Self)
        ensures
            r@.is_fresh(),
    {
        let root = PluginNode {
            id: NodeId(0),
            path: String::from_str("App"),
            name: String::from_str("App"),
            krate: None,
            module: None,
            parents: Vec::new(),
            added: 1,
        };
        let r = PluginGraph { nodes: vec![root], keys: Vec::new(), stack: vec![NodeId(0)] };
        assert(r@.nodes[0] == root);
        assert(r@.nodes.len() == 1);
        assert(r@.stack == seq![root_id()]);
        assert(r@.wf());
        r
    }

    /// Every node, in the order they were first added. The root is always index 0.
    pub fn nodes(&self) -> (r: &[PluginNode])
        ensures
            r@ == self@.nodes,
    {
        self.nodes.as_slice()
    }

    /// The name of the synthetic root: the app or sub-app this graph belongs to.
    pub fn root_name(&self) -> (r: &str)
        requires
            self@.wf(),
        ensures
            r@ == self@.nodes[0].name@,
    {
        self.nodes[0].name.as_str()
    }

    /// Name the synthetic root. Each app and sub-app names its own, so the
    /// rendered graphs can be told apart.
    pub fn set_root_name(&mut self, name: String)
        requires
            old(self)@.wf(),
        ensures
            final(self)@.wf(),
            old(self)@.renamed(final(self)@, name@),
    {
        let path = name.clone();
        self.nodes[0].path = path;
        self.nodes[0].name = name;
        assert(self@.nodes[0].id.0 == 0);
    }

    pub fn node(&self, id: NodeId) -> (r: Option<&PluginNode>)
        ensures
            r == (if id.0 < self@.nodes.len() {
                Some(&self@.nodes[id.0 as int])
            } else {
                None
            }),
    {
        if id.0 < self.nodes.len() {
            Some(&self.nodes[id.0])
        } else {
            None
        }
    }

    /// Every edge as `(parent, child)`, in node order.
    pub fn edges(&self) -> (r: Vec<(NodeId, NodeId)>)
        ensures
            r@ == edge_seq(self@.nodes),
    {
        let mut r: Vec<(NodeId, NodeId)> = Vec::new();
        let mut i: usize = 0;
        assert(self@.nodes.take(0) =~= Seq::<PluginNode>::empty());
        while i < self.nodes.len()
            invariant
                i <= self@.nodes.len(),
                self@.nodes == self.nodes@,
                r@ == edge_seq(self@.nodes.take(i as int)),
            decreases self@.nodes.len() - i,
        {
            let node = &self.nodes[i];
            let ghost base = r@;
            let mut j: usize = 0;
            while j < node.parents.len()
                invariant
                    j <= node.parents@.len(),
                    r@ == base + node_edges(*node).take(j as int),
                decreases node.parents@.len() - j,
            {
                r.push((node.parents[j], node.id));
                assert(node_edges(*node).take(j + 1) =~= node_edges(*node).take(j as int).push(
                    (node.parents@[j as int], node.id),
                ));
                assert(r@ =~= base + node_edges(*node).take(j + 1));
                j += 1;
            }
            assert(node_edges(*node).take(j as int) =~= node_edges(*node));
            assert(self@.nodes.take(i + 1).drop_last() =~= self@.nodes.take(i as int));
            i += 1;
        }
        assert(self@.nodes.take(i as int) =~= self@.nodes);
        r
    }

    /// Where `key` sits among the recorded keys.
    fn key_index(&self, key: &TypeId) -> (r: Option<usize>)
        requires
            self@.wf(),
        ensures
            match r {
                Some(i) => i < self@.keys.len() && self@.key_pos(*key) == Some(i as int),
                None => self@.key_pos(*key) is None,
            },
    {
        let mut i: usize = 0;
        while i < self.keys.len()
            invariant
                self@.wf(),
                i <= self@.keys.len(),
                self@.keys == self.keys@,
                forall|j: int| 0 <= j < i ==> self@.keys[j] != *key,
            decreases self@.keys.len() - i,
        {
            if type_id_eq(&self.keys[i], key) {
                assert(self@.keys[i as int] == *key);
                return Some(i);
            }
            i += 1;
        }
        None
    }

    /// Look a plugin up by its type identifier.
    pub fn find_key(&self, key: &TypeId) -> (r: Option<&PluginNode>)
        requires
            self@.wf(),
        ensures
            match self@.key_pos(*key) {
                Some(i) => r == Some(&self@.nodes[i + 1]),
                None => r is None,
            },
    {
        let n = self.nodes.len();
        assert(self@.nodes.len() == n);
        match self.key_index(key) {
            Some(i) => Some(&self.nodes[i + 1]),
            None => None,
        }
    }

    /// Look a plugin up by type. The result is the node recorded under the type
    /// identifier of `P`, or `None` if there is none.
    pub fn find<P: 'static>(&self) -> (r: Option<&PluginNode>)
        requires
            self@.wf(),
        ensures
            exists|k: TypeId|
                #![trigger self@.key_pos(k)]
                match self@.key_pos(k) {
                    Some(i) => r == Some(&self@.nodes[i + 1]),
                    None => r is None,
                },
    {
        let key = type_id_of::<P>();
        self.find_key(&key)
    }

    /// Record the plugin with type identifier `key` and full type path `path` as
    /// added by whatever is currently building, and make it the current parent.
    /// Paired with [`PluginGraph::end_owned`]. A plugin already recorded gains one
    /// add and, if it is new to it, the current parent; it keeps its node.
    pub fn begin_owned(&mut self, key: TypeId, path: &str) -> (id: NodeId)
        requires
            old(self)@.wf(),
            old(self)@.can_begin(key),
        ensures
            final(self)@.wf(),
            old(self)@.begin_rel(final(self)@, key, path@, id),
    {
        let parent = self.stack[self.stack.len() - 1];
        match self.key_index(&key) {
            Some(i) => {
                let idx = i + 1;
                let ghost old_g = self@;
                self.nodes[idx].added = self.nodes[idx].added + 1;
                if !contains_id(&self.nodes[idx].parents, parent) {
                    self.nodes[idx].parents.push(parent);
                }
                let id = NodeId(idx);
                self.stack.push(id);
                proof {
                    let post = self@;
                    assert(post.keys == old_g.keys);
                    assert(post.nodes.len() == old_g.nodes.len());
                    assert(forall|j: int| 0 <= j < old_g.nodes.len() && j != idx ==> post.nodes[j] == old_g.nodes[j]);
                    assert(post.nodes[idx as int].added == old_g.nodes[idx as int].added + 1);
                    assert(post.nodes[idx as int].path == old_g.nodes[idx as int].path);
                }
                id
            },
            None => {
                let id = NodeId(self.nodes.len());
                let node = PluginNode {
                    id,
                    path: String::from_str(path),
                    name: short_name(path),
                    krate: crate_name(path),
                    module: defining_module(path),
                    parents: vec![parent],
                    added: 1,
                };
                let ghost old_g = self@;
                self.nodes.push(node);
                self.keys.push(key);
                self.stack.push(id);
                assert(self.nodes.len() <= usize::MAX);
                proof {
                    let post = self@;
                    assert(post.nodes.drop_last() =~= old_g.nodes);
                    assert(post.nodes.last() == node);
                    assert(node.parents@ =~= seq![parent]);
                }
                id
            },
        }
    }

    /// Pop the plugin that just finished building. The root is never popped, so an
    /// unbalanced call cannot corrupt the graph.
    pub fn end_owned(&mut self)
        requires
            old(self)@.wf(),
        ensures
            final(self)@.wf(),
            old(self)@.end_rel(final(self)@),
    {
        if self.stack.len() > 1 {
            self.stack.pop();
        }
    }
}

} // verus!
