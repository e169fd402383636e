//! Renderers. JSON is the interface; Mermaid is one consumer of it.

use vstd::prelude::*;
use vstd::string::*;
use crate::graph::{edge_seq, NodeId, PluginGraph, PluginNode};
use crate::order::{
    in_module, is_ranking, lemma_ranking_unique, lemma_str_lt_irreflexive, rank_modules, ranks_before,
    str_same, str_views,
};
use crate::text::{chars_of, decimal, opt_view, push_decimal};
use crate::format::opt_str_view;

verus! {

/// Categorical stroke colours, assigned to modules in fixed order.
///
/// Validated against both a light (`#fcfcfb`) and a dark (`#1a1a19`) surface. Order
/// is the safety mechanism, not decoration: do not shuffle or extend it.
pub const PALETTE: [&'static str; 8] = [
    "#3987e5",
    "#d95926",
    "#199e70",
    "#c98500",
    "#d55181",
    "#008300",
    "#9085e9",
    "#e66767",
];

/// Modules past the eighth fold into one neutral bucket rather than getting a
/// generated hue, which would collide with the validated set.
pub const OTHER: &'static str = "#8a8a85";

/// How Mermaid labels spell one character: `&`, `<`, `>` and `"` as entities.
pub open spec fn escape_char(c: char) -> Seq<char> {
    if c == '&' {
        "#amp;"@
    } else if c == '<' {
        "#lt;"@
    } else if c == '>' {
        "#gt;"@
    } else if c == '"' {
        "#quot;"@
    } else {
        seq![c]
    }
}

/// A label with every character spelled by `escape_char`.
pub open spec fn escaped(s: Seq<char>) -> Seq<char>
    decreases s.len(),
{
    if s.len() == 0 {
        seq![]
    } else {
        escaped(s.drop_last()) + escape_char(s.last())
    }
}

/// Mermaid reads `<` and `>` inside quoted labels as HTML, which mangles generic
/// plugins. Its `#entity;` escapes survive.
pub fn escape(label: &str) -> (r: String)
    ensures
        r@ == escaped(label@),
{
    let cs = chars_of(label);
    let mut out = String::new();
    let mut i: usize = 0;
    assert(cs@.take(0) =~= Seq::<char>::empty());
    while i < cs.len()
        invariant
            i <= cs@.len(),
            cs@ == label@,
            out@ == escaped(cs@.take(i as int)),
        decreases cs@.len() - i,
    {
        let c = cs[i];
        if c == '&' {
            out.append("#amp;");
        } else if c == '<' {
            out.append("#lt;");
        } else if c == '>' {
            out.append("#gt;");
        } else if c == '"' {
            out.append("#quot;");
        } else {
            crate::text::push_char(&mut out, c);
        }
        assert(cs@.take(i + 1).drop_last() =~= cs@.take(i as int));
        assert(cs@.take(i + 1).last() == c);
        i += 1;
    }
    assert(cs@.take(i as int) =~= cs@);
    out
}

/// The stroke colour of colour slot `slot < 8`.
pub open spec fn palette_colour(slot: int) -> Seq<char> {
    PALETTE@[slot]@
}

/// The label line of one node. With the module overlay on, a node defined in a
/// module carries the module as a small note.
pub open spec fn node_line(n: PluginNode, annotate: bool) -> Seq<char> {
    if annotate && n.module is Some {
        "    n"@ + decimal(n.id.0 as nat) + "[\""@ + escaped(n.name@) + "<br/><small>"@ + escaped(
            n.module->0@,
        ) + "</small>\"]\n"@
    } else {
        "    n"@ + decimal(n.id.0 as nat) + "[\""@ + escaped(n.name@) + "\"]\n"@
    }
}

/// One label line per node, in node order.
pub open spec fn node_block(nodes: Seq<PluginNode>, annotate: bool) -> Seq<char>
    decreases nodes.len(),
{
    if nodes.len() == 0 {
        seq![]
    } else {
        node_block(nodes.drop_last(), annotate) + node_line(nodes.last(), annotate)
    }
}

/// The line of one edge.
pub open spec fn edge_line(e: (NodeId, NodeId)) -> Seq<char> {
    "    n"@ + decimal(e.0.0 as nat) + " --> n"@ + decimal(e.1.0 as nat) + "\n"@
}

/// One line per edge, in order.
pub open spec fn edge_lines(es: Seq<(NodeId, NodeId)>) -> Seq<char>
    decreases es.len(),
{
    if es.len() == 0 {
        seq![]
    } else {
        edge_lines(es.drop_last()) + edge_line(es.last())
    }
}

/// The stroke class of colour slot `slot < 8`.
pub open spec fn classdef_line(slot: nat) -> Seq<char> {
    "    classDef m"@ + decimal(slot) + " stroke:"@ + palette_colour(slot as int) + ",stroke-width:2px\n"@
}

/// The stroke classes of the first `k` colour slots.
pub open spec fn classdef_lines(k: nat) -> Seq<char>
    decreases k,
{
    if k == 0 {
        seq![]
    } else {
        classdef_lines((k - 1) as nat) + classdef_line((k - 1) as nat)
    }
}

/// The stroke class shared by the modules past the palette.
pub open spec fn other_classdef() -> Seq<char> {
    "    classDef mOther stroke:"@ + OTHER@ + ",stroke-width:2px\n"@
}

/// The class of the module in colour slot `slot`.
pub open spec fn class_name(slot: nat) -> Seq<char> {
    if slot < 8 {
        "m"@ + decimal(slot)
    } else {
        "mOther"@
    }
}

/// The indices of the nodes defined in module `m`, in node order.
pub open spec fn member_ids(nodes: Seq<PluginNode>, m: Seq<char>) -> Seq<nat>
    decreases nodes.len(),
{
    if nodes.len() == 0 {
        seq![]
    } else {
        member_ids(nodes.drop_last(), m) + (if in_module(nodes.last(), m) {
            seq![nodes.last().id.0 as nat]
        } else {
            seq![]
        })
    }
}

/// Node names `n<i>` separated by commas.
pub open spec fn joined_ids(ids: Seq<nat>) -> Seq<char>
    decreases ids.len(),
{
    if ids.len() == 0 {
        seq![]
    } else if ids.len() == 1 {
        "n"@ + decimal(ids[0])
    } else {
        joined_ids(ids.drop_last()) + ",n"@ + decimal(ids.last())
    }
}

/// The line that puts every node of module `m` into the class of slot `slot`.
pub open spec fn class_line(nodes: Seq<PluginNode>, m: Seq<char>, slot: nat) -> Seq<char> {
    "    class "@ + joined_ids(member_ids(nodes, m)) + " "@ + class_name(slot) + "\n"@
}

/// One class line per module, in slot order.
pub open spec fn class_lines(nodes: Seq<PluginNode>, modules: Seq<Seq<char>>) -> Seq<char>
    decreases modules.len(),
{
    if modules.len() == 0 {
        seq![]
    } else {
        class_lines(nodes, modules.drop_last()) + class_line(
            nodes,
            modules.last(),
            (modules.len() - 1) as nat,
        )
    }
}

/// How many colour slots of the palette are in use for `m` modules.
pub open spec fn slots_used(m: nat) -> nat {
    if m < 8 {
        m
    } else {
        8
    }
}

/// The colour overlay: the stroke classes, then one class line per module.
pub open spec fn colour_block(nodes: Seq<PluginNode>, modules: Seq<Seq<char>>) -> Seq<char> {
    classdef_lines(slots_used(modules.len())) + (if modules.len() > 8 {
        other_classdef()
    } else {
        seq![]
    }) + class_lines(nodes, modules)
}

/// The Mermaid rendering of `nodes` whose modules rank as `modules`. With fewer
/// than two modules there is nothing to contrast, so the overlay (colour and
/// per-node module note alike) stays out.
pub open spec fn mermaid_text(nodes: Seq<PluginNode>, modules: Seq<Seq<char>>) -> Seq<char> {
    let annotate = modules.len() >= 2;
    "flowchart TD\n"@ + node_block(nodes, annotate) + edge_lines(edge_seq(nodes)) + (if annotate {
        colour_block(nodes, modules)
    } else {
        seq![]
    })
}

/// The colour-slot order of the modules of `nodes`.
pub open spec fn module_ranking(nodes: Seq<PluginNode>) -> Seq<Seq<char>> {
    choose|r: Seq<Seq<char>>| is_ranking(nodes, r)
}

fn write_node_line(out: &mut String, n: &PluginNode, annotate: bool)
    ensures
        final(out)@ == old(out)@ + node_line(*n, annotate),
{
    let ghost base = old(out)@;
    out.append("    n");
    push_decimal(out, n.id.0);
    out.append("[\"");
    let name = escape(n.name.as_str());
    out.append(name.as_str());
    match &n.module {
        Some(m) => {
            if annotate {
                out.append("<br/><small>");
                let e = escape(m.as_str());
                out.append(e.as_str());
                out.append("</small>\"]\n");
                assert(out@ =~= base + node_line(*n, annotate));
                return;
            }
        },
        None => {},
    }
    out.append("\"]\n");
    assert(out@ =~= base + node_line(*n, annotate));
}

fn write_edge_line(out: &mut String, e: (NodeId, NodeId))
    ensures
        final(out)@ == old(out)@ + edge_line(e),
{
    let ghost base = old(out)@;
    out.append("    n");
    push_decimal(out, e.0.0);
    out.append(" --> n");
    push_decimal(out, e.1.0);
    out.append("\n");
    assert(out@ =~= base + edge_line(e));
}

fn write_members(out: &mut String, nodes: &[PluginNode], m: &str)
    ensures
        final(out)@ == old(out)@ + joined_ids(member_ids(nodes@, m@)),
{
    let ghost base = old(out)@;
    let mut any = false;
    let mut i: usize = 0;
    assert(nodes@.take(0) =~= Seq::<PluginNode>::empty());
    while i < nodes.len()
        invariant
            i <= nodes@.len(),
            out@ == base + joined_ids(member_ids(nodes@.take(i as int), m@)),
            any == (member_ids(nodes@.take(i as int), m@).len() > 0),
        decreases nodes@.len() - i,
    {
        let ghost pre = nodes@.take(i as int);
        let ghost next = nodes@.take(i + 1);
        assert(next.drop_last() =~= pre);
        assert(next.last() == nodes@[i as int]);
        let node = &nodes[i];
        let member = match &node.module {
            Some(x) => str_same(x.as_str(), m),
            None => false,
        };
        assert(member == in_module(nodes@[i as int], m@));
        if member {
            let ghost ids = member_ids(pre, m@);
            assert(member_ids(next, m@) == ids.push(node.id.0 as nat));
            assert(ids.push(node.id.0 as nat).drop_last() =~= ids);
            if any {
                out.append(",n");
            } else {
                out.append("n");
            }
            push_decimal(out, node.id.0);
            assert(out@ =~= base + joined_ids(member_ids(next, m@)));
            any = true;
        } else {
            assert(member_ids(next, m@) =~= member_ids(pre, m@));
        }
        i += 1;
    }
    assert(nodes@.take(i as int) =~= nodes@);
}

/// Colour node strokes by module: one stroke class per colour slot in use (and the neutral one past the palette), then one class line per module.
pub fn write_module_colours(out: &mut String, graph: &PluginGraph, modules: &[&str])
    ensures
        final(out)@ == old(out)@ + colour_block(graph@.nodes, str_views(modules@)),
{
    let ghost base = old(out)@;
    let ghost views = str_views(modules@);
    let n = modules.len();
    let used = if n < 8 {
        n
    } else {
        8
    };
    let mut slot: usize = 0;
    while slot < used
        invariant
            slot <= used <= 8,
            used == slots_used(n as nat),
            out@ == base + classdef_lines(slot as nat),
        decreases used - slot,
    {
        out.append("    classDef m");
        push_decimal(out, slot);
        out.append(" stroke:");
        out.append(PALETTE[slot]);
        out.append(",stroke-width:2px\n");
        assert(out@ =~= base + classdef_lines((slot + 1) as nat));
        slot += 1;
    }
    if n > 8 {
        out.append("    classDef mOther stroke:");
        out.append(OTHER);
        out.append(",stroke-width:2px\n");
    }
    let ghost mid = out@;
    let nodes = graph.nodes();
    let mut slot: usize = 0;
    assert(views.take(0) =~= Seq::<Seq<char>>::empty());
    while slot < n
        invariant
            slot <= n == modules@.len(),
            views == str_views(modules@),
            nodes@ == graph@.nodes,
            out@ == mid + class_lines(nodes@, views.take(slot as int)),
        decreases n - slot,
    {
        let ghost before = out@;
        out.append("    class ");
        write_members(out, nodes, modules[slot]);
        out.append(" ");
        if slot < 8 {
            out.append("m");
            push_decimal(out, slot);
        } else {
            out.append("mOther");
        }
        out.append("\n");
        proof {
            let t = views.take(slot + 1);
            assert(t.drop_last() =~= views.take(slot as int));
            assert(t.last() == modules@[slot as int]@);
            assert(out@ =~= before + class_line(nodes@, modules@[slot as int]@, slot as nat));
        }
        slot += 1;
    }
    assert(views.take(n as int) =~= views);
    assert(out@ =~= base + colour_block(graph@.nodes, views));
}

/// Render as a Mermaid `flowchart TD`.
pub fn to_mermaid(graph: &PluginGraph) -> (out: String)
    ensures
        out@ == mermaid_text(graph@.nodes, module_ranking(graph@.nodes)),
{
    let mut out = String::new();
    out.append("flowchart TD\n");
    let modules = rank_modules(graph);
    let nodes = graph.nodes();
    proof {
        lemma_ranking_unique(nodes@, str_views(modules@), module_ranking(nodes@));
    }
    let annotate = modules.len() >= 2;
    let mut i: usize = 0;
    assert(nodes@.take(0) =~= Seq::<PluginNode>::empty());
    while i < nodes.len()
        invariant
            i <= nodes@.len(),
            out@ == "flowchart TD\n"@ + node_block(nodes@.take(i as int), annotate),
        decreases nodes@.len() - i,
    {
        write_node_line(&mut out, &nodes[i], annotate);
        assert(nodes@.take(i + 1).drop_last() =~= nodes@.take(i as int));
        assert(nodes@.take(i + 1).last() == nodes@[i as int]);
        i += 1;
    }
    assert(nodes@.take(i as int) =~= nodes@);
    let ghost after_nodes = out@;
    let edges = graph.edges();
    let mut j: usize = 0;
    assert(edges@.take(0) =~= Seq::<(NodeId, NodeId)>::empty());
    while j < edges.len()
        invariant
            j <= edges@.len(),
            out@ == after_nodes + edge_lines(edges@.take(j as int)),
        decreases edges@.len() - j,
    {
        write_edge_line(&mut out, edges[j]);
        assert(edges@.take(j + 1).drop_last() =~= edges@.take(j as int));
        assert(edges@.take(j + 1).last() == edges@[j as int]);
        j += 1;
    }
    assert(edges@.take(j as int) =~= edges@);
    let ghost after_edges = out@;
    assert(after_edges =~= after_nodes + edge_lines(edge_seq(nodes@)));
    if annotate {
        write_module_colours(&mut out, graph, modules.as_slice());
    }
    assert(out@ =~= mermaid_text(nodes@, str_views(modules@)));
    out
}

/// An escaped label holds none of the characters that Mermaid would read as
/// markup or as the end of the label: `&`, `<`, `>` and `"`.
pub proof fn lemma_escaped_is_plain(s: Seq<char>)
    ensures
        forall|i: int| 0 <= i < escaped(s).len() ==> {
            let c = #[trigger] escaped(s)[i];
            c != '&' && c != '<' && c != '>' && c != '"'
        },
    decreases s.len(),
{
    if s.len() > 0 {
        lemma_escaped_is_plain(s.drop_last());
        reveal_strlit("#amp;");
        reveal_strlit("#lt;");
        reveal_strlit("#gt;");
        reveal_strlit("#quot;");
        let a = escaped(s.drop_last());
        let b = escape_char(s.last());
        assert forall|i: int| 0 <= i < escaped(s).len() implies {
            let c = #[trigger] escaped(s)[i];
            c != '&' && c != '<' && c != '>' && c != '"'
        } by {
            if i < a.len() {
                assert(escaped(s)[i] == a[i]);
            } else {
                assert(escaped(s)[i] == b[i - a.len()]);
            }
        }
    }
}

/// The palette's slots are pairwise distinct, and the neutral colour is none of
/// them.
pub proof fn lemma_palette_distinct()
    ensures
        forall|i: int, j: int| 0 <= i < j < 8 ==> palette_colour(i) != palette_colour(j),
        forall|i: int| 0 <= i < 8 ==> palette_colour(i) != OTHER@,
{
    reveal_strlit("#3987e5");
    reveal_strlit("#d95926");
    reveal_strlit("#199e70");
    reveal_strlit("#c98500");
    reveal_strlit("#d55181");
    reveal_strlit("#008300");
    reveal_strlit("#9085e9");
    reveal_strlit("#e66767");
    reveal_strlit("#8a8a85");
    assert(PALETTE@[0]@[1] == '3');
    assert(PALETTE@[1]@[1] == 'd');
    assert(PALETTE@[2]@[1] == '1');
    assert(PALETTE@[3]@[1] == 'c');
    assert(PALETTE@[4]@[1] == 'd');
    assert(PALETTE@[5]@[1] == '0');
    assert(PALETTE@[6]@[1] == '9');
    assert(PALETTE@[7]@[1] == 'e');
    assert(PALETTE@[1]@[2] == '9');
    assert(PALETTE@[4]@[2] == '5');
    assert(OTHER@[1] == '8');
}

/// With fewer than two modules there is nothing to contrast: the rendering is the
/// header, one plain label per node and the edge lines, with no colour classes and
/// no module notes.
pub proof fn lemma_single_module_has_no_overlay(nodes: Seq<PluginNode>, r: Seq<Seq<char>>)
    requires
        r.len() < 2,
    ensures
        mermaid_text(nodes, r) == "flowchart TD\n"@ + node_block(nodes, false) + edge_lines(edge_seq(nodes)),
{
    assert(mermaid_text(nodes, r) =~= "flowchart TD\n"@ + node_block(nodes, false) + edge_lines(edge_seq(nodes)));
}

proof fn lemma_member_ids(nodes: Seq<PluginNode>, m: Seq<char>)
    requires
        forall|i: int| 0 <= i < nodes.len() ==> (#[trigger] nodes[i]).id.0 == i,
    ensures
        forall|a: int, b: int| 0 <= a < b < member_ids(nodes, m).len() ==> #[trigger] member_ids(nodes, m)[a] < #[trigger] member_ids(nodes, m)[b],
        forall|a: int| 0 <= a < member_ids(nodes, m).len() ==> #[trigger] member_ids(nodes, m)[a] < nodes.len(),
        forall|i: int| 0 <= i < nodes.len() ==> (member_ids(nodes, m).contains(i as nat) <==> in_module(#[trigger] nodes[i], m)),
    decreases nodes.len(),
{
    if nodes.len() > 0 {
        let d = nodes.drop_last();
        assert forall|i: int| 0 <= i < d.len() implies (#[trigger] d[i]).id.0 == i by {
            assert(d[i] == nodes[i]);
        }
        lemma_member_ids(d, m);
        let ids = member_ids(d, m);
        let last = nodes.len() - 1;
        assert(nodes.last().id.0 == last);
        let all = member_ids(nodes, m);
        assert forall|i: int| 0 <= i < nodes.len() implies (all.contains(i as nat) <==> in_module(#[trigger] nodes[i], m)) by {
            if i < last {
                assert(d[i] == nodes[i]);
                if all.contains(i as nat) {
                    let t = choose|t: int| 0 <= t < all.len() && all[t] == i as nat;
                    if t < ids.len() {
                        assert(ids[t] == all[t]);
                    }
                }
                if ids.contains(i as nat) {
                    let t = choose|t: int| 0 <= t < ids.len() && ids[t] == i as nat;
                    assert(all[t] == ids[t]);
                }
            } else {
                if in_module(nodes[i], m) {
                    assert(all[ids.len() as int] == i as nat);
                }
                if all.contains(i as nat) {
                    let t = choose|t: int| 0 <= t < all.len() && all[t] == i as nat;
                    if t < ids.len() {
                        assert(ids[t] == all[t]);
                    }
                }
            }
        }
        assert forall|a: int, b: int| 0 <= a < b < all.len() implies #[trigger] all[a] < #[trigger] all[b] by {
            if b < ids.len() {
                assert(all[a] == ids[a] && all[b] == ids[b]);
            } else {
                assert(all[a] == ids[a]);
            }
        }
        assert forall|a: int| 0 <= a < all.len() implies #[trigger] all[a] < nodes.len() by {
            if a < ids.len() {
                assert(all[a] == ids[a]);
            }
        }
    }
}

/// Every node defined in a module is put into a colour class exactly once: its
/// module has one slot, that slot's class line lists the node once, and no other
/// class line lists it.
pub proof fn lemma_classed_once(nodes: Seq<PluginNode>, r: Seq<Seq<char>>, i: int)
    requires
        forall|j: int| 0 <= j < nodes.len() ==> (#[trigger] nodes[j]).id.0 == j,
        is_ranking(nodes, r),
        0 <= i < nodes.len(),
        nodes[i].module is Some,
    ensures
        exists|s: int|
            0 <= s < r.len() && r[s] == nodes[i].module->0@ && #[trigger] member_ids(nodes, r[s]).contains(i as nat),
        forall|s: int, t: int|
            0 <= s < r.len() && 0 <= t < r.len() && member_ids(nodes, r[s]).contains(i as nat) && member_ids(nodes, r[t]).contains(i as nat)
                ==> s == t,
        forall|s: int, a: int, b: int|
            0 <= s < r.len() && 0 <= a < b < member_ids(nodes, r[s]).len() ==> member_ids(nodes, r[s])[a] != member_ids(nodes, r[s])[b],
{
    let m = nodes[i].module->0@;
    assert(in_module(nodes[i], m));
    assert(crate::order::has_module(nodes, m));
    assert(r.contains(m));
    let s = choose|s: int| 0 <= s < r.len() && r[s] == m;
    lemma_member_ids(nodes, m);
    assert(member_ids(nodes, r[s]).contains(i as nat));
    assert forall|s1: int, t1: int|
        0 <= s1 < r.len() && 0 <= t1 < r.len() && member_ids(nodes, r[s1]).contains(i as nat) && member_ids(nodes, r[t1]).contains(i as nat)
        implies s1 == t1 by {
        lemma_member_ids(nodes, r[s1]);
        lemma_member_ids(nodes, r[t1]);
        assert(r[s1] == m && r[t1] == m);
        if s1 < t1 {
            assert(ranks_before(nodes, r[s1], r[t1]));
            lemma_str_lt_irreflexive(m);
        } else if t1 < s1 {
            assert(ranks_before(nodes, r[t1], r[s1]));
            lemma_str_lt_irreflexive(m);
        }
    }
    assert forall|s1: int, a: int, b: int|
        0 <= s1 < r.len() && 0 <= a < b < member_ids(nodes, r[s1]).len() implies member_ids(nodes, r[s1])[a] != member_ids(nodes, r[s1])[b] by {
        lemma_member_ids(nodes, r[s1]);
    }
}

/// `s` holds no line break.
pub open spec fn no_newline(s: Seq<char>) -> bool {
    forall|i: int| 0 <= i < s.len() ==> s[i] != '\n'
}

/// `s` is a run of complete lines, none of them empty: it ends with a line break,
/// does not start with one, and never holds two in a row.
pub open spec fn is_lines(s: Seq<char>) -> bool {
    s.len() == 0 || {
        &&& s[0] != '\n'
        &&& s.last() == '\n'
        &&& forall|i: int| 0 <= i < s.len() - 1 ==> !(#[trigger] s[i] == '\n' && s[i + 1] == '\n')
    }
}

proof fn lemma_line(a: Seq<char>, tail: Seq<char>)
    requires
        a.len() > 0,
        no_newline(a),
        tail.len() >= 1,
        tail.last() == '\n',
        no_newline(tail.drop_last()),
    ensures
        is_lines(a + tail),
{
    let c = a + tail;
    assert forall|i: int| 0 <= i < c.len() - 1 implies !(#[trigger] c[i] == '\n' && c[i + 1] == '\n') by {
        if i < a.len() {
            assert(c[i] == a[i]);
        } else {
            assert(c[i] == tail[i - a.len()]);
            assert(tail[i - a.len()] == tail.drop_last()[i - a.len()]);
        }
    }
    assert(c[0] == a[0]);
    assert(c.last() == tail.last());
}

proof fn lemma_lines_concat(a: Seq<char>, b: Seq<char>)
    requires
        is_lines(a),
        is_lines(b),
    ensures
        is_lines(a + b),
{
    let c = a + b;
    if a.len() == 0 {
        assert(c =~= b);
    } else if b.len() == 0 {
        assert(c =~= a);
    } else {
        assert forall|i: int| 0 <= i < c.len() - 1 implies !(#[trigger] c[i] == '\n' && c[i + 1] == '\n') by {
            if i + 1 < a.len() {
                assert(c[i] == a[i] && c[i + 1] == a[i + 1]);
            } else if i >= a.len() {
                assert(c[i] == b[i - a.len()] && c[i + 1] == b[i + 1 - a.len()]);
            } else {
                assert(c[i + 1] == b[0]);
            }
        }
        assert(c[0] == a[0]);
        assert(c.last() == b.last());
    }
}

proof fn lemma_decimal_no_newline(n: nat)
    ensures
        no_newline(decimal(n)),
        decimal(n).len() > 0,
    decreases n,
{
    if n >= 10 {
        lemma_decimal_no_newline(n / 10);
    }
}

proof fn lemma_escaped_no_newline(s: Seq<char>)
    requires
        no_newline(s),
    ensures
        no_newline(escaped(s)),
    decreases s.len(),
{
    reveal_strlit("#amp;");
    reveal_strlit("#lt;");
    reveal_strlit("#gt;");
    reveal_strlit("#quot;");
    if s.len() > 0 {
        let d = s.drop_last();
        assert forall|i: int| 0 <= i < d.len() implies d[i] != '\n' by {
            assert(d[i] == s[i]);
        }
        lemma_escaped_no_newline(d);
        assert(s.last() == s[s.len() - 1]);
    }
}

proof fn lemma_node_block_lines(nodes: Seq<PluginNode>, annotate: bool)
    requires
        forall|i: int| 0 <= i < nodes.len() ==> labels_single_line(#[trigger] nodes[i]),
    ensures
        is_lines(node_block(nodes, annotate)),
    decreases nodes.len(),
{
    reveal_strlit("    n");
    reveal_strlit("[\"");
    reveal_strlit("<br/><small>");
    reveal_strlit("</small>\"]\n");
    reveal_strlit("\"]\n");
    if nodes.len() > 0 {
        let d = nodes.drop_last();
        assert forall|i: int| 0 <= i < d.len() implies labels_single_line(#[trigger] d[i]) by {
            assert(d[i] == nodes[i]);
        }
        lemma_node_block_lines(d, annotate);
        let n = nodes.last();
        assert(labels_single_line(nodes[nodes.len() - 1]));
        lemma_decimal_no_newline(n.id.0 as nat);
        lemma_escaped_no_newline(n.name@);
        let head = "    n"@ + decimal(n.id.0 as nat) + "[\""@ + escaped(n.name@);
        if annotate && n.module is Some {
            lemma_escaped_no_newline(n.module->0@);
            let tail = "</small>\"]\n"@;
            assert(tail.drop_last() =~= seq!['<', '/', 's', 'm', 'a', 'l', 'l', '>', '"', ']']);
            lemma_line(head + "<br/><small>"@ + escaped(n.module->0@), tail);
        } else {
            let tail = "\"]\n"@;
            assert(tail.drop_last() =~= seq!['"', ']']);
            lemma_line(head, tail);
        }
        lemma_lines_concat(node_block(d, annotate), node_line(n, annotate));
    }
}

proof fn lemma_edge_lines_lines(es: Seq<(NodeId, NodeId)>)
    ensures
        is_lines(edge_lines(es)),
    decreases es.len(),
{
    reveal_strlit("    n");
    reveal_strlit(" --> n");
    reveal_strlit("\n");
    if es.len() > 0 {
        lemma_edge_lines_lines(es.drop_last());
        let e = es.last();
        lemma_decimal_no_newline(e.0.0 as nat);
        lemma_decimal_no_newline(e.1.0 as nat);
        assert("\n"@.drop_last() =~= Seq::<char>::empty());
        lemma_line("    n"@ + decimal(e.0.0 as nat) + " --> n"@ + decimal(e.1.0 as nat), "\n"@);
        lemma_lines_concat(edge_lines(es.drop_last()), edge_line(e));
    }
}

proof fn lemma_classdef_lines_lines(k: nat)
    requires
        k <= 8,
    ensures
        is_lines(classdef_lines(k)),
    decreases k,
{
    reveal_strlit("    classDef m");
    reveal_strlit(" stroke:");
    reveal_strlit(",stroke-width:2px\n");
    reveal_strlit("#3987e5");
    reveal_strlit("#d95926");
    reveal_strlit("#199e70");
    reveal_strlit("#c98500");
    reveal_strlit("#d55181");
    reveal_strlit("#008300");
    reveal_strlit("#9085e9");
    reveal_strlit("#e66767");
    if k > 0 {
        let s = (k - 1) as nat;
        lemma_classdef_lines_lines(s);
        lemma_decimal_no_newline(s);
        let tail = ",stroke-width:2px\n"@;
        assert(tail.drop_last() =~= seq![',', 's', 't', 'r', 'o', 'k', 'e', '-', 'w', 'i', 'd', 't', 'h', ':', '2', 'p', 'x']);
        assert(no_newline(palette_colour(s as int)));
        lemma_line("    classDef m"@ + decimal(s) + " stroke:"@ + palette_colour(s as int), tail);
        lemma_lines_concat(classdef_lines(s), classdef_line(s));
    }
}

proof fn lemma_joined_ids_no_newline(ids: Seq<nat>)
    ensures
        no_newline(joined_ids(ids)),
    decreases ids.len(),
{
    reveal_strlit("n");
    reveal_strlit(",n");
    if ids.len() == 1 {
        lemma_decimal_no_newline(ids[0]);
    } else if ids.len() > 1 {
        lemma_joined_ids_no_newline(ids.drop_last());
        lemma_decimal_no_newline(ids.last());
    }
}

proof fn lemma_class_lines_lines(nodes: Seq<PluginNode>, modules: Seq<Seq<char>>)
    ensures
        is_lines(class_lines(nodes, modules)),
    decreases modules.len(),
{
    reveal_strlit("    class ");
    reveal_strlit(" ");
    reveal_strlit("\n");
    reveal_strlit("m");
    reveal_strlit("mOther");
    if modules.len() > 0 {
        let d = modules.drop_last();
        let slot = (modules.len() - 1) as nat;
        lemma_class_lines_lines(nodes, d);
        lemma_joined_ids_no_newline(member_ids(nodes, modules.last()));
        lemma_decimal_no_newline(slot);
        assert(no_newline(class_name(slot)));
        assert("\n"@.drop_last() =~= Seq::<char>::empty());
        lemma_line(
            "    class "@ + joined_ids(member_ids(nodes, modules.last())) + " "@ + class_name(slot),
            "\n"@,
        );
        lemma_lines_concat(class_lines(nodes, d), class_line(nodes, modules.last(), slot));
    }
}

/// The label texts of `n` hold no line break.
pub open spec fn labels_single_line(n: PluginNode) -> bool {
    &&& no_newline(n.name@)
    &&& (n.module is Some ==> no_newline(n.module->0@))
}

/// The rendering holds no empty line: it is the header, then one line per node,
/// per edge and per colour class, with nothing in between. This holds as long as
/// no node name or module holds a line break of its own.
pub proof fn lemma_no_empty_line(nodes: Seq<PluginNode>, modules: Seq<Seq<char>>)
    requires
        forall|i: int| 0 <= i < nodes.len() ==> labels_single_line(#[trigger] nodes[i]),
    ensures
        is_lines(mermaid_text(nodes, modules)),
{
    reveal_strlit("flowchart TD\n");
    reveal_strlit("    classDef mOther stroke:");
    reveal_strlit(",stroke-width:2px\n");
    reveal_strlit("#8a8a85");
    let annotate = modules.len() >= 2;
    let header = "flowchart TD\n"@;
    let words = header.drop_last();
    assert(words =~= seq!['f', 'l', 'o', 'w', 'c', 'h', 'a', 'r', 't', ' ', 'T', 'D']);
    assert(header =~= words + seq!['\n']);
    assert(seq!['\n'].drop_last() =~= Seq::<char>::empty());
    lemma_line(words, seq!['\n']);
    lemma_node_block_lines(nodes, annotate);
    lemma_edge_lines_lines(edge_seq(nodes));
    lemma_lines_concat(header, node_block(nodes, annotate));
    lemma_lines_concat(header + node_block(nodes, annotate), edge_lines(edge_seq(nodes)));
    let base = header + node_block(nodes, annotate) + edge_lines(edge_seq(nodes));
    if annotate {
        lemma_classdef_lines_lines(slots_used(modules.len()));
        let other = if modules.len() > 8 {
            other_classdef()
        } else {
            seq![]
        };
        if modules.len() > 8 {
            let tail = ",stroke-width:2px\n"@;
            assert(tail.drop_last() =~= seq![',', 's', 't', 'r', 'o', 'k', 'e', '-', 'w', 'i', 'd', 't', 'h', ':', '2', 'p', 'x']);
            lemma_line("    classDef mOther stroke:"@ + OTHER@, tail);
        }
        lemma_class_lines_lines(nodes, modules);
        lemma_lines_concat(classdef_lines(slots_used(modules.len())), other);
        lemma_lines_concat(classdef_lines(slots_used(modules.len())) + other, class_lines(nodes, modules));
        lemma_lines_concat(base, colour_block(nodes, modules));
    } else {
        assert(mermaid_text(nodes, modules) =~= base);
    }
}

impl PluginGraph {
    /// Render as a Mermaid `flowchart TD`.
    pub fn to_mermaid(&self) -> (out: String)
        ensures
            out@ == mermaid_text(self@.nodes, module_ranking(self@.nodes)),
    {
        to_mermaid(self)
    }
}

/// The JSON document of a graph, before serialization: the root's index, every
/// node in order, every edge in order.
pub struct WireGraph<'a> {
    pub root: usize,
    pub nodes: Vec<WireNode<'a>>,
    pub edges: Vec<WireEdge>,
}

/// One node of the JSON document. The type identifier is never serialized: its
/// value is not stable across runs.
pub struct WireNode<'a> {
    pub id: usize,
    pub path: &'a str,
    pub name: &'a str,
    pub krate: Option<&'a str>,
    pub module: Option<&'a str>,
    pub added: u32,
}

/// One edge of the JSON document, from parent to child.
pub struct WireEdge {
    pub from: usize,
    pub to: usize,
}

/// `w` carries exactly the serialized fields of `n`.
pub open spec fn wire_node_of(w: WireNode, n: PluginNode) -> bool {
    &&& w.id == n.id.0
    &&& w.path@ == n.path@
    &&& w.name@ == n.name@
    &&& opt_str_view(w.krate) == opt_view(n.krate)
    &&& opt_str_view(w.module) == opt_view(n.module)
    &&& w.added == n.added
}

fn opt_as_str(o: &Option<String>) -> (r: Option<&str>)
    ensures
        opt_str_view(r) == opt_view(*o),
{
    match o {
        Some(s) => Some(s.as_str()),
        None => None,
    }
}

impl PluginGraph {
    /// The document that the JSON rendering serializes: root index 0, one wire
    /// node per node in order, one wire edge per edge in order.
    pub fn to_wire(&self) -> (w: WireGraph<'_>)
        ensures
            w.root == 0,
            w.nodes@.len() == self@.nodes.len(),
            forall|i: int| 0 <= i < w.nodes@.len() ==> wire_node_of(#[trigger] w.nodes@[i], self@.nodes[i]),
            w.edges@.len() == edge_seq(self@.nodes).len(),
            forall|j: int| 0 <= j < w.edges@.len() ==> {
                &&& (#[trigger] w.edges@[j]).from == edge_seq(self@.nodes)[j].0.0
                &&& w.edges@[j].to == edge_seq(self@.nodes)[j].1.0
            },
    {
        let nodes = self.nodes();
        let mut wn: Vec<WireNode<'_>> = Vec::new();
        let mut i: usize = 0;
        while i < nodes.len()
            invariant
                i <= nodes@.len(),
                nodes@ == self@.nodes,
                wn@.len() == i,
                forall|k: int| 0 <= k < i ==> wire_node_of(#[trigger] wn@[k], nodes@[k]),
            decreases nodes@.len() - i,
        {
            let n = &nodes[i];
            wn.push(
                WireNode {
                    id: n.id.0,
                    path: n.path.as_str(),
                    name: n.name.as_str(),
                    krate: opt_as_str(&n.krate),
                    module: opt_as_str(&n.module),
                    added: n.added,
                },
            );
            i += 1;
        }
        let es = self.edges();
        let mut we: Vec<WireEdge> = Vec::new();
        let mut j: usize = 0;
        while j < es.len()
            invariant
                j <= es@.len(),
                es@ == edge_seq(self@.nodes),
                we@.len() == j,
                forall|k: int| 0 <= k < j ==> {
                    &&& (#[trigger] we@[k]).from == es@[k].0.0
                    &&& we@[k].to == es@[k].1.0
                },
            decreases es@.len() - j,
        {
            let e = es[j];
            we.push(WireEdge { from: e.0.0, to: e.1.0 });
            j += 1;
        }
        WireGraph { root: 0, nodes: wn, edges: we }
    }
}

} // verus!
