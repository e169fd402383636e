//! What a Mermaid rendering holds, read back from its text: each node's label line
//! with its name escaped, and each module's colour class together with the stroke
//! that class is defined with.

use vstd::prelude::*;
use crate::graph::PluginNode;
use crate::render::{
    class_line, class_lines, class_name, classdef_line, classdef_lines, colour_block, escape_char,
    escaped, joined_ids, lemma_escaped_is_plain, member_ids, mermaid_text, node_block, node_line,
    other_classdef, slots_used, OTHER, PALETTE,
};
use crate::text::decimal;

verus! {

/// `piece` appears in `text` starting at position `p`.
pub open spec fn occurs_at(text: Seq<char>, piece: Seq<char>, p: int) -> bool {
    &&& 0 <= p
    &&& p + piece.len() <= text.len()
    &&& text.subrange(p, p + piece.len()) == piece
}

/// `piece` appears somewhere in `text`.
pub open spec fn occurs(text: Seq<char>, piece: Seq<char>) -> bool {
    exists|p: int| occurs_at(text, piece, p)
}

proof fn lemma_occurs_whole(t: Seq<char>)
    ensures
        occurs(t, t),
{
    assert(t.subrange(0, t.len() as int) =~= t);
    assert(occurs_at(t, t, 0));
}

proof fn lemma_occurs_left(a: Seq<char>, b: Seq<char>, piece: Seq<char>)
    requires
        occurs(a, piece),
    ensures
        occurs(a + b, piece),
{
    let p = choose|p: int| occurs_at(a, piece, p);
    assert((a + b).subrange(p, p + piece.len()) =~= a.subrange(p, p + piece.len()));
    assert(occurs_at(a + b, piece, p));
}

proof fn lemma_occurs_right(a: Seq<char>, b: Seq<char>, piece: Seq<char>)
    requires
        occurs(b, piece),
    ensures
        occurs(a + b, piece),
{
    let p = choose|p: int| occurs_at(b, piece, p);
    let q = p + a.len();
    assert((a + b).subrange(q, q + piece.len()) =~= b.subrange(p, p + piece.len()));
    assert(occurs_at(a + b, piece, q));
}

proof fn lemma_node_block_has_line(nodes: Seq<PluginNode>, annotate: bool, i: int)
    requires
        0 <= i < nodes.len(),
    ensures
        occurs(node_block(nodes, annotate), node_line(nodes[i], annotate)),
    decreases nodes.len(),
{
    let d = nodes.drop_last();
    let last = node_line(nodes.last(), annotate);
    if i < nodes.len() - 1 {
        lemma_node_block_has_line(d, annotate, i);
        assert(d[i] == nodes[i]);
        lemma_occurs_left(node_block(d, annotate), last, node_line(nodes[i], annotate));
    } else {
        lemma_occurs_whole(last);
        lemma_occurs_right(node_block(d, annotate), last, last);
    }
}

/// Each node has its label line in the rendering: its index, then its name with
/// `&`, `<`, `>` and `"` spelled as Mermaid entities, then, when modules are told
/// apart and the node has one, its module escaped the same way as a small note.
/// The label text between the quotes holds none of those four characters.
pub proof fn lemma_labels_are_escaped(nodes: Seq<PluginNode>, modules: Seq<Seq<char>>, i: int)
    requires
        0 <= i < nodes.len(),
    ensures
        modules.len() >= 2 && nodes[i].module is Some ==> occurs(
            mermaid_text(nodes, modules),
            "    n"@ + decimal(nodes[i].id.0 as nat) + "[\""@ + escaped(nodes[i].name@) + "<br/><small>"@
                + escaped(nodes[i].module->0@) + "</small>\"]\n"@,
        ),
        !(modules.len() >= 2 && nodes[i].module is Some) ==> occurs(
            mermaid_text(nodes, modules),
            "    n"@ + decimal(nodes[i].id.0 as nat) + "[\""@ + escaped(nodes[i].name@) + "\"]\n"@,
        ),
        forall|k: int|
            0 <= k < escaped(nodes[i].name@).len() ==> {
                let c = #[trigger] escaped(nodes[i].name@)[k];
                c != '&' && c != '<' && c != '>' && c != '"'
            },
{
    let annotate = modules.len() >= 2;
    let header = "flowchart TD\n"@;
    let nb = node_block(nodes, annotate);
    let el = crate::render::edge_lines(crate::graph::edge_seq(nodes));
    let tail = if annotate {
        colour_block(nodes, modules)
    } else {
        seq![]
    };
    lemma_node_block_has_line(nodes, annotate, i);
    lemma_occurs_right(header, nb, node_line(nodes[i], annotate));
    lemma_occurs_left(header + nb, el, node_line(nodes[i], annotate));
    lemma_occurs_left(header + nb + el, tail, node_line(nodes[i], annotate));
    assert(mermaid_text(nodes, modules) == header + nb + el + tail);
    lemma_escaped_is_plain(nodes[i].name@);
}

/// A name holding none of `&`, `<`, `>` and `"` is written as it is.
pub proof fn lemma_plain_names_are_kept(s: Seq<char>)
    requires
        forall|k: int| 0 <= k < s.len() ==> s[k] != '&' && s[k] != '<' && s[k] != '>' && s[k] != '"',
    ensures
        escaped(s) == s,
    decreases s.len(),
{
    if s.len() > 0 {
        let d = s.drop_last();
        assert forall|k: int| 0 <= k < d.len() implies d[k] != '&' && d[k] != '<' && d[k] != '>' && d[k] != '"' by {
            assert(d[k] == s[k]);
        }
        lemma_plain_names_are_kept(d);
        assert(s.last() == s[s.len() - 1]);
        assert(escape_char(s.last()) == seq![s.last()]);
        assert(d + seq![s.last()] =~= s);
    }
}

proof fn lemma_classdefs_have_slot(k: nat, s: nat)
    requires
        s < k,
    ensures
        occurs(classdef_lines(k), classdef_line(s)),
    decreases k,
{
    let pre = classdef_lines((k - 1) as nat);
    let last = classdef_line((k - 1) as nat);
    if s < k - 1 {
        lemma_classdefs_have_slot((k - 1) as nat, s);
        lemma_occurs_left(pre, last, classdef_line(s));
    } else {
        lemma_occurs_whole(last);
        lemma_occurs_right(pre, last, last);
    }
}

proof fn lemma_class_lines_have_slot(nodes: Seq<PluginNode>, modules: Seq<Seq<char>>, s: int)
    requires
        0 <= s < modules.len(),
    ensures
        occurs(class_lines(nodes, modules), class_line(nodes, modules[s], s as nat)),
    decreases modules.len(),
{
    let d = modules.drop_last();
    let last = class_line(nodes, modules.last(), (modules.len() - 1) as nat);
    if s < modules.len() - 1 {
        lemma_class_lines_have_slot(nodes, d, s);
        assert(d[s] == modules[s]);
        lemma_occurs_left(class_lines(nodes, d), last, class_line(nodes, modules[s], s as nat));
    } else {
        lemma_occurs_whole(last);
        lemma_occurs_right(class_lines(nodes, d), last, last);
    }
}

/// When modules are told apart, every module's nodes are put in the class of its
/// colour slot, and that class is defined in the same rendering: slot `s < 8` is
/// class `m<s>`, stroked with the palette's colour `s`; the modules past the
/// palette share class `mOther`, stroked with the neutral colour.
pub proof fn lemma_modules_get_their_class(nodes: Seq<PluginNode>, modules: Seq<Seq<char>>, s: int)
    requires
        modules.len() >= 2,
        0 <= s < modules.len(),
    ensures
        s < 8 ==> occurs(
            mermaid_text(nodes, modules),
            "    classDef m"@ + decimal(s as nat) + " stroke:"@ + PALETTE@[s]@ + ",stroke-width:2px\n"@,
        ),
        s < 8 ==> occurs(
            mermaid_text(nodes, modules),
            "    class "@ + joined_ids(member_ids(nodes, modules[s])) + " m"@ + decimal(s as nat) + "\n"@,
        ),
        s >= 8 ==> occurs(mermaid_text(nodes, modules), "    classDef mOther stroke:"@ + OTHER@ + ",stroke-width:2px\n"@),
        s >= 8 ==> occurs(
            mermaid_text(nodes, modules),
            "    class "@ + joined_ids(member_ids(nodes, modules[s])) + " mOther\n"@,
        ),
{
    reveal_strlit(" ");
    reveal_strlit("m");
    reveal_strlit(" m");
    reveal_strlit("mOther");
    reveal_strlit(" mOther\n");
    reveal_strlit("\n");
    let nodes_part = "flowchart TD\n"@ + node_block(nodes, true) + crate::render::edge_lines(
        crate::graph::edge_seq(nodes),
    );
    let k = slots_used(modules.len());
    let defs = classdef_lines(k);
    let other = if modules.len() > 8 {
        other_classdef()
    } else {
        seq![]
    };
    let classes = class_lines(nodes, modules);
    assert(colour_block(nodes, modules) == defs + other + classes);
    assert(mermaid_text(nodes, modules) == nodes_part + colour_block(nodes, modules));
    let joined = joined_ids(member_ids(nodes, modules[s]));
    lemma_class_lines_have_slot(nodes, modules, s);
    lemma_occurs_right(defs + other, classes, class_line(nodes, modules[s], s as nat));
    lemma_occurs_right(nodes_part, colour_block(nodes, modules), class_line(nodes, modules[s], s as nat));
    if s < 8 {
        lemma_classdefs_have_slot(k, s as nat);
        lemma_occurs_left(defs, other, classdef_line(s as nat));
        lemma_occurs_left(defs + other, classes, classdef_line(s as nat));
        lemma_occurs_right(nodes_part, colour_block(nodes, modules), classdef_line(s as nat));
        assert(" "@ + class_name(s as nat) =~= " m"@ + decimal(s as nat));
        assert(class_line(nodes, modules[s], s as nat) =~= "    class "@ + joined + " m"@ + decimal(s as nat) + "\n"@);
    } else {
        lemma_occurs_whole(other);
        lemma_occurs_right(defs, other, other);
        lemma_occurs_left(defs + other, classes, other);
        lemma_occurs_right(nodes_part, colour_block(nodes, modules), other);
        assert(" "@ + class_name(s as nat) + "\n"@ =~= " mOther\n"@);
        assert(class_line(nodes, modules[s], s as nat) =~= "    class "@ + joined + " mOther\n"@);
    }
}

} // verus!
