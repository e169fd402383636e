//! The order in which modules take colour slots: biggest group first, ties broken by
//! name so that the same graph always renders the same colours.

use vstd::prelude::*;
use vstd::string::StringExecFns;
use crate::graph::{PluginGraph, PluginNode};
use crate::text::chars_of;

verus! {

/// Lexicographic order on character sequences: the order of `str`'s `Ord`, which
/// compares UTF-8 bytes and so orders by code point, a proper prefix first.
pub open spec fn str_lt(a: Seq<char>, b: Seq<char>) -> bool
    decreases a.len(),
{
    if a.len() == 0 {
        b.len() > 0
    } else if b.len() == 0 {
        false
    } else if a[0] != b[0] {
        a[0] < b[0]
    } else {
        str_lt(a.drop_first(), b.drop_first())
    }
}

/// `str_lt` is the lexicographic order read from the front, as `str`'s `Ord` is:
/// `a` comes first exactly when it is a proper prefix of `b`, or when at the first
/// position where the two differ `a` holds the smaller character.
pub proof fn lemma_str_lt_is_lexicographic(a: Seq<char>, b: Seq<char>)
    ensures
        str_lt(a, b) <==> ((a.len() < b.len() && b.take(a.len() as int) == a) || exists|k: int|
            0 <= k < a.len() && k < b.len() && (forall|j: int| 0 <= j < k ==> a[j] == b[j]) && #[trigger] a[k]
                < b[k]),
    decreases a.len(),
{
    if a.len() == 0 {
        assert(b.len() > 0 ==> b.take(0) =~= a);
    } else if b.len() == 0 {
    } else if a[0] != b[0] {
        if a.len() < b.len() && b.take(a.len() as int) == a {
            assert(b.take(a.len() as int)[0] == b[0]);
        }
        if exists|k: int|
            0 <= k < a.len() && k < b.len() && (forall|j: int| 0 <= j < k ==> a[j] == b[j]) && #[trigger] a[k] < b[k] {
            let k = choose|k: int|
                0 <= k < a.len() && k < b.len() && (forall|j: int| 0 <= j < k ==> a[j] == b[j]) && #[trigger] a[k] < b[k];
            if k > 0 {
                assert(a[0] == b[0]);
            }
        }
        if a[0] < b[0] {
            assert(forall|j: int| 0 <= j < 0 ==> a[j] == b[j]);
            assert(a[0] < b[0]);
        }
    } else {
        let a1 = a.drop_first();
        let b1 = b.drop_first();
        lemma_str_lt_is_lexicographic(a1, b1);
        // The prefix cases correspond.
        if a.len() < b.len() && b.take(a.len() as int) == a {
            assert(b1.take(a1.len() as int) =~= a1) by {
                assert forall|j: int| 0 <= j < a1.len() implies b1.take(a1.len() as int)[j] == a1[j] by {
                    assert(b.take(a.len() as int)[j + 1] == a[j + 1]);
                }
            }
        }
        if a1.len() < b1.len() && b1.take(a1.len() as int) == a1 {
            assert(b.take(a.len() as int) =~= a) by {
                assert forall|j: int| 0 <= j < a.len() implies b.take(a.len() as int)[j] == a[j] by {
                    if j > 0 {
                        assert(b1.take(a1.len() as int)[j - 1] == a1[j - 1]);
                    }
                }
            }
        }
        // The cases of a first difference correspond, one position apart.
        if exists|k: int|
            0 <= k < a.len() && k < b.len() && (forall|j: int| 0 <= j < k ==> a[j] == b[j]) && #[trigger] a[k] < b[k] {
            let k = choose|k: int|
                0 <= k < a.len() && k < b.len() && (forall|j: int| 0 <= j < k ==> a[j] == b[j]) && #[trigger] a[k] < b[k];
            assert(k > 0);
            assert(a1[k - 1] == a[k] && b1[k - 1] == b[k]);
            assert forall|j: int| 0 <= j < k - 1 implies a1[j] == b1[j] by {
                assert(a[j + 1] == b[j + 1]);
            }
            assert(a1[k - 1] < b1[k - 1]);
        }
        if exists|k: int|
            0 <= k < a1.len() && k < b1.len() && (forall|j: int| 0 <= j < k ==> a1[j] == b1[j]) && #[trigger] a1[k] < b1[k] {
            let k = choose|k: int|
                0 <= k < a1.len() && k < b1.len() && (forall|j: int| 0 <= j < k ==> a1[j] == b1[j]) && #[trigger] a1[k] < b1[k];
            assert forall|j: int| 0 <= j < k + 1 implies a[j] == b[j] by {
                if j > 0 {
                    assert(a1[j - 1] == b1[j - 1]);
                }
            }
            assert(a[k + 1] == a1[k] && b[k + 1] == b1[k]);
            assert(a[k + 1] < b[k + 1]);
        }
    }
}

pub proof fn lemma_str_lt_irreflexive(a: Seq<char>)
    ensures
        !str_lt(a, a),
    decreases a.len(),
{
    if a.len() > 0 {
        lemma_str_lt_irreflexive(a.drop_first());
    }
}

pub proof fn lemma_str_lt_transitive(a: Seq<char>, b: Seq<char>, c: Seq<char>)
    requires
        str_lt(a, b),
        str_lt(b, c),
    ensures
        str_lt(a, c),
    decreases a.len(),
{
    if a.len() > 0 && b.len() > 0 && c.len() > 0 && a[0] == b[0] && b[0] == c[0] {
        lemma_str_lt_transitive(a.drop_first(), b.drop_first(), c.drop_first());
    }
}

pub proof fn lemma_str_lt_total(a: Seq<char>, b: Seq<char>)
    requires
        a != b,
    ensures
        str_lt(a, b) || str_lt(b, a),
    decreases a.len(),
{
    if a.len() == 0 {
        assert(b.len() > 0) by {
            if b.len() == 0 {
                assert(a =~= b);
            }
        }
    } else if b.len() == 0 {
    } else if a[0] == b[0] {
        if a.drop_first() == b.drop_first() {
            assert(a.drop_first().len() == a.len() - 1);
            assert(b.drop_first().len() == b.len() - 1);
            assert(a =~= b) by {
                assert forall|i: int| 0 <= i < a.len() implies a[i] == b[i] by {
                    if i > 0 {
                        assert(a[i] == a.drop_first()[i - 1]);
                        assert(b[i] == b.drop_first()[i - 1]);
                    }
                }
            }
        }
        lemma_str_lt_total(a.drop_first(), b.drop_first());
    }
}

/// `str_lt(a@, b@)`, computed.
pub fn str_less(a: &str, b: &str) -> (r: bool)
    ensures
        r == str_lt(a@, b@),
{
    let x = chars_of(a);
    let y = chars_of(b);
    let mut i: usize = 0;
    assert(x@.skip(0) =~= x@);
    assert(y@.skip(0) =~= y@);
    while i < x.len() && i < y.len() && x[i] == y[i]
        invariant
            i <= x@.len(),
            i <= y@.len(),
            str_lt(a@, b@) == str_lt(x@.skip(i as int), y@.skip(i as int)),
            x@ == a@,
            y@ == b@,
        decreases x@.len() - i,
    {
        assert(x@.skip(i as int).drop_first() =~= x@.skip(i + 1));
        assert(y@.skip(i as int).drop_first() =~= y@.skip(i + 1));
        i += 1;
    }
    if i == x.len() {
        i < y.len()
    } else if i == y.len() {
        false
    } else {
        x[i] < y[i]
    }
}

/// How many nodes are defined in module `m`.
pub open spec fn module_count(nodes: Seq<PluginNode>, m: Seq<char>) -> nat
    decreases nodes.len(),
{
    if nodes.len() == 0 {
        0
    } else {
        module_count(nodes.drop_last(), m) + (if in_module(nodes.last(), m) {
            1nat
        } else {
            0nat
        })
    }
}

/// Whether `n` is defined in module `m`.
pub open spec fn in_module(n: PluginNode, m: Seq<char>) -> bool {
    n.module is Some && n.module->0@ == m
}

/// Whether some node is defined in module `m`.
pub open spec fn has_module(nodes: Seq<PluginNode>, m: Seq<char>) -> bool {
    exists|i: int| 0 <= i < nodes.len() && in_module(#[trigger] nodes[i], m)
}

/// Module `a` takes its colour slot before module `b`: it holds more nodes, or as
/// many and its name comes first.
pub open spec fn ranks_before(nodes: Seq<PluginNode>, a: Seq<char>, b: Seq<char>) -> bool {
    module_count(nodes, a) > module_count(nodes, b) || (module_count(nodes, a) == module_count(
        nodes,
        b,
    ) && str_lt(a, b))
}

/// `r` lists every module of `nodes` once, in colour-slot order.
pub open spec fn is_ranking(nodes: Seq<PluginNode>, r: Seq<Seq<char>>) -> bool {
    &&& forall|i: int| 0 <= i < r.len() ==> has_module(nodes, #[trigger] r[i])
    &&& forall|m: Seq<char>| has_module(nodes, m) ==> #[trigger] r.contains(m)
    &&& forall|i: int, j: int| 0 <= i < j < r.len() ==> ranks_before(nodes, #[trigger] r[i], #[trigger] r[j])
}

/// In a ranking, a module never holds fewer nodes than one after it, and of two
/// modules holding as many, the one whose name reads first from the front (a proper
/// prefix, or the smaller character at the first difference) comes first.
pub proof fn lemma_ranking_order(nodes: Seq<PluginNode>, r: Seq<Seq<char>>, i: int, j: int)
    requires
        is_ranking(nodes, r),
        0 <= i < j < r.len(),
    ensures
        module_count(nodes, r[i]) >= module_count(nodes, r[j]),
        module_count(nodes, r[i]) == module_count(nodes, r[j]) ==> ((r[i].len() < r[j].len() && r[j].take(
            r[i].len() as int,
        ) == r[i]) || exists|k: int|
            0 <= k < r[i].len() && k < r[j].len() && (forall|x: int| 0 <= x < k ==> r[i][x] == r[j][x])
                && #[trigger] r[i][k] < r[j][k]),
{
    assert(ranks_before(nodes, r[i], r[j]));
    lemma_str_lt_is_lexicographic(r[i], r[j]);
}

/// The characters of each string.
pub open spec fn str_views(v: Seq<&str>) -> Seq<Seq<char>> {
    v.map_values(|s: &str| s@)
}

proof fn lemma_ranks_before_transitive(nodes: Seq<PluginNode>, a: Seq<char>, b: Seq<char>, c: Seq<char>)
    requires
        ranks_before(nodes, a, b),
        ranks_before(nodes, b, c),
    ensures
        ranks_before(nodes, a, c),
{
    if str_lt(a, b) && str_lt(b, c) {
        lemma_str_lt_transitive(a, b, c);
    }
}

proof fn lemma_ranks_before_total(nodes: Seq<PluginNode>, a: Seq<char>, b: Seq<char>)
    requires
        a != b,
    ensures
        ranks_before(nodes, a, b) || ranks_before(nodes, b, a),
{
    lemma_str_lt_total(a, b);
}

proof fn lemma_ranks_before_irreflexive(nodes: Seq<PluginNode>, a: Seq<char>)
    ensures
        !ranks_before(nodes, a, a),
{
    lemma_str_lt_irreflexive(a);
}

/// The ranking is unique: the same graph always gives its modules the same colour
/// slots.
pub proof fn lemma_ranking_unique(nodes: Seq<PluginNode>, r1: Seq<Seq<char>>, r2: Seq<Seq<char>>)
    requires
        is_ranking(nodes, r1),
        is_ranking(nodes, r2),
    ensures
        r1 == r2,
{
    lemma_sorted_same_elements(nodes, r1, r2);
}

proof fn lemma_sorted_same_elements(nodes: Seq<PluginNode>, r1: Seq<Seq<char>>, r2: Seq<Seq<char>>)
    requires
        forall|i: int| 0 <= i < r1.len() ==> #[trigger] r2.contains(r1[i]),
        forall|i: int| 0 <= i < r2.len() ==> #[trigger] r1.contains(r2[i]),
        forall|i: int, j: int| 0 <= i < j < r1.len() ==> ranks_before(nodes, #[trigger] r1[i], #[trigger] r1[j]),
        forall|i: int, j: int| 0 <= i < j < r2.len() ==> ranks_before(nodes, #[trigger] r2[i], #[trigger] r2[j]),
    ensures
        r1 == r2,
    decreases r1.len(),
{
    if r1.len() == 0 {
        if r2.len() > 0 {
            assert(r1.contains(r2[0]));
        }
        assert(r1 =~= r2);
    } else if r2.len() == 0 {
        assert(r2.contains(r1[0]));
    } else {
        let x = r1[0];
        let y = r2[0];
        if x != y {
            assert(r2.contains(x));
            let j = choose|j: int| 0 <= j < r2.len() && r2[j] == x;
            assert(r1.contains(y));
            let i = choose|i: int| 0 <= i < r1.len() && r1[i] == y;
            assert(j > 0);
            assert(i > 0);
            assert(ranks_before(nodes, r2[0], r2[j]));
            assert(ranks_before(nodes, r1[0], r1[i]));
            lemma_ranks_before_transitive(nodes, y, x, y);
            lemma_ranks_before_irreflexive(nodes, y);
        }
        let t1 = r1.drop_first();
        let t2 = r2.drop_first();
        assert forall|i: int| 0 <= i < t1.len() implies #[trigger] t2.contains(t1[i]) by {
            assert(t1[i] == r1[i + 1]);
            assert(ranks_before(nodes, r1[0], r1[i + 1]));
            assert(r2.contains(r1[i + 1]));
            let j = choose|j: int| 0 <= j < r2.len() && r2[j] == r1[i + 1];
            if j == 0 {
                lemma_ranks_before_irreflexive(nodes, x);
            }
            assert(t2[j - 1] == r2[j]);
        }
        assert forall|i: int| 0 <= i < t2.len() implies #[trigger] t1.contains(t2[i]) by {
            assert(t2[i] == r2[i + 1]);
            assert(ranks_before(nodes, r2[0], r2[i + 1]));
            assert(r1.contains(r2[i + 1]));
            let j = choose|j: int| 0 <= j < r1.len() && r1[j] == r2[i + 1];
            if j == 0 {
                lemma_ranks_before_irreflexive(nodes, x);
            }
            assert(t1[j - 1] == r1[j]);
        }
        assert forall|i: int, j: int| 0 <= i < j < t1.len() implies ranks_before(nodes, #[trigger] t1[i], #[trigger] t1[j]) by {
            assert(t1[i] == r1[i + 1]);
            assert(t1[j] == r1[j + 1]);
        }
        assert forall|i: int, j: int| 0 <= i < j < t2.len() implies ranks_before(nodes, #[trigger] t2[i], #[trigger] t2[j]) by {
            assert(t2[i] == r2[i + 1]);
            assert(t2[j] == r2[j + 1]);
        }
        lemma_sorted_same_elements(nodes, t1, t2);
        assert(r1 =~= seq![x] + t1);
        assert(r2 =~= seq![x] + t2);
    }
}


proof fn lemma_prefix_step(nodes: Seq<PluginNode>, i: int, m: Seq<char>)
    requires
        0 <= i < nodes.len(),
    ensures
        module_count(nodes.take(i + 1), m) == module_count(nodes.take(i), m) + (if in_module(
            nodes[i],
            m,
        ) {
            1nat
        } else {
            0nat
        }),
        has_module(nodes.take(i + 1), m) <==> (has_module(nodes.take(i), m) || in_module(nodes[i], m)),
{
    let pre = nodes.take(i + 1);
    assert(pre.drop_last() =~= nodes.take(i));
    assert(pre.last() == nodes[i]);
    if has_module(nodes.take(i + 1), m) {
        let j = choose|j: int| 0 <= j < pre.len() && in_module(#[trigger] pre[j], m);
        if j < i {
            assert(nodes.take(i)[j] == pre[j]);
        }
    }
    if has_module(nodes.take(i), m) {
        let j = choose|j: int| 0 <= j < i && in_module(#[trigger] nodes.take(i)[j], m);
        assert(pre[j] == nodes.take(i)[j]);
    }
    if in_module(nodes[i], m) {
        assert(pre[i] == nodes[i]);
    }
}

pub(crate) fn str_same(a: &str, b: &str) -> (r: bool)
    ensures
        r == (a@ == b@),
{
    String::from_str(a) == String::from_str(b)
}

fn find_str(v: &Vec<&str>, s: &str) -> (r: Option<usize>)
    ensures
        match r {
            Some(k) => k < v@.len() && v@[k as int]@ == s@,
            None => forall|j: int| 0 <= j < v@.len() ==> v@[j]@ != s@,
        },
{
    let mut k: usize = 0;
    while k < v.len()
        invariant
            k <= v@.len(),
            forall|j: int| 0 <= j < k ==> v@[j]@ != s@,
        decreases v@.len() - k,
    {
        if str_same(v[k], s) {
            return Some(k);
        }
        k += 1;
    }
    None
}

fn ranks_before_exec(ca: usize, a: &str, cb: usize, b: &str) -> (r: bool)
    ensures
        r == (ca > cb || (ca == cb && str_lt(a@, b@))),
{
    ca > cb || (ca == cb && str_less(a, b))
}

/// Index of the module that takes the next colour slot.
fn best_index(ms: &Vec<&str>, cs: &Vec<usize>, Ghost(nodes): Ghost<Seq<PluginNode>>) -> (b: usize)
    requires
        ms@.len() > 0,
        ms@.len() == cs@.len(),
        forall|k: int| 0 <= k < cs@.len() ==> #[trigger] cs@[k] == module_count(nodes, ms@[k]@),
        forall|x: int, y: int| 0 <= x < y < ms@.len() ==> #[trigger] ms@[x]@ != #[trigger] ms@[y]@,
    ensures
        b < ms@.len(),
        forall|u: int| 0 <= u < ms@.len() && u != b ==> ranks_before(nodes, ms@[b as int]@, #[trigger] ms@[u]@),
{
    let mut best: usize = 0;
    let mut t: usize = 1;
    while t < ms.len()
        invariant
            ms@.len() == cs@.len(),
            forall|k: int| 0 <= k < cs@.len() ==> #[trigger] cs@[k] == module_count(nodes, ms@[k]@),
            forall|x: int, y: int| 0 <= x < y < ms@.len() ==> #[trigger] ms@[x]@ != #[trigger] ms@[y]@,
            best < t <= ms@.len(),
            forall|u: int| 0 <= u < t && u != best ==> ranks_before(nodes, ms@[best as int]@, #[trigger] ms@[u]@),
        decreases ms@.len() - t,
    {
        let ghost old_best = best;
        assert(cs@[t as int] == module_count(nodes, ms@[t as int]@));
        assert(cs@[best as int] == module_count(nodes, ms@[best as int]@));
        if ranks_before_exec(cs[t], ms[t], cs[best], ms[best]) {
            best = t;
            proof {
            assert forall|u: int| 0 <= u < t + 1 && u != best implies ranks_before(nodes, ms@[best as int]@, #[trigger] ms@[u]@) by {
                if u != old_best {
                    lemma_ranks_before_transitive(nodes, ms@[best as int]@, ms@[old_best as int]@, ms@[u]@);
                }
            }
            }
        } else {
            proof {
                assert(ms@[old_best as int]@ != ms@[t as int]@);
                lemma_ranks_before_total(nodes, ms@[old_best as int]@, ms@[t as int]@);
            }
        }
        t += 1;
    }
    best
}

/// Modules in the order they take colour slots: biggest group first, ties broken by
/// name so that the same app always renders the same colours.
pub fn rank_modules(graph: &PluginGraph) -> (r: Vec<&str>)
    ensures
        is_ranking(graph@.nodes, str_views(r@)),
{
    let nodes = graph.nodes();
    let ghost all = graph@.nodes;
    let mut mods: Vec<&str> = Vec::new();
    let mut counts: Vec<usize> = Vec::new();
    let mut i: usize = 0;
    assert(nodes@.take(0) =~= Seq::<PluginNode>::empty());
    while i < nodes.len()
        invariant
            i <= nodes@.len(),
            nodes@ == all,
            mods@.len() == counts@.len(),
            forall|x: int, y: int| 0 <= x < y < mods@.len() ==> #[trigger] mods@[x]@ != #[trigger] mods@[y]@,
            forall|k: int| 0 <= k < counts@.len() ==> #[trigger] counts@[k] == module_count(all.take(i as int), mods@[k]@),
            forall|k: int| 0 <= k < mods@.len() ==> has_module(all.take(i as int), #[trigger] mods@[k]@),
            forall|m: Seq<char>| has_module(all.take(i as int), m) ==> #[trigger] str_views(mods@).contains(m),
            forall|k: int| 0 <= k < counts@.len() ==> #[trigger] counts@[k] <= i,
        decreases nodes@.len() - i,
    {
        let node = &nodes[i];
        let ghost old_mods = mods@;
        let ghost old_counts = counts@;
        proof {
            assert forall|m: Seq<char>| true implies module_count(all.take(i + 1), m) == module_count(all.take(i as int), m) + (if in_module(all[i as int], m) { 1nat } else { 0nat })
                && (has_module(all.take(i + 1), m) <==> (has_module(all.take(i as int), m) || in_module(all[i as int], m))) by {
                lemma_prefix_step(all, i as int, m);
            }
        }
        match &node.module {
            Some(m) => {
                let ms = m.as_str();
                match find_str(&mods, ms) {
                    Some(k) => {
                        let c = counts[k];
                        counts.set(k, c + 1);
                        proof {
                            assert forall|j: int| 0 <= j < mods@.len() && j != k implies !in_module(all[i as int], #[trigger] mods@[j]@) by {
                                assert(mods@[j]@ != mods@[k as int]@);
                            }
                            assert forall|mm: Seq<char>| has_module(all.take(i + 1), mm) implies #[trigger] str_views(mods@).contains(mm) by {
                                if !has_module(all.take(i as int), mm) {
                                    assert(str_views(mods@)[k as int] == mm);
                                }
                            }
                        }
                    },
                    None => {
                        mods.push(ms);
                        counts.push(1);
                        proof {
                            assert forall|j: int| 0 <= j < old_mods.len() implies !in_module(all[i as int], #[trigger] old_mods[j]@) by {
                            }
                            assert forall|k: int| 0 <= k < counts@.len() implies #[trigger] counts@[k] == module_count(all.take(i + 1), mods@[k]@) by {
                                if k == old_mods.len() {
                                    assert(!has_module(all.take(i as int), ms@)) by {
                                        if has_module(all.take(i as int), ms@) {
                                            assert(str_views(old_mods).contains(ms@));
                                            let t = choose|t: int| 0 <= t < str_views(old_mods).len() && str_views(old_mods)[t] == ms@;
                                            assert(str_views(old_mods)[t] == old_mods[t]@);
                                        }
                                    }
                                    lemma_module_count_zero(all.take(i as int), ms@);
                                } else {
                                    assert(mods@[k] == old_mods[k]);
                                }
                            }
                            assert forall|mm: Seq<char>| has_module(all.take(i + 1), mm) implies #[trigger] str_views(mods@).contains(mm) by {
                                if has_module(all.take(i as int), mm) {
                                    assert(str_views(old_mods).contains(mm));
                                    let t = choose|t: int| 0 <= t < str_views(old_mods).len() && str_views(old_mods)[t] == mm;
                                    assert(str_views(old_mods)[t] == old_mods[t]@);
                                    assert(mods@[t] == old_mods[t]);
                                    assert(str_views(mods@)[t] == mm);
                                } else {
                                    assert(str_views(mods@)[old_mods.len() as int] == mm);
                                }
                            }
                        }
                    },
                }
            },
            None => {
                proof {
                    assert forall|mm: Seq<char>| has_module(all.take(i + 1), mm) implies #[trigger] str_views(mods@).contains(mm) by {
                    }
                }
            },
        }
        proof {
            assert forall|k: int| 0 <= k < mods@.len() implies has_module(all.take(i + 1), #[trigger] mods@[k]@) by {
                lemma_prefix_step(all, i as int, mods@[k]@);
                if k < old_mods.len() {
                    assert(mods@[k] == old_mods[k]);
                } else {
                    assert(in_module(all[i as int], mods@[k]@));
                }
            }
        }
        i += 1;
    }
    assert(all.take(i as int) =~= all);
    let mut rem_m = mods;
    let mut rem_c = counts;
    let mut r: Vec<&str> = Vec::new();
    while rem_m.len() > 0
        invariant
            rem_m@.len() == rem_c@.len(),
            forall|k: int| 0 <= k < rem_c@.len() ==> #[trigger] rem_c@[k] == module_count(all, rem_m@[k]@),
            forall|k: int| 0 <= k < rem_m@.len() ==> has_module(all, #[trigger] rem_m@[k]@),
            forall|x: int, y: int| 0 <= x < y < rem_m@.len() ==> #[trigger] rem_m@[x]@ != #[trigger] rem_m@[y]@,
            forall|k: int| 0 <= k < r@.len() ==> has_module(all, #[trigger] r@[k]@),
            forall|m: Seq<char>| has_module(all, m) ==> #[trigger] str_views(r@).contains(m) || str_views(rem_m@).contains(m),
            forall|x: int, y: int| 0 <= x < y < r@.len() ==> ranks_before(all, #[trigger] r@[x]@, #[trigger] r@[y]@),
            forall|x: int, y: int| 0 <= x < r@.len() && 0 <= y < rem_m@.len() ==> ranks_before(all, #[trigger] r@[x]@, #[trigger] rem_m@[y]@),
        decreases rem_m@.len(),
    {
        let ghost old_rem = rem_m@;
        let ghost old_r = r@;
        let b = best_index(&rem_m, &rem_c, Ghost(all));
        let m = rem_m.remove(b);
        rem_c.remove(b);
        r.push(m);
        proof {
            assert forall|y: int| 0 <= y < rem_m@.len() implies #[trigger] rem_m@[y] == old_rem[if y < b { y } else { y + 1 }] by {
            }
            assert forall|k: int| 0 <= k < rem_c@.len() implies #[trigger] rem_c@[k] == module_count(all, rem_m@[k]@) by {
                assert(rem_m@[k] == old_rem[if k < b { k } else { k + 1 }]);
            }
            assert forall|k: int| 0 <= k < rem_m@.len() implies has_module(all, #[trigger] rem_m@[k]@) by {
                assert(rem_m@[k] == old_rem[if k < b { k } else { k + 1 }]);
            }
            assert forall|x: int, y: int| 0 <= x < y < rem_m@.len() implies #[trigger] rem_m@[x]@ != #[trigger] rem_m@[y]@ by {
                assert(rem_m@[x] == old_rem[if x < b { x } else { x + 1 }]);
                assert(rem_m@[y] == old_rem[if y < b { y } else { y + 1 }]);
            }
            assert forall|k: int| 0 <= k < r@.len() implies has_module(all, #[trigger] r@[k]@) by {
                if k < old_r.len() {
                    assert(r@[k] == old_r[k]);
                }
            }
            assert forall|mm: Seq<char>| has_module(all, mm) implies #[trigger] str_views(r@).contains(mm) || str_views(rem_m@).contains(mm) by {
                if str_views(old_r).contains(mm) {
                    let t = choose|t: int| 0 <= t < old_r.len() && str_views(old_r)[t] == mm;
                    assert(str_views(r@)[t] == mm);
                } else {
                    let t = choose|t: int| 0 <= t < old_rem.len() && str_views(old_rem)[t] == mm;
                    if t == b {
                        assert(str_views(r@)[old_r.len() as int] == mm);
                    } else if t < b {
                        assert(str_views(rem_m@)[t] == mm);
                    } else {
                        assert(str_views(rem_m@)[t - 1] == mm);
                    }
                }
            }
            assert forall|x: int, y: int| 0 <= x < y < r@.len() implies ranks_before(all, #[trigger] r@[x]@, #[trigger] r@[y]@) by {
                assert(r@[x] == old_r[x]);
                if y < old_r.len() {
                    assert(r@[y] == old_r[y]);
                } else {
                    assert(r@[y] == old_rem[b as int]);
                }
            }
            assert forall|x: int, y: int| 0 <= x < r@.len() && 0 <= y < rem_m@.len() implies ranks_before(all, #[trigger] r@[x]@, #[trigger] rem_m@[y]@) by {
                let yy = if y < b { y } else { y + 1 };
                assert(rem_m@[y] == old_rem[yy]);
                if x < old_r.len() {
                    assert(r@[x] == old_r[x]);
                } else {
                    assert(r@[x] == old_rem[b as int]);
                }
            }
        }
    }
    proof {
        assert forall|mm: Seq<char>| has_module(all, mm) implies #[trigger] str_views(r@).contains(mm) by {
        }
        assert forall|k: int| 0 <= k < str_views(r@).len() implies has_module(all, #[trigger] str_views(r@)[k]) by {
            assert(str_views(r@)[k] == r@[k]@);
        }
        assert forall|x: int, y: int| 0 <= x < y < str_views(r@).len() implies ranks_before(all, #[trigger] str_views(r@)[x], #[trigger] str_views(r@)[y]) by {
            assert(str_views(r@)[x] == r@[x]@);
            assert(str_views(r@)[y] == r@[y]@);
        }
    }
    r
}

proof fn lemma_module_count_zero(nodes: Seq<PluginNode>, m: Seq<char>)
    requires
        !has_module(nodes, m),
    ensures
        module_count(nodes, m) == 0,
    decreases nodes.len(),
{
    if nodes.len() > 0 {
        assert forall|j: int| 0 <= j < nodes.drop_last().len() implies !in_module(#[trigger] nodes.drop_last()[j], m) by {
            assert(nodes.drop_last()[j] == nodes[j]);
        }
        lemma_module_count_zero(nodes.drop_last(), m);
        assert(!in_module(nodes[nodes.len() - 1], m));
    }
}

} // verus!
