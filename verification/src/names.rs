//! Names derived from a plugin's full type path: the short label, the module it is
//! defined in and the crate it comes from.

use vstd::prelude::*;
use vstd::string::*;
use crate::text::{
    char_is_alphanumeric, chars_of, is_alphanumeric_char, opt_view, push_char, push_range,
    string_of_range,
};

verus! {

/// Characters that belong to a path segment: alphanumerics, `_` and `:`.
pub open spec fn is_ident_char(c: char) -> bool {
    is_alphanumeric_char(c) || c == '_' || c == ':'
}

/// Characters that end the leading path of a type name.
pub open spec fn is_head_stop(c: char) -> bool {
    c == '<' || c == '>' || c == ' ' || c == '&' || c == '(' || c == ','
}

/// Length of the longest prefix of `s` made of path characters.
pub open spec fn ident_run(s: Seq<char>) -> nat
    decreases s.len(),
{
    if s.len() > 0 && is_ident_char(s[0]) {
        1 + ident_run(s.drop_first())
    } else {
        0
    }
}

/// Length of the longest prefix of `s` that holds no character of `is_head_stop`.
pub open spec fn head_len(s: Seq<char>) -> nat
    decreases s.len(),
{
    if s.len() > 0 && !is_head_stop(s[0]) {
        1 + head_len(s.drop_first())
    } else {
        0
    }
}

/// The leading path of a type name: everything before its first generic bracket,
/// space, reference, tuple or comma.
pub open spec fn head(s: Seq<char>) -> Seq<char> {
    s.take(head_len(s) as int)
}

/// Start of the last `::` in `s`, or -1 if there is none.
pub open spec fn last_sep(s: Seq<char>) -> int
    decreases s.len(),
{
    if s.len() < 2 {
        -1
    } else if s[s.len() - 2] == ':' && s[s.len() - 1] == ':' {
        s.len() - 2
    } else {
        last_sep(s.drop_last())
    }
}

/// Start of the first `::` in `s`, or -1 if there is none.
pub open spec fn first_sep(s: Seq<char>) -> int
    decreases s.len(),
{
    if s.len() < 2 {
        -1
    } else if s[0] == ':' && s[1] == ':' {
        0
    } else {
        let r = first_sep(s.drop_first());
        if r < 0 {
            -1
        } else {
            r + 1
        }
    }
}

/// What follows the last `::` of `s`, or all of `s` if it has none.
pub open spec fn last_segment_of(s: Seq<char>) -> Seq<char> {
    let i = last_sep(s);
    if i < 0 {
        s
    } else {
        s.skip(i + 2)
    }
}

/// A run of path characters lies within the string.
pub proof fn lemma_ident_run_bound(s: Seq<char>)
    ensures
        ident_run(s) <= s.len(),
    decreases s.len(),
{
    if s.len() > 0 && is_ident_char(s[0]) {
        lemma_ident_run_bound(s.drop_first());
    }
}

/// A type name with every maximal run of path characters replaced by its last
/// `::` segment; every other character is kept in place.
pub open spec fn short_name_of(s: Seq<char>) -> Seq<char>
    decreases s.len(),
{
    if s.len() == 0 {
        seq![]
    } else {
        let k = ident_run(s);
        if k == 0 {
            seq![s[0]] + short_name_of(s.drop_first())
        } else {
            proof {
                lemma_ident_run_bound(s);
            }
            last_segment_of(s.take(k as int)) + short_name_of(s.skip(k as int))
        }
    }
}

/// The module a type name's leading path is defined in, if it is qualified.
pub open spec fn module_of(s: Seq<char>) -> Option<Seq<char>> {
    let h = head(s);
    let i = last_sep(h);
    if i < 0 {
        None
    } else {
        Some(h.take(i))
    }
}

/// The first segment of a type name's leading path, if it has a non-empty first
/// segment followed by `::` and something after it.
pub open spec fn crate_of(s: Seq<char>) -> Option<Seq<char>> {
    let h = head(s);
    let i = first_sep(h);
    if i < 0 {
        None
    } else if i == 0 || i + 2 == h.len() {
        None
    } else {
        Some(h.take(i))
    }
}

fn char_is_ident(c: char) -> (r: bool)
    ensures
        r == is_ident_char(c),
{
    char_is_alphanumeric(c) || c == '_' || c == ':'
}

fn char_is_head_stop(c: char) -> (r: bool)
    ensures
        r == is_head_stop(c),
{
    c == '<' || c == '>' || c == ' ' || c == '&' || c == '(' || c == ','
}

/// End of the run of path characters that starts at `i`.
fn scan_ident_run(cs: &Vec<char>, i: usize) -> (j: usize)
    requires
        i <= cs@.len(),
    ensures
        i <= j <= cs@.len(),
        j - i == ident_run(cs@.skip(i as int)),
{
    let mut j = i;
    while j < cs.len() && char_is_ident(cs[j])
        invariant
            i <= j <= cs@.len(),
            ident_run(cs@.skip(i as int)) == (j - i) + ident_run(cs@.skip(j as int)),
        decreases cs@.len() - j,
    {
        assert(cs@.skip(j as int).drop_first() =~= cs@.skip(j + 1));
        j += 1;
    }
    j
}

/// Length of the leading path of `cs`.
fn scan_head(cs: &Vec<char>) -> (h: usize)
    ensures
        h == head_len(cs@),
        h <= cs@.len(),
{
    let mut j: usize = 0;
    assert(cs@.skip(0) =~= cs@);
    while j < cs.len() && !char_is_head_stop(cs[j])
        invariant
            j <= cs@.len(),
            head_len(cs@) == j + head_len(cs@.skip(j as int)),
        decreases cs@.len() - j,
    {
        assert(cs@.skip(j as int).drop_first() =~= cs@.skip(j + 1));
        j += 1;
    }
    j
}

/// Position of the last `::` within `cs[lo..hi]`.
fn find_last_sep(cs: &Vec<char>, lo: usize, hi: usize) -> (r: Option<usize>)
    requires
        lo <= hi <= cs@.len(),
    ensures
        match r {
            Some(k) => lo <= k && k + 2 <= hi && last_sep(cs@.subrange(lo as int, hi as int)) == k - lo,
            None => last_sep(cs@.subrange(lo as int, hi as int)) < 0,
        },
{
    let mut h = hi;
    while h - lo >= 2
        invariant
            lo <= h <= hi <= cs@.len(),
            last_sep(cs@.subrange(lo as int, hi as int)) == last_sep(cs@.subrange(lo as int, h as int)),
        decreases h,
    {
        if cs[h - 2] == ':' && cs[h - 1] == ':' {
            return Some(h - 2);
        }
        assert(cs@.subrange(lo as int, h as int).drop_last() =~= cs@.subrange(lo as int, h - 1));
        h -= 1;
    }
    None
}

pub open spec fn shift_sep(r: int, d: int) -> int {
    if r < 0 {
        -1
    } else {
        r + d
    }
}

/// Position of the first `::` within `cs[lo..hi]`.
fn find_first_sep(cs: &Vec<char>, lo: usize, hi: usize) -> (r: Option<usize>)
    requires
        lo <= hi <= cs@.len(),
    ensures
        match r {
            Some(k) => lo <= k && k + 2 <= hi && first_sep(cs@.subrange(lo as int, hi as int)) == k - lo,
            None => first_sep(cs@.subrange(lo as int, hi as int)) < 0,
        },
{
    let mut l = lo;
    while hi - l >= 2
        invariant
            lo <= l <= hi <= cs@.len(),
            first_sep(cs@.subrange(lo as int, hi as int)) == shift_sep(
                first_sep(cs@.subrange(l as int, hi as int)),
                l - lo,
            ),
        decreases hi - l,
    {
        if cs[l] == ':' && cs[l + 1] == ':' {
            return Some(l);
        }
        assert(cs@.subrange(l as int, hi as int).drop_first() =~= cs@.subrange(l + 1, hi as int));
        l += 1;
    }
    None
}

/// What follows the last `::` of `segment`, or all of it.
pub fn last_segment(segment: &str) -> (r: &str)
    ensures
        r@ == last_segment_of(segment@),
{
    let cs = chars_of(segment);
    let n = cs.len();
    assert(cs@.subrange(0, n as int) =~= cs@);
    match find_last_sep(&cs, 0, n) {
        Some(k) => segment.substring_char(k + 2, n),
        None => segment,
    }
}

/// Strip module qualifiers from every path in a type name, leaving generics intact:
/// `a::B<c::D>` becomes `B<D>`.
pub fn short_name(path: &str) -> (r: String)
    ensures
        r@ == short_name_of(path@),
{
    let cs = chars_of(path);
    let n = cs.len();
    let mut out = String::new();
    let mut i: usize = 0;
    assert(cs@.skip(0) =~= cs@);
    assert(out@ + short_name_of(cs@) =~= short_name_of(cs@));
    while i < n
        invariant
            i <= n == cs@.len(),
            short_name_of(cs@) == out@ + short_name_of(cs@.skip(i as int)),
        decreases n - i,
    {
        let j = scan_ident_run(&cs, i);
        let ghost s = cs@.skip(i as int);
        let ghost before = out@;
        if j == i {
            push_char(&mut out, cs[i]);
            assert(s.drop_first() =~= cs@.skip(i + 1));
            assert(short_name_of(s) == seq![s[0]] + short_name_of(cs@.skip(i + 1)));
            assert(before + short_name_of(s) =~= out@ + short_name_of(cs@.skip(i + 1)));
            i += 1;
        } else {
            let start = match find_last_sep(&cs, i, j) {
                Some(k) => k + 2,
                None => i,
            };
            push_range(&mut out, &cs, start, j);
            proof {
                lemma_ident_run_bound(s);
                let k = (j - i) as int;
                assert(s.take(k) =~= cs@.subrange(i as int, j as int));
                assert(s.skip(k) =~= cs@.skip(j as int));
                assert(last_segment_of(cs@.subrange(i as int, j as int)) =~= cs@.subrange(
                    start as int,
                    j as int,
                ));
                assert(short_name_of(s) == cs@.subrange(start as int, j as int) + short_name_of(
                    cs@.skip(j as int),
                ));
                assert(before + short_name_of(s) =~= out@ + short_name_of(cs@.skip(j as int)));
            }
            i = j;
        }
    }
    assert(out@ + short_name_of(cs@.skip(n as int)) =~= out@);
    out
}

/// The module a type is defined in, or `None` for an unqualified name.
pub fn defining_module(path: &str) -> (r: Option<String>)
    ensures
        opt_view(r) == module_of(path@),
{
    let cs = chars_of(path);
    let h = scan_head(&cs);
    assert(head(cs@) =~= cs@.subrange(0, h as int));
    match find_last_sep(&cs, 0, h) {
        Some(k) => {
            let m = string_of_range(&cs, 0, k);
            assert(head(cs@).take(k as int) =~= m@);
            Some(m)
        },
        None => None,
    }
}

/// The crate a type path starts with, or `None` if it has no qualifier.
pub fn crate_name(path: &str) -> (r: Option<String>)
    ensures
        opt_view(r) == crate_of(path@),
{
    let cs = chars_of(path);
    let h = scan_head(&cs);
    assert(head(cs@) =~= cs@.subrange(0, h as int));
    match find_first_sep(&cs, 0, h) {
        Some(k) => {
            if k == 0 || k + 2 == h {
                None
            } else {
                let c = string_of_range(&cs, 0, k);
                assert(head(cs@).take(k as int) =~= c@);
                Some(c)
            }
        },
        None => None,
    }
}

/// `s` holds no `::`.
pub open spec fn has_no_sep(s: Seq<char>) -> bool {
    forall|i: int| 0 <= i < s.len() - 1 ==> !(#[trigger] s[i] == ':' && s[i + 1] == ':')
}

/// The characters of `s` that are not path characters, in order.
pub open spec fn non_path_chars(s: Seq<char>) -> Seq<char>
    decreases s.len(),
{
    if s.len() == 0 {
        seq![]
    } else {
        non_path_chars(s.drop_last()) + (if is_ident_char(s.last()) {
            seq![]
        } else {
            seq![s.last()]
        })
    }
}

proof fn lemma_no_sep_concat(a: Seq<char>, b: Seq<char>)
    requires
        has_no_sep(a),
        has_no_sep(b),
        a.len() == 0 || b.len() == 0 || a.last() != ':' || b[0] != ':',
    ensures
        has_no_sep(a + b),
{
    let c = a + b;
    assert forall|i: int| 0 <= i < c.len() - 1 implies !(#[trigger] c[i] == ':' && c[i + 1] == ':') by {
        if i + 1 < a.len() {
            assert(c[i] == a[i] && c[i + 1] == a[i + 1]);
        } else if i >= a.len() {
            assert(c[i] == b[i - a.len()] && c[i + 1] == b[i + 1 - a.len()]);
        } else {
            assert(c[i] == a.last());
            assert(c[i + 1] == b[0]);
        }
    }
}

proof fn lemma_last_sep_props(s: Seq<char>)
    ensures
        last_sep(s) < 0 ==> has_no_sep(s),
        last_sep(s) >= 0 ==> last_sep(s) + 2 <= s.len() && has_no_sep(s.skip(last_sep(s) + 2)),
    decreases s.len(),
{
    if s.len() < 2 {
    } else if s[s.len() - 2] == ':' && s[s.len() - 1] == ':' {
        assert(s.skip(s.len() as int) =~= Seq::<char>::empty());
    } else {
        let d = s.drop_last();
        lemma_last_sep_props(d);
        let i = last_sep(d);
        if i < 0 {
            assert forall|j: int| 0 <= j < s.len() - 1 implies !(#[trigger] s[j] == ':' && s[j + 1] == ':') by {
                if j + 1 < d.len() {
                    assert(s[j] == d[j] && s[j + 1] == d[j + 1]);
                }
            }
        } else {
            let t = s.skip(i + 2);
            assert(t =~= d.skip(i + 2).push(s.last()));
            assert forall|j: int| 0 <= j < t.len() - 1 implies !(#[trigger] t[j] == ':' && t[j + 1] == ':') by {
                if j + 1 < t.len() - 1 {
                    assert(t[j] == d.skip(i + 2)[j] && t[j + 1] == d.skip(i + 2)[j + 1]);
                } else {
                    assert(t[j] == s[s.len() - 2] && t[j + 1] == s[s.len() - 1]);
                }
            }
        }
    }
}

proof fn lemma_ident_run_props(s: Seq<char>)
    ensures
        ident_run(s) <= s.len(),
        forall|j: int| 0 <= j < ident_run(s) ==> is_ident_char(#[trigger] s[j]),
        ident_run(s) < s.len() ==> !is_ident_char(s[ident_run(s) as int]),
    decreases s.len(),
{
    if s.len() > 0 && is_ident_char(s[0]) {
        lemma_ident_run_props(s.drop_first());
        assert forall|j: int| 0 <= j < ident_run(s) implies is_ident_char(#[trigger] s[j]) by {
            if j > 0 {
                assert(s[j] == s.drop_first()[j - 1]);
            }
        }
        if ident_run(s) < s.len() {
            assert(s[ident_run(s) as int] == s.drop_first()[ident_run(s) - 1]);
        }
    }
}

proof fn lemma_short_name_first(s: Seq<char>)
    requires
        s.len() > 0,
        !is_ident_char(s[0]),
    ensures
        short_name_of(s).len() > 0,
        short_name_of(s)[0] == s[0],
{
    assert(ident_run(s) == 0);
}

/// A short name holds no module qualifier: no `::` is left anywhere in it.
pub proof fn lemma_short_name_unqualified(s: Seq<char>)
    ensures
        has_no_sep(short_name_of(s)),
    decreases s.len(),
{
    if s.len() > 0 {
        let k = ident_run(s);
        lemma_ident_run_props(s);
        if k == 0 {
            lemma_short_name_unqualified(s.drop_first());
            assert(has_no_sep(seq![s[0]]));
            lemma_no_sep_concat(seq![s[0]], short_name_of(s.drop_first()));
        } else {
            let run = s.take(k as int);
            let rest = s.skip(k as int);
            lemma_short_name_unqualified(rest);
            lemma_last_sep_props(run);
            if rest.len() > 0 {
                assert(rest[0] == s[k as int]);
                lemma_short_name_first(rest);
            }
            lemma_no_sep_concat(last_segment_of(run), short_name_of(rest));
        }
    }
}

proof fn lemma_non_path_concat(a: Seq<char>, b: Seq<char>)
    ensures
        non_path_chars(a + b) == non_path_chars(a) + non_path_chars(b),
    decreases b.len(),
{
    if b.len() == 0 {
        assert(a + b =~= a);
    } else {
        lemma_non_path_concat(a, b.drop_last());
        assert((a + b).drop_last() =~= a + b.drop_last());
        assert((a + b).last() == b.last());
    }
}

proof fn lemma_non_path_of_path(s: Seq<char>)
    requires
        forall|j: int| 0 <= j < s.len() ==> is_ident_char(#[trigger] s[j]),
    ensures
        non_path_chars(s) == Seq::<char>::empty(),
    decreases s.len(),
{
    if s.len() > 0 {
        assert forall|j: int| 0 <= j < s.drop_last().len() implies is_ident_char(#[trigger] s.drop_last()[j]) by {
            assert(s.drop_last()[j] == s[j]);
        }
        lemma_non_path_of_path(s.drop_last());
        assert(is_ident_char(s[s.len() - 1]));
        assert(non_path_chars(s) =~= Seq::<char>::empty());
    }
}

/// Shortening leaves every character that is not part of a path in place, in
/// order: generics, references and tuples survive intact.
pub proof fn lemma_short_name_keeps_structure(s: Seq<char>)
    ensures
        non_path_chars(short_name_of(s)) == non_path_chars(s),
    decreases s.len(),
{
    if s.len() > 0 {
        let k = ident_run(s);
        lemma_ident_run_props(s);
        if k == 0 {
            lemma_short_name_keeps_structure(s.drop_first());
            lemma_non_path_concat(seq![s[0]], short_name_of(s.drop_first()));
            lemma_non_path_concat(seq![s[0]], s.drop_first());
            assert(seq![s[0]] + s.drop_first() =~= s);
        } else {
            let run = s.take(k as int);
            let rest = s.skip(k as int);
            lemma_short_name_keeps_structure(rest);
            lemma_last_sep_props(run);
            let seg = last_segment_of(run);
            assert forall|j: int| 0 <= j < run.len() implies is_ident_char(#[trigger] run[j]) by {
                assert(run[j] == s[j]);
            }
            assert forall|j: int| 0 <= j < seg.len() implies is_ident_char(#[trigger] seg[j]) by {
                if last_sep(run) >= 0 {
                    assert(seg[j] == run[j + last_sep(run) + 2]);
                } else {
                    assert(seg[j] == run[j]);
                }
            }
            lemma_non_path_of_path(run);
            lemma_non_path_of_path(seg);
            lemma_non_path_concat(seg, short_name_of(rest));
            lemma_non_path_concat(run, rest);
            assert(run + rest =~= s);
            assert(Seq::<char>::empty() + non_path_chars(rest) =~= non_path_chars(rest));
        }
    }
}

proof fn lemma_no_sep_last_sep(s: Seq<char>)
    requires
        has_no_sep(s),
    ensures
        last_sep(s) < 0,
    decreases s.len(),
{
    if s.len() >= 2 {
        assert(!(s[s.len() - 2] == ':' && s[s.len() - 1] == ':'));
        let d = s.drop_last();
        assert forall|i: int| 0 <= i < d.len() - 1 implies !(#[trigger] d[i] == ':' && d[i + 1] == ':') by {
            assert(d[i] == s[i] && d[i + 1] == s[i + 1]);
        }
        lemma_no_sep_last_sep(d);
    }
}

/// A name with no module qualifier is its own short name.
pub proof fn lemma_short_name_of_unqualified(s: Seq<char>)
    requires
        has_no_sep(s),
    ensures
        short_name_of(s) == s,
    decreases s.len(),
{
    if s.len() > 0 {
        let k = ident_run(s);
        lemma_ident_run_props(s);
        if k == 0 {
            let t = s.drop_first();
            assert forall|i: int| 0 <= i < t.len() - 1 implies !(#[trigger] t[i] == ':' && t[i + 1] == ':') by {
                assert(t[i] == s[i + 1] && t[i + 1] == s[i + 2]);
            }
            lemma_short_name_of_unqualified(t);
            assert(seq![s[0]] + t =~= s);
        } else {
            let run = s.take(k as int);
            let rest = s.skip(k as int);
            assert forall|i: int| 0 <= i < run.len() - 1 implies !(#[trigger] run[i] == ':' && run[i + 1] == ':') by {
                assert(run[i] == s[i] && run[i + 1] == s[i + 1]);
            }
            assert forall|i: int| 0 <= i < rest.len() - 1 implies !(#[trigger] rest[i] == ':' && rest[i + 1] == ':') by {
                assert(rest[i] == s[i + k] && rest[i + 1] == s[i + k + 1]);
            }
            lemma_no_sep_last_sep(run);
            lemma_short_name_of_unqualified(rest);
            assert(run + rest =~= s);
        }
    }
}

/// Shortening is idempotent: the short name of a short name is itself.
pub proof fn lemma_short_name_idempotent(s: Seq<char>)
    ensures
        short_name_of(short_name_of(s)) == short_name_of(s),
{
    lemma_short_name_unqualified(s);
    lemma_short_name_of_unqualified(short_name_of(s));
}

proof fn lemma_last_sep_at(s: Seq<char>)
    ensures
        last_sep(s) >= -1,
        last_sep(s) >= 0 ==> last_sep(s) + 2 <= s.len() && s[last_sep(s)] == ':' && s[last_sep(s) + 1] == ':',
    decreases s.len(),
{
    if s.len() >= 2 && !(s[s.len() - 2] == ':' && s[s.len() - 1] == ':') {
        let d = s.drop_last();
        lemma_last_sep_at(d);
        if last_sep(d) >= 0 {
            assert(s[last_sep(d)] == d[last_sep(d)]);
            assert(s[last_sep(d) + 1] == d[last_sep(d) + 1]);
        }
    }
}

proof fn lemma_last_sep_max(s: Seq<char>, k: int)
    requires
        0 <= k,
        k + 1 < s.len(),
        s[k] == ':',
        s[k + 1] == ':',
    ensures
        k <= last_sep(s),
    decreases s.len(),
{
    if !(s[s.len() - 2] == ':' && s[s.len() - 1] == ':') {
        let d = s.drop_last();
        assert(d[k] == s[k] && d[k + 1] == s[k + 1]);
        lemma_last_sep_max(d, k);
    }
}

proof fn lemma_first_sep_at(s: Seq<char>)
    ensures
        first_sep(s) >= -1,
        first_sep(s) >= 0 ==> first_sep(s) + 2 <= s.len() && s[first_sep(s)] == ':' && s[first_sep(s) + 1] == ':',
    decreases s.len(),
{
    if s.len() >= 2 && !(s[0] == ':' && s[1] == ':') {
        let t = s.drop_first();
        lemma_first_sep_at(t);
        if first_sep(t) >= 0 {
            assert(s[first_sep(t) + 1] == t[first_sep(t)]);
            assert(s[first_sep(t) + 2] == t[first_sep(t) + 1]);
        }
    }
}

proof fn lemma_head_len_props(s: Seq<char>)
    ensures
        head_len(s) <= s.len(),
        forall|j: int| 0 <= j < head_len(s) ==> !is_head_stop(#[trigger] s[j]),
        (forall|j: int| 0 <= j < s.len() ==> !is_head_stop(#[trigger] s[j])) ==> head_len(s) == s.len(),
    decreases s.len(),
{
    if s.len() > 0 && !is_head_stop(s[0]) {
        let t = s.drop_first();
        lemma_head_len_props(t);
        assert forall|j: int| 0 <= j < head_len(s) implies !is_head_stop(#[trigger] s[j]) by {
            if j > 0 {
                assert(s[j] == t[j - 1]);
            }
        }
        if forall|j: int| 0 <= j < s.len() ==> !is_head_stop(#[trigger] s[j]) {
            assert forall|j: int| 0 <= j < t.len() implies !is_head_stop(#[trigger] t[j]) by {
                assert(t[j] == s[j + 1]);
            }
        }
    }
}

proof fn lemma_ident_run_full(s: Seq<char>)
    requires
        forall|j: int| 0 <= j < s.len() ==> is_ident_char(#[trigger] s[j]),
    ensures
        ident_run(s) == s.len(),
    decreases s.len(),
{
    if s.len() > 0 {
        let t = s.drop_first();
        assert forall|j: int| 0 <= j < t.len() implies is_ident_char(#[trigger] t[j]) by {
            assert(t[j] == s[j + 1]);
        }
        lemma_ident_run_full(t);
    }
}

/// A qualified path made only of path characters is its module, `::` and its short
/// name: `a::b::C` is `a::b` followed by `::C`.
pub proof fn lemma_module_and_short_name_rebuild_path(s: Seq<char>)
    requires
        forall|j: int| 0 <= j < s.len() ==> is_ident_char(#[trigger] s[j]) && !is_head_stop(s[j]),
        !has_no_sep(s),
    ensures
        module_of(s) is Some,
        s == module_of(s)->0 + "::"@ + short_name_of(s),
{
    reveal_strlit("::");
    lemma_head_len_props(s);
    assert(head(s) =~= s);
    lemma_ident_run_full(s);
    lemma_last_sep_at(s);
    lemma_last_sep_props(s);
    let i = last_sep(s);
    assert(i >= 0);
    lemma_ident_run_bound(s);
    assert(s.take(s.len() as int) =~= s);
    assert(s.skip(s.len() as int) =~= Seq::<char>::empty());
    assert(short_name_of(s) == last_segment_of(s) + short_name_of(s.skip(s.len() as int)));
    assert(short_name_of(s) =~= s.skip(i + 2));
    assert(s =~= s.take(i) + "::"@ + s.skip(i + 2));
}

/// `s` holds no run of three colons.
pub open spec fn has_no_triple_colon(s: Seq<char>) -> bool {
    forall|i: int| 0 <= i < s.len() - 2 ==> !(#[trigger] s[i] == ':' && s[i + 1] == ':' && s[i + 2] == ':')
}

/// A path that names a crate also names a module, and the module starts with the
/// crate. Without `:::` in the path the module is the crate itself or lies inside
/// it, after `::`.
pub proof fn lemma_crate_heads_module(s: Seq<char>)
    requires
        crate_of(s) is Some,
    ensures
        module_of(s) is Some,
        crate_of(s)->0.len() <= module_of(s)->0.len(),
        module_of(s)->0.take(crate_of(s)->0.len() as int) == crate_of(s)->0,
        has_no_triple_colon(s) ==> (module_of(s)->0 == crate_of(s)->0 || module_of(s)->0.take(
            crate_of(s)->0.len() + 2int,
        ) == crate_of(s)->0 + "::"@),
{
    reveal_strlit("::");
    let h = head(s);
    lemma_head_len_props(s);
    lemma_first_sep_at(h);
    lemma_last_sep_at(h);
    let f = first_sep(h);
    lemma_last_sep_max(h, f);
    let l = last_sep(h);
    let c = h.take(f);
    let m = h.take(l);
    assert(crate_of(s)->0 == c);
    assert(module_of(s)->0 == m);
    assert(m.take(f) =~= c);
    if has_no_triple_colon(s) && l != f {
        if l == f + 1 {
            assert(h[f] == s[f] && h[f + 1] == s[f + 1] && h[f + 2] == s[f + 2]);
            assert(false);
        }
        assert(m.take(f + 2) =~= c + "::"@);
    }
}

} // verus!
