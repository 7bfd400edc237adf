//! What holds of requirements across reading and writing.

use vstd::prelude::*;
use crate::dependency::{folded_name, same_dependency};
use crate::text::{
    CharClass, class_end, class_start, in_class, is_name_char, is_version_char, is_white_space,
    lemma_class_end, lemma_class_end_bounds, lemma_class_start_bounds,
};
use crate::order::{strictly_sorted, lemma_sorted_set, lemma_sorted_set_of_sorted};
use crate::grammar::{
    Requirement, close_bracket, is_op_head, op_len, marker_start, split_commas, trim,
    extra_items, join_commas, parse_requirement, requirement_text, lemma_close_bracket,
    lemma_close_bracket_found, lemma_marker_start, lemma_split_commas_items, lemma_trim,
    lemma_trim_trimmed, lemma_split_join, lemma_join_chars, parse_extras, parse_version,
    parse_markers,
};

verus! {

/// One of the comparison operators that the grammar accepts.
pub open spec fn is_operator(op: Seq<char>) -> bool {
    ||| op.len() == 1 && (op[0] == '<' || op[0] == '>' || op[0] == '^')
    ||| op.len() == 2 && is_op_head(op[0]) && op[1] == '='
    ||| op.len() == 3 && is_op_head(op[0]) && op[1] == '=' && op[2] == '='
}

/// An extra as the grammar yields it: no comma, `]` or line feed inside, and no
/// white space at either end.
pub open spec fn is_extra(x: Seq<char>) -> bool {
    &&& forall|t: int| 0 <= t < x.len() ==> #[trigger] x[t] != ',' && x[t] != ']' && x[t] != '\n'
    &&& x.len() == 0 || (!is_white_space(x[0]) && !is_white_space(x[x.len() - 1]))
}

/// The requirements that reading a string can give.
pub open spec fn well_formed(d: Requirement) -> bool {
    &&& d.name.len() > 0
    &&& forall|t: int| 0 <= t < d.name.len() ==> is_name_char(#[trigger] d.name[t])
    &&& strictly_sorted(d.extras)
    &&& forall|k: int| 0 <= k < d.extras.len() ==> is_extra(#[trigger] d.extras[k])
    &&& match d.version_spec {
        Some(vs) => {
            &&& is_operator(vs.0)
            &&& vs.1.len() > 0
            &&& forall|t: int| 0 <= t < vs.1.len() ==> is_version_char(#[trigger] vs.1[t])
            &&& !is_white_space(vs.1[0])
        },
        None => true,
    }
    &&& match d.markers {
        Some(m) => {
            &&& m.len() > 0
            &&& forall|t: int| 0 <= t < m.len() ==> #[trigger] m[t] != '\n'
            &&& (m.len() == 1 || !is_white_space(m[0]))
        },
        None => true,
    }
}

/// Every requirement that reading a string gives is well formed.
pub proof fn lemma_parsed_well_formed(s: Seq<char>)
    requires
        parse_requirement(s) is Some,
    ensures
        well_formed(parse_requirement(s)->0),
{
    let d = parse_requirement(s)->0;
    let n = class_end(s, 0, CharClass::Name);
    lemma_class_end_bounds(s, 0, CharClass::Name);
    assert forall|t: int| 0 <= t < d.name.len() implies is_name_char(#[trigger] d.name[t]) by {
        assert(d.name[t] == s[t]);
        assert(in_class(CharClass::Name, s[t]));
    }
    let has_extras = n < s.len() && s[n] == '[' && close_bracket(s, n + 1) is Some;
    if has_extras {
        let q = close_bracket(s, n + 1)->0;
        lemma_close_bracket_found(s, n + 1);
        let raw = s.subrange(n + 1, q);
        let parts = split_commas(raw);
        let items = extra_items(raw);
        lemma_split_commas_items(raw);
        lemma_sorted_set(items);
        assert forall|k: int| 0 <= k < d.extras.len() implies is_extra(#[trigger] d.extras[k]) by {
            let x = d.extras[k];
            assert(d.extras.to_set().contains(x)) by {
                assert(d.extras.contains(x));
            }
            assert(items.contains(x));
            let j = choose|j: int| 0 <= j < items.len() && items[j] == x;
            assert(x == trim(parts[j]));
            lemma_trim(parts[j]);
            assert forall|t: int| 0 <= t < x.len() implies #[trigger] x[t] != ',' && x[t] != ']'
                && x[t] != '\n' by {
                assert(parts[j].contains(x[t]));
                let u = choose|u: int| 0 <= u < parts[j].len() && parts[j][u] == x[t];
                assert(parts[j][u] != ',' && raw.contains(parts[j][u]));
                let v = choose|v: int| 0 <= v < raw.len() && raw[v] == parts[j][u];
                assert(raw[v] == s[v + n + 1]);
            }
        }
    } else {
        assert(d.extras =~= Seq::<Seq<char>>::empty());
    }
    let p1 = if has_extras {
        close_bracket(s, n + 1)->0 + 1
    } else {
        n
    };
    let w = class_end(s, p1, CharClass::Space);
    let ol = op_len(s, w);
    let v0 = class_end(s, w + ol, CharClass::Space);
    let v1 = class_end(s, v0, CharClass::Version);
    if ol > 0 && v1 > v0 {
        lemma_class_end_bounds(s, p1, CharClass::Space);
        lemma_class_end_bounds(s, w + ol, CharClass::Space);
        lemma_class_end_bounds(s, v0, CharClass::Version);
        let vs = d.version_spec->0;
        assert(vs.0 == s.subrange(w, w + ol));
        assert(is_operator(vs.0));
        assert forall|t: int| 0 <= t < vs.1.len() implies is_version_char(#[trigger] vs.1[t]) by {
            assert(vs.1[t] == s[v0 + t]);
            assert(in_class(CharClass::Version, s[v0 + t]));
        }
        assert(vs.1[0] == s[v0]);
    }
    let p2 = if ol > 0 && v1 > v0 {
        v1
    } else {
        p1
    };
    lemma_class_end_bounds(s, w, CharClass::Space);
    lemma_class_end_bounds(s, p1, CharClass::Space);
    lemma_class_end_bounds(s, w + ol, CharClass::Space);
    lemma_class_end_bounds(s, v0, CharClass::Version);
    let w2 = class_end(s, p2, CharClass::Space);
    lemma_class_end_bounds(s, p2, CharClass::Space);
    if w2 < s.len() && s[w2] == ';' {
        let e = class_end(s, w2 + 1, CharClass::Space);
        if marker_start(s, w2 + 1, e) is Some {
            let m = marker_start(s, w2 + 1, e)->0;
            lemma_marker_start(s, w2 + 1, e);
            lemma_class_end_bounds(s, m, CharClass::Line);
            lemma_class_end_bounds(s, w2 + 1, CharClass::Space);
            let le = class_end(s, m, CharClass::Line);
            let mk = d.markers->0;
            assert(mk == s.subrange(m, le));
            assert forall|t: int| 0 <= t < mk.len() implies #[trigger] mk[t] != '\n' by {
                assert(mk[t] == s[m + t]);
                assert(in_class(CharClass::Line, s[m + t]));
            }
            if m < e {
                if m + 1 < s.len() {
                    assert(s[m + 1] == '\n');
                }
                lemma_class_end(s, m, m + 1, CharClass::Line);
            } else {
                assert(mk[0] == s[m]);
            }
        }
    }
}

/// The text of extras `e` placed at `n`, or nothing there when `e` is empty.
pub open spec fn extras_text(e: Seq<Seq<char>>) -> Seq<char> {
    if e.len() > 0 {
        seq!['['] + join_commas(e) + seq![']']
    } else {
        Seq::empty()
    }
}

pub open spec fn version_text(vs: Option<(Seq<char>, Seq<char>)>) -> Seq<char> {
    match vs {
        Some(vs) => vs.0 + vs.1,
        None => Seq::empty(),
    }
}

pub open spec fn markers_text(m: Option<Seq<char>>) -> Seq<char> {
    match m {
        Some(m) => seq![';', ' '] + m,
        None => Seq::empty(),
    }
}

proof fn lemma_extras_back(t: Seq<char>, n: int, e: Seq<Seq<char>>)
    requires
        0 <= n,
        n + extras_text(e).len() <= t.len(),
        t.subrange(n, n + extras_text(e).len()) == extras_text(e),
        e.len() == 0 ==> n == t.len() || t[n] != '[',
        strictly_sorted(e),
        forall|k: int| 0 <= k < e.len() ==> is_extra(#[trigger] e[k]),
    ensures
        parse_extras(t, n) == (e, n + extras_text(e).len()),
{
    let x = extras_text(e);
    if e.len() > 0 {
        let j = join_commas(e);
        let q = n + 1 + j.len();
        assert forall|i: int| 0 <= i < x.len() implies #[trigger] t[n + i] == x[i] by {
            assert(t.subrange(n, n + x.len())[i] == x[i]);
        }
        assert(t[n] == x[0]);
        assert forall|k: int, i: int| 0 <= k < e.len() && 0 <= i < e[k].len() implies #[trigger] e[k][i] != ']' && e[k][i] != '\n' && e[k][i] != ',' by {
            assert(is_extra(e[k]));
        }
        lemma_join_chars(e, ']');
        lemma_join_chars(e, '\n');
        assert forall|i: int| n + 1 <= i < q implies t[i] != ']' && t[i] != '\n' by {
            assert(t[n + (i - n)] == x[i - n]);
            assert(x[i - n] == j[i - n - 1]);
        }
        assert(t[n + (j.len() + 1)] == x[j.len() as int + 1]);
        lemma_close_bracket(t, n + 1, q);
        assert forall|i: int| 0 <= i < j.len() implies #[trigger] t.subrange(n + 1, q)[i] == j[i] by {
            assert(t[n + (i + 1)] == x[i + 1]);
        }
        assert(t.subrange(n + 1, q) =~= j);
        lemma_split_join(e);
        assert forall|k: int| 0 <= k < e.len() implies #[trigger] extra_items(j)[k] == e[k] by {
            assert(is_extra(e[k]));
            lemma_trim_trimmed(e[k]);
        }
        assert(extra_items(j) =~= e);
        lemma_sorted_set_of_sorted(e);
    }
}

proof fn lemma_version_back(t: Seq<char>, p: int, vs: Option<(Seq<char>, Seq<char>)>)
    requires
        0 <= p,
        p + version_text(vs).len() <= t.len(),
        t.subrange(p, p + version_text(vs).len()) == version_text(vs),
        p + version_text(vs).len() == t.len() || t[p + version_text(vs).len()] == ';',
        match vs {
            Some(vs) => {
                &&& is_operator(vs.0)
                &&& vs.1.len() > 0
                &&& forall|i: int| 0 <= i < vs.1.len() ==> is_version_char(#[trigger] vs.1[i])
                &&& !is_white_space(vs.1[0])
            },
            None => true,
        },
    ensures
        parse_version(t, p) == (vs, p + version_text(vs).len()),
{
    let v = version_text(vs);
    let p2 = p + v.len();
    assert forall|i: int| 0 <= i < v.len() implies #[trigger] t[p + i] == v[i] by {
        assert(t.subrange(p, p2)[i] == v[i]);
    }
    match vs {
        Some(vs) => {
            let op = vs.0;
            let ver = vs.1;
            let a = p + op.len();
            assert(t[p + 0] == v[0]);
            lemma_class_end(t, p, p, CharClass::Space);
            assert(t[p + op.len()] == v[op.len() as int]);
            assert(t[a] == ver[0]);
            assert(t[a] != '=') by {
                assert(is_version_char(ver[0]));
            }
            if op.len() > 1 {
                assert(t[p + 1] == v[1]);
            }
            if op.len() > 2 {
                assert(t[p + 2] == v[2]);
            }
            assert(op_len(t, p) == op.len());
            lemma_class_end(t, a, a, CharClass::Space);
            assert forall|i: int| a <= i < p2 implies in_class(CharClass::Version, #[trigger] t[i]) by {
                assert(t[p + (i - p)] == v[i - p]);
            }
            lemma_class_end(t, a, p2, CharClass::Version);
            assert(t.subrange(p, a) =~= op);
            assert forall|i: int| 0 <= i < ver.len() implies #[trigger] t.subrange(a, p2)[i] == ver[i] by {
                assert(t[p + (op.len() + i)] == v[op.len() + i]);
            }
            assert(t.subrange(a, p2) =~= ver);
        },
        None => {
            lemma_class_end(t, p, p, CharClass::Space);
            assert(op_len(t, p) == 0);
        },
    }
}

proof fn lemma_markers_back(t: Seq<char>, p: int, mk: Option<Seq<char>>)
    requires
        0 <= p,
        t.len() == p + markers_text(mk).len(),
        t.subrange(p, t.len() as int) == markers_text(mk),
        match mk {
            Some(m) => {
                &&& m.len() > 0
                &&& forall|i: int| 0 <= i < m.len() ==> #[trigger] m[i] != '\n'
                &&& (m.len() == 1 || !is_white_space(m[0]))
            },
            None => true,
        },
    ensures
        parse_markers(t, p) == mk,
{
    match mk {
        Some(m) => {
            let x = markers_text(mk);
            assert forall|i: int| 0 <= i < x.len() implies #[trigger] t[p + i] == x[i] by {
                assert(t.subrange(p, t.len() as int)[i] == x[i]);
            }
            assert(t[p + 0] == ';');
            assert(t[p + 1] == ' ');
            lemma_class_end(t, p, p, CharClass::Space);
            let b = p + 2;
            assert forall|i: int| b <= i < t.len() implies in_class(CharClass::Line, #[trigger] t[i]) by {
                assert(t[p + (i - p)] == x[i - p]);
                assert(x[i - p] == m[i - b]);
            }
            assert(t[p + 2] == m[0]);
            if is_white_space(m[0]) {
                lemma_class_end(t, p + 1, t.len() as int, CharClass::Space);
                assert(marker_start(t, p + 1, b) == Some(b));
            } else {
                lemma_class_end(t, p + 1, b, CharClass::Space);
            }
            lemma_class_end(t, b, t.len() as int, CharClass::Line);
            assert forall|i: int| 0 <= i < m.len() implies #[trigger] t.subrange(b, t.len() as int)[i] == m[i] by {
                assert(t[p + (2 + i)] == x[2 + i]);
            }
            assert(t.subrange(b, t.len() as int) =~= m);
        },
        None => {
            lemma_class_end(t, p, p, CharClass::Space);
        },
    }
}

/// A well-formed requirement, written out, reads back as itself.
pub proof fn lemma_text_parses_back(d: Requirement)
    requires
        well_formed(d),
    ensures
        parse_requirement(requirement_text(d)) == Some(d),
{
    let t = requirement_text(d);
    let name = d.name;
    let x = extras_text(d.extras);
    let v = version_text(d.version_spec);
    let m = markers_text(d.markers);
    assert(t =~= name + x + v + m);
    let n = name.len() as int;
    let p1 = n + x.len();
    let p2 = p1 + v.len();
    assert(t.len() == p2 + m.len());
    assert forall|i: int| 0 <= i < n implies in_class(CharClass::Name, #[trigger] t[i]) by {
        assert(t[i] == name[i]);
    }
    if n < t.len() {
        if x.len() > 0 {
            assert(t[n] == x[0]);
        } else if v.len() > 0 {
            assert(t[n] == v[0]);
            assert(v[0] == (d.version_spec->0).0[0]);
        } else {
            assert(t[n] == m[0]);
        }
    }
    lemma_class_end(t, 0, n, CharClass::Name);
    assert(t.subrange(0, n) =~= name);
    assert(t.subrange(n, p1) =~= x);
    lemma_extras_back(t, n, d.extras);
    assert(t.subrange(p1, p2) =~= v);
    if p2 < t.len() {
        assert(t[p2] == m[0]);
    }
    lemma_version_back(t, p1, d.version_spec);
    assert(t.subrange(p2, t.len() as int) =~= m);
    lemma_markers_back(t, p2, d.markers);
}

/// Writing out what was read and reading it again gives the same requirement.
pub proof fn lemma_parse_text_roundtrip(s: Seq<char>)
    requires
        parse_requirement(s) is Some,
    ensures
        parse_requirement(requirement_text(parse_requirement(s)->0)) == parse_requirement(s),
{
    lemma_parsed_well_formed(s);
    lemma_text_parses_back(parse_requirement(s)->0);
}

/// Being the same dependency (names equal up to case) is an equivalence.
pub proof fn lemma_same_dependency_equivalence(a: Requirement, b: Requirement, c: Requirement)
    ensures
        same_dependency(a, a),
        same_dependency(a, b) ==> same_dependency(b, a),
        same_dependency(a, b) && same_dependency(b, c) ==> same_dependency(a, c),
{
}

/// Pinning a dependency to a version `v` that the grammar reads whole gives
/// `name~=v`; without a version, the bare name.
pub proof fn lemma_pinned_requirement(d: Requirement, v: Seq<char>)
    requires
        well_formed(d),
        v.len() == 0 || (!is_white_space(v[0]) && forall|t: int| 0 <= t < v.len() ==> is_version_char(#[trigger] v[t])),
    ensures
        parse_requirement(crate::engine::resolver::resolved_text(d.name, v)) == Some(Requirement {
            name: d.name,
            extras: Seq::empty(),
            version_spec: if v.len() == 0 { None } else { Some((seq!['~', '='], v)) },
            markers: None,
        }),
{
    let p = Requirement {
        name: d.name,
        extras: Seq::empty(),
        version_spec: if v.len() == 0 { None } else { Some((seq!['~', '='], v)) },
        markers: None,
    };
    assert(strictly_sorted(p.extras));
    assert(is_op_head('~'));
    lemma_text_parses_back(p);
    assert(requirement_text(p) =~= crate::engine::resolver::resolved_text(d.name, v));
}

/// The characters a distribution name is made of: ASCII letters and digits,
/// `-`, `_` and `.`.
pub open spec fn distribution_name_char(c: char) -> bool {
    ('A' <= c && c <= 'Z') || ('a' <= c && c <= 'z') || ('0' <= c && c <= '9') || c == '-' || c
        == '_' || c == '.'
}

/// A requirement reads exactly when the string starts with an ASCII letter or
/// digit, `-`, `_` or `.`; its name is then the longest prefix made of those
/// characters.
pub proof fn lemma_name_is_longest_prefix(s: Seq<char>)
    ensures
        parse_requirement(s) is Some <==> (s.len() > 0 && distribution_name_char(s[0])),
        parse_requirement(s) matches Some(d) ==> {
            &&& 0 < d.name.len() <= s.len()
            &&& d.name == s.subrange(0, d.name.len() as int)
            &&& forall|i: int| 0 <= i < d.name.len() ==> distribution_name_char(#[trigger] d.name[i])
            &&& d.name.len() == s.len() || !distribution_name_char(s[d.name.len() as int])
        },
{
    lemma_class_end_bounds(s, 0, CharClass::Name);
    let n = class_end(s, 0, CharClass::Name);
    if s.len() > 0 && distribution_name_char(s[0]) {
        assert(in_class(CharClass::Name, s[0]));
        lemma_class_end_bounds(s, 1, CharClass::Name);
    }
    if parse_requirement(s) is Some {
        let d = parse_requirement(s)->0;
        assert(d.name == s.subrange(0, n));
        assert forall|i: int| 0 <= i < d.name.len() implies distribution_name_char(#[trigger] d.name[i]) by {
            assert(d.name[i] == s[i]);
            assert(in_class(CharClass::Name, s[i]));
        }
        if n < s.len() {
            assert(!in_class(CharClass::Name, s[n]));
        }
    }
}

/// A non-empty string made only of name characters reads as a requirement
/// with exactly that name, and nothing else.
pub proof fn lemma_bare_name_reads_whole(s: Seq<char>)
    requires
        s.len() > 0,
        forall|i: int| 0 <= i < s.len() ==> distribution_name_char(#[trigger] s[i]),
    ensures
        parse_requirement(s) == Some(
            Requirement { name: s, extras: Seq::empty(), version_spec: None, markers: None },
        ),
{
    assert forall|i: int| 0 <= i < s.len() implies in_class(CharClass::Name, #[trigger] s[i]) by {
        assert(distribution_name_char(s[i]));
    }
    let n = s.len() as int;
    lemma_class_end(s, 0, n, CharClass::Name);
    lemma_class_end(s, n, n, CharClass::Space);
    assert(s.subrange(0, n) =~= s);
    assert(parse_extras(s, n) == (Seq::<Seq<char>>::empty(), n));
    assert(op_len(s, n) == 0);
    assert(parse_version(s, n) == (Option::<(Seq<char>, Seq<char>)>::None, n));
    assert(parse_markers(s, n) is None);
}

/// The characters of a version that every reading accepts: ASCII letters
/// and digits, `-`, `_` and `.`.
pub open spec fn plain_version_char(c: char) -> bool {
    ('A' <= c && c <= 'Z') || ('a' <= c && c <= 'z') || ('0' <= c && c <= '9') || c == '-' || c
        == '_' || c == '.'
}

/// Blanks between the name and the operator, and between the operator and
/// the version, are skipped: `name op version`, with any spaces or tabs
/// around `op`, reads as the name with that operator and version.
pub proof fn lemma_version_after_blanks(
    n: Seq<char>,
    ws1: Seq<char>,
    op: Seq<char>,
    ws2: Seq<char>,
    v: Seq<char>,
)
    requires
        n.len() > 0,
        forall|t: int| 0 <= t < n.len() ==> distribution_name_char(#[trigger] n[t]),
        blanks(ws1),
        blanks(ws2),
        is_operator(op),
        v.len() > 0,
        forall|t: int| 0 <= t < v.len() ==> plain_version_char(#[trigger] v[t]),
    ensures
        parse_requirement(n + ws1 + op + ws2 + v) == Some(
            Requirement { name: n, extras: Seq::empty(), version_spec: Some((op, v)), markers: None },
        ),
{
    let s = n + ws1 + op + ws2 + v;
    let a: int = (n.len() + ws1.len()) as int;
    let b: int = a + op.len();
    let c: int = b + ws2.len();
    let e = s.len() as int;
    assert(e == c + v.len());
    assert forall|t: int| 0 <= t < n.len() implies in_class(CharClass::Name, #[trigger] s[t]) by {
        assert(s[t] == n[t]);
        assert(distribution_name_char(n[t]));
    }
    assert forall|t: int| n.len() <= t < a implies in_class(CharClass::Space, #[trigger] s[t]) by {
        assert(s[t] == ws1[t - n.len()]);
    }
    assert forall|t: int| b <= t < c implies in_class(CharClass::Space, #[trigger] s[t]) by {
        assert(s[t] == ws2[t - b]);
    }
    assert forall|t: int| c <= t < e implies in_class(CharClass::Version, #[trigger] s[t]) by {
        assert(s[t] == v[t - c]);
        assert(plain_version_char(v[t - c]));
    }
    assert forall|t: int| 0 <= t < op.len() implies #[trigger] s[a + t] == op[t] by {}
    assert(s[c] == v[0]);
    assert(plain_version_char(v[0]));
    assert(!is_white_space(s[c]) && s[c] != '=');
    assert(s[a] == op[0]);
    assert(!is_name_char(s[a]) && !is_white_space(s[a]));
    if ws1.len() > 0 {
        assert(s[n.len() as int] == ws1[0]);
    }
    assert(!in_class(CharClass::Name, s[n.len() as int]));
    lemma_class_end(s, 0, n.len() as int, CharClass::Name);
    assert(s.subrange(0, n.len() as int) =~= n);
    assert(s[n.len() as int] != '[');
    assert(parse_extras(s, n.len() as int) == (Seq::<Seq<char>>::empty(), n.len() as int));
    lemma_class_end(s, n.len() as int, a, CharClass::Space);
    if op.len() > 1 {
        assert(s[a + 1] == op[1]);
    }
    if op.len() > 2 {
        assert(s[a + 2] == op[2]);
    }
    if ws2.len() > 0 {
        assert(s[b] == ws2[0]);
    }
    assert(s[b] != '=');
    assert(op_len(s, a) == op.len());
    lemma_class_end(s, b, c, CharClass::Space);
    lemma_class_end(s, c, e, CharClass::Version);
    assert(s.subrange(a, b) =~= op);
    assert(s.subrange(c, e) =~= v);
    assert(parse_version(s, n.len() as int) == (Option::Some((op, v)), e));
    lemma_class_end(s, e, e, CharClass::Space);
    assert(parse_markers(s, e) is None);
}

/// Markers follow a `;`, with blanks around it skipped: `name ; markers`
/// reads as the name with the rest of the line, from its first non-blank
/// character, as markers.
pub proof fn lemma_markers_after_semicolon(n: Seq<char>, ws1: Seq<char>, ws2: Seq<char>, m: Seq<char>)
    requires
        n.len() > 0,
        forall|t: int| 0 <= t < n.len() ==> distribution_name_char(#[trigger] n[t]),
        blanks(ws1),
        blanks(ws2),
        m.len() > 0,
        '!' <= m[0] && m[0] <= '~',
        forall|t: int| 0 <= t < m.len() ==> #[trigger] m[t] != '\n',
    ensures
        parse_requirement(n + ws1 + seq![';'] + ws2 + m) == Some(
            Requirement { name: n, extras: Seq::empty(), version_spec: None, markers: Some(m) },
        ),
{
    let s = n + ws1 + seq![';'] + ws2 + m;
    let a: int = (n.len() + ws1.len()) as int;
    let c: int = a + 1 + ws2.len();
    let e = s.len() as int;
    assert(e == c + m.len());
    assert forall|t: int| 0 <= t < n.len() implies in_class(CharClass::Name, #[trigger] s[t]) by {
        assert(s[t] == n[t]);
        assert(distribution_name_char(n[t]));
    }
    assert forall|t: int| n.len() <= t < a implies in_class(CharClass::Space, #[trigger] s[t]) by {
        assert(s[t] == ws1[t - n.len()]);
    }
    assert forall|t: int| a + 1 <= t < c implies in_class(CharClass::Space, #[trigger] s[t]) by {
        assert(s[t] == ws2[t - a - 1]);
    }
    assert forall|t: int| c <= t < e implies in_class(CharClass::Line, #[trigger] s[t]) by {
        assert(s[t] == m[t - c]);
    }
    assert(s[a] == ';');
    assert(s[c] == m[0]);
    assert(!is_white_space(s[c]));
    if ws1.len() > 0 {
        assert(s[n.len() as int] == ws1[0]);
    }
    assert(!in_class(CharClass::Name, s[n.len() as int]));
    lemma_class_end(s, 0, n.len() as int, CharClass::Name);
    assert(s.subrange(0, n.len() as int) =~= n);
    assert(s[n.len() as int] != '[');
    assert(parse_extras(s, n.len() as int) == (Seq::<Seq<char>>::empty(), n.len() as int));
    lemma_class_end(s, n.len() as int, a, CharClass::Space);
    assert(op_len(s, a) == 0);
    assert(parse_version(s, n.len() as int) == (Option::<(Seq<char>, Seq<char>)>::None, n.len() as int));
    lemma_class_end(s, a + 1, c, CharClass::Space);
    assert(marker_start(s, a + 1, c) == Some(c));
    lemma_class_end(s, c, e, CharClass::Line);
    assert(s.subrange(c, e) =~= m);
}

/// Only spaces and tabs.
pub open spec fn blanks(w: Seq<char>) -> bool {
    forall|t: int| 0 <= t < w.len() ==> #[trigger] w[t] == ' ' || w[t] == '\t'
}

/// A name padded with blanks trims to the name.
proof fn lemma_trim_padded(w1: Seq<char>, a: Seq<char>, w2: Seq<char>)
    requires
        blanks(w1),
        blanks(w2),
        a.len() > 0,
        forall|t: int| 0 <= t < a.len() ==> distribution_name_char(#[trigger] a[t]),
    ensures
        trim(w1 + a + w2) == a,
{
    let x = w1 + a + w2;
    let p = w1.len() as int;
    let q = p + a.len();
    assert forall|t: int| 0 <= t < p implies in_class(CharClass::Space, #[trigger] x[t]) by {
        assert(x[t] == w1[t]);
    }
    assert(x[p] == a[0]);
    assert(distribution_name_char(a[0]));
    lemma_class_end(x, 0, p, CharClass::Space);
    lemma_class_start_bounds(x, x.len() as int, CharClass::Space);
    let j = class_start(x, x.len() as int, CharClass::Space);
    assert(x[q - 1] == a[a.len() - 1]);
    assert(distribution_name_char(a[a.len() - 1]));
    if j < q {
        assert(in_class(CharClass::Space, x[q - 1]));
    }
    if j > q {
        assert(x[j - 1] == w2[j - 1 - q]);
    }
    assert(j == q);
    assert(x.subrange(p, q) =~= a);
}

/// Two comma-free strings joined by a comma split back into the two.
proof fn lemma_split_pair(p: Seq<char>, q: Seq<char>)
    requires
        forall|t: int| 0 <= t < p.len() ==> #[trigger] p[t] != ',',
        forall|t: int| 0 <= t < q.len() ==> #[trigger] q[t] != ',',
    ensures
        split_commas(p + seq![','] + q) == seq![p, q],
{
    let x = p + seq![','] + q;
    let n = p.len() as int;
    assert forall|t: int| 0 <= t < n implies in_class(CharClass::Item, #[trigger] x[t]) by {
        assert(x[t] == p[t]);
    }
    assert(x[n] == ',');
    lemma_class_end(x, 0, n, CharClass::Item);
    assert(x.subrange(0, n) =~= p);
    assert(x.subrange(n + 1, x.len() as int) =~= q);
    assert forall|t: int| 0 <= t < q.len() implies in_class(CharClass::Item, #[trigger] q[t]) by {}
    lemma_class_end(q, 0, q.len() as int, CharClass::Item);
    assert(split_commas(q) == seq![q]);
    assert(seq![p] + seq![q] =~= seq![p, q]);
}

/// Extras are read as a set, each with the blanks around it dropped, and
/// held sorted: `name[ a , b ]` has exactly the extras `a` and `b`.
pub proof fn lemma_extras_as_set(
    n: Seq<char>,
    w1: Seq<char>,
    a: Seq<char>,
    w2: Seq<char>,
    w3: Seq<char>,
    b: Seq<char>,
    w4: Seq<char>,
)
    requires
        n.len() > 0,
        forall|t: int| 0 <= t < n.len() ==> distribution_name_char(#[trigger] n[t]),
        a.len() > 0,
        forall|t: int| 0 <= t < a.len() ==> distribution_name_char(#[trigger] a[t]),
        b.len() > 0,
        forall|t: int| 0 <= t < b.len() ==> distribution_name_char(#[trigger] b[t]),
        blanks(w1),
        blanks(w2),
        blanks(w3),
        blanks(w4),
    ensures
        ({
            let s = n + seq!['['] + w1 + a + w2 + seq![','] + w3 + b + w4 + seq![']'];
            &&& parse_requirement(s) is Some
            &&& parse_requirement(s)->0.name == n
            &&& parse_requirement(s)->0.extras.to_set() == set![a, b]
            &&& strictly_sorted(parse_requirement(s)->0.extras)
            &&& parse_requirement(s)->0.version_spec is None
            &&& parse_requirement(s)->0.markers is None
        }),
{
    let p = w1 + a + w2;
    let q = w3 + b + w4;
    let raw = p + seq![','] + q;
    let s = n + seq!['['] + w1 + a + w2 + seq![','] + w3 + b + w4 + seq![']'];
    let k = n.len() as int;
    let close = k + 1 + raw.len();
    assert(s =~= n + seq!['['] + raw + seq![']']);
    assert(s.len() == close + 1);
    assert forall|t: int| 0 <= t < p.len() implies #[trigger] p[t] != ',' && p[t] != ']' && p[t] != '\n' by {
        if t < w1.len() {
            assert(p[t] == w1[t]);
        } else if t < w1.len() + a.len() {
            assert(p[t] == a[t - w1.len()]);
            assert(distribution_name_char(a[t - w1.len()]));
        } else {
            assert(p[t] == w2[t - w1.len() - a.len()]);
        }
    }
    assert forall|t: int| 0 <= t < q.len() implies #[trigger] q[t] != ',' && q[t] != ']' && q[t] != '\n' by {
        if t < w3.len() {
            assert(q[t] == w3[t]);
        } else if t < w3.len() + b.len() {
            assert(q[t] == b[t - w3.len()]);
            assert(distribution_name_char(b[t - w3.len()]));
        } else {
            assert(q[t] == w4[t - w3.len() - b.len()]);
        }
    }
    assert forall|t: int| 0 <= t < raw.len() implies #[trigger] raw[t] != ']' && raw[t] != '\n' by {
        if t < p.len() {
            assert(raw[t] == p[t]);
        } else if t > p.len() {
            assert(raw[t] == q[t - p.len() - 1]);
        }
    }
    assert forall|t: int| 0 <= t < k implies in_class(CharClass::Name, #[trigger] s[t]) by {
        assert(s[t] == n[t]);
        assert(distribution_name_char(n[t]));
    }
    assert(s[k] == '[');
    lemma_class_end(s, 0, k, CharClass::Name);
    assert(s.subrange(0, k) =~= n);
    assert forall|t: int| k + 1 <= t < close implies s[t] != ']' && s[t] != '\n' by {
        assert(s[t] == raw[t - k - 1]);
    }
    assert(s[close] == ']');
    lemma_close_bracket(s, k + 1, close);
    assert(s.subrange(k + 1, close) =~= raw);
    lemma_split_pair(p, q);
    lemma_trim_padded(w1, a, w2);
    lemma_trim_padded(w3, b, w4);
    assert(extra_items(raw) =~= seq![a, b]);
    lemma_sorted_set(seq![a, b]);
    assert(seq![a, b].to_set() =~= set![a, b]) by {
        assert(seq![a, b][0] == a);
        assert(seq![a, b][1] == b);
    }
    let e = close + 1;
    lemma_class_end(s, e, e, CharClass::Space);
    assert(op_len(s, e) == 0);
    assert(parse_version(s, e) == (Option::<(Seq<char>, Seq<char>)>::None, e));
    assert(parse_markers(s, e) is None);
}

/// Two characters that are equal, or the capital and small form of one ASCII
/// letter.
pub open spec fn same_up_to_case(x: char, y: char) -> bool {
    ||| x == y
    ||| 'A' <= x && x <= 'Z' && (y as int) == (x as int) + 32
    ||| 'A' <= y && y <= 'Z' && (x as int) == (y as int) + 32
}

/// Two requirements are the same dependency exactly when their names have
/// the same length and agree at each place up to the case of ASCII letters.
pub proof fn lemma_same_dependency_up_to_case(a: Requirement, b: Requirement)
    ensures
        same_dependency(a, b) <==> a.name.len() == b.name.len() && forall|i: int|
            0 <= i < a.name.len() ==> same_up_to_case(#[trigger] a.name[i], b.name[i]),
{
    let fa = folded_name(a.name);
    let fb = folded_name(b.name);
    if same_dependency(a, b) {
        assert(fa.len() == fb.len());
        assert forall|i: int| 0 <= i < a.name.len() implies same_up_to_case(
            #[trigger] a.name[i],
            b.name[i],
        ) by {
            assert(fa[i] == fb[i]);
        }
    }
    if a.name.len() == b.name.len() && forall|i: int|
        0 <= i < a.name.len() ==> same_up_to_case(#[trigger] a.name[i], b.name[i]) {
        assert forall|i: int| 0 <= i < fa.len() implies fa[i] == fb[i] by {
            assert(same_up_to_case(a.name[i], b.name[i]));
        }
        assert(fa =~= fb);
    }
}

} // verus!
