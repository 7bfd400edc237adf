//! The grammar of a requirement string, `name[extras] <op> version; markers`,
//! as a function on characters.

use vstd::prelude::*;
use crate::text::{
    CharClass, class_end, class_start, in_class, is_white_space, lemma_class_end,
    lemma_class_end_bounds, lemma_class_start_bounds,
};
use crate::order::sorted_set;

verus! {

/// The abstract value of a requirement.
pub struct Requirement {
    pub name: Seq<char>,
    /// Strictly sorted, so each extra occurs once.
    pub extras: Seq<Seq<char>>,
    /// The comparison operator and the version.
    pub version_spec: Option<(Seq<char>, Seq<char>)>,
    pub markers: Option<Seq<char>>,
}

/// The first `]` at or after `i`, provided no line feed comes before it.
pub open spec fn close_bracket(s: Seq<char>, i: int) -> Option<int>
    decreases s.len() - i,
{
    if i < 0 || i >= s.len() {
        None
    } else if s[i] == ']' {
        Some(i)
    } else if s[i] == '\n' {
        None
    } else {
        close_bracket(s, i + 1)
    }
}

pub open spec fn is_op_head(c: char) -> bool {
    c == '~' || c == '=' || c == '<' || c == '>' || c == '!'
}

/// The length of the comparison operator at `i`, 0 where there is none:
/// `[~=<>!]={1,2}`, else `[<>]`, else `^`.
pub open spec fn op_len(s: Seq<char>, i: int) -> int {
    if 0 <= i && i + 1 < s.len() && is_op_head(s[i]) && s[i + 1] == '=' {
        if i + 2 < s.len() && s[i + 2] == '=' {
            3
        } else {
            2
        }
    } else if 0 <= i < s.len() && (s[i] == '<' || s[i] == '>' || s[i] == '^') {
        1
    } else {
        0
    }
}

/// Where the markers begin after `;`: the last position in `lo..=hi` that holds
/// a character other than a line feed.
pub open spec fn marker_start(s: Seq<char>, lo: int, hi: int) -> Option<int>
    decreases hi - lo + 1,
{
    if hi < lo {
        None
    } else if 0 <= hi < s.len() && s[hi] != '\n' {
        Some(hi)
    } else {
        marker_start(s, lo, hi - 1)
    }
}

/// `s` split at every comma (`str::split(',')`).
pub open spec fn split_commas(s: Seq<char>) -> Seq<Seq<char>>
    decreases s.len(),
{
    let j = class_end(s, 0, CharClass::Item);
    if j < s.len() {
        proof {
            lemma_class_end_bounds(s, 0, CharClass::Item);
        }
        seq![s.subrange(0, j)] + split_commas(s.subrange(j + 1, s.len() as int))
    } else {
        seq![s]
    }
}

/// `s` without its leading and trailing white space (`str::trim`).
pub open spec fn trim(s: Seq<char>) -> Seq<char> {
    let a = class_end(s, 0, CharClass::Space);
    if a >= s.len() {
        Seq::empty()
    } else {
        s.subrange(a, class_start(s, s.len() as int, CharClass::Space))
    }
}

/// The extras named between the brackets.
pub open spec fn extra_items(raw: Seq<char>) -> Seq<Seq<char>> {
    split_commas(raw).map_values(|x: Seq<char>| trim(x))
}

/// The strings of `e` joined with commas (`[String]::join(",")`).
pub open spec fn join_commas(e: Seq<Seq<char>>) -> Seq<char>
    decreases e.len(),
{
    if e.len() == 0 {
        Seq::empty()
    } else if e.len() == 1 {
        e[0]
    } else {
        e[0] + seq![','] + join_commas(e.drop_first())
    }
}

/// The optional `\[(.*?)\]` after the name, which ends at `n`: the extras and
/// the position after the group.
pub open spec fn parse_extras(s: Seq<char>, n: int) -> (Seq<Seq<char>>, int) {
    if 0 <= n < s.len() && s[n] == '[' && close_bracket(s, n + 1) is Some {
        let q = close_bracket(s, n + 1)->0;
        (sorted_set(extra_items(s.subrange(n + 1, q))), q + 1)
    } else {
        (Seq::empty(), n)
    }
}

/// The optional `\s*(op)\s*(version)` at `p`: the specifier and the position
/// after the group.
pub open spec fn parse_version(s: Seq<char>, p: int) -> (Option<(Seq<char>, Seq<char>)>, int) {
    let w = class_end(s, p, CharClass::Space);
    let ol = op_len(s, w);
    let v0 = class_end(s, w + ol, CharClass::Space);
    let v1 = class_end(s, v0, CharClass::Version);
    if ol > 0 && v1 > v0 {
        (Some((s.subrange(w, w + ol), s.subrange(v0, v1))), v1)
    } else {
        (None, p)
    }
}

/// The `\s*(?:;\s*(.+))?` at `p`: the markers.
pub open spec fn parse_markers(s: Seq<char>, p: int) -> Option<Seq<char>> {
    let w = class_end(s, p, CharClass::Space);
    if 0 <= w < s.len() && s[w] == ';' {
        match marker_start(s, w + 1, class_end(s, w + 1, CharClass::Space)) {
            Some(m) => Some(s.subrange(m, class_end(s, m, CharClass::Line))),
            None => None,
        }
    } else {
        None
    }
}

/// What the pattern
/// `^([A-Za-z0-9\-_.]+)(?:\[(.*?)\])?(?:\s*([~=<>!]={1,2}|[<>]|\^)\s*([\d\w\-.]+))?\s*(?:;\s*(.+))?`
/// captures of `s`, in the order in which a backtracking matcher tries the
/// alternatives; `None` where it does not match.
pub open spec fn parse_requirement(s: Seq<char>) -> Option<Requirement> {
    let n = class_end(s, 0, CharClass::Name);
    if n == 0 {
        None
    } else {
        let (extras, p1) = parse_extras(s, n);
        let (version_spec, p2) = parse_version(s, p1);
        Some(Requirement { name: s.subrange(0, n), extras, version_spec, markers: parse_markers(s, p2) })
    }
}

/// The requirement written out: `name`, `[extras]` when there are any, the
/// operator and version, and `; markers`.
pub open spec fn requirement_text(d: Requirement) -> Seq<char> {
    d.name + (if d.extras.len() > 0 {
        seq!['['] + join_commas(d.extras) + seq![']']
    } else {
        Seq::empty()
    }) + (match d.version_spec {
        Some(vs) => vs.0 + vs.1,
        None => Seq::empty(),
    }) + (match d.markers {
        Some(m) => seq![';', ' '] + m,
        None => Seq::empty(),
    })
}

/// Joining one more string adds a comma and the string.
pub proof fn lemma_join_commas_push(e: Seq<Seq<char>>, x: Seq<char>)
    ensures
        join_commas(e.push(x)) == (if e.len() == 0 {
            x
        } else {
            join_commas(e) + seq![','] + x
        }),
    decreases e.len(),
{
    if e.len() == 0 {
        assert(e.push(x) =~= seq![x]);
    } else if e.len() == 1 {
        assert(e.push(x).drop_first() =~= seq![x]);
        assert(join_commas(seq![x]) == x);
        assert(e.push(x)[0] == e[0]);
        assert(join_commas(e) == e[0]);
    } else if e.len() > 1 {
        lemma_join_commas_push(e.drop_first(), x);
        assert(e.push(x).drop_first() =~= e.drop_first().push(x));
        assert(join_commas(e.push(x)) =~= join_commas(e) + seq![','] + x);
    }
}

/// `close_bracket` finds the first `]` when no line feed precedes it.
pub proof fn lemma_close_bracket(s: Seq<char>, i: int, j: int)
    requires
        0 <= i <= j < s.len(),
        forall|t: int| i <= t < j ==> s[t] != ']' && s[t] != '\n',
        s[j] == ']',
    ensures
        close_bracket(s, i) == Some(j),
    decreases j - i,
{
    if i < j {
        lemma_close_bracket(s, i + 1, j);
    }
}

/// What `close_bracket` finds is a `]`, with no `]` or line feed before it.
pub proof fn lemma_close_bracket_found(s: Seq<char>, i: int)
    requires
        close_bracket(s, i) is Some,
    ensures
        i <= close_bracket(s, i)->0 < s.len(),
        s[close_bracket(s, i)->0] == ']',
        forall|t: int| i <= t < close_bracket(s, i)->0 ==> s[t] != ']' && s[t] != '\n',
    decreases s.len() - i,
{
    if 0 <= i < s.len() && s[i] != ']' && s[i] != '\n' {
        lemma_close_bracket_found(s, i + 1);
    }
}

/// What `marker_start` finds holds no line feed, and every later position up
/// to `hi` is a line feed or past the end.
pub proof fn lemma_marker_start(s: Seq<char>, lo: int, hi: int)
    requires
        marker_start(s, lo, hi) is Some,
    ensures
        lo <= marker_start(s, lo, hi)->0 <= hi,
        0 <= marker_start(s, lo, hi)->0 < s.len(),
        s[marker_start(s, lo, hi)->0] != '\n',
        forall|t: int|
            marker_start(s, lo, hi)->0 < t <= hi ==> t < 0 || t >= s.len() || s[t] == '\n',
    decreases hi - lo + 1,
{
    if !(0 <= hi < s.len() && s[hi] != '\n') {
        lemma_marker_start(s, lo, hi - 1);
    }
}

/// Every piece of a split is free of commas and made of characters of the whole.
pub proof fn lemma_split_commas_items(s: Seq<char>)
    ensures
        split_commas(s).len() > 0,
        forall|k: int, t: int|
            0 <= k < split_commas(s).len() && 0 <= t < split_commas(s)[k].len() ==> #[trigger] split_commas(s)[k][t] != ','
                && s.contains(split_commas(s)[k][t]),
    decreases s.len(),
{
    let j = class_end(s, 0, CharClass::Item);
    lemma_class_end_bounds(s, 0, CharClass::Item);
    if j < s.len() {
        let rest = s.subrange(j + 1, s.len() as int);
        lemma_split_commas_items(rest);
        let p = split_commas(s);
        assert forall|k: int, t: int|
            0 <= k < p.len() && 0 <= t < p[k].len() implies #[trigger] p[k][t] != ',' && s.contains(p[k][t]) by {
            if k == 0 {
                assert(p[0][t] == s[t]);
            } else {
                assert(p[k] == split_commas(rest)[k - 1]);
                assert(rest.contains(p[k][t]));
                let u = choose|u: int| 0 <= u < rest.len() && rest[u] == p[k][t];
                assert(s[u + j + 1] == p[k][t]);
            }
        }
    } else {
        let p = split_commas(s);
        assert forall|k: int, t: int|
            0 <= k < p.len() && 0 <= t < p[k].len() implies #[trigger] p[k][t] != ',' && s.contains(p[k][t]) by {
            assert(p[k][t] == s[t]);
        }
    }
}

/// A trimmed string has no white space at either end, and its characters come from the untrimmed string.
pub proof fn lemma_trim(x: Seq<char>)
    ensures
        trim(x).len() == 0 || (!is_white_space(trim(x)[0]) && !is_white_space(
            trim(x)[trim(x).len() - 1],
        )),
        forall|t: int| 0 <= t < trim(x).len() ==> x.contains(#[trigger] trim(x)[t]),
{
    let a = class_end(x, 0, CharClass::Space);
    lemma_class_end_bounds(x, 0, CharClass::Space);
    lemma_class_start_bounds(x, x.len() as int, CharClass::Space);
    if a < x.len() {
        let b = class_start(x, x.len() as int, CharClass::Space);
        if b <= a {
            assert(in_class(CharClass::Space, x[a]));
        }
        assert forall|t: int| 0 <= t < trim(x).len() implies x.contains(#[trigger] trim(x)[t]) by {
            assert(trim(x)[t] == x[t + a]);
        }
    }
}

/// A string without white space at its ends is its own trim.
pub proof fn lemma_trim_trimmed(x: Seq<char>)
    requires
        x.len() == 0 || (!is_white_space(x[0]) && !is_white_space(x[x.len() - 1])),
    ensures
        trim(x) == x,
{
    if x.len() > 0 {
        lemma_class_end(x, 0, 0, CharClass::Space);
        assert(class_start(x, x.len() as int, CharClass::Space) == x.len());
        assert(x.subrange(0, x.len() as int) =~= x);
    }
}

/// Splitting a comma-joined list of comma-free strings gives the list back.
pub proof fn lemma_split_join(e: Seq<Seq<char>>)
    requires
        e.len() > 0,
        forall|k: int, t: int| 0 <= k < e.len() && 0 <= t < e[k].len() ==> #[trigger] e[k][t] != ',',
    ensures
        split_commas(join_commas(e)) == e,
    decreases e.len(),
{
    let s = join_commas(e);
    if e.len() == 1 {
        assert forall|t: int| 0 <= t < e[0].len() implies in_class(CharClass::Item, #[trigger] e[0][t]) by {
            assert(e[0][t] != ',');
        }
        lemma_class_end(e[0], 0, e[0].len() as int, CharClass::Item);
        assert(split_commas(s) =~= seq![e[0]]);
    } else {
        let rest = e.drop_first();
        let n: int = e[0].len() as int;
        assert(s == e[0] + seq![','] + join_commas(rest));
        assert forall|t: int| 0 <= t < n implies in_class(CharClass::Item, #[trigger] s[t]) by {
            assert(s[t] == e[0][t]);
            assert(e[0][t] != ',');
        }
        assert(s[n as int] == ',');
        lemma_class_end(s, 0, n as int, CharClass::Item);
        assert forall|k: int, t: int| 0 <= k < rest.len() && 0 <= t < rest[k].len() implies #[trigger] rest[k][t] != ',' by {
            assert(rest[k] == e[k + 1]);
        }
        lemma_split_join(rest);
        assert(s.subrange(0, n as int) =~= e[0]);
        assert(s.subrange(n + 1, s.len() as int) =~= join_commas(rest));
        assert(split_commas(s) =~= seq![e[0]] + rest);
        assert(seq![e[0]] + rest =~= e);
    }
}

/// The characters of a joined list are commas and characters of its strings.
pub proof fn lemma_join_chars(e: Seq<Seq<char>>, c: char)
    requires
        c != ',',
        forall|k: int, t: int| 0 <= k < e.len() && 0 <= t < e[k].len() ==> #[trigger] e[k][t] != c,
    ensures
        forall|t: int| 0 <= t < join_commas(e).len() ==> #[trigger] join_commas(e)[t] != c,
    decreases e.len(),
{
    if e.len() > 1 {
        let rest = e.drop_first();
        assert forall|k: int, t: int| 0 <= k < rest.len() && 0 <= t < rest[k].len() implies #[trigger] rest[k][t] != c by {
            assert(rest[k] == e[k + 1]);
        }
        lemma_join_chars(rest, c);
        let s = join_commas(e);
        assert forall|t: int| 0 <= t < s.len() implies #[trigger] s[t] != c by {
            if t < e[0].len() {
                assert(s[t] == e[0][t]);
            } else if t > e[0].len() {
                assert(s[t] == join_commas(rest)[t - e[0].len() - 1]);
            }
        }
    } else if e.len() == 1 {
        assert forall|t: int| 0 <= t < join_commas(e).len() implies #[trigger] join_commas(e)[t] != c by {
            assert(join_commas(e)[t] == e[0][t]);
        }
    }
}

} // verus!
