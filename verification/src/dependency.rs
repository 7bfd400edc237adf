//! A requirement on a Python distribution: its name, extras, version
//! specifier and environment markers.

use vstd::prelude::*;
use crate::text::{CharClass, chars_of, scan_class, string_of, push_char};
use crate::order::{strictly_sorted, sorted_set, insert_sorted};
use crate::grammar::{
    Requirement, close_bracket, op_len, marker_start, split_commas, trim,
    extra_items, join_commas, parse_requirement, requirement_text,
};
use crate::laws::{distribution_name_char, lemma_name_is_longest_prefix, lemma_bare_name_reads_whole};

verus! {

#[derive(Debug)]
pub struct Dependency {
    name: String,
    /// Held sorted and without repeats.
    extras: Vec<String>,
    /// (specifier, version)
    version_spec: Option<(String, String)>,
    markers: Option<String>,
}

impl Dependency {
    /// A value of this type is always what reading some string gave.
    #[verifier::type_invariant]
    pub open spec fn inv(&self) -> bool {
        crate::laws::well_formed(self@)
    }
}

/// The strings that read as a requirement: those that start with a name character.
pub open spec fn starts_with_name_char(s: Seq<char>) -> bool {
    s.len() > 0 && crate::text::is_name_char(s[0])
}

impl View for Dependency {
    type V = Requirement;

    closed spec fn view(&self) -> Requirement {
        Requirement {
            name: self.name@,
            extras: self.extras.deep_view(),
            version_spec: match self.version_spec {
                Some(vs) => Some((vs.0@, vs.1@)),
                None => None,
            },
            markers: match self.markers {
                Some(m) => Some(m@),
                None => None,
            },
        }
    }
}

fn find_close_bracket(s: &Vec<char>, i: usize) -> (r: Option<usize>)
    requires
        i <= s.len(),
    ensures
        match r {
            Some(q) => close_bracket(s@, i as int) == Some(q as int) && i <= q < s.len(),
            None => close_bracket(s@, i as int) is None,
        },
{
    let mut j = i;
    while j < s.len()
        invariant
            i <= j <= s.len(),
            close_bracket(s@, j as int) == close_bracket(s@, i as int),
        decreases s.len() - j,
    {
        if s[j] == ']' {
            return Some(j);
        }
        if s[j] == '\n' {
            return None;
        }
        j = j + 1;
    }
    None
}

fn op_length(s: &Vec<char>, i: usize) -> (r: usize)
    requires
        i <= s.len(),
    ensures
        r == op_len(s@, i as int),
        i + r <= s.len(),
{
    let n = s.len();
    if i < n && i + 1 < n && (s[i] == '~' || s[i] == '=' || s[i] == '<' || s[i] == '>' || s[i] == '!')
        && s[i + 1] == '=' {
        if i + 2 < n && s[i + 2] == '=' {
            3
        } else {
            2
        }
    } else if i < n && (s[i] == '<' || s[i] == '>' || s[i] == '^') {
        1
    } else {
        0
    }
}

fn find_marker_start(s: &Vec<char>, lo: usize, hi: usize) -> (r: Option<usize>)
    requires
        lo <= hi <= s.len(),
    ensures
        match r {
            Some(m) => marker_start(s@, lo as int, hi as int) == Some(m as int) && m < s.len(),
            None => marker_start(s@, lo as int, hi as int) is None,
        },
{
    let mut k = hi;
    loop
        invariant
            lo <= k <= hi <= s.len(),
            marker_start(s@, lo as int, k as int) == marker_start(s@, lo as int, hi as int),
        decreases k,
    {
        if k < s.len() && s[k] != '\n' {
            return Some(k);
        }
        if k == lo {
            assert(marker_start(s@, lo as int, lo - 1) is None);
            return None;
        }
        k = k - 1;
    }
}

fn sub_chars(s: &Vec<char>, lo: usize, hi: usize) -> (r: Vec<char>)
    requires
        lo <= hi <= s.len(),
    ensures
        r@ == s@.subrange(lo as int, hi as int),
{
    let mut r: Vec<char> = Vec::new();
    let mut i = lo;
    while i < hi
        invariant
            lo <= i <= hi <= s.len(),
            r@ == s@.subrange(lo as int, i as int),
        decreases hi - i,
    {
        r.push(s[i]);
        i = i + 1;
    }
    r
}

fn trimmed(seg: &Vec<char>) -> (r: String)
    ensures
        r@ == trim(seg@),
{
    let a = scan_class(seg, 0, CharClass::Space);
    if a >= seg.len() {
        return String::new();
    }
    let b = crate::text::scan_class_back(seg, seg.len(), CharClass::Space);
    proof {
        crate::text::lemma_class_start_bounds(seg@, seg@.len() as int, CharClass::Space);
        crate::text::lemma_class_end_bounds(seg@, 0, CharClass::Space);
        assert(!crate::text::in_class(CharClass::Space, seg@[a as int]));
        if b <= a {
            assert(crate::text::in_class(CharClass::Space, seg@[a as int]));
        }
    }
    string_of(seg, a, b)
}

/// The extras between the brackets at `lo..hi`, trimmed, sorted, without repeats.
fn extras_between(s: &Vec<char>, lo: usize, hi: usize) -> (r: Vec<String>)
    requires
        lo <= hi <= s.len(),
    ensures
        r.deep_view() == sorted_set(extra_items(s@.subrange(lo as int, hi as int))),
{
    let raw = sub_chars(s, lo, hi);
    let ghost all = split_commas(raw@);
    let ghost mut done: Seq<Seq<char>> = Seq::empty();
    let mut acc: Vec<String> = Vec::new();
    let mut st: usize = 0;
    assert(raw@.subrange(0, raw@.len() as int) =~= raw@);
    assert(acc.deep_view() =~= sorted_set(done.map_values(|x: Seq<char>| trim(x))));
    loop
        invariant_except_break
            all == done + split_commas(raw@.subrange(st as int, raw@.len() as int)),
            acc.deep_view() == sorted_set(done.map_values(|x: Seq<char>| trim(x))),
        invariant
            st <= raw.len(),
            all == split_commas(raw@),
            strictly_sorted(acc.deep_view()),
        ensures
            acc.deep_view() == sorted_set(all.map_values(|x: Seq<char>| trim(x))),
        decreases raw.len() - st,
    {
        let j = scan_class(&raw, st, CharClass::Item);
        let ghost rest = raw@.subrange(st as int, raw@.len() as int);
        proof {
            crate::text::lemma_class_end_bounds(raw@, st as int, CharClass::Item);
            crate::text::lemma_class_end_shift(raw@, st as int, CharClass::Item);
        }
        let seg = sub_chars(&raw, st, j);
        let item = trimmed(&seg);
        let ghost before = done.map_values(|x: Seq<char>| trim(x));
        insert_sorted(&mut acc, item);
        proof {
            done = done.push(seg@);
            assert(done.map_values(|x: Seq<char>| trim(x)) =~= before.push(trim(seg@)));
            assert(done.map_values(|x: Seq<char>| trim(x)).drop_last() =~= before);
        }
        if j >= raw.len() {
            proof {
                assert(rest.subrange(0, (j - st) as int) =~= seg@);
                assert(split_commas(rest) == seq![rest]);
                assert(rest =~= seg@);
                assert(all =~= done);
            }
            break;
        }
        proof {
            assert(rest.subrange(0, (j - st) as int) =~= seg@);
            assert(rest.subrange((j - st) + 1, rest.len() as int) =~= raw@.subrange(
                j + 1,
                raw@.len() as int,
            ));
            assert(all =~= done + split_commas(raw@.subrange(j + 1, raw@.len() as int)));
        }
        st = j + 1;
    }
    assert(raw@ =~= s@.subrange(lo as int, hi as int));
    acc
}

/// The code of `c` with ASCII capitals made small: what `str::to_lowercase`
/// does to the characters a name may hold.
pub open spec fn folded(c: char) -> int {
    if 'A' <= c && c <= 'Z' {
        (c as int) + 32
    } else {
        c as int
    }
}

pub open spec fn folded_name(s: Seq<char>) -> Seq<int> {
    s.map_values(|c: char| folded(c))
}

/// Two requirements are the same dependency when their names agree up to case.
pub open spec fn same_dependency(a: Requirement, b: Requirement) -> bool {
    folded_name(a.name) == folded_name(b.name)
}

fn fold_char(c: char) -> (r: u32)
    ensures
        r as int == folded(c),
{
    if 'A' <= c && c <= 'Z' {
        (c as u32) + 32
    } else {
        c as u32
    }
}

fn names_agree(a: &str, b: &str) -> (r: bool)
    ensures
        r == (folded_name(a@) == folded_name(b@)),
{
    let n = a.unicode_len();
    let m = b.unicode_len();
    if n != m {
        assert(folded_name(a@).len() != folded_name(b@).len());
        return false;
    }
    let mut i: usize = 0;
    while i < n
        invariant
            n == a@.len(),
            m == b@.len(),
            n == m,
            i <= n,
            forall|k: int| 0 <= k < i ==> folded(a@[k]) == folded(b@[k]),
        decreases n - i,
    {
        if fold_char(a.get_char(i)) != fold_char(b.get_char(i)) {
            assert(folded_name(a@)[i as int] != folded_name(b@)[i as int]);
            return false;
        }
        i = i + 1;
    }
    assert(folded_name(a@) =~= folded_name(b@));
    true
}

impl PartialEq for Dependency {
    fn eq(&self, other: &Self) -> (r: bool) {
        names_agree(self.name.as_str(), other.name.as_str())
    }
}

impl vstd::std_specs::cmp::PartialEqSpecImpl for Dependency {
    open spec fn obeys_eq_spec() -> bool {
        true
    }

    open spec fn eq_spec(&self, other: &Self) -> bool {
        same_dependency(self@, other@)
    }
}

impl Eq for Dependency {}

impl Clone for Dependency {
    fn clone(&self) -> (r: Self)
        ensures
            r@ == self@,
    {
        proof {
            use_type_invariant(self);
        }
        let name = self.name.clone();
        let extras = self.extras();
        let version_spec = self.version_spec();
        let markers = self.markers();
        let r = Dependency { name, extras, version_spec, markers };
        assert(r@.extras == self@.extras);
        r
    }
}

impl Dependency {
    pub fn name(&self) -> (r: String)
        ensures
            r@ == self@.name,
    {
        self.name.clone()
    }

    /// The extras, in increasing order.
    pub fn extras(&self) -> (r: Vec<String>)
        ensures
            r.deep_view() == self@.extras,
    {
        let mut r: Vec<String> = Vec::new();
        let mut i: usize = 0;
        while i < self.extras.len()
            invariant
                i <= self.extras.len(),
                r@.len() == i,
                r.deep_view() == self.extras.deep_view().subrange(0, i as int),
            decreases self.extras.len() - i,
        {
            let c = self.extras[i].clone();
            assert(c@ == self.extras.deep_view()[i as int]);
            let ghost old_r = r;
            r.push(c);
            assert forall|k: int| 0 <= k <= i implies #[trigger] r.deep_view()[k]
                == self.extras.deep_view()[k] by {
                if k < i {
                    assert(r@[k] == old_r@[k]);
                    assert(old_r.deep_view()[k] == self.extras.deep_view()[k]);
                }
            }
            assert(r.deep_view() =~= self.extras.deep_view().subrange(0, i + 1));
            i = i + 1;
        }
        assert(self.extras.deep_view().subrange(0, i as int) =~= self.extras.deep_view());
        r
    }

    /// The comparison operator and the version, if one was given.
    pub fn version_spec(&self) -> (r: Option<(String, String)>)
        ensures
            match r {
                Some(vs) => self@.version_spec == Some((vs.0@, vs.1@)),
                None => self@.version_spec is None,
            },
    {
        match &self.version_spec {
            Some(vs) => Some((vs.0.clone(), vs.1.clone())),
            None => None,
        }
    }

    pub fn markers(&self) -> (r: Option<String>)
        ensures
            match r {
                Some(m) => self@.markers == Some(m@),
                None => self@.markers is None,
            },
    {
        match &self.markers {
            Some(m) => Some(m.clone()),
            None => None,
        }
    }

    /// Reads a requirement such as `pandas[excel,postgres]>=1.3.0; platform_system != 'Windows'`.
    /// `None` when `input` does not start with a name character; else the
    /// name is the longest prefix made of ASCII letters and digits, `-`, `_`
    /// and `.`.
    pub fn parse(input: &str) -> (r: Option<Self>)
        ensures
            match r {
                Some(d) => parse_requirement(input@) == Some(d@),
                None => parse_requirement(input@) is None,
            },
            r is Some <==> starts_with_name_char(input@),
            r matches Some(d) ==> {
                &&& 0 < d@.name.len() <= input@.len()
                &&& d@.name == input@.subrange(0, d@.name.len() as int)
                &&& forall|i: int|
                    0 <= i < d@.name.len() ==> distribution_name_char(#[trigger] d@.name[i])
                &&& d@.name.len() == input@.len() || !distribution_name_char(
                    input@[d@.name.len() as int],
                )
            },
            input@.len() > 0 && (forall|i: int|
                0 <= i < input@.len() ==> distribution_name_char(#[trigger] input@[i])) ==> (r
                matches Some(d) && d@ == (Requirement {
                name: input@,
                extras: Seq::empty(),
                version_spec: None,
                markers: None,
            })),
    {
        proof {
            lemma_name_is_longest_prefix(input@);
            if input@.len() > 0 && (forall|i: int|
                0 <= i < input@.len() ==> distribution_name_char(#[trigger] input@[i])) {
                lemma_bare_name_reads_whole(input@);
            }
        }
        let s = chars_of(input);
        let n = scan_class(&s, 0, CharClass::Name);
        proof {
            crate::text::lemma_class_end_bounds(s@, 0, CharClass::Name);
        }
        if n == 0 {
            return None;
        }
        let name = string_of(&s, 0, n);
        let mut extras: Vec<String> = Vec::new();
        let mut p1 = n;
        if n < s.len() && s[n] == '[' {
            match find_close_bracket(&s, n + 1) {
                Some(q) => {
                    extras = extras_between(&s, n + 1, q);
                    p1 = q + 1;
                },
                None => {},
            }
        }
        let w = scan_class(&s, p1, CharClass::Space);
        let ol = op_length(&s, w);
        let v0 = scan_class(&s, w + ol, CharClass::Space);
        let v1 = scan_class(&s, v0, CharClass::Version);
        let mut version_spec: Option<(String, String)> = None;
        let mut p2 = p1;
        if ol > 0 && v1 > v0 {
            version_spec = Some((string_of(&s, w, w + ol), string_of(&s, v0, v1)));
            p2 = v1;
        }
        let w2 = scan_class(&s, p2, CharClass::Space);
        let mut markers: Option<String> = None;
        if w2 < s.len() && s[w2] == ';' {
            let e = scan_class(&s, w2 + 1, CharClass::Space);
            match find_marker_start(&s, w2 + 1, e) {
                Some(m) => {
                    let me = scan_class(&s, m, CharClass::Line);
                    markers = Some(string_of(&s, m, me));
                },
                None => {},
            }
        }
        proof {
            let spec = parse_requirement(input@)->0;
            let vs = match &version_spec {
                Some(vs) => Some((vs.0@, vs.1@)),
                None => None,
            };
            let mk = match &markers {
                Some(m) => Some(m@),
                None => None,
            };
            assert(name@ == spec.name);
            assert(extras.deep_view() == spec.extras);
            assert(vs == spec.version_spec);
            assert(mk == spec.markers);
            crate::laws::lemma_parsed_well_formed(input@);
        }
        let d = Dependency { name, extras, version_spec, markers };
        Some(d)
    }

    /// Writes the requirement out: the name, `[extras]` joined by commas when
    /// there are any, the specifier and version, and `; markers`.
    pub fn to_string(&self) -> (r: String)
        ensures
            r@ == requirement_text(self@),
    {
        let mut r = self.name.clone();
        let ghost e = self.extras.deep_view();
        if self.extras.len() > 0 {
            push_char(&mut r, '[');
            let mut i: usize = 0;
            while i < self.extras.len()
                invariant
                    e == self.extras.deep_view(),
                    0 < e.len(),
                    i <= e.len(),
                    r@ == self.name@ + seq!['['] + join_commas(e.subrange(0, i as int)),
                decreases e.len() - i,
            {
                if i > 0 {
                    push_char(&mut r, ',');
                }
                r.append(self.extras[i].as_str());
                proof {
                    crate::grammar::lemma_join_commas_push(e.subrange(0, i as int), e[i as int]);
                    assert(e.subrange(0, i as int).push(e[i as int]) =~= e.subrange(0, i + 1));
                }
                i = i + 1;
            }
            push_char(&mut r, ']');
            assert(e.subrange(0, e.len() as int) =~= e);
        }
        match &self.version_spec {
            Some(vs) => {
                r.append(vs.0.as_str());
                r.append(vs.1.as_str());
            },
            None => {},
        }
        match &self.markers {
            Some(m) => {
                push_char(&mut r, ';');
                push_char(&mut r, ' ');
                r.append(m.as_str());
            },
            None => {},
        }
        proof {
            let d = self@;
            let ex = if d.extras.len() > 0 {
                seq!['['] + join_commas(d.extras) + seq![']']
            } else {
                Seq::<char>::empty()
            };
            let vs = match d.version_spec {
                Some(vs) => vs.0 + vs.1,
                None => Seq::<char>::empty(),
            };
            let mk = match d.markers {
                Some(m) => seq![';', ' '] + m,
                None => Seq::<char>::empty(),
            };
            assert(r@ =~= d.name + ex + vs + mk);
        }
        r
    }
}

pub open spec fn requirements(v: Seq<Dependency>) -> Seq<Requirement> {
    v.map_values(|d: Dependency| d@)
}

/// No two of the requirements are the same dependency.
pub open spec fn distinct_dependencies(v: Seq<Requirement>) -> bool {
    forall|i: int, j: int| 0 <= i < j < v.len() ==> !same_dependency(#[trigger] v[i], #[trigger] v[j])
}

/// `d` added to `before`, unless a requirement for the same dependency is there already.
pub open spec fn with_dependency(before: Seq<Requirement>, d: Requirement) -> Seq<Requirement> {
    if exists|j: int| 0 <= j < before.len() && same_dependency(#[trigger] before[j], d) {
        before
    } else {
        before.push(d)
    }
}

/// Adds `d` unless a requirement for the same dependency is there already.
pub fn add_distinct(deps: &mut Vec<Dependency>, d: Dependency)
    requires
        distinct_dependencies(requirements(old(deps)@)),
    ensures
        distinct_dependencies(requirements(final(deps)@)),
        requirements(final(deps)@) == with_dependency(requirements(old(deps)@), d@),
{
    if !has_dependency(deps, &d) {
        let ghost before = requirements(deps@);
        deps.push(d);
        assert(requirements(deps@) =~= before.push(d@));
        assert forall|i: int, j: int| 0 <= i < j < deps.len() implies !same_dependency(
            #[trigger] requirements(deps@)[i],
            #[trigger] requirements(deps@)[j],
        ) by {
            if j == before.len() {
                assert(requirements(deps@)[i] == before[i]);
                if same_dependency(before[i], d@) {
                    assert(same_dependency(requirements(old(deps)@)[i], d@));
                }
            }
        }
    }
}

/// Whether `v` holds a requirement for the same dependency as `d`.
pub fn has_dependency(v: &Vec<Dependency>, d: &Dependency) -> (r: bool)
    ensures
        r == exists|k: int| 0 <= k < v.len() && same_dependency(#[trigger] requirements(v@)[k], d@),
{
    let mut i: usize = 0;
    while i < v.len()
        invariant
            i <= v.len(),
            forall|k: int| 0 <= k < i ==> !same_dependency(#[trigger] requirements(v@)[k], d@),
        decreases v.len() - i,
    {
        if v[i] == *d {
            assert(same_dependency(requirements(v@)[i as int], d@));
            return true;
        }
        i = i + 1;
    }
    false
}

} // verus!
