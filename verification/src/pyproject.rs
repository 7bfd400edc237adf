//! The dependencies that a `pyproject.toml` declares, and those written back.

use vstd::prelude::*;
use taplo::formatter::Options;
use toml_edit::{value, Array, DocumentMut};
use crate::grammar::{Requirement, parse_requirement, requirement_text};
use crate::text::text_of;
use crate::dependency::{
    Dependency, same_dependency, starts_with_name_char, requirements, distinct_dependencies,
    with_dependency, add_distinct,
};

verus! {

/// The requirements of `s` with each dependency kept once, at its first occurrence.
pub open spec fn first_of_each(s: Seq<Requirement>) -> Seq<Requirement>
    decreases s.len(),
{
    if s.len() == 0 {
        Seq::empty()
    } else {
        with_dependency(first_of_each(s.drop_last()), s.last())
    }
}

pub proof fn lemma_with_dependency_distinct(before: Seq<Requirement>, d: Requirement)
    requires
        distinct_dependencies(before),
    ensures
        distinct_dependencies(with_dependency(before, d)),
        with_dependency(before, d).len() >= before.len(),
        with_dependency(before, d).subrange(0, before.len() as int) == before,
        exists|j: int|
            0 <= j < with_dependency(before, d).len() && same_dependency(
                #[trigger] with_dependency(before, d)[j],
                d,
            ),
{
    let r = with_dependency(before, d);
    if exists|j: int| 0 <= j < before.len() && same_dependency(#[trigger] before[j], d) {
        assert(r.subrange(0, before.len() as int) =~= before);
    } else {
        assert(r.subrange(0, before.len() as int) =~= before);
        assert(same_dependency(r[before.len() as int], d));
        assert forall|i: int, j: int| 0 <= i < j < r.len() implies !same_dependency(
            #[trigger] r[i],
            #[trigger] r[j],
        ) by {
            if j == before.len() {
                assert(r[i] == before[i]);
            }
        }
    }
}

/// Keeping the first of each leaves no dependency twice.
pub proof fn lemma_first_of_each(s: Seq<Requirement>)
    ensures
        distinct_dependencies(first_of_each(s)),
    decreases s.len(),
{
    if s.len() > 0 {
        lemma_first_of_each(s.drop_last());
        lemma_with_dependency_distinct(first_of_each(s.drop_last()), s.last());
    }
}

/// Every dependency of `s` is kept.
pub proof fn lemma_first_of_each_covers(s: Seq<Requirement>, k: int)
    requires
        0 <= k < s.len(),
    ensures
        exists|j: int|
            0 <= j < first_of_each(s).len() && same_dependency(#[trigger] first_of_each(s)[j], s[k]),
    decreases s.len(),
{
    let init = s.drop_last();
    lemma_first_of_each(init);
    let b = first_of_each(init);
    lemma_with_dependency_distinct(b, s.last());
    let r = first_of_each(s);
    if k < init.len() {
        lemma_first_of_each_covers(init, k);
        let j = choose|j: int| 0 <= j < b.len() && same_dependency(#[trigger] b[j], init[k]);
        assert(r.subrange(0, b.len() as int)[j] == b[j]);
        assert(r[j] == b[j]);
    }
}

/// What is kept comes from `s` unchanged.
pub proof fn lemma_first_of_each_members(s: Seq<Requirement>, j: int)
    requires
        0 <= j < first_of_each(s).len(),
    ensures
        exists|k: int| 0 <= k < s.len() && first_of_each(s)[j] == #[trigger] s[k],
    decreases s.len(),
{
    let init = s.drop_last();
    lemma_first_of_each(init);
    let b = first_of_each(init);
    lemma_with_dependency_distinct(b, s.last());
    let r = first_of_each(s);
    if j < b.len() {
        assert(r.subrange(0, b.len() as int)[j] == b[j]);
        lemma_first_of_each_members(init, j);
        let k = choose|k: int| 0 <= k < init.len() && b[j] == #[trigger] init[k];
        assert(s[k] == init[k]);
    } else {
        assert(r[j] == s[s.len() - 1]);
    }
}

/// What is kept of `s` is, for each dependency, its first requirement in `s`.
pub proof fn lemma_first_of_each_first(s: Seq<Requirement>, j: int)
    requires
        0 <= j < first_of_each(s).len(),
    ensures
        exists|k: int|
            0 <= k < s.len() && first_of_each(s)[j] == #[trigger] s[k] && forall|k2: int|
                0 <= k2 < k ==> !same_dependency(#[trigger] s[k2], s[k]),
    decreases s.len(),
{
    let init = s.drop_last();
    lemma_first_of_each(init);
    let b = first_of_each(init);
    lemma_with_dependency_distinct(b, s.last());
    let r = first_of_each(s);
    if j < b.len() {
        assert(r.subrange(0, b.len() as int)[j] == b[j]);
        lemma_first_of_each_first(init, j);
        let k = choose|k: int|
            0 <= k < init.len() && b[j] == #[trigger] init[k] && forall|k2: int|
                0 <= k2 < k ==> !same_dependency(#[trigger] init[k2], init[k]);
        assert(s[k] == init[k]);
        assert forall|k2: int| 0 <= k2 < k implies !same_dependency(#[trigger] s[k2], s[k]) by {
            assert(s[k2] == init[k2]);
        }
    } else {
        let k = s.len() - 1;
        assert(r[j] == s[k]);
        assert(!exists|j2: int| 0 <= j2 < b.len() && same_dependency(#[trigger] b[j2], s.last()));
        assert forall|k2: int| 0 <= k2 < k implies !same_dependency(#[trigger] s[k2], s[k]) by {
            assert(s[k2] == init[k2]);
            lemma_first_of_each_covers(init, k2);
            let j2 = choose|j2: int| 0 <= j2 < b.len() && same_dependency(#[trigger] b[j2], init[k2]);
            if same_dependency(s[k2], s[k]) {
                assert(same_dependency(b[j2], s.last()));
            }
        }
    }
}

/// Keeping the first of each extends what was kept of a prefix.
pub proof fn lemma_first_of_each_prefix(a: Seq<Requirement>, b: Seq<Requirement>)
    ensures
        first_of_each(a + b).len() >= first_of_each(a).len(),
        first_of_each(a + b).subrange(0, first_of_each(a).len() as int) == first_of_each(a),
    decreases b.len(),
{
    if b.len() == 0 {
        assert(a + b =~= a);
        assert(first_of_each(a).subrange(0, first_of_each(a).len() as int) =~= first_of_each(a));
    } else {
        let b0 = b.drop_last();
        lemma_first_of_each_prefix(a, b0);
        assert((a + b).drop_last() =~= a + b0);
        lemma_first_of_each(a + b0);
        lemma_with_dependency_distinct(first_of_each(a + b0), b.last());
        let x = first_of_each(a + b0);
        let y = first_of_each(a + b);
        assert(y.subrange(0, x.len() as int) == x);
        assert(y.subrange(0, first_of_each(a).len() as int) =~= x.subrange(
            0,
            first_of_each(a).len() as int,
        ));
    }
}

/// A list without repeated dependencies keeps everything.
pub proof fn lemma_first_of_each_distinct(s: Seq<Requirement>)
    requires
        distinct_dependencies(s),
    ensures
        first_of_each(s) == s,
    decreases s.len(),
{
    if s.len() > 0 {
        let init = s.drop_last();
        assert forall|i: int, j: int| 0 <= i < j < init.len() implies !same_dependency(
            #[trigger] init[i],
            #[trigger] init[j],
        ) by {
            assert(init[i] == s[i] && init[j] == s[j]);
        }
        lemma_first_of_each_distinct(init);
        assert forall|j: int| 0 <= j < init.len() implies !same_dependency(
            #[trigger] init[j],
            s.last(),
        ) by {
            assert(init[j] == s[j]);
        }
        assert(init.push(s.last()) =~= s);
    }
}

/// The dependencies a project declares.
pub struct ProjectDeps {
    pub deps: Seq<Requirement>,
    pub optional_deps: Seq<Requirement>,
}

/// The declared dependencies of a project: each dependency once.
#[derive(Debug)]
pub struct PyProject {
    deps: Vec<Dependency>,
    optional_deps: Vec<Dependency>,
}

impl PyProject {
    /// Each dependency is declared once among the required ones, and once
    /// among the optional ones.
    #[verifier::type_invariant]
    pub open spec fn inv(&self) -> bool {
        distinct_dependencies(self@.deps) && distinct_dependencies(self@.optional_deps)
    }
}

impl View for PyProject {
    type V = ProjectDeps;

    closed spec fn view(&self) -> ProjectDeps {
        ProjectDeps { deps: requirements(self.deps@), optional_deps: requirements(self.optional_deps@) }
    }
}

fn push_all(out: &mut Vec<Dependency>, from: &Vec<Dependency>)
    requires
        distinct_dependencies(requirements(old(out)@)),
    ensures
        requirements(final(out)@) == first_of_each(requirements(old(out)@) + requirements(from@)),
        distinct_dependencies(requirements(final(out)@)),
{
    let ghost a = requirements(out@);
    proof {
        lemma_first_of_each_distinct(a);
        assert(a + requirements(from@).subrange(0, 0) =~= a);
    }
    let mut i: usize = 0;
    while i < from.len()
        invariant
            i <= from.len(),
            distinct_dependencies(requirements(out@)),
            requirements(out@) == first_of_each(a + requirements(from@).subrange(0, i as int)),
        decreases from.len() - i,
    {
        let ghost f = requirements(from@);
        add_distinct(out, from[i].clone());
        assert((a + f.subrange(0, i + 1)).drop_last() =~= a + f.subrange(0, i as int));
        assert((a + f.subrange(0, i + 1)).last() == f[i as int]);
        i = i + 1;
    }
    assert(requirements(from@).subrange(0, i as int) =~= requirements(from@));
}

fn copy_all(from: &Vec<Dependency>) -> (r: Vec<Dependency>)
    ensures
        requirements(r@) == requirements(from@),
{
    let mut r: Vec<Dependency> = Vec::new();
    let mut i: usize = 0;
    while i < from.len()
        invariant
            i <= from.len(),
            requirements(r@) == requirements(from@).subrange(0, i as int),
        decreases from.len() - i,
    {
        let ghost before = requirements(r@);
        r.push(from[i].clone());
        assert(requirements(r@) =~= before.push(requirements(from@)[i as int]));
        assert(requirements(from@).subrange(0, i + 1) =~= requirements(from@).subrange(0, i as int).push(
            requirements(from@)[i as int],
        ));
        i = i + 1;
    }
    assert(requirements(from@).subrange(0, i as int) =~= requirements(from@));
    r
}

impl Clone for PyProject {
    fn clone(&self) -> (r: Self)
        ensures
            r@ == self@,
    {
        proof {
            use_type_invariant(self);
        }
        PyProject { deps: copy_all(&self.deps), optional_deps: copy_all(&self.optional_deps) }
    }
}

impl PyProject {
    /// The project declaring `entries` (the strings of its `dependencies`
    /// array), each dependency once: the first entry that names it.
    pub fn from_dependency_entries(entries: &Vec<String>) -> (r: Self)
        requires
            forall|i: int| 0 <= i < entries.len() ==> starts_with_name_char(#[trigger] entries@[i]@),
        ensures
            r@.deps == first_of_each(entries.deep_view().map_values(|e: Seq<char>| parse_requirement(e)->0)),
            r@.optional_deps == Seq::<Requirement>::empty(),
            forall|i: int|
                #![trigger entries@[i]]
                0 <= i < entries.len() ==> exists|j: int|
                    0 <= j < r@.deps.len() && same_dependency(
                        #[trigger] r@.deps[j],
                        parse_requirement(entries@[i]@)->0,
                    ),
    {
        let ghost read = entries.deep_view().map_values(|e: Seq<char>| parse_requirement(e)->0);
        let mut deps: Vec<Dependency> = Vec::new();
        let mut i: usize = 0;
        while i < entries.len()
            invariant
                i <= entries.len(),
                read == entries.deep_view().map_values(|e: Seq<char>| parse_requirement(e)->0),
                forall|i: int| 0 <= i < entries.len() ==> starts_with_name_char(#[trigger] entries@[i]@),
                distinct_dependencies(requirements(deps@)),
                requirements(deps@) == first_of_each(read.subrange(0, i as int)),
            decreases entries.len() - i,
        {
            assert(starts_with_name_char(entries@[i as int]@));
            match Dependency::parse(entries[i].as_str()) {
                Some(d) => {
                    add_distinct(&mut deps, d);
                },
                None => {},
            }
            assert(read.subrange(0, i + 1).drop_last() =~= read.subrange(0, i as int));
            i = i + 1;
        }
        assert(read.subrange(0, i as int) =~= read);
        let r = PyProject { deps, optional_deps: Vec::new() };
        assert(r@.optional_deps =~= Seq::<Requirement>::empty());
        proof {
            assert forall|i: int| #![trigger entries@[i]] 0 <= i < entries.len() implies exists|j: int|
                0 <= j < r@.deps.len() && same_dependency(
                    #[trigger] r@.deps[j],
                    parse_requirement(entries@[i]@)->0,
                ) by {
                assert(read[i] == parse_requirement(entries@[i]@)->0);
                lemma_first_of_each_covers(read, i);
            }
        }
        r
    }

    /// Every declared dependency, required or optional, once; a required one
    /// wins over an optional one for the same dependency.
    pub fn all_deps(&self) -> (r: Vec<Dependency>)
        ensures
            requirements(r@) == first_of_each(self@.deps + self@.optional_deps),
            distinct_dependencies(requirements(r@)),
    {
        let mut all: Vec<Dependency> = Vec::new();
        push_all(&mut all, &self.deps);
        push_all(&mut all, &self.optional_deps);
        proof {
            let d = self@.deps;
            let o = self@.optional_deps;
            let e = Seq::<Requirement>::empty();
            assert(e + d =~= d);
            lemma_first_of_each(d);
            lemma_first_of_each_distinct(first_of_each(d));
            lemma_first_of_each_concat(d, o);
        }
        all
    }

    /// What the project declares once `new_deps` are added: everything it
    /// declared, then the new dependencies it did not declare yet.
    pub fn with_new_dependencies(&self, new_deps: &Vec<Dependency>) -> (r: Vec<Dependency>)
        ensures
            requirements(r@) == first_of_each(first_of_each(self@.deps + self@.optional_deps) + requirements(new_deps@)),
            distinct_dependencies(requirements(r@)),
    {
        let mut all = self.all_deps();
        push_all(&mut all, new_deps);
        all
    }

    /// What to write back once detection found `found` missing: nothing when
    /// nothing is missing, else the declared dependencies with `found` added.
    pub fn dependencies_to_write(&self, found: &Vec<Dependency>) -> (r: Vec<Dependency>)
        ensures
            found.len() == 0 ==> r.len() == 0,
            found.len() > 0 ==> requirements(r@) == first_of_each(
                first_of_each(self@.deps + self@.optional_deps) + requirements(found@),
            ),
    {
        if found.len() == 0 {
            Vec::new()
        } else {
            self.with_new_dependencies(found)
        }
    }
}

/// Keeping the first of each of `first_of_each(d) + o` is keeping the first of each of `d + o`.
proof fn lemma_first_of_each_concat(d: Seq<Requirement>, o: Seq<Requirement>)
    ensures
        first_of_each(first_of_each(d) + o) == first_of_each(d + o),
    decreases o.len(),
{
    if o.len() == 0 {
        assert(first_of_each(d) + o =~= first_of_each(d));
        assert(d + o =~= d);
        lemma_first_of_each(d);
        lemma_first_of_each_distinct(first_of_each(d));
    } else {
        let o0 = o.drop_last();
        lemma_first_of_each_concat(d, o0);
        assert((first_of_each(d) + o).drop_last() =~= first_of_each(d) + o0);
        assert((d + o).drop_last() =~= d + o0);
    }
}

/// Adding dependencies never drops or changes one that the project declared:
/// what it declared stays, in its place, and every added dependency is
/// declared afterwards.
pub proof fn lemma_adding_keeps_declared(declared: Seq<Requirement>, added: Seq<Requirement>)
    ensures
        first_of_each(first_of_each(declared) + added).subrange(0, first_of_each(declared).len() as int)
            == first_of_each(declared),
        forall|k: int|
            0 <= k < declared.len() ==> exists|j: int|
                0 <= j < first_of_each(first_of_each(declared) + added).len() && same_dependency(
                    #[trigger] first_of_each(first_of_each(declared) + added)[j],
                    #[trigger] declared[k],
                ),
        forall|k: int|
            0 <= k < added.len() ==> exists|j: int|
                0 <= j < first_of_each(first_of_each(declared) + added).len() && same_dependency(
                    #[trigger] first_of_each(first_of_each(declared) + added)[j],
                    #[trigger] added[k],
                ),
{
    let f = first_of_each(declared);
    let all = f + added;
    let r = first_of_each(all);
    lemma_first_of_each_prefix(f, added);
    lemma_first_of_each(declared);
    lemma_first_of_each_distinct(f);
    assert forall|k: int| 0 <= k < declared.len() implies exists|j: int|
        0 <= j < r.len() && same_dependency(#[trigger] r[j], #[trigger] declared[k]) by {
        lemma_first_of_each_covers(declared, k);
        let j = choose|j: int| 0 <= j < f.len() && same_dependency(#[trigger] f[j], declared[k]);
        assert(r.subrange(0, f.len() as int)[j] == f[j]);
        assert(r[j] == f[j]);
    }
    assert forall|k: int| 0 <= k < added.len() implies exists|j: int|
        0 <= j < r.len() && same_dependency(#[trigger] r[j], #[trigger] added[k]) by {
        assert(all[f.len() + k] == added[k]);
        lemma_first_of_each_covers(all, f.len() + k);
    }
}

/// The lines of the `dependencies` array written for `deps`, in order.
pub fn dependency_entries(deps: &Vec<Dependency>) -> (r: Vec<String>)
    ensures
        r.deep_view() == requirements(deps@).map_values(|d: Requirement| requirement_text(d)),
{
    let ghost want = requirements(deps@).map_values(|d: Requirement| requirement_text(d));
    let mut r: Vec<String> = Vec::new();
    let mut i: usize = 0;
    while i < deps.len()
        invariant
            i <= deps.len(),
            want == requirements(deps@).map_values(|d: Requirement| requirement_text(d)),
            r.deep_view() == want.subrange(0, i as int),
        decreases deps.len() - i,
    {
        let line = deps[i].to_string();
        let ghost before = r.deep_view();
        r.push(line);
        assert(r.deep_view() =~= before.push(want[i as int]));
        assert(want.subrange(0, i + 1) =~= want.subrange(0, i as int).push(want[i as int]));
        i = i + 1;
    }
    assert(want.subrange(0, i as int) =~= want);
    r
}

/// `text` read as a TOML document and printed again, `None` where it is not TOML.
pub uninterp spec fn toml_reprinted(text: Seq<char>) -> Option<Seq<char>>;

pub open spec fn toml_parses(text: Seq<char>) -> bool {
    toml_reprinted(text) is Some
}

/// Calls `str::parse::<toml_edit::DocumentMut>` and prints the document.
/// Claimed: the result is the named `toml_reprinted(text)`.
#[verifier::external_body]
fn reprinted(text: &str) -> (r: Option<String>)
    ensures
        toml_reprinted(text@) == match r {
            Some(s) => Some(s@),
            None => None,
        },
{
    Some(text.parse::<DocumentMut>().ok()?.to_string())
}

/// The entries of the array at `table.key` in the TOML text `text`, each
/// `None` where it is no string: `Some(None)` where there is no such array.
pub uninterp spec fn toml_array_at(text: Seq<char>, table: Seq<char>, key: Seq<char>) -> Option<
    Option<Seq<Option<Seq<char>>>>,
>;

pub open spec fn entry_texts(v: Seq<Option<String>>) -> Seq<Option<Seq<char>>> {
    v.map_values(
        |e: Option<String>|
            match e {
                Some(s) => Some(s@),
                None => None,
            },
    )
}

/// Calls `str::parse::<toml_edit::DocumentMut>`, then `Table::get` for
/// `table`, `Item::get` for `key`, `Item::as_array` and `Value::as_str`.
/// Claimed: the result is the named `toml_array_at(text, table, key)`; `None`
/// exactly when the parse fails.
#[verifier::external_body]
fn array_at(text: &str, table: &str, key: &str) -> (r: Option<Option<Vec<Option<String>>>>)
    ensures
        toml_array_at(text@, table@, key@) == match r {
            Some(Some(v)) => Some(Some(entry_texts(v@))),
            Some(None) => Some(None),
            None => None,
        },
        r is Some <==> toml_parses(text@),
{
    let doc = text.parse::<DocumentMut>().ok()?;
    let array = doc.get(table).and_then(|t| t.get(key)).and_then(|a| a.as_array());
    Some(array.map(|a| a.iter().map(|v| v.as_str().map(|s| s.to_string())).collect()))
}

/// Whether the item at `key` of the TOML text `text` is a table:
/// `Some(None)` where there is no such item.
pub uninterp spec fn toml_key_is_table(text: Seq<char>, key: Seq<char>) -> Option<Option<bool>>;

/// Calls `str::parse::<toml_edit::DocumentMut>`, `Table::get` for `key` and
/// `Item::is_table`. Claimed: the result is the named
/// `toml_key_is_table(text, key)`; `None` exactly when the parse fails.
#[verifier::external_body]
fn key_is_table(text: &str, key: &str) -> (r: Option<Option<bool>>)
    ensures
        toml_key_is_table(text@, key@) == r,
        r is Some <==> toml_parses(text@),
{
    let doc = text.parse::<DocumentMut>().ok()?;
    Some(doc.get(key).map(|item| item.is_table()))
}

/// The TOML text `text` with `key` of its table `table` set to an array of
/// the strings `entries`, printed.
pub uninterp spec fn toml_with_array(
    text: Seq<char>,
    table: Seq<char>,
    key: Seq<char>,
    entries: Seq<Seq<char>>,
) -> Seq<char>;

/// Calls `str::parse::<toml_edit::DocumentMut>`, `Item::as_table_mut` on
/// `table`, `Table::insert` of `key` with an array of `entries`, and prints
/// the document. Claimed: the result is the named
/// `toml_with_array(text, table, key, entries)`. Where `table` is a table
/// (`Item::is_table`), the parse succeeds and `as_table_mut` finds it, so
/// nothing here panics.
#[verifier::external_body]
fn set_array(text: &str, table: &str, key: &str, entries: &Vec<String>) -> (r: String)
    requires
        toml_key_is_table(text@, table@) == Some(Some(true)),
    ensures
        r@ == toml_with_array(text@, table@, key@, entries.deep_view()),
{
    let mut doc = text.parse::<DocumentMut>().unwrap();
    let arr: Array = entries.iter().map(|e| e.as_str()).collect();
    doc.get_mut(table).and_then(|t| t.as_table_mut()).unwrap().insert(key, value(arr));
    doc.to_string()
}

/// `text` as `taplo::formatter::format` lays it out with this project's
/// options: entries and comments aligned, arrays expanded with a trailing
/// comma and sorted, 30 columns, two-space indents, CRLF line ends, at most two
/// blank lines.
pub uninterp spec fn taplo_formatted(text: Seq<char>) -> Seq<char>;

/// Calls `taplo::formatter::format` with the options `taplo_formatted` names.
/// Claimed: the result is the named `taplo_formatted(text)`.
#[verifier::external_body]
fn format_toml(text: &str) -> (r: String)
    ensures
        r@ == taplo_formatted(text@),
{
    taplo::formatter::format(text, Options {
        align_entries: true, align_comments: true, align_single_comments: true,
        array_trailing_comma: true, array_auto_expand: true, inline_table_expand: true,
        array_auto_collapse: false, compact_arrays: false, compact_inline_tables: false,
        compact_entries: false, column_width: 30, indent_tables: false, indent_entries: false,
        indent_string: "  ".into(), trailing_newline: false, reorder_keys: false,
        reorder_arrays: true, allowed_blank_lines: 2, crlf: true,
    })
}

/// `project`
pub open spec fn project_key() -> Seq<char> {
    seq!['p', 'r', 'o', 'j', 'e', 'c', 't']
}

/// `dependencies`
pub open spec fn dependencies_key() -> Seq<char> {
    seq!['d', 'e', 'p', 'e', 'n', 'd', 'e', 'n', 'c', 'i', 'e', 's']
}

fn project_text() -> (r: String)
    ensures
        r@ == project_key(),
{
    text_of(&vec!['p', 'r', 'o', 'j', 'e', 'c', 't'])
}

fn dependencies_text() -> (r: String)
    ensures
        r@ == dependencies_key(),
{
    text_of(&vec!['d', 'e', 'p', 'e', 'n', 'd', 'e', 'n', 'c', 'i', 'e', 's'])
}

/// The entries that `text` declares under `project.dependencies`; none where
/// there is no such array.
pub open spec fn declared_entries(text: Seq<char>) -> Seq<Option<Seq<char>>> {
    match toml_array_at(text, project_key(), dependencies_key()) {
        Some(Some(e)) => e,
        _ => Seq::empty(),
    }
}

/// Every entry is a string that reads as a requirement.
pub open spec fn entries_readable(e: Seq<Option<Seq<char>>>) -> bool {
    forall|i: int| 0 <= i < e.len() ==> #[trigger] e[i] is Some && starts_with_name_char(e[i]->0)
}

/// The requirements that the entries read as.
pub open spec fn entries_read(e: Seq<Option<Seq<char>>>) -> Seq<Requirement> {
    e.map_values(|x: Option<Seq<char>>| parse_requirement(x->0)->0)
}

/// Every entry of a `dependencies` array is declared: for each entry, the
/// requirements read from the entries `e` hold one for the same dependency as
/// the entry reads as; each requirement read is what the first entry for its
/// dependency reads as; and no dependency is read twice.
pub proof fn lemma_every_entry_declared(e: Seq<Option<Seq<char>>>)
    ensures
        distinct_dependencies(first_of_each(entries_read(e))),
        forall|i: int|
            #![trigger e[i]]
            0 <= i < e.len() ==> exists|j: int|
                0 <= j < first_of_each(entries_read(e)).len() && same_dependency(
                    #[trigger] first_of_each(entries_read(e))[j],
                    parse_requirement(e[i]->0)->0,
                ),
        forall|j: int|
            0 <= j < first_of_each(entries_read(e)).len() ==> exists|i: int|
                0 <= i < e.len() && #[trigger] first_of_each(entries_read(e))[j]
                    == parse_requirement(#[trigger] e[i]->0)->0 && forall|i2: int|
                    0 <= i2 < i ==> !same_dependency(
                        parse_requirement(#[trigger] e[i2]->0)->0,
                        first_of_each(entries_read(e))[j],
                    ),
{
    let read = entries_read(e);
    let kept = first_of_each(read);
    lemma_first_of_each(read);
    assert forall|i: int| #![trigger e[i]] 0 <= i < e.len() implies exists|j: int|
        0 <= j < kept.len() && same_dependency(#[trigger] kept[j], parse_requirement(e[i]->0)->0) by {
        assert(read[i] == parse_requirement(e[i]->0)->0);
        lemma_first_of_each_covers(read, i);
    }
    assert forall|j: int| 0 <= j < kept.len() implies exists|i: int|
        0 <= i < e.len() && #[trigger] kept[j] == parse_requirement(#[trigger] e[i]->0)->0
            && forall|i2: int|
            0 <= i2 < i ==> !same_dependency(parse_requirement(#[trigger] e[i2]->0)->0, kept[j]) by {
        lemma_first_of_each_first(read, j);
        let k = choose|k: int|
            0 <= k < read.len() && kept[j] == #[trigger] read[k] && forall|k2: int|
                0 <= k2 < k ==> !same_dependency(#[trigger] read[k2], read[k]);
        assert(read[k] == parse_requirement(e[k]->0)->0);
        assert forall|i2: int| 0 <= i2 < k implies !same_dependency(
            parse_requirement(#[trigger] e[i2]->0)->0,
            kept[j],
        ) by {
            assert(read[i2] == parse_requirement(e[i2]->0)->0);
        }
    }
}

/// The entries as strings, where each is one.
fn readable_entries(found: &Vec<Option<String>>) -> (r: Option<Vec<String>>)
    ensures
        r is Some <==> entries_readable(entry_texts(found@)),
        r matches Some(v) ==> v.len() == found.len() && forall|k: int|
            0 <= k < v.len() ==> #[trigger] v@[k]@ == entry_texts(found@)[k]->0,
{
    let ghost e = entry_texts(found@);
    let mut entries: Vec<String> = Vec::new();
    let mut i: usize = 0;
    while i < found.len()
        invariant
            i <= found.len(),
            e == entry_texts(found@),
            entries.len() == i,
            forall|k: int| 0 <= k < i ==> #[trigger] e[k] is Some && starts_with_name_char(e[k]->0)
                && entries@[k]@ == e[k]->0,
        decreases found.len() - i,
    {
        match &found[i] {
            Some(entry) => {
                assert(e[i as int] == Some(entry@));
                if Dependency::parse(entry.as_str()).is_none() {
                    assert(!(e[i as int] is Some && starts_with_name_char(e[i as int]->0)));
                    return None;
                }
                entries.push(entry.clone());
            },
            None => {
                assert(e[i as int] is None);
                return None;
            },
        }
        i = i + 1;
    }
    Some(entries)
}

/// The project that the `pyproject.toml` text `text` describes: the
/// requirements of its `project.dependencies` (none where there is no such
/// array), each dependency once, and no optional ones.
pub fn pyproject_from_text(text: &str) -> (r: PyProject)
    requires
        toml_parses(text@),
        entries_readable(declared_entries(text@)),
    ensures
        r@.deps == first_of_each(entries_read(declared_entries(text@))),
        r@.optional_deps == Seq::<Requirement>::empty(),
        forall|i: int|
            #![trigger declared_entries(text@)[i]]
            0 <= i < declared_entries(text@).len() ==> exists|j: int|
                0 <= j < r@.deps.len() && same_dependency(
                    #[trigger] r@.deps[j],
                    parse_requirement(declared_entries(text@)[i]->0)->0,
                ),
        r@.deps == first_of_each(
            declared_entries(text@).map_values(|x: Option<Seq<char>>| parse_requirement(x->0)->0),
        ),
{
    let table = project_text();
    let key = dependencies_text();
    let found = match array_at(text, table.as_str(), key.as_str()) {
        Some(Some(found)) => found,
        _ => Vec::new(),
    };
    let ghost e = entry_texts(found@);
    assert(e =~= declared_entries(text@));
    let entries = match readable_entries(&found) {
        Some(entries) => entries,
        None => Vec::new(),
    };
    assert forall|k: int| 0 <= k < entries.len() implies starts_with_name_char(
        #[trigger] entries@[k]@,
    ) by {
        assert(e[k] is Some && starts_with_name_char(e[k]->0));
    }
    let p = PyProject::from_dependency_entries(&entries);
    assert(entries.deep_view().map_values(|x: Seq<char>| parse_requirement(x)->0) =~= entries_read(e));
    proof {
        assert(e =~= declared_entries(text@));
        assert forall|i: int| #![trigger e[i]] 0 <= i < e.len() implies exists|j: int|
            0 <= j < p@.deps.len() && same_dependency(
                #[trigger] p@.deps[j],
                parse_requirement(e[i]->0)->0,
            ) by {
            assert(entries@[i]@ == e[i]->0);
        }
        assert(declared_entries(text@).map_values(|x: Option<Seq<char>>| parse_requirement(x->0)->0)
            =~= entries_read(e));
    }
    p
}

/// `pyproject_from_text` where `text` is TOML whose declared entries are all
/// requirement strings, `None` elsewhere.
pub fn try_pyproject_from_text(text: &str) -> (r: Option<PyProject>)
    ensures
        r is Some <==> toml_parses(text@) && entries_readable(declared_entries(text@)),
        r matches Some(p) ==> p@.deps == first_of_each(entries_read(declared_entries(text@)))
            && p@.optional_deps == Seq::<Requirement>::empty(),
        r matches Some(p) ==> forall|i: int|
                #![trigger declared_entries(text@)[i]]
                0 <= i < declared_entries(text@).len() ==> exists|j: int|
                    0 <= j < p@.deps.len() && same_dependency(
                        #[trigger] p@.deps[j],
                        parse_requirement(declared_entries(text@)[i]->0)->0,
                    ),
        r matches Some(p) ==> p@.deps == first_of_each(
            declared_entries(text@).map_values(|x: Option<Seq<char>>| parse_requirement(x->0)->0),
        ),
{
    let table = project_text();
    let key = dependencies_text();
    let found = match array_at(text, table.as_str(), key.as_str()) {
        Some(Some(found)) => found,
        Some(None) => Vec::new(),
        None => return None,
    };
    assert(entry_texts(found@) =~= declared_entries(text@));
    if readable_entries(&found).is_none() {
        return None;
    }
    let p = pyproject_from_text(text);
    assert forall|i: int|
        #![trigger declared_entries(text@)[i]]
        0 <= i < declared_entries(text@).len() implies exists|j: int|
            0 <= j < p@.deps.len() && same_dependency(
                #[trigger] p@.deps[j],
                parse_requirement(declared_entries(text@)[i]->0)->0,
            ) by {}
    Some(p)
}

/// The `pyproject.toml` text `text` rewritten to declare the requirement
/// lines `entries` as `project.dependencies` (left as it was where `project`
/// is no table), then laid out by the formatter.
pub open spec fn rewritten_text(text: Seq<char>, entries: Seq<Seq<char>>) -> Seq<char> {
    taplo_formatted(
        if toml_key_is_table(text, project_key()) == Some(Some(true)) {
            toml_with_array(text, project_key(), dependencies_key(), entries)
        } else {
            toml_reprinted(text)->0
        },
    )
}

/// Where `project` is a table, rewriting sets its `dependencies` to exactly
/// the given entries, whatever the text declared there before (nothing, the
/// same, or other entries); elsewhere the text is only reprinted.
pub proof fn lemma_rewrite_sets_dependencies(text: Seq<char>, entries: Seq<Seq<char>>)
    ensures
        toml_key_is_table(text, project_key()) == Some(Some(true)) ==> rewritten_text(text, entries)
            == taplo_formatted(toml_with_array(text, project_key(), dependencies_key(), entries)),
        toml_key_is_table(text, project_key()) != Some(Some(true)) ==> rewritten_text(text, entries)
            == taplo_formatted(toml_reprinted(text)->0),
{
}

/// The `pyproject.toml` text `text` rewritten to declare `deps`: where
/// `project` is a table its `dependencies` array is replaced by the lines of
/// `deps`, whatever it held; elsewhere the text is reprinted as it was.
pub fn rewritten_pyproject(text: &str, deps: &Vec<Dependency>) -> (r: String)
    requires
        toml_parses(text@),
    ensures
        r@ == rewritten_text(
            text@,
            requirements(deps@).map_values(|d: Requirement| requirement_text(d)),
        ),
        toml_key_is_table(text@, project_key()) == Some(Some(true)) ==> r@ == taplo_formatted(
            toml_with_array(
                text@,
                project_key(),
                dependencies_key(),
                requirements(deps@).map_values(|d: Requirement| requirement_text(d)),
            ),
        ),
        toml_key_is_table(text@, project_key()) != Some(Some(true)) ==> r@ == taplo_formatted(
            toml_reprinted(text@)->0,
        ),
{
    let entries = dependency_entries(deps);
    let table = project_text();
    let key = dependencies_text();
    let updated = match key_is_table(text, table.as_str()) {
        Some(Some(true)) => set_array(text, table.as_str(), key.as_str(), &entries),
        _ => match reprinted(text) {
            Some(same) => same,
            None => String::new(),
        },
    };
    format_toml(updated.as_str())
}

/// `rewritten_pyproject` where `text` is TOML, `None` elsewhere.
pub fn try_rewritten_pyproject(text: &str, deps: &Vec<Dependency>) -> (r: Option<String>)
    ensures
        r is Some <==> toml_parses(text@),
        r matches Some(s) ==> s@ == rewritten_text(
            text@,
            requirements(deps@).map_values(|d: Requirement| requirement_text(d)),
        ),
        r matches Some(s) ==> (toml_key_is_table(text@, project_key()) == Some(Some(true)) ==> s@
            == taplo_formatted(
            toml_with_array(
                text@,
                project_key(),
                dependencies_key(),
                requirements(deps@).map_values(|d: Requirement| requirement_text(d)),
            ),
        )),
        r matches Some(s) ==> (toml_key_is_table(text@, project_key()) != Some(Some(true)) ==> s@
            == taplo_formatted(toml_reprinted(text@)->0)),
{
    if reprinted(text).is_none() {
        return None;
    }
    Some(rewritten_pyproject(text, deps))
}

} // verus!
