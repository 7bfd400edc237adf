//! Deciding which imported names are dependencies still to be declared.

use vstd::prelude::*;
use crate::text::same_text;
use crate::grammar::{Requirement, parse_requirement};
use crate::dependency::{
    Dependency, same_dependency, starts_with_name_char, requirements, distinct_dependencies,
    with_dependency, has_dependency, add_distinct,
};

verus! {

/// `std::io::Error`, the error type of the detection functions.
#[verifier::external_type_specification]
#[verifier::external_body]
pub struct ExIoError(std::io::Error);

/// The name that `c` is published under: the value paired with `c` in
/// `remap`, or `c` itself.
pub open spec fn remapped(c: Seq<char>, remap: Seq<(Seq<char>, Seq<char>)>) -> Seq<char>
    decreases remap.len(),
{
    if remap.len() == 0 {
        c
    } else if remap[0].0 == c {
        remap[0].1
    } else {
        remapped(c, remap.drop_first())
    }
}

pub open spec fn texts(v: Seq<&str>) -> Seq<Seq<char>> {
    v.map_values(|s: &str| s@)
}

pub open spec fn pair_texts(v: Seq<(&str, &str)>) -> Seq<(Seq<char>, Seq<char>)> {
    v.map_values(|p: (&str, &str)| (p.0@, p.1@))
}

/// `c` survives the filters: not in the standard library, not a local
/// package, and, under the name it is published as, not declared already.
pub open spec fn still_needed(
    c: Seq<char>,
    existing: Seq<Requirement>,
    local: Seq<Seq<char>>,
    stdlib: Seq<Seq<char>>,
    remap: Seq<(Seq<char>, Seq<char>)>,
) -> bool {
    &&& !stdlib.contains(c)
    &&& !local.contains(c)
    &&& !exists|k: int|
        0 <= k < existing.len() && same_dependency(
            #[trigger] existing[k],
            parse_requirement(remapped(c, remap))->0,
        )
}

fn contains_text(v: &Vec<String>, c: &str) -> (r: bool)
    ensures
        r == v.deep_view().contains(c@),
{
    let mut i: usize = 0;
    while i < v.len()
        invariant
            i <= v.len(),
            forall|k: int| 0 <= k < i ==> v.deep_view()[k] != c@,
        decreases v.len() - i,
    {
        if same_text(v[i].as_str(), c) {
            assert(v.deep_view()[i as int] == c@);
            return true;
        }
        i = i + 1;
    }
    false
}

fn contains_str(v: &Vec<&str>, c: &str) -> (r: bool)
    ensures
        r == texts(v@).contains(c@),
{
    let mut i: usize = 0;
    while i < v.len()
        invariant
            i <= v.len(),
            forall|k: int| 0 <= k < i ==> texts(v@)[k] != c@,
        decreases v.len() - i,
    {
        if same_text(v[i], c) {
            assert(texts(v@)[i as int] == c@);
            return true;
        }
        i = i + 1;
    }
    false
}

/// A name paired with another in the renaming table is published under the
/// name of its first pair; a name paired with none keeps its own.
pub proof fn lemma_remapped_lookup(c: Seq<char>, remap: Seq<(Seq<char>, Seq<char>)>)
    ensures
        forall|i: int|
            #![trigger remap[i]]
            0 <= i < remap.len() && remap[i].0 == c && (forall|k: int|
                0 <= k < i ==> (#[trigger] remap[k]).0 != c) ==> remapped(c, remap) == remap[i].1,
        (forall|i: int| 0 <= i < remap.len() ==> (#[trigger] remap[i]).0 != c) ==> remapped(c, remap)
            == c,
    decreases remap.len(),
{
    if remap.len() > 0 {
        let rest = remap.drop_first();
        lemma_remapped_lookup(c, rest);
        assert forall|i: int|
            #![trigger remap[i]]
            0 <= i < remap.len() && remap[i].0 == c && (forall|k: int|
                0 <= k < i ==> (#[trigger] remap[k]).0 != c) implies remapped(c, remap)
            == remap[i].1 by {
            if i > 0 {
                assert(remap[0].0 != c);
                assert(rest[i - 1] == remap[i]);
                assert forall|k: int| 0 <= k < i - 1 implies (#[trigger] rest[k]).0 != c by {
                    assert(rest[k] == remap[k + 1]);
                }
            }
        }
        if forall|i: int| 0 <= i < remap.len() ==> (#[trigger] remap[i]).0 != c {
            assert(remap[0].0 != c);
            assert forall|i: int| 0 <= i < rest.len() implies (#[trigger] rest[i]).0 != c by {
                assert(rest[i] == remap[i + 1]);
            }
        }
    }
}

/// `remapped` over the table as given, pair by pair.
proof fn lemma_remapped_pairs(c: Seq<char>, remap: Seq<(&str, &str)>)
    ensures
        forall|i: int|
            #![trigger remap[i]]
            0 <= i < remap.len() && remap[i].0@ == c && (forall|k: int|
                0 <= k < i ==> (#[trigger] remap[k]).0@ != c) ==> remapped(c, pair_texts(remap))
                == remap[i].1@,
        (forall|i: int| 0 <= i < remap.len() ==> (#[trigger] remap[i]).0@ != c) ==> remapped(
            c,
            pair_texts(remap),
        ) == c,
{
    let p = pair_texts(remap);
    lemma_remapped_lookup(c, p);
    assert forall|i: int|
        #![trigger remap[i]]
        0 <= i < remap.len() && remap[i].0@ == c && (forall|k: int|
            0 <= k < i ==> (#[trigger] remap[k]).0@ != c) implies remapped(c, p)
        == remap[i].1@ by {
        assert(p[i] == (remap[i].0@, remap[i].1@));
        assert forall|k: int| 0 <= k < i implies (#[trigger] p[k]).0 != c by {
            assert(p[k] == (remap[k].0@, remap[k].1@));
        }
    }
    if forall|i: int| 0 <= i < remap.len() ==> (#[trigger] remap[i]).0@ != c {
        assert forall|i: int| 0 <= i < p.len() implies (#[trigger] p[i]).0 != c by {
            assert(p[i] == (remap[i].0@, remap[i].1@));
        }
    }
}

/// The name that `c` is published under: the name its first pair in `remap`
/// gives, or `c` itself where none pairs it.
pub fn remapped_name(remap: &Vec<(&str, &str)>, c: &str) -> (r: String)
    ensures
        r@ == remapped(c@, pair_texts(remap@)),
        forall|i: int|
            #![trigger remap@[i]]
            0 <= i < remap.len() && remap@[i].0@ == c@ && (forall|k: int|
                0 <= k < i ==> (#[trigger] remap@[k]).0@ != c@) ==> r@ == remap@[i].1@,
        (forall|i: int| 0 <= i < remap.len() ==> (#[trigger] remap@[i]).0@ != c@) ==> r@ == c@,
{
    let mut i: usize = 0;
    assert(pair_texts(remap@).skip(0) =~= pair_texts(remap@));
    while i < remap.len()
        invariant
            i <= remap.len(),
            remapped(c@, pair_texts(remap@)) == remapped(c@, pair_texts(remap@).skip(i as int)),
        decreases remap.len() - i,
    {
        let ghost rest = pair_texts(remap@).skip(i as int);
        assert(rest[0] == (remap@[i as int].0@, remap@[i as int].1@));
        assert(rest.drop_first() =~= pair_texts(remap@).skip(i + 1));
        if same_text(remap[i].0, c) {
            proof {
                lemma_remapped_pairs(c@, remap@);
            }
            return String::from_str(remap[i].1);
        }
        i = i + 1;
    }
    proof {
        lemma_remapped_pairs(c@, remap@);
    }
    String::from_str(c)
}

/// The requirement that candidate `c` is read as, once renamed.
pub open spec fn read_as(c: Seq<char>, remap: Seq<(Seq<char>, Seq<char>)>) -> Requirement {
    parse_requirement(remapped(c, remap))->0
}

/// Each requirement in `out` is what some candidate among the first `n` that
/// is still needed is read as.
pub open spec fn drawn_from(
    out: Seq<Requirement>,
    cands: Seq<Seq<char>>,
    n: int,
    existing: Seq<Requirement>,
    local: Seq<Seq<char>>,
    stdlib: Seq<Seq<char>>,
    remap: Seq<(Seq<char>, Seq<char>)>,
) -> bool {
    forall|j: int|
        0 <= j < out.len() ==> exists|k: int|
            0 <= k < n && still_needed(#[trigger] cands[k], existing, local, stdlib, remap)
                && #[trigger] out[j] == read_as(cands[k], remap)
}

/// Each candidate among the first `n` that is still needed has its dependency in `out`.
pub open spec fn covers(
    out: Seq<Requirement>,
    cands: Seq<Seq<char>>,
    n: int,
    existing: Seq<Requirement>,
    local: Seq<Seq<char>>,
    stdlib: Seq<Seq<char>>,
    remap: Seq<(Seq<char>, Seq<char>)>,
) -> bool {
    forall|k: int|
        0 <= k < n && still_needed(#[trigger] cands[k], existing, local, stdlib, remap)
            ==> exists|j: int|
            0 <= j < out.len() && same_dependency(#[trigger] out[j], read_as(cands[k], remap))
}

proof fn lemma_step(
    before: Seq<Requirement>,
    after: Seq<Requirement>,
    cands: Seq<Seq<char>>,
    n: int,
    existing: Seq<Requirement>,
    local: Seq<Seq<char>>,
    stdlib: Seq<Seq<char>>,
    remap: Seq<(Seq<char>, Seq<char>)>,
)
    requires
        0 <= n < cands.len(),
        drawn_from(before, cands, n, existing, local, stdlib, remap),
        covers(before, cands, n, existing, local, stdlib, remap),
        !still_needed(cands[n], existing, local, stdlib, remap) ==> after == before,
        still_needed(cands[n], existing, local, stdlib, remap) ==> after == with_dependency(
            before,
            read_as(cands[n], remap),
        ),
    ensures
        drawn_from(after, cands, n + 1, existing, local, stdlib, remap),
        covers(after, cands, n + 1, existing, local, stdlib, remap),
{
    let c = cands[n];
    assert forall|j: int| 0 <= j < after.len() implies exists|k: int|
        0 <= k < n + 1 && still_needed(#[trigger] cands[k], existing, local, stdlib, remap)
            && #[trigger] after[j] == read_as(cands[k], remap) by {
        if j < before.len() {
            assert(after[j] == before[j]);
        } else {
            assert(after[j] == read_as(c, remap));
        }
    }
    assert forall|k: int|
        0 <= k < n + 1 && still_needed(#[trigger] cands[k], existing, local, stdlib, remap)
            implies exists|j: int|
        0 <= j < after.len() && same_dependency(#[trigger] after[j], read_as(cands[k], remap)) by {
        if k < n {
            let j = choose|j: int|
                0 <= j < before.len() && same_dependency(
                    #[trigger] before[j],
                    read_as(cands[k], remap),
                );
            assert(after[j] == before[j]);
        } else if after == before {
            let j = choose|j: int|
                0 <= j < before.len() && same_dependency(#[trigger] before[j], read_as(c, remap));
            assert(after[j] == before[j]);
        } else {
            assert(after[before.len() as int] == read_as(c, remap));
        }
    }
}

/// Takes one candidate through the filters, adding what it is read as when it is still needed.
fn consider_candidate(
    deps: &mut Vec<Dependency>,
    c: &str,
    existing_deps: &Vec<Dependency>,
    local_packages: &Vec<String>,
    stdlib_packages: &Vec<&str>,
    irregulars_to_remap: &Vec<(&str, &str)>,
)
    requires
        distinct_dependencies(requirements(old(deps)@)),
        !texts(stdlib_packages@).contains(c@) && !local_packages.deep_view().contains(c@)
            ==> starts_with_name_char(remapped(c@, pair_texts(irregulars_to_remap@))),
    ensures
        distinct_dependencies(requirements(final(deps)@)),
        ({
            let needed = still_needed(
                c@,
                requirements(existing_deps@),
                local_packages.deep_view(),
                texts(stdlib_packages@),
                pair_texts(irregulars_to_remap@),
            );
            &&& !needed ==> requirements(final(deps)@) == requirements(old(deps)@)
            &&& needed ==> requirements(final(deps)@) == with_dependency(
                requirements(old(deps)@),
                read_as(c@, pair_texts(irregulars_to_remap@)),
            )
        }),
{
    if contains_str(stdlib_packages, c) || contains_text(local_packages, c) {
        return;
    }
    let name = remapped_name(irregulars_to_remap, c);
    let parsed = Dependency::parse(name.as_str());
    if let Some(d) = parsed {
        if !has_dependency(existing_deps, &d) {
            add_distinct(deps, d);
        }
    }
}

/// Nothing reported missing is the same dependency (up to case) as one that
/// is declared already, at whatever place it is declared.
pub proof fn lemma_missing_is_undeclared(
    out: Seq<Requirement>,
    cands: Seq<Seq<char>>,
    existing: Seq<Requirement>,
    local: Seq<Seq<char>>,
    stdlib: Seq<Seq<char>>,
    remap: Seq<(Seq<char>, Seq<char>)>,
)
    requires
        drawn_from(out, cands, cands.len() as int, existing, local, stdlib, remap),
    ensures
        forall|j: int, k: int|
            0 <= j < out.len() && 0 <= k < existing.len() ==> !same_dependency(
                #[trigger] out[j],
                #[trigger] existing[k],
            ),
{
    assert forall|j: int, k: int|
        0 <= j < out.len() && 0 <= k < existing.len() implies !same_dependency(
        #[trigger] out[j],
        #[trigger] existing[k],
    ) by {
        let c = choose|c: int|
            0 <= c < cands.len() && still_needed(#[trigger] cands[c], existing, local, stdlib, remap)
                && #[trigger] out[j] == read_as(cands[c], remap);
        assert(!same_dependency(existing[k], read_as(cands[c], remap)));
    }
}

/// `d` is what some candidate outside the standard library and the project
/// reads as, once renamed.
pub open spec fn from_candidate(
    d: Requirement,
    cands: Seq<Seq<char>>,
    local: Seq<Seq<char>>,
    stdlib: Seq<Seq<char>>,
    remap: Seq<(Seq<char>, Seq<char>)>,
) -> bool {
    exists|c: int|
        0 <= c < cands.len() && !stdlib.contains(#[trigger] cands[c]) && !local.contains(cands[c])
            && d == parse_requirement(remapped(cands[c], remap))->0
}

/// Each requirement reported missing is what some candidate outside the
/// standard library and the project reads as, once renamed.
pub proof fn lemma_missing_from_candidates(
    out: Seq<Requirement>,
    cands: Seq<Seq<char>>,
    existing: Seq<Requirement>,
    local: Seq<Seq<char>>,
    stdlib: Seq<Seq<char>>,
    remap: Seq<(Seq<char>, Seq<char>)>,
)
    requires
        drawn_from(out, cands, cands.len() as int, existing, local, stdlib, remap),
    ensures
        forall|j: int|
            0 <= j < out.len() ==> from_candidate(#[trigger] out[j], cands, local, stdlib, remap),
{
    assert forall|j: int| 0 <= j < out.len() implies from_candidate(out[j], cands, local, stdlib, remap) by {
        let c = choose|c: int|
            0 <= c < cands.len() && still_needed(#[trigger] cands[c], existing, local, stdlib, remap)
                && #[trigger] out[j] == read_as(cands[c], remap);
        assert(0 <= c < cands.len() && !stdlib.contains(cands[c]) && !local.contains(cands[c])
            && out[j] == parse_requirement(remapped(cands[c], remap))->0);
    }
}

/// Every candidate outside the standard library and the project whose
/// dependency is not declared (at any place, up to case) is reported.
pub proof fn lemma_undeclared_is_reported(
    out: Seq<Requirement>,
    cands: Seq<Seq<char>>,
    existing: Seq<Requirement>,
    local: Seq<Seq<char>>,
    stdlib: Seq<Seq<char>>,
    remap: Seq<(Seq<char>, Seq<char>)>,
)
    requires
        covers(out, cands, cands.len() as int, existing, local, stdlib, remap),
    ensures
        forall|c: int|
            0 <= c < cands.len() && !stdlib.contains(#[trigger] cands[c]) && !local.contains(
                cands[c],
            ) && (forall|k: int|
                0 <= k < existing.len() ==> !same_dependency(
                    #[trigger] existing[k],
                    parse_requirement(remapped(cands[c], remap))->0,
                )) ==> exists|j: int|
                0 <= j < out.len() && same_dependency(
                    #[trigger] out[j],
                    parse_requirement(remapped(cands[c], remap))->0,
                ),
{
    assert forall|c: int|
        0 <= c < cands.len() && !stdlib.contains(#[trigger] cands[c]) && !local.contains(cands[c])
            && (forall|k: int|
            0 <= k < existing.len() ==> !same_dependency(
                #[trigger] existing[k],
                parse_requirement(remapped(cands[c], remap))->0,
            )) implies exists|j: int|
        0 <= j < out.len() && same_dependency(
            #[trigger] out[j],
            parse_requirement(remapped(cands[c], remap))->0,
        ) by {
        assert(still_needed(cands[c], existing, local, stdlib, remap));
    }
}

/// Filters out of `candidates` what the standard library provides and what
/// the project holds itself, renames what is published under another name,
/// drops what `existing_deps` already declares, and reads each survivor as a
/// requirement. Names that meet the same dependency (up to case) give one
/// requirement.
pub fn evaluate_dependencies(
    candidates: Vec<String>,
    existing_deps: Vec<Dependency>,
    local_packages: Vec<String>,
    stdlib_packages: Vec<&str>,
    irregulars_to_remap: Vec<(&str, &str)>,
) -> (r: Result<Vec<Dependency>, std::io::Error>)
    requires
        forall|i: int, j: int|
            0 <= i < j < irregulars_to_remap.len() ==> #[trigger] irregulars_to_remap@[i].0@
                != #[trigger] irregulars_to_remap@[j].0@,
        forall|i: int|
            0 <= i < candidates.len() && !texts(stdlib_packages@).contains(
                candidates.deep_view()[i],
            ) && !local_packages.deep_view().contains(candidates.deep_view()[i])
                ==> starts_with_name_char(
                remapped(#[trigger] candidates.deep_view()[i], pair_texts(irregulars_to_remap@)),
            ),
    ensures
        r matches Ok(deps) && {
            let out = requirements(deps@);
            let cands = candidates.deep_view();
            let existing = requirements(existing_deps@);
            let local = local_packages.deep_view();
            let stdlib = texts(stdlib_packages@);
            let remap = pair_texts(irregulars_to_remap@);
            &&& distinct_dependencies(out)
            &&& drawn_from(out, cands, cands.len() as int, existing, local, stdlib, remap)
            &&& covers(out, cands, cands.len() as int, existing, local, stdlib, remap)
            &&& forall|j: int, k: int|
                0 <= j < out.len() && 0 <= k < existing.len() ==> !same_dependency(
                    #[trigger] out[j],
                    #[trigger] existing[k],
                )
            &&& forall|j: int|
                0 <= j < out.len() ==> from_candidate(#[trigger] out[j], cands, local, stdlib, remap)
        },
{
    let ghost cands = candidates.deep_view();
    let ghost existing = requirements(existing_deps@);
    let ghost local = local_packages.deep_view();
    let ghost stdlib = texts(stdlib_packages@);
    let ghost remap = pair_texts(irregulars_to_remap@);
    let mut deps: Vec<Dependency> = Vec::new();
    let mut i: usize = 0;
    while i < candidates.len()
        invariant
            i <= candidates.len(),
            cands == candidates.deep_view(),
            existing == requirements(existing_deps@),
            local == local_packages.deep_view(),
            stdlib == texts(stdlib_packages@),
            remap == pair_texts(irregulars_to_remap@),
            forall|k: int|
                0 <= k < candidates.len() && !stdlib.contains(cands[k]) && !local.contains(
                    cands[k],
                ) ==> starts_with_name_char(remapped(#[trigger] cands[k], remap)),
            distinct_dependencies(requirements(deps@)),
            drawn_from(requirements(deps@), cands, i as int, existing, local, stdlib, remap),
            covers(requirements(deps@), cands, i as int, existing, local, stdlib, remap),
        decreases candidates.len() - i,
    {
        let ghost before = requirements(deps@);
        let c = candidates[i].as_str();
        assert(c@ == cands[i as int]);
        consider_candidate(
            &mut deps,
            c,
            &existing_deps,
            &local_packages,
            &stdlib_packages,
            &irregulars_to_remap,
        );
        proof {
            lemma_step(before, requirements(deps@), cands, i as int, existing, local, stdlib, remap);
        }
        i = i + 1;
    }
    proof {
        lemma_missing_is_undeclared(requirements(deps@), cands, existing, local, stdlib, remap);
        lemma_missing_from_candidates(requirements(deps@), cands, existing, local, stdlib, remap);
    }
    Ok(deps)
}

} // verus!
