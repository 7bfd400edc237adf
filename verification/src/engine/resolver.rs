//! Pinning a dependency to the latest release that the package index lists.

use vstd::prelude::*;
use crate::text::{is_name_char, push_char, text_of};
use crate::grammar::parse_requirement;
use crate::dependency::Dependency;
use crate::laws::distribution_name_char;

verus! {

/// `https://pypi.org/pypi/`
pub open spec fn index_prefix() -> Seq<char> {
    seq!['h', 't', 't', 'p', 's', ':', '/', '/', 'p', 'y', 'p', 'i', '.', 'o', 'r', 'g', '/', 'p', 'y', 'p', 'i', '/']
}

fn append_chars(r: &mut String, chars: &Vec<char>)
    ensures
        final(r)@ == old(r)@ + chars@,
{
    let ghost start = r@;
    let mut i: usize = 0;
    while i < chars.len()
        invariant
            i <= chars.len(),
            r@ == start + chars@.subrange(0, i as int),
        decreases chars.len() - i,
    {
        push_char(r, chars[i]);
        assert(chars@.subrange(0, i + 1) =~= chars@.subrange(0, i as int).push(chars@[i as int]));
        i = i + 1;
    }
    assert(chars@.subrange(0, i as int) =~= chars@);
}

/// The address of the index's JSON description of `dep`:
/// `https://pypi.org/pypi/<name>/json`.
pub fn index_url(dep: &Dependency) -> (r: String)
    ensures
        r@ == index_prefix() + dep@.name + seq!['/', 'j', 's', 'o', 'n'],
{
    let mut r = String::new();
    append_chars(
        &mut r,
        &vec!['h', 't', 't', 'p', 's', ':', '/', '/', 'p', 'y', 'p', 'i', '.', 'o', 'r', 'g', '/', 'p', 'y', 'p', 'i', '/'],
    );
    let name = dep.name();
    r.append(name.as_str());
    append_chars(&mut r, &vec!['/', 'j', 's', 'o', 'n']);
    r
}

/// What a dependency becomes once the index has been asked about it: its
/// bare name where the index gave no version (`""`), else
/// `<name>~=<version>` read as a requirement.
pub open spec fn resolved_text(name: Seq<char>, latest_version: Seq<char>) -> Seq<char> {
    if latest_version.len() == 0 {
        name
    } else {
        name + seq!['~', '='] + latest_version
    }
}

/// Pins `dep` to `latest_version`, the version that the index reports as its
/// latest release (`""` where it reports none). Extras and markers of `dep` are
/// not carried over.
pub fn resolve_on_index(dep: &Dependency, latest_version: &str) -> (r: Dependency)
    ensures
        parse_requirement(resolved_text(dep@.name, latest_version@)) == Some(r@),
        r@.name == dep@.name,
        r@.extras.len() == 0,
{
    proof {
        use_type_invariant(dep);
    }
    let mut text = dep.name();
    if latest_version.unicode_len() > 0 {
        push_char(&mut text, '~');
        push_char(&mut text, '=');
        text.append(latest_version);
    }
    assert(text@ =~= resolved_text(dep@.name, latest_version@));
    assert(text@[0] == dep@.name[0]);
    match Dependency::parse(text.as_str()) {
        Some(d) => {
            proof {
                let name = dep@.name;
                let k = d@.name.len() as int;
                assert forall|t: int| 0 <= t < name.len() implies distribution_name_char(
                    #[trigger] text@[t],
                ) by {
                    assert(text@[t] == name[t]);
                    assert(is_name_char(name[t]));
                }
                if text@.len() > name.len() {
                    assert(text@[name.len() as int] == '~');
                }
                if k < name.len() {
                    assert(distribution_name_char(text@[k]));
                }
                if k > name.len() {
                    assert(d@.name[name.len() as int] == text@[name.len() as int]);
                    assert(distribution_name_char(d@.name[name.len() as int]));
                }
                assert(k == name.len());
                assert(d@.name =~= name);
            }
            d
        },
        None => {
            assert(false);
            dep.clone()
        },
    }
}

/// `info`
pub open spec fn info_key() -> Seq<char> {
    seq!['i', 'n', 'f', 'o']
}

/// `version`
pub open spec fn version_key() -> Seq<char> {
    seq!['v', 'e', 'r', 's', 'i', 'o', 'n']
}

/// The string at `k1.k2` in the JSON text `body`: `Some(None)` where there
/// is no such member or it is no string, `None` where `body` is not JSON.
pub uninterp spec fn json_str_at(body: Seq<char>, k1: Seq<char>, k2: Seq<char>) -> Option<Option<Seq<char>>>;

/// Calls `serde_json::from_str::<serde_json::Value>`, then `Value::get` for
/// `k1` and `k2` and `Value::as_str`. Claimed: the result is the named
/// `json_str_at(body, k1, k2)`; `None` exactly when the parse fails.
#[verifier::external_body]
fn str_at(body: &str, k1: &str, k2: &str) -> (r: Option<Option<String>>)
    ensures
        json_str_at(body@, k1@, k2@) == match r {
            Some(Some(v)) => Some(Some(v@)),
            Some(None) => Some(None),
            None => None,
        },
{
    let json: serde_json::Value = serde_json::from_str(body).ok()?;
    Some(json.get(k1).and_then(|a| a.get(k2)).and_then(|v| v.as_str()).map(|v| v.to_string()))
}

/// The latest version that the index's reply names: its `info.version`, or
/// `""` where that is missing or no string.
pub open spec fn reply_version(body: Seq<char>) -> Seq<char> {
    match json_str_at(body, info_key(), version_key()) {
        Some(Some(v)) => v,
        _ => Seq::empty(),
    }
}

/// Pins `dep` to the latest version that the index's JSON reply `body` names
/// under `info.version`; the bare name where the reply names none.
pub fn resolve_from_index_reply(dep: &Dependency, body: &str) -> (r: Dependency)
    requires
        json_str_at(body@, info_key(), version_key()) is Some,
    ensures
        parse_requirement(resolved_text(dep@.name, reply_version(body@))) == Some(r@),
        r@.name == dep@.name,
        r@.extras.len() == 0,
{
    let info = text_of(&vec!['i', 'n', 'f', 'o']);
    let version = text_of(&vec!['v', 'e', 'r', 's', 'i', 'o', 'n']);
    match str_at(body, info.as_str(), version.as_str()) {
        Some(Some(v)) => resolve_on_index(dep, v.as_str()),
        _ => {
            let none = String::new();
            resolve_on_index(dep, none.as_str())
        },
    }
}

/// `resolve_from_index_reply` where `body` is JSON, `None` elsewhere.
pub fn try_resolve_from_index_reply(dep: &Dependency, body: &str) -> (r: Option<Dependency>)
    ensures
        r is Some <==> json_str_at(body@, info_key(), version_key()) is Some,
        r matches Some(d) ==> parse_requirement(resolved_text(dep@.name, reply_version(body@)))
            == Some(d@) && d@.name == dep@.name && d@.extras.len() == 0,
{
    let info = text_of(&vec!['i', 'n', 'f', 'o']);
    let version = text_of(&vec!['v', 'e', 'r', 's', 'i', 'o', 'n']);
    if str_at(body, info.as_str(), version.as_str()).is_none() {
        return None;
    }
    Some(resolve_from_index_reply(dep, body))
}

} // verus!
