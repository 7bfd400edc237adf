//! Lexicographic order on strings, and the sorted sets of strings that hold
//! the extras of a requirement.

use vstd::prelude::*;

verus! {

/// `a` sorts before `b`, comparing code points from the left: the order of
/// `String`'s `Ord` (UTF-8 keeps code point order byte by byte).
pub open spec fn str_lt(a: Seq<char>, b: Seq<char>) -> bool
    decreases a.len(),
{
    if a.len() == 0 {
        b.len() > 0
    } else if b.len() == 0 {
        false
    } else if a[0] < b[0] {
        true
    } else if a[0] == b[0] {
        str_lt(a.drop_first(), b.drop_first())
    } else {
        false
    }
}

pub proof fn lemma_str_lt_irreflexive(a: Seq<char>)
    ensures
        !str_lt(a, a),
    decreases a.len(),
{
    if a.len() > 0 {
        lemma_str_lt_irreflexive(a.drop_first());
    }
}

pub proof fn lemma_str_lt_asymmetric(a: Seq<char>, b: Seq<char>)
    ensures
        str_lt(a, b) ==> !str_lt(b, a),
    decreases a.len(),
{
    if a.len() > 0 && b.len() > 0 && a[0] == b[0] {
        lemma_str_lt_asymmetric(a.drop_first(), b.drop_first());
    }
}

pub proof fn lemma_str_lt_transitive(a: Seq<char>, b: Seq<char>, c: Seq<char>)
    requires
        str_lt(a, b),
        str_lt(b, c),
    ensures
        str_lt(a, c),
    decreases a.len(),
{
    if a.len() > 0 && b.len() > 0 && c.len() > 0 && a[0] == b[0] && b[0] == c[0] {
        lemma_str_lt_transitive(a.drop_first(), b.drop_first(), c.drop_first());
    }
}

pub proof fn lemma_str_lt_total(a: Seq<char>, b: Seq<char>)
    ensures
        a == b || str_lt(a, b) || str_lt(b, a),
    decreases a.len(),
{
    if a.len() > 0 && b.len() > 0 && a[0] == b[0] {
        lemma_str_lt_total(a.drop_first(), b.drop_first());
        if a.drop_first() == b.drop_first() {
            assert(a =~= seq![a[0]] + a.drop_first());
            assert(b =~= seq![b[0]] + b.drop_first());
        }
    } else if a.len() == 0 && b.len() == 0 {
        assert(a =~= b);
    }
}

/// Decides `str_lt`.
pub fn str_less(a: &str, b: &str) -> (r: bool)
    ensures
        r == str_lt(a@, b@),
{
    let n = a.unicode_len();
    let m = b.unicode_len();
    let mut i: usize = 0;
    assert(a@.skip(0) =~= a@);
    assert(b@.skip(0) =~= b@);
    while i < n && i < m
        invariant
            n == a@.len(),
            m == b@.len(),
            i <= n,
            i <= m,
            str_lt(a@, b@) == str_lt(a@.skip(i as int), b@.skip(i as int)),
        decreases n - i,
    {
        let x = a.get_char(i);
        let y = b.get_char(i);
        assert(a@.skip(i as int)[0] == x && b@.skip(i as int)[0] == y);
        if x < y {
            return true;
        }
        if x != y {
            return false;
        }
        assert(a@.skip(i as int).drop_first() =~= a@.skip(i + 1));
        assert(b@.skip(i as int).drop_first() =~= b@.skip(i + 1));
        i = i + 1;
    }
    i == n && i < m
}

/// No string occurs twice, and each sorts before the ones after it.
pub open spec fn strictly_sorted(s: Seq<Seq<char>>) -> bool {
    forall|i: int, j: int| 0 <= i < j < s.len() ==> str_lt(#[trigger] s[i], #[trigger] s[j])
}

/// Inserts `x` into a sorted sequence, unless it is already there.
pub open spec fn sorted_insert(s: Seq<Seq<char>>, x: Seq<char>) -> Seq<Seq<char>>
    decreases s.len(),
{
    if s.len() == 0 {
        seq![x]
    } else if s[0] == x {
        s
    } else if str_lt(x, s[0]) {
        seq![x] + s
    } else {
        seq![s[0]] + sorted_insert(s.drop_first(), x)
    }
}

/// The set of the given strings, listed in increasing order.
pub open spec fn sorted_set(items: Seq<Seq<char>>) -> Seq<Seq<char>>
    decreases items.len(),
{
    if items.len() == 0 {
        Seq::empty()
    } else {
        sorted_insert(sorted_set(items.drop_last()), items.last())
    }
}

/// Where `x` goes in a strictly sorted `s`: after every string that sorts before it.
pub proof fn lemma_sorted_insert_at(s: Seq<Seq<char>>, x: Seq<char>, j: int)
    requires
        strictly_sorted(s),
        0 <= j <= s.len(),
        forall|i: int| 0 <= i < j ==> str_lt(#[trigger] s[i], x),
        j < s.len() ==> !str_lt(s[j], x),
    ensures
        sorted_insert(s, x) == (if j < s.len() && s[j] == x {
            s
        } else {
            s.insert(j, x)
        }),
    decreases s.len(),
{
    if s.len() == 0 {
        assert(s.insert(0, x) =~= seq![x]);
    } else if j == 0 {
        if s[0] != x {
            lemma_str_lt_total(s[0], x);
            assert(s.insert(0, x) =~= seq![x] + s);
        }
    } else {
        let t = s.drop_first();
        assert(str_lt(s[0], x));
        lemma_str_lt_irreflexive(x);
        lemma_str_lt_asymmetric(s[0], x);
        assert forall|i: int, k: int| 0 <= i < k < t.len() implies str_lt(
            #[trigger] t[i],
            #[trigger] t[k],
        ) by {
            assert(str_lt(s[i + 1], s[k + 1]));
        }
        assert forall|i: int| 0 <= i < j - 1 implies str_lt(#[trigger] t[i], x) by {
            assert(str_lt(s[i + 1], x));
        }
        lemma_sorted_insert_at(t, x, j - 1);
        if j < s.len() && s[j] == x {
            assert(s =~= seq![s[0]] + t);
        } else {
            assert(s.insert(j, x) =~= seq![s[0]] + t.insert(j - 1, x));
        }
    }
}

/// Inserting keeps a sequence strictly sorted, and adds exactly `x` to its set.
pub proof fn lemma_sorted_insert_sorted(s: Seq<Seq<char>>, x: Seq<char>)
    requires
        strictly_sorted(s),
    ensures
        strictly_sorted(sorted_insert(s, x)),
        sorted_insert(s, x).to_set() == s.to_set().insert(x),
    decreases s.len(),
{
    if s.len() == 0 {
        assert(seq![x].to_set() =~= Set::empty().insert(x)) by {
            assert(seq![x][0] == x);
        }
        assert(s.to_set() =~= Set::empty());
    } else if s[0] == x {
        assert(s.contains(x));
        assert(s.to_set().insert(x) =~= s.to_set());
    } else if str_lt(x, s[0]) {
        let r = seq![x] + s;
        assert forall|i: int, j: int| 0 <= i < j < r.len() implies str_lt(
            #[trigger] r[i],
            #[trigger] r[j],
        ) by {
            if i == 0 && j > 1 {
                lemma_str_lt_transitive(x, s[0], s[j - 1]);
            }
        }
        assert forall|y: Seq<char>| r.contains(y) <==> s.contains(y) || y == x by {
            if r.contains(y) {
                let i = choose|i: int| 0 <= i < r.len() && r[i] == y;
                if i > 0 {
                    assert(s[i - 1] == y);
                }
            }
            if s.contains(y) {
                let i = choose|i: int| 0 <= i < s.len() && s[i] == y;
                assert(r[i + 1] == y);
            }
            if y == x {
                assert(r[0] == y);
            }
        }
        assert(r.to_set() =~= s.to_set().insert(x));
    } else {
        let t = s.drop_first();
        assert forall|i: int, k: int| 0 <= i < k < t.len() implies str_lt(
            #[trigger] t[i],
            #[trigger] t[k],
        ) by {
            assert(str_lt(s[i + 1], s[k + 1]));
        }
        lemma_sorted_insert_sorted(t, x);
        lemma_str_lt_total(s[0], x);
        let u = sorted_insert(t, x);
        let r = seq![s[0]] + u;
        assert forall|i: int, j: int| 0 <= i < j < r.len() implies str_lt(
            #[trigger] r[i],
            #[trigger] r[j],
        ) by {
            if i == 0 {
                assert(u.to_set().contains(r[j])) by {
                    assert(u.contains(r[j]));
                }
                if r[j] == x {
                } else {
                    assert(t.contains(r[j]));
                    let k = choose|k: int| 0 <= k < t.len() && t[k] == r[j];
                    assert(str_lt(s[0], s[k + 1]));
                }
            } else {
                assert(str_lt(u[i - 1], u[j - 1]));
            }
        }
        assert forall|y: Seq<char>| r.contains(y) <==> s.contains(y) || y == x by {
            if r.contains(y) {
                let i = choose|i: int| 0 <= i < r.len() && r[i] == y;
                if i > 0 {
                    assert(u[i - 1] == y);
                    assert(u.contains(y));
                    assert(u.to_set().contains(y));
                    if y != x {
                        assert(t.contains(y));
                        let k = choose|k: int| 0 <= k < t.len() && t[k] == y;
                        assert(s[k + 1] == y);
                    }
                }
            }
            if s.contains(y) {
                let i = choose|i: int| 0 <= i < s.len() && s[i] == y;
                if i == 0 {
                    assert(r[0] == y);
                } else {
                    assert(t[i - 1] == y);
                    assert(t.contains(y));
                    assert(t.to_set().contains(y));
                    assert(u.to_set().contains(y));
                    assert(u.contains(y));
                    let k = choose|k: int| 0 <= k < u.len() && u[k] == y;
                    assert(r[k + 1] == y);
                }
            }
            if y == x {
                assert(u.to_set().contains(x));
                assert(u.contains(x));
                let k = choose|k: int| 0 <= k < u.len() && u[k] == x;
                assert(r[k + 1] == x);
            }
        }
        assert(r.to_set() =~= s.to_set().insert(x));
    }
}

/// `sorted_set` lists each given string once, in increasing order.
pub proof fn lemma_sorted_set(items: Seq<Seq<char>>)
    ensures
        strictly_sorted(sorted_set(items)),
        sorted_set(items).to_set() == items.to_set(),
    decreases items.len(),
{
    if items.len() == 0 {
        assert(items.to_set() =~= Set::empty());
        assert(sorted_set(items).to_set() =~= Set::empty());
    } else {
        let init = items.drop_last();
        lemma_sorted_set(init);
        lemma_sorted_insert_sorted(sorted_set(init), items.last());
        assert(items =~= init.push(items.last()));
        assert forall|y: Seq<char>| items.contains(y) <==> init.contains(y) || y == items.last() by {
            if items.contains(y) {
                let i = choose|i: int| 0 <= i < items.len() && items[i] == y;
                if i < init.len() {
                    assert(init[i] == y);
                }
            }
            if init.contains(y) {
                let i = choose|i: int| 0 <= i < init.len() && init[i] == y;
                assert(items[i] == y);
            }
            if y == items.last() {
                assert(items[items.len() - 1] == y);
            }
        }
        assert(items.to_set() =~= init.to_set().insert(items.last()));
    }
}

/// Appending a string greater than all others just pushes it.
pub proof fn lemma_sorted_insert_last(s: Seq<Seq<char>>, x: Seq<char>)
    requires
        forall|i: int| 0 <= i < s.len() ==> str_lt(#[trigger] s[i], x),
    ensures
        sorted_insert(s, x) == s.push(x),
    decreases s.len(),
{
    if s.len() > 0 {
        lemma_str_lt_irreflexive(x);
        lemma_str_lt_asymmetric(s[0], x);
        let t = s.drop_first();
        assert forall|i: int| 0 <= i < t.len() implies str_lt(#[trigger] t[i], x) by {
            assert(str_lt(s[i + 1], x));
        }
        lemma_sorted_insert_last(t, x);
        assert(s.push(x) =~= seq![s[0]] + t.push(x));
    }
}

/// A strictly sorted sequence is its own sorted set.
pub proof fn lemma_sorted_set_of_sorted(s: Seq<Seq<char>>)
    requires
        strictly_sorted(s),
    ensures
        sorted_set(s) == s,
    decreases s.len(),
{
    if s.len() > 0 {
        let init = s.drop_last();
        assert forall|i: int, j: int| 0 <= i < j < init.len() implies str_lt(
            #[trigger] init[i],
            #[trigger] init[j],
        ) by {
            assert(str_lt(s[i], s[j]));
        }
        lemma_sorted_set_of_sorted(init);
        assert forall|i: int| 0 <= i < init.len() implies str_lt(#[trigger] init[i], s.last()) by {
            assert(str_lt(s[i], s[s.len() - 1]));
        }
        lemma_sorted_insert_last(init, s.last());
        assert(init.push(s.last()) =~= s);
    }
}

/// A set of strings has one strictly sorted listing.
pub proof fn lemma_strictly_sorted_unique(a: Seq<Seq<char>>, b: Seq<Seq<char>>)
    requires
        strictly_sorted(a),
        strictly_sorted(b),
        a.to_set() == b.to_set(),
    ensures
        a == b,
    decreases a.len(),
{
    if a.len() == 0 {
        if b.len() > 0 {
            assert(b.contains(b[0]));
            assert(b.to_set().contains(b[0]));
        }
        assert(a =~= b);
    } else {
        assert(a.contains(a[0]));
        assert(a.to_set().contains(a[0]));
        assert(b.contains(a[0]));
        let j = choose|j: int| 0 <= j < b.len() && b[j] == a[0];
        assert(b.contains(b[0]));
        assert(b.to_set().contains(b[0]));
        assert(a.contains(b[0]));
        let i = choose|i: int| 0 <= i < a.len() && a[i] == b[0];
        if j > 0 {
            assert(str_lt(b[0], b[j]));
            if i > 0 {
                assert(str_lt(a[0], a[i]));
                lemma_str_lt_asymmetric(a[0], b[0]);
            } else {
                lemma_str_lt_irreflexive(a[0]);
            }
        }
        assert(b[0] == a[0]);
        let a1 = a.drop_first();
        let b1 = b.drop_first();
        assert forall|x: Seq<char>| a1.contains(x) <==> b1.contains(x) by {
            if a1.contains(x) {
                let k = choose|k: int| 0 <= k < a1.len() && a1[k] == x;
                assert(a[k + 1] == x);
                assert(str_lt(a[0], x));
                lemma_str_lt_irreflexive(x);
                assert(a.contains(x));
                assert(b.to_set().contains(x));
                let l = choose|l: int| 0 <= l < b.len() && b[l] == x;
                if l == 0 {
                    assert(false);
                }
                assert(b1[l - 1] == x);
            }
            if b1.contains(x) {
                let k = choose|k: int| 0 <= k < b1.len() && b1[k] == x;
                assert(b[k + 1] == x);
                assert(str_lt(b[0], x));
                lemma_str_lt_irreflexive(x);
                assert(b.contains(x));
                assert(a.to_set().contains(x));
                let l = choose|l: int| 0 <= l < a.len() && a[l] == x;
                if l == 0 {
                    assert(false);
                }
                assert(a1[l - 1] == x);
            }
        }
        assert(a1.to_set() =~= b1.to_set());
        assert forall|p: int, q: int| 0 <= p < q < a1.len() implies str_lt(#[trigger] a1[p], #[trigger] a1[q]) by {
            assert(str_lt(a[p + 1], a[q + 1]));
        }
        assert forall|p: int, q: int| 0 <= p < q < b1.len() implies str_lt(#[trigger] b1[p], #[trigger] b1[q]) by {
            assert(str_lt(b[p + 1], b[q + 1]));
        }
        lemma_strictly_sorted_unique(a1, b1);
        assert(a =~= seq![a[0]] + a1);
        assert(b =~= seq![b[0]] + b1);
    }
}

/// The sorted set of some strings depends on which strings they are, not on
/// their order or repeats: so the extras of a requirement come out the same
/// however they were listed.
pub proof fn lemma_sorted_set_of_same_strings(items1: Seq<Seq<char>>, items2: Seq<Seq<char>>)
    requires
        items1.to_set() == items2.to_set(),
    ensures
        sorted_set(items1) == sorted_set(items2),
{
    lemma_sorted_set(items1);
    lemma_sorted_set(items2);
    lemma_strictly_sorted_unique(sorted_set(items1), sorted_set(items2));
}

/// Adds `x` to the strictly sorted `v` unless it is there already.
pub fn insert_sorted(v: &mut Vec<String>, x: String)
    requires
        strictly_sorted(old(v).deep_view()),
    ensures
        final(v).deep_view() == sorted_insert(old(v).deep_view(), x@),
        strictly_sorted(final(v).deep_view()),
{
    let ghost s = v.deep_view();
    proof {
        lemma_sorted_insert_sorted(s, x@);
    }
    let mut j: usize = 0;
    while j < v.len() && str_less(v[j].as_str(), x.as_str())
        invariant
            v.deep_view() == s,
            j <= v.len(),
            forall|i: int| 0 <= i < j ==> str_lt(#[trigger] s[i], x@),
        decreases v.len() - j,
    {
        assert(v[j as int]@ == s[j as int]);
        j = j + 1;
    }
    proof {
        if j < v.len() {
            assert(v[j as int]@ == s[j as int]);
        }
        lemma_sorted_insert_at(s, x@, j as int);
    }
    if j < v.len() && v[j] == x {
        return;
    }
    v.insert(j, x);
    proof {
        assert(v.deep_view() =~= s.insert(j as int, x@));
    }
}

} // verus!
