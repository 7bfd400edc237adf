//! Character classes and sequence utilities on which the requirement grammar rests.

use vstd::prelude::*;

verus! {

/// The Unicode `White_Space` property: what `\s` matches in a pattern, and what
/// `str::trim` removes.
pub open spec fn is_white_space(c: char) -> bool {
    ||| ('\u{9}' <= c && c <= '\u{d}')
    ||| c == ' '
    ||| c == '\u{85}'
    ||| c == '\u{a0}'
    ||| c == '\u{1680}'
    ||| ('\u{2000}' <= c && c <= '\u{200a}')
    ||| c == '\u{2028}'
    ||| c == '\u{2029}'
    ||| c == '\u{202f}'
    ||| c == '\u{205f}'
    ||| c == '\u{3000}'
}

pub fn white_space(c: char) -> (r: bool)
    ensures
        r == is_white_space(c),
{
    ('\u{9}' <= c && c <= '\u{d}') || c == ' ' || c == '\u{85}' || c == '\u{a0}' || c
        == '\u{1680}' || ('\u{2000}' <= c && c <= '\u{200a}') || c == '\u{2028}' || c
        == '\u{2029}' || c == '\u{202f}' || c == '\u{205f}' || c == '\u{3000}'
}

/// The characters that may make up a distribution name: `[A-Za-z0-9\-_.]`.
pub open spec fn is_name_char(c: char) -> bool {
    ||| ('A' <= c && c <= 'Z')
    ||| ('a' <= c && c <= 'z')
    ||| ('0' <= c && c <= '9')
    ||| c == '-'
    ||| c == '_'
    ||| c == '.'
}

/// ASCII word characters, `[_0-9a-zA-Z]`.
pub open spec fn is_ascii_word_char(c: char) -> bool {
    ||| ('A' <= c && c <= 'Z')
    ||| ('a' <= c && c <= 'z')
    ||| ('0' <= c && c <= '9')
    ||| c == '_'
}

/// Whether `c` is a Unicode word character (`\w`), as the pattern syntax of
/// the `regex` crate defines it.
pub uninterp spec fn unicode_word_char(c: char) -> bool;

/// Calls `regex_syntax::is_word_character`. Claimed: the result is the named
/// `unicode_word_char(c)`, and for an ASCII `c` it is true exactly for
/// `[_0-9a-zA-Z]` (the function's ASCII fast path and the first entries of its
/// `PERL_WORD` table). It panics only when the `unicode-perl` feature is off,
/// which the default features turn on.
#[verifier::external_body]
fn word_char(c: char) -> (r: bool)
    ensures
        r == unicode_word_char(c),
        c <= '\x7f' ==> (r <==> is_ascii_word_char(c)),
{
    regex_syntax::is_word_character(c)
}

/// The characters that may make up a version: `[\d\w\-.]` (`\d` lies inside
/// `\w`). On ASCII, `\w` is `[_0-9a-zA-Z]`.
pub open spec fn is_version_char(c: char) -> bool {
    if c <= '\x7f' {
        is_ascii_word_char(c) || c == '-' || c == '.'
    } else {
        unicode_word_char(c)
    }
}

/// Character classes over which the grammar takes maximal runs.
#[derive(Clone, Copy)]
pub enum CharClass {
    Name,
    Space,
    Version,
    /// Anything but a line feed (what `.` matches).
    Line,
    /// Anything but a comma (the inside of one extra).
    Item,
    /// Anything but a dot.
    NotDot,
}

pub open spec fn in_class(k: CharClass, c: char) -> bool {
    match k {
        CharClass::Name => is_name_char(c),
        CharClass::Space => is_white_space(c),
        CharClass::Version => is_version_char(c),
        CharClass::Line => c != '\n',
        CharClass::Item => c != ',',
        CharClass::NotDot => c != '.',
    }
}

fn class_member(k: CharClass, c: char) -> (r: bool)
    ensures
        r == in_class(k, c),
{
    match k {
        CharClass::Name => ('A' <= c && c <= 'Z') || ('a' <= c && c <= 'z') || ('0' <= c && c
            <= '9') || c == '-' || c == '_' || c == '.',
        CharClass::Space => white_space(c),
        CharClass::Version => word_char(c) || c == '-' || c == '.',
        CharClass::Line => c != '\n',
        CharClass::Item => c != ',',
        CharClass::NotDot => c != '.',
    }
}

/// The end of the longest run of class `k` that starts at `i`.
pub open spec fn class_end(s: Seq<char>, i: int, k: CharClass) -> int
    decreases s.len() - i,
{
    if 0 <= i < s.len() && in_class(k, s[i]) {
        class_end(s, i + 1, k)
    } else {
        i
    }
}

pub fn scan_class(s: &Vec<char>, i: usize, k: CharClass) -> (j: usize)
    requires
        i <= s.len(),
    ensures
        j == class_end(s@, i as int, k),
        i <= j <= s.len(),
{
    let mut j = i;
    while j < s.len() && class_member(k, s[j])
        invariant
            i <= j <= s.len(),
            class_end(s@, j as int, k) == class_end(s@, i as int, k),
        decreases s.len() - j,
    {
        j = j + 1;
    }
    j
}


/// The start of the longest run of class `k` that ends at `j`.
pub open spec fn class_start(s: Seq<char>, j: int, k: CharClass) -> int
    decreases j,
{
    if 0 < j <= s.len() && in_class(k, s[j - 1]) {
        class_start(s, j - 1, k)
    } else {
        j
    }
}

pub fn scan_class_back(s: &Vec<char>, j: usize, k: CharClass) -> (i: usize)
    requires
        j <= s.len(),
    ensures
        i == class_start(s@, j as int, k),
        i <= j,
{
    let mut i = j;
    while i > 0 && class_member(k, s[i - 1])
        invariant
            i <= j <= s.len(),
            class_start(s@, i as int, k) == class_start(s@, j as int, k),
        decreases i,
    {
        i = i - 1;
    }
    i
}

/// A run of class `k` from `i` ends at `j` exactly when every character in
/// between is in the class and the one at `j` (if any) is not.
pub proof fn lemma_class_end(s: Seq<char>, i: int, j: int, k: CharClass)
    requires
        0 <= i <= j <= s.len(),
        forall|t: int| i <= t < j ==> in_class(k, #[trigger] s[t]),
        j == s.len() || !in_class(k, s[j]),
    ensures
        class_end(s, i, k) == j,
    decreases j - i,
{
    if i < j {
        lemma_class_end(s, i + 1, j, k);
    }
}

pub proof fn lemma_class_end_bounds(s: Seq<char>, i: int, k: CharClass)
    ensures
        i <= class_end(s, i, k),
        0 <= i <= s.len() ==> class_end(s, i, k) <= s.len(),
        0 <= i ==> forall|t: int| i <= t < class_end(s, i, k) ==> in_class(k, #[trigger] s[t]),
        0 <= i <= s.len() ==> class_end(s, i, k) == s.len() || !in_class(k, s[class_end(s, i, k)]),
    decreases s.len() - i,
{
    if 0 <= i < s.len() && in_class(k, s[i]) {
        lemma_class_end_bounds(s, i + 1, k);
    }
}

pub proof fn lemma_class_start_bounds(s: Seq<char>, j: int, k: CharClass)
    ensures
        class_start(s, j, k) <= j,
        0 <= j ==> 0 <= class_start(s, j, k),
        j <= s.len() ==> forall|t: int| class_start(s, j, k) <= t < j ==> in_class(k, #[trigger] s[t]),
        0 <= j <= s.len() ==> class_start(s, j, k) == 0 || !in_class(k, s[class_start(s, j, k) - 1]),
    decreases j,
{
    if 0 < j <= s.len() && in_class(k, s[j - 1]) {
        lemma_class_start_bounds(s, j - 1, k);
    }
}

/// A run measured inside a suffix ends where the same run in the whole does.
pub proof fn lemma_class_end_shift(s: Seq<char>, i: int, k: CharClass)
    requires
        0 <= i <= s.len(),
    ensures
        class_end(s.subrange(i, s.len() as int), 0, k) == class_end(s, i, k) - i,
{
    let t = s.subrange(i, s.len() as int);
    lemma_class_end_bounds(s, i, k);
    let j = class_end(s, i, k);
    assert forall|u: int| 0 <= u < j - i implies in_class(k, #[trigger] t[u]) by {
        assert(t[u] == s[u + i]);
    }
    if j < s.len() {
        assert(t[j - i] == s[j]);
    }
    lemma_class_end(t, 0, j - i, k);
}

/// Whether two strings hold the same characters.
pub fn same_text(a: &str, b: &str) -> (r: bool)
    ensures
        r == (a@ == b@),
{
    let n = a.unicode_len();
    if n != b.unicode_len() {
        return false;
    }
    let mut i: usize = 0;
    while i < n
        invariant
            n == a@.len(),
            n == b@.len(),
            i <= n,
            forall|k: int| 0 <= k < i ==> a@[k] == b@[k],
        decreases n - i,
    {
        if a.get_char(i) != b.get_char(i) {
            return false;
        }
        i = i + 1;
    }
    assert(a@ =~= b@);
    true
}

/// Copies the characters of a string into a vector.
pub fn chars_of(s: &str) -> (v: Vec<char>)
    ensures
        v@ == s@,
{
    let n = s.unicode_len();
    let mut v: Vec<char> = Vec::new();
    let mut i: usize = 0;
    while i < n
        invariant
            n == s@.len(),
            i <= n,
            v@ == s@.subrange(0, i as int),
        decreases n - i,
    {
        v.push(s.get_char(i));
        i = i + 1;
    }
    v
}

/// Calls `String::push`: appends one character.
#[verifier::external_body]
pub(crate) fn push_char(s: &mut String, c: char)
    ensures
        final(s)@ == old(s)@.push(c),
{
    s.push(c)
}

/// The characters of `chars`, as a string.
pub fn text_of(chars: &Vec<char>) -> (r: String)
    ensures
        r@ == chars@,
{
    let mut r = String::new();
    let mut i: usize = 0;
    while i < chars.len()
        invariant
            i <= chars.len(),
            r@ == chars@.subrange(0, i as int),
        decreases chars.len() - i,
    {
        push_char(&mut r, chars[i]);
        i = i + 1;
    }
    assert(chars@.subrange(0, i as int) =~= chars@);
    r
}

/// The characters of `v` between `lo` and `hi`, as a string.
pub fn string_of(v: &Vec<char>, lo: usize, hi: usize) -> (r: String)
    requires
        lo <= hi <= v.len(),
    ensures
        r@ == v@.subrange(lo as int, hi as int),
{
    let mut r = String::new();
    let mut i = lo;
    while i < hi
        invariant
            lo <= i <= hi <= v.len(),
            r@ == v@.subrange(lo as int, i as int),
        decreases hi - i,
    {
        push_char(&mut r, v[i]);
        i = i + 1;
    }
    r
}

} // verus!
