//! Which entries of a source tree the search for Python files enters and keeps.

use vstd::prelude::*;
use crate::text::{
    CharClass, in_class, chars_of, class_start, same_text, scan_class_back, string_of, text_of,
    lemma_class_start_bounds,
};

verus! {

/// Settings for the search for Python files.
pub struct PythonFileFinder {
    excluded_dirs: Vec<String>,
}

impl View for PythonFileFinder {
    /// The names of the directories that the search does not enter.
    type V = Seq<Seq<char>>;

    closed spec fn view(&self) -> Seq<Seq<char>> {
        self.excluded_dirs.deep_view()
    }
}

impl PythonFileFinder {
    /// A finder that skips `.venv`, `venv` and `.git`.
    pub fn new() -> (r: Self)
        ensures
            r@ == seq![
                seq!['.', 'v', 'e', 'n', 'v'],
                seq!['v', 'e', 'n', 'v'],
                seq!['.', 'g', 'i', 't'],
            ],
    {
        let dot_venv = text_of(&vec!['.', 'v', 'e', 'n', 'v']);
        let venv = text_of(&vec!['v', 'e', 'n', 'v']);
        let git = text_of(&vec!['.', 'g', 'i', 't']);
        let mut excluded_dirs: Vec<String> = Vec::new();
        excluded_dirs.push(dot_venv);
        excluded_dirs.push(venv);
        excluded_dirs.push(git);
        let r = Self { excluded_dirs };
        assert(r@ =~= seq![
            seq!['.', 'v', 'e', 'n', 'v'],
            seq!['v', 'e', 'n', 'v'],
            seq!['.', 'g', 'i', 't'],
        ]);
        r
    }

    /// Add directories to exclude from the search
    pub fn exclude_dirs(self, dirs: Vec<String>) -> (r: Self)
        ensures
            r@ == self@ + dirs.deep_view(),
    {
        let mut excluded_dirs = self.excluded_dirs;
        let mut more = dirs;
        let ghost a = excluded_dirs@;
        let ghost b = more@;
        excluded_dirs.append(&mut more);
        assert(excluded_dirs@ == a + b);
        let r = Self { excluded_dirs };
        assert(r@ =~= self@ + dirs.deep_view());
        r
    }

    /// Whether the search skips a directory of this name.
    pub fn is_excluded_dir(&self, dir_name: &str) -> (r: bool)
        ensures
            r == self@.contains(dir_name@),
    {
        let mut i: usize = 0;
        while i < self.excluded_dirs.len()
            invariant
                i <= self.excluded_dirs.len(),
                forall|k: int| 0 <= k < i ==> self@[k] != dir_name@,
            decreases self.excluded_dirs.len() - i,
        {
            if same_text(self.excluded_dirs[i].as_str(), dir_name) {
                assert(self@[i as int] == dir_name@);
                return true;
            }
            i = i + 1;
        }
        false
    }

    /// Whether the search enters (or keeps) an entry: everything but a
    /// directory whose name, read as UTF-8, is one of the excluded ones.
    pub fn keeps_entry(&self, is_dir: bool, file_name: Option<&str>) -> (r: bool)
        ensures
            r == !(is_dir && file_name is Some && self@.contains(file_name->0@)),
    {
        if is_dir {
            if let Some(name) = file_name {
                return !self.is_excluded_dir(name);
            }
        }
        true
    }
}

/// Whether a walked entry is a Python source file: a file whose extension,
/// read as UTF-8, is `py`.
pub fn is_python_file(is_file: bool, extension: Option<&str>) -> (r: bool)
    ensures
        r == (is_file && extension is Some && extension->0@ == seq!['p', 'y']),
{
    if !is_file {
        return false;
    }
    match extension {
        Some(ext) => {
            let py = text_of(&vec!['p', 'y']);
            same_text(ext, py.as_str())
        },
        None => false,
    }
}

/// The stem of a file name (`Path::file_stem`): the part before its last
/// dot, or the whole name where the only dot leads it, where it has none, or
/// where it is `..`.
pub open spec fn stem_of(name: Seq<char>) -> Seq<char> {
    let j = class_start(name, name.len() as int, CharClass::NotDot);
    if j <= 1 || name == seq!['.', '.'] {
        name
    } else {
        name.subrange(0, j - 1)
    }
}

/// A file name with an extension has the part before its last dot as its
/// stem, unless that part is empty or the name is `..`.
pub proof fn lemma_stem_drops_extension(base: Seq<char>, ext: Seq<char>)
    requires
        base.len() > 0,
        forall|t: int| 0 <= t < ext.len() ==> #[trigger] ext[t] != '.',
        !(base == seq!['.'] && ext.len() == 0),
    ensures
        stem_of(base + seq!['.'] + ext) == base,
{
    let name = base + seq!['.'] + ext;
    let n = name.len() as int;
    let b = base.len() as int;
    lemma_class_start_bounds(name, n, CharClass::NotDot);
    let j = class_start(name, n, CharClass::NotDot);
    assert(name[b] == '.');
    if j < b + 1 {
        assert(in_class(CharClass::NotDot, name[b]));
    }
    if j > b + 1 {
        assert(name[j - 1] == ext[j - 1 - b - 1]);
    }
    assert(j == b + 1);
    if name == seq!['.', '.'] {
        assert(name.len() == 2);
        assert(base.len() == 1 && ext.len() == 0);
        assert(base[0] == name[0]);
        assert(base =~= seq!['.']);
    }
    assert(name.subrange(0, b) =~= base);
}

/// A file name without a dot is its own stem.
pub proof fn lemma_stem_without_dot(name: Seq<char>)
    requires
        forall|t: int| 0 <= t < name.len() ==> #[trigger] name[t] != '.',
    ensures
        stem_of(name) == name,
{
    lemma_class_start_bounds(name, name.len() as int, CharClass::NotDot);
    let j = class_start(name, name.len() as int, CharClass::NotDot);
    if j > 0 {
        assert(name[j - 1] != '.');
    }
}

/// The name of the local package that a walked entry named `file_name` stands for.
pub fn local_package_name(file_name: &str) -> (r: String)
    ensures
        r@ == stem_of(file_name@),
{
    let s = chars_of(file_name);
    let j = scan_class_back(&s, s.len(), CharClass::NotDot);
    proof {
        lemma_class_start_bounds(s@, s@.len() as int, CharClass::NotDot);
    }
    let dots = s.len() == 2 && s[0] == '.' && s[1] == '.';
    if j <= 1 || dots {
        proof {
            if !dots {
                assert(!(s@ =~= seq!['.', '.']) || j <= 1);
            } else {
                assert(s@ =~= seq!['.', '.']);
            }
        }
        string_of(&s, 0, s.len())
    } else {
        assert(s@ != seq!['.', '.']);
        string_of(&s, 0, j - 1)
    }
}

} // verus!
