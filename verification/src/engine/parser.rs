//! The names a Python module imports.

use vstd::prelude::*;
use rustpython_parser::ast::Stmt;

verus! {

/// A top-level statement of a Python module, as far as imports go.
#[derive(Debug)]
pub enum PyStatement {
    /// `import a.b, c as d`: the imported names, `a.b` and `c`.
    Import(Vec<String>),
    /// `from m import x`: the module `m`, absent for `from . import x`.
    ImportFrom(Option<String>),
    Other,
}

pub enum StatementModel {
    Import(Seq<Seq<char>>),
    ImportFrom(Option<Seq<char>>),
    Other,
}

impl View for PyStatement {
    type V = StatementModel;

    open spec fn view(&self) -> StatementModel {
        match self {
            PyStatement::Import(names) => StatementModel::Import(names.deep_view()),
            PyStatement::ImportFrom(module) => StatementModel::ImportFrom(
                match module {
                    Some(m) => Some(m@),
                    None => None,
                },
            ),
            PyStatement::Other => StatementModel::Other,
        }
    }
}

pub open spec fn statements(v: Seq<PyStatement>) -> Seq<StatementModel> {
    v.map_values(|s: PyStatement| s@)
}

/// The top-level statements of `code` read as a Python module, `None` where
/// it is not valid Python.
pub uninterp spec fn python_module_body(code: Seq<char>) -> Option<Seq<StatementModel>>;

/// Calls `rustpython_parser::parse` in module mode. Claimed: the statements
/// it gives, each told apart as an import, a from-import or another
/// statement, are the named `python_module_body(code)`; `None` on a syntax error.
#[verifier::external_body]
fn parse_module(code: &str) -> (r: Option<Vec<PyStatement>>)
    ensures
        python_module_body(code@) == match r {
            Some(v) => Some(statements(v@)),
            None => None,
        },
{
    match rustpython_parser::parse(code, rustpython_parser::Mode::Module, "<embedded>") {
        Ok(ast) => Some(match ast.module() {
            Some(m) => m.body.into_iter().map(|s| match s {
                Stmt::Import(i) => PyStatement::Import(i.names.into_iter().map(|a| a.name.to_string()).collect()),
                Stmt::ImportFrom(f) => PyStatement::ImportFrom(f.module.map(|m| m.to_string())),
                _ => PyStatement::Other,
            }).collect(),
            None => Vec::new(),
        }),
        Err(_) => None,
    }
}

/// The names of the `import` statements, in order.
pub open spec fn plain_imports(body: Seq<StatementModel>) -> Seq<Seq<char>>
    decreases body.len(),
{
    if body.len() == 0 {
        Seq::empty()
    } else {
        plain_imports(body.drop_last()) + match body.last() {
            StatementModel::Import(names) => names,
            _ => Seq::empty(),
        }
    }
}

/// The modules of the `from ... import` statements that name one, in order.
pub open spec fn from_imports(body: Seq<StatementModel>) -> Seq<Seq<char>>
    decreases body.len(),
{
    if body.len() == 0 {
        Seq::empty()
    } else {
        from_imports(body.drop_last()) + match body.last() {
            StatementModel::ImportFrom(Some(m)) => seq![m],
            _ => Seq::empty(),
        }
    }
}

/// What a module imports: the plain imports first, then the from-imports.
pub open spec fn imported_names(body: Seq<StatementModel>) -> Seq<Seq<char>> {
    plain_imports(body) + from_imports(body)
}

proof fn lemma_plain_imports_contain(body: Seq<StatementModel>, k: int, t: int)
    requires
        0 <= k < body.len(),
        body[k] matches StatementModel::Import(names) && 0 <= t < names.len(),
    ensures
        plain_imports(body).contains(body[k]->Import_0[t]),
    decreases body.len(),
{
    let init = body.drop_last();
    if k < body.len() - 1 {
        assert(init[k] == body[k]);
        lemma_plain_imports_contain(init, k, t);
        let i = choose|i: int| 0 <= i < plain_imports(init).len() && plain_imports(init)[i] == body[k]->Import_0[t];
        assert(plain_imports(body)[i] == plain_imports(init)[i]);
    } else {
        let names = body[k]->Import_0;
        assert(plain_imports(body)[plain_imports(init).len() + t] == names[t]);
    }
}

proof fn lemma_from_imports_contain(body: Seq<StatementModel>, k: int)
    requires
        0 <= k < body.len(),
        body[k] matches StatementModel::ImportFrom(Some(m)),
    ensures
        from_imports(body).contains(body[k]->ImportFrom_0->0),
    decreases body.len(),
{
    let init = body.drop_last();
    if k < body.len() - 1 {
        assert(init[k] == body[k]);
        lemma_from_imports_contain(init, k);
        let i = choose|i: int| 0 <= i < from_imports(init).len() && from_imports(init)[i] == body[k]->ImportFrom_0->0;
        assert(from_imports(body)[i] == from_imports(init)[i]);
    } else {
        assert(from_imports(body)[from_imports(init).len() as int] == body[k]->ImportFrom_0->0);
    }
}

proof fn lemma_imports_come_from_statements(body: Seq<StatementModel>, i: int)
    requires
        0 <= i < imported_names(body).len(),
    ensures
        exists|k: int|
            0 <= k < body.len() && (match #[trigger] body[k] {
                StatementModel::Import(names) => names.contains(imported_names(body)[i]),
                StatementModel::ImportFrom(Some(m)) => m == imported_names(body)[i],
                _ => false,
            }),
    decreases body.len(),
{
    let init = body.drop_last();
    let x = imported_names(body)[i];
    let p = plain_imports(body);
    let f = from_imports(body);
    if i < p.len() {
        if i < plain_imports(init).len() {
            assert(x == plain_imports(init)[i]);
            assert(imported_names(init)[i] == x);
            lemma_imports_come_from_statements(init, i);
            let k = choose|k: int|
                0 <= k < init.len() && (match #[trigger] init[k] {
                    StatementModel::Import(names) => names.contains(imported_names(init)[i]),
                    StatementModel::ImportFrom(Some(m)) => m == imported_names(init)[i],
                    _ => false,
                });
            assert(body[k] == init[k]);
        } else {
            let names = body.last()->Import_0;
            assert(names[i - plain_imports(init).len()] == x);
            assert(body[body.len() - 1] == body.last());
        }
    } else {
        let j = i - p.len();
        assert(x == f[j]);
        if j < from_imports(init).len() {
            let i2 = plain_imports(init).len() + j;
            assert(imported_names(init)[i2] == x);
            lemma_imports_come_from_statements(init, i2);
            let k = choose|k: int|
                0 <= k < init.len() && (match #[trigger] init[k] {
                    StatementModel::Import(names) => names.contains(imported_names(init)[i2]),
                    StatementModel::ImportFrom(Some(m)) => m == imported_names(init)[i2],
                    _ => false,
                });
            assert(body[k] == init[k]);
        } else {
            assert(body[body.len() - 1] == body.last());
        }
    }
}

/// What a module imports is exactly the names of its `import` statements and
/// the modules of its `from m import` statements, wherever they stand among
/// the other statements.
pub proof fn lemma_imported_names(body: Seq<StatementModel>)
    ensures
        forall|k: int, t: int|
            #![trigger body[k]->Import_0[t]]
            0 <= k < body.len() && body[k] is Import && 0 <= t < body[k]->Import_0.len()
                ==> imported_names(body).contains(body[k]->Import_0[t]),
        forall|k: int|
            0 <= k < body.len() && (#[trigger] body[k] matches StatementModel::ImportFrom(Some(m)))
                ==> imported_names(body).contains(body[k]->ImportFrom_0->0),
        forall|i: int|
            0 <= i < imported_names(body).len() ==> exists|k: int|
                0 <= k < body.len() && (match #[trigger] body[k] {
                    StatementModel::Import(names) => names.contains(#[trigger] imported_names(body)[i]),
                    StatementModel::ImportFrom(Some(m)) => m == imported_names(body)[i],
                    _ => false,
                }),
{
    let r = imported_names(body);
    assert forall|k: int, t: int|
        #![trigger body[k]->Import_0[t]]
        0 <= k < body.len() && body[k] is Import && 0 <= t < body[k]->Import_0.len() implies r.contains(
            body[k]->Import_0[t],
        ) by {
        lemma_plain_imports_contain(body, k, t);
        let i = choose|i: int| 0 <= i < plain_imports(body).len() && plain_imports(body)[i] == body[k]->Import_0[t];
        assert(r[i] == plain_imports(body)[i]);
    }
    assert forall|k: int|
        0 <= k < body.len() && (#[trigger] body[k] matches StatementModel::ImportFrom(Some(m)))
            implies r.contains(body[k]->ImportFrom_0->0) by {
        lemma_from_imports_contain(body, k);
        let i = choose|i: int| 0 <= i < from_imports(body).len() && from_imports(body)[i] == body[k]->ImportFrom_0->0;
        assert(r[plain_imports(body).len() + i] == from_imports(body)[i]);
    }
    assert forall|i: int| 0 <= i < r.len() implies exists|k: int|
        0 <= k < body.len() && (match #[trigger] body[k] {
            StatementModel::Import(names) => names.contains(#[trigger] r[i]),
            StatementModel::ImportFrom(Some(m)) => m == r[i],
            _ => false,
        }) by {
        lemma_imports_come_from_statements(body, i);
    }
}

/// What one statement imports: the names of an `import`, the module of a
/// `from m import`, nothing for any other statement.
pub proof fn lemma_statement_imports(s: StatementModel)
    ensures
        plain_imports(seq![s]) == match s {
            StatementModel::Import(names) => names,
            _ => Seq::empty(),
        },
        from_imports(seq![s]) == match s {
            StatementModel::ImportFrom(Some(m)) => seq![m],
            _ => Seq::empty(),
        },
{
    let one = seq![s];
    let none = Seq::<StatementModel>::empty();
    assert(one.drop_last() =~= none);
    assert(one.last() == s);
    assert(plain_imports(none) == Seq::<Seq<char>>::empty());
    assert(from_imports(none) == Seq::<Seq<char>>::empty());
    assert(plain_imports(one) == plain_imports(none) + match s {
        StatementModel::Import(names) => names,
        _ => Seq::empty(),
    });
    assert(from_imports(one) == from_imports(none) + match s {
        StatementModel::ImportFrom(Some(m)) => seq![m],
        _ => Seq::empty(),
    });
    assert(plain_imports(one) =~= match s {
        StatementModel::Import(names) => names,
        _ => Seq::empty(),
    });
    assert(from_imports(one) =~= match s {
        StatementModel::ImportFrom(Some(m)) => seq![m],
        _ => Seq::empty(),
    });
}

/// The imports of two runs of statements one after the other are those of
/// the first run followed by those of the second, whatever either holds.
pub proof fn lemma_imports_of_concat(a: Seq<StatementModel>, b: Seq<StatementModel>)
    ensures
        plain_imports(a + b) == plain_imports(a) + plain_imports(b),
        from_imports(a + b) == from_imports(a) + from_imports(b),
        imported_names(a + b) == plain_imports(a) + plain_imports(b) + (from_imports(a)
            + from_imports(b)),
    decreases b.len(),
{
    if b.len() == 0 {
        assert(a + b =~= a);
        assert(plain_imports(a) + plain_imports(b) =~= plain_imports(a));
        assert(from_imports(a) + from_imports(b) =~= from_imports(a));
    } else {
        let b0 = b.drop_last();
        lemma_imports_of_concat(a, b0);
        assert((a + b).drop_last() =~= a + b0);
        assert((a + b).last() == b.last());
        assert(plain_imports(a + b) =~= plain_imports(a) + plain_imports(b));
        assert(from_imports(a + b) =~= from_imports(a) + from_imports(b));
    }
}

/// Lists what the statements of a module import.
pub fn collect_imports(body: &Vec<PyStatement>) -> (r: Vec<String>)
    ensures
        r.deep_view() == imported_names(statements(body@)),
        forall|k: int|
            0 <= k < body.len() && (#[trigger] statements(body@)[k] matches StatementModel::ImportFrom(
                Some(m),
            )) ==> r.deep_view().contains(statements(body@)[k]->ImportFrom_0->0),
        forall|k: int, t: int|
            #![trigger statements(body@)[k]->Import_0[t]]
            0 <= k < body.len() && statements(body@)[k] is Import && 0 <= t
                < statements(body@)[k]->Import_0.len() ==> r.deep_view().contains(
                statements(body@)[k]->Import_0[t],
            ),
{
    let ghost b = statements(body@);
    proof {
        lemma_imported_names(b);
    }
    let mut names: Vec<String> = Vec::new();
    let mut i: usize = 0;
    while i < body.len()
        invariant
            b == statements(body@),
            i <= body.len(),
            names.deep_view() == plain_imports(b.subrange(0, i as int)),
        decreases body.len() - i,
    {
        let ghost before = names.deep_view();
        if let PyStatement::Import(list) = &body[i] {
            let mut k: usize = 0;
            while k < list.len()
                invariant
                    k <= list.len(),
                    names.deep_view() == before + list.deep_view().subrange(0, k as int),
                decreases list.len() - k,
            {
                let ghost prev = names.deep_view();
                names.push(list[k].clone());
                assert(names.deep_view() =~= prev.push(list.deep_view()[k as int]));
                assert(list.deep_view().subrange(0, k + 1) =~= list.deep_view().subrange(
                    0,
                    k as int,
                ).push(list.deep_view()[k as int]));
                k = k + 1;
            }
            assert(list.deep_view().subrange(0, k as int) =~= list.deep_view());
        }
        assert(b.subrange(0, i + 1).drop_last() =~= b.subrange(0, i as int));
        i = i + 1;
    }
    assert(b.subrange(0, i as int) =~= b);
    let ghost plain = names.deep_view();
    let mut i: usize = 0;
    while i < body.len()
        invariant
            b == statements(body@),
            i <= body.len(),
            names.deep_view() == plain + from_imports(b.subrange(0, i as int)),
        decreases body.len() - i,
    {
        let ghost before = names.deep_view();
        if let PyStatement::ImportFrom(Some(m)) = &body[i] {
            names.push(m.clone());
            assert(names.deep_view() =~= before.push(m@));
        }
        assert(b.subrange(0, i + 1).drop_last() =~= b.subrange(0, i as int));
        i = i + 1;
    }
    assert(b.subrange(0, i as int) =~= b);
    names
}

/// The names that the Python module `py_code` imports: those of its
/// `import` statements, then the modules of its `from ... import` statements.
pub fn extract_dependencies(py_code: &str) -> (r: Result<Vec<String>, std::io::Error>)
    requires
        python_module_body(py_code@) is Some,
    ensures
        r matches Ok(names) && names.deep_view() == imported_names(
            python_module_body(py_code@)->0,
        ),
{
    match parse_module(py_code) {
        Some(body) => Ok(collect_imports(&body)),
        None => Ok(Vec::new()),
    }
}

/// `extract_dependencies` where `py_code` is valid Python, `None` elsewhere.
pub fn try_extract_dependencies(py_code: &str) -> (r: Option<Vec<String>>)
    ensures
        r is Some <==> python_module_body(py_code@) is Some,
        r matches Some(names) ==> names.deep_view() == imported_names(
            python_module_body(py_code@)->0,
        ),
{
    if parse_module(py_code).is_none() {
        return None;
    }
    match extract_dependencies(py_code) {
        Ok(names) => Some(names),
        Err(_) => None,
    }
}

} // verus!
