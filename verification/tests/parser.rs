use std::io;
use uv_detect::engine::parser::{
    collect_imports, extract_dependencies, try_extract_dependencies, PyStatement,
};

#[test]
fn test_finds_both_types_of_imports() -> Result<(), io::Error> {
    let code = r#"
from django import db
import os
def is_odd(i):
  return bool(i & 1)
"#;
    let imports = extract_dependencies(code).unwrap();
    assert_eq!(imports.len(), 2); // Should only find test1.py
    assert!(imports.contains(&String::from("django")));
    assert!(imports.contains(&String::from("os")));
    Ok(())
}

#[test]
fn plain_imports_come_before_from_imports() {
    let code = "from a import b\nimport c.d, e as f\nfrom . import g\nfrom h.i import j\n";
    let imports = extract_dependencies(code).unwrap();
    assert_eq!(imports, vec!["c.d", "e", "a", "h.i"]);
}

#[test]
fn invalid_python_gives_none() {
    assert!(try_extract_dependencies("def (:").is_none());
    assert_eq!(try_extract_dependencies("import x").unwrap(), vec!["x"]);
}

#[test]
fn statements_are_collected_in_order() {
    let body = vec![
        PyStatement::ImportFrom(Some("m".to_string())),
        PyStatement::Other,
        PyStatement::Import(vec!["a".to_string(), "b".to_string()]),
        PyStatement::ImportFrom(None),
        PyStatement::Import(vec!["c".to_string()]),
    ];
    assert_eq!(collect_imports(&body), vec!["a", "b", "c", "m"]);
}
