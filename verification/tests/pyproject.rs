use uv_detect::dependency::Dependency;
use uv_detect::pyproject::{dependency_entries, PyProject};

fn texts(deps: &Vec<Dependency>) -> Vec<String> {
    deps.iter().map(|d| d.to_string()).collect()
}

#[test]
fn entries_are_read_once_per_dependency() {
    let entries = vec!["Django~=5.1".to_string(), "requests".to_string(), "django>=4".to_string()];
    let project = PyProject::from_dependency_entries(&entries);
    assert_eq!(texts(&project.all_deps()), vec!["Django~=5.1", "requests"]);
}

#[test]
fn adding_keeps_what_was_declared() {
    let entries = vec!["Django~=5.1".to_string(), "requests".to_string()];
    let project = PyProject::from_dependency_entries(&entries);
    let new = vec![Dependency::parse("numpy~=2.0").unwrap(), Dependency::parse("DJANGO").unwrap()];
    let all = project.with_new_dependencies(&new);
    assert_eq!(texts(&all), vec!["Django~=5.1", "requests", "numpy~=2.0"]);
}

#[test]
fn entries_are_written_as_requirements() {
    let deps = vec![
        Dependency::parse("pandas[postgres,excel] >= 1.3.0").unwrap(),
        Dependency::parse("x").unwrap(),
    ];
    assert_eq!(dependency_entries(&deps), vec!["pandas[excel,postgres]>=1.3.0", "x"]);
}

#[test]
fn nothing_found_writes_nothing() {
    let project = PyProject::from_dependency_entries(&vec!["requests".to_string()]);
    assert!(project.dependencies_to_write(&Vec::new()).is_empty());
    let found = vec![Dependency::parse("numpy~=2.0").unwrap()];
    assert_eq!(texts(&project.dependencies_to_write(&found)), vec!["requests", "numpy~=2.0"]);
}

#[test]
fn text_declares_its_dependencies() {
    let text = "[project]\nname = \"example\"\ndependencies = [\"Django~=5.1\", \"requests\", \"django>=4\"]\n";
    let project = uv_detect::pyproject::try_pyproject_from_text(text).unwrap();
    assert_eq!(texts(&project.all_deps()), vec!["Django~=5.1", "requests"]);
    let empty = uv_detect::pyproject::try_pyproject_from_text("[project]\nname = \"x\"\n").unwrap();
    assert!(empty.all_deps().is_empty());
    assert!(uv_detect::pyproject::try_pyproject_from_text("[project\n").is_none());
    assert!(uv_detect::pyproject::try_pyproject_from_text("[project]\ndependencies = [1]\n").is_none());
    assert!(uv_detect::pyproject::try_pyproject_from_text("[project]\ndependencies = [\" x\"]\n").is_none());
}

#[test]
fn rewritten_text_declares_the_dependencies() {
    let text = "[project]\nname = \"example\"\ndependencies = []\n";
    let deps = vec![
        Dependency::parse("requests~=2.32").unwrap(),
        Dependency::parse("Django~=5.1.6").unwrap(),
    ];
    let out = uv_detect::pyproject::try_rewritten_pyproject(text, &deps).unwrap();
    assert_ne!(out, text);
    let back = uv_detect::pyproject::try_pyproject_from_text(&out).unwrap();
    let mut got = texts(&back.all_deps());
    got.sort();
    assert_eq!(got, vec!["Django~=5.1.6", "requests~=2.32"]);
    assert!(out.contains("\r\n"));
    assert!(uv_detect::pyproject::try_rewritten_pyproject("[project", &deps).is_none());
}

#[test]
fn rewriting_without_project_table_changes_no_entries() {
    let text = "name = \"x\"\n";
    let deps = vec![Dependency::parse("numpy").unwrap()];
    let out = uv_detect::pyproject::try_rewritten_pyproject(text, &deps).unwrap();
    assert!(!out.contains("numpy"));
    let back = uv_detect::pyproject::try_pyproject_from_text(&out).unwrap();
    assert!(back.all_deps().is_empty());
}

#[test]
fn rewritten_entries_come_out_sorted() {
    let text = "[project]\nname = \"example\"\n";
    let deps = vec![
        Dependency::parse("zeta").unwrap(),
        Dependency::parse("alpha").unwrap(),
    ];
    let out = uv_detect::pyproject::rewritten_pyproject(text, &deps);
    let back = uv_detect::pyproject::try_pyproject_from_text(&out).unwrap();
    assert_eq!(texts(&back.all_deps()), vec!["alpha", "zeta"]);
}
