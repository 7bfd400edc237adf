use std::io;
use uv_detect::dependency::Dependency;
use uv_detect::engine::evaluator::evaluate_dependencies;

#[test]
fn test_excludes_stdlib() -> Result<(), io::Error> {
    let candidates = vec!["os".to_string()];
    let res = evaluate_dependencies(candidates, Vec::new(), Vec::new(), vec!["os"], Vec::new())
        .unwrap();
    assert_eq!(res.len(), 0);
    Ok(())
}

#[test]
fn test_excludes_local_package() -> Result<(), io::Error> {
    let candidates = vec!["mymod".to_string()];
    let res = evaluate_dependencies(
        candidates,
        Vec::new(),
        vec!["mymod".to_string()],
        Vec::new(),
        Vec::new(),
    )
    .unwrap();
    assert_eq!(res.len(), 0);
    Ok(())
}

#[test]
fn test_excludes_existing_packages() -> Result<(), io::Error> {
    let candidates = vec!["django".to_string()];
    let res = evaluate_dependencies(
        candidates,
        vec![Dependency::parse("Django").unwrap()],
        Vec::new(),
        Vec::new(),
        Vec::new(),
    )
    .unwrap();
    assert_eq!(res.len(), 0);
    Ok(())
}

#[test]
fn test_remaps_irregular() -> Result<(), io::Error> {
    let candidates = vec!["AFQ".to_string()];
    let res = evaluate_dependencies(
        candidates,
        Vec::new(),
        Vec::new(),
        Vec::new(),
        vec![("AFQ", "pyAFQ")],
    )
    .unwrap();
    assert_eq!(res.len(), 1);
    assert!(res.contains(&Dependency::parse("pyAFQ").unwrap()));
    Ok(())
}

#[test]
fn one_requirement_per_dependency() {
    let candidates = vec![
        "requests".to_string(),
        "Requests".to_string(),
        "numpy".to_string(),
        "requests".to_string(),
    ];
    let res = evaluate_dependencies(candidates, Vec::new(), Vec::new(), Vec::new(), Vec::new())
        .unwrap();
    assert_eq!(res.len(), 2);
    assert!(res.contains(&Dependency::parse("requests").unwrap()));
    assert!(res.contains(&Dependency::parse("numpy").unwrap()));
}

#[test]
fn remapped_name_is_checked_against_existing() {
    let res = evaluate_dependencies(
        vec!["yaml".to_string(), "os".to_string(), "app".to_string()],
        vec![Dependency::parse("PyYAML>=6").unwrap()],
        vec!["app".to_string()],
        vec!["os"],
        vec![("yaml", "PyYAML")],
    )
    .unwrap();
    assert!(res.is_empty());
}
