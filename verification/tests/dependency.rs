use uv_detect::dependency::Dependency;

#[test]
fn test_can_parse_versionless() {
    let candidate = "Django";
    let res = Dependency::parse(candidate).unwrap();
    assert_eq!(res.name(), "Django");
}

#[test]
fn test_can_parse_versioned() {
    let candidate = "Django~=3.2";
    let res = Dependency::parse(candidate).unwrap();
    assert_eq!(res.name(), "Django");
    assert_eq!(res.version_spec(), Some(("~=".into(), "3.2".into())));
}

#[test]
fn test_can_parse_extras() {
    let candidate = "Django[mysql,redis]";
    let res = Dependency::parse(candidate).unwrap();
    assert_eq!(res.name(), "Django");
    assert!(res.extras().contains(&"mysql".to_string()));
    assert!(res.extras().contains(&"redis".to_string()));
}

#[test]
fn test_can_parse_markers() {
    let candidate = "pandas; platform_system != 'Windows'";
    let res = Dependency::parse(candidate).unwrap();
    assert_eq!(res.name(), "pandas");
    assert_eq!(res.markers(), Some("platform_system != 'Windows'".into()));
}

#[test]
fn test_can_parse_full_declaration() {
    let candidate = "pandas[excel,postgres]>=1.3.0; platform_system != 'Windows'";
    let res = Dependency::parse(candidate).unwrap();
    assert_eq!(res.name(), "pandas");
    assert!(res.extras().contains(&"excel".to_string()));
    assert!(res.extras().contains(&"postgres".to_string()));
    assert_eq!(res.version_spec(), Some((">=".into(), "1.3.0".into())));
    assert_eq!(res.markers(), Some("platform_system != 'Windows'".into()));
}

#[test]
fn test_to_string() {
    let candidate = "pandas[excel,postgres]>=1.3.0; platform_system != 'Windows'";
    let dep = Dependency::parse(candidate).unwrap();
    let res = dep.to_string();
    assert_eq!(res.as_str(), candidate);
}

#[test]
fn parse_rejects_input_without_leading_name_char() {
    assert!(Dependency::parse("").is_none());
    assert!(Dependency::parse(" Django").is_none());
    assert!(Dependency::parse("[x]").is_none());
    assert!(Dependency::parse("é").is_none());
}

#[test]
fn extras_are_trimmed_sorted_and_deduplicated() {
    let dep = Dependency::parse("pkg[ redis , mysql,redis ]").unwrap();
    assert_eq!(dep.extras(), vec!["mysql".to_string(), "redis".to_string()]);
    assert_eq!(dep.to_string(), "pkg[mysql,redis]");
}

#[test]
fn empty_brackets_give_one_empty_extra() {
    let dep = Dependency::parse("pkg[]").unwrap();
    assert_eq!(dep.extras(), vec!["".to_string()]);
    assert_eq!(dep.to_string(), "pkg[]");
}

#[test]
fn unclosed_bracket_is_not_extras() {
    let dep = Dependency::parse("pkg[a").unwrap();
    assert_eq!(dep.name(), "pkg");
    assert!(dep.extras().is_empty());
    assert_eq!(dep.to_string(), "pkg");
}

#[test]
fn every_operator_is_read() {
    for op in ["~=", "==", "!=", "<=", ">=", "===", "<", ">", "^"] {
        let dep = Dependency::parse(&format!("pkg {op} 1.0")).unwrap();
        assert_eq!(dep.version_spec(), Some((op.to_string(), "1.0".to_string())));
        assert_eq!(dep.to_string(), format!("pkg{op}1.0"));
    }
}

#[test]
fn operator_without_version_is_dropped() {
    let dep = Dependency::parse("pkg>=").unwrap();
    assert_eq!(dep.version_spec(), None);
    let dep = Dependency::parse("pkg~1.0").unwrap();
    assert_eq!(dep.version_spec(), None);
}

#[test]
fn markers_fall_back_to_white_space() {
    let dep = Dependency::parse("pkg; ").unwrap();
    assert_eq!(dep.markers(), Some(" ".to_string()));
    assert_eq!(dep.to_string(), "pkg;  ");
    let dep = Dependency::parse("pkg;").unwrap();
    assert_eq!(dep.markers(), None);
    let dep = Dependency::parse("pkg; a\nb").unwrap();
    assert_eq!(dep.markers(), Some("a".to_string()));
}

#[test]
fn names_compare_without_case() {
    let a = Dependency::parse("Django>=3").unwrap();
    let b = Dependency::parse("django").unwrap();
    let c = Dependency::parse("flask").unwrap();
    assert!(a == b);
    assert!(a != c);
}

#[test]
fn clone_keeps_everything() {
    let a = Dependency::parse("pandas[excel]>=1.3.0; python_version > '3'").unwrap();
    assert_eq!(a.clone().to_string(), a.to_string());
}

#[test]
fn written_requirement_reads_back() {
    for s in [
        "Django",
        "pandas[excel,postgres]>=1.3.0; platform_system != 'Windows'",
        "a.b-c_d [ x , y ] === 1.0 ;  m",
        "pkg[]",
        "pkg; \t",
        "pkg^2",
        "pkg<1.0;x",
    ] {
        let d = Dependency::parse(s).unwrap();
        let t = d.to_string();
        let e = Dependency::parse(&t).unwrap();
        assert_eq!(e.to_string(), t);
        assert_eq!(e.extras(), d.extras());
        assert_eq!(e.version_spec(), d.version_spec());
        assert_eq!(e.markers(), d.markers());
        assert_eq!(e.name(), d.name());
    }
}

#[test]
fn extras_order_does_not_change_the_text() {
    let a = Dependency::parse("x[b,a,c]").unwrap();
    let b = Dependency::parse("x[c , a,b,a]").unwrap();
    assert_eq!(a.to_string(), "x[a,b,c]");
    assert_eq!(a.to_string(), b.to_string());
}

#[test]
fn equality_is_an_equivalence() {
    let a = Dependency::parse("Flask").unwrap();
    let b = Dependency::parse("FLASK>=2").unwrap();
    let c = Dependency::parse("flask[async]").unwrap();
    assert!(a == a);
    assert!(a == b && b == a);
    assert!(b == c && a == c);
}
