use uv_detect::dependency::Dependency;
use uv_detect::engine::resolver::{
    index_url, resolve_from_index_reply, resolve_on_index, try_resolve_from_index_reply,
};

#[test]
fn index_url_names_the_package() {
    let dep = Dependency::parse("Django[x]>=1").unwrap();
    assert_eq!(index_url(&dep), "https://pypi.org/pypi/Django/json");
}

#[test]
fn resolved_dependency_is_pinned_compatibly() {
    let dep = Dependency::parse("Django[mysql]>=1; python_version > '3'").unwrap();
    let pinned = resolve_on_index(&dep, "5.1.6");
    assert_eq!(pinned.to_string(), "Django~=5.1.6");
    let bare = resolve_on_index(&dep, "");
    assert_eq!(bare.to_string(), "Django");
}

#[test]
fn reply_from_index_pins_the_dependency() {
    let dep = Dependency::parse("djangorestframework").unwrap();
    let body = r#"{"info": {"name": "djangorestframework", "version": "3.15.2"}}"#;
    assert_eq!(resolve_from_index_reply(&dep, body).to_string(), "djangorestframework~=3.15.2");
    let no_version = r#"{"info": {"version": 3}}"#;
    assert_eq!(resolve_from_index_reply(&dep, no_version).to_string(), "djangorestframework");
    assert!(try_resolve_from_index_reply(&dep, "not json").is_none());
    assert!(try_resolve_from_index_reply(&dep, "{}").is_some());
}
