use application::{ApplicationService, Descriptor, DesktopEntry};

fn desc(id: &str, name: Option<&str>, exec: Option<&str>) -> Descriptor {
    Descriptor {
        id: id.to_string(),
        name: name.map(|s| s.to_string()),
        type_: Some("Application".to_string()),
        categories: None,
        comment: None,
        exec_template: exec.map(|s| s.to_string()),
        path: format!("/usr/share/applications/{}.desktop", id),
    }
}

fn ids(v: &[DesktopEntry]) -> Vec<String> {
    v.iter().map(|e| e.id.clone()).collect()
}

fn all(s: &ApplicationService) -> Vec<DesktopEntry> {
    s.search(None, 0, usize::MAX)
}

#[test]
fn catalog_ordered_case_insensitively() {
    let ds = vec![
        desc("Zed", Some("Zed"), None),
        desc("alpha", Some("Alpha"), None),
        desc("Beta", Some("Beta"), None),
        desc("gamma", Some("Gamma"), None),
    ];
    let s = ApplicationService::new(vec!["en".to_string()], &ds);
    assert_eq!(ids(&all(&s)), vec!["alpha", "Beta", "gamma", "Zed"]);
    assert_eq!(s.locales(), &vec!["en".to_string()]);
}

#[test]
fn refresh_twice_gives_equal_catalogs() {
    let ds = vec![desc("b", Some("B"), Some("b")), desc("a", Some("A"), Some("a"))];
    let mut s = ApplicationService::new(vec![], &vec![desc("old", Some("Old"), None)]);
    s.refresh(&ds);
    let first: Vec<(String, String, Option<String>)> =
        all(&s).into_iter().map(|e| (e.id, e.name, e.exec_template)).collect();
    s.refresh(&ds);
    let second: Vec<(String, String, Option<String>)> =
        all(&s).into_iter().map(|e| (e.id, e.name, e.exec_template)).collect();
    assert_eq!(first, second);
    assert_eq!(first.len(), 2);
    assert_eq!(first[0].0, "a");
}

#[test]
fn refresh_replaces_whole_catalog() {
    let mut s = ApplicationService::new(vec![], &vec![desc("old", Some("Old"), None)]);
    s.refresh(&vec![desc("new", Some("New"), None)]);
    assert_eq!(ids(&all(&s)), vec!["new"]);
    assert!(s.get("old").is_none());
}

#[test]
fn case_insensitive_duplicate_ids_keep_last() {
    let ds = vec![desc("App", Some("First"), None), desc("app", Some("Second"), None)];
    let s = ApplicationService::new(vec![], &ds);
    let v = all(&s);
    assert_eq!(v.len(), 1);
    assert_eq!(v[0].id, "app");
    assert_eq!(v[0].name, "Second");
    assert!(s.get("App").is_none());
    assert_eq!(s.get("app").unwrap().name, "Second");
}

#[test]
fn empty_catalog() {
    let s = ApplicationService::new(vec![], &vec![]);
    assert!(all(&s).is_empty());
    assert!(s.search(Some("x"), 0, 10).is_empty());
    assert!(s.get("x").is_none());
    assert!(s.get_by_name("x").is_none());
}

#[test]
fn get_is_exact() {
    let s = ApplicationService::new(vec![], &vec![desc("firefox", Some("Firefox"), None)]);
    assert_eq!(s.get("firefox").unwrap().id, "firefox");
    assert!(s.get("Firefox").is_none());
    assert!(s.get("fire").is_none());
}

#[test]
fn name_lookup_prefers_exact_case() {
    let ds = vec![desc("a", Some("FOO"), None), desc("b", Some("foo"), None)];
    let s = ApplicationService::new(vec![], &ds);
    assert_eq!(s.get_by_name("foo").unwrap().id, "b");
    assert_eq!(s.get_by_name("FOO").unwrap().id, "a");
    assert_eq!(s.get_by_name("Foo").unwrap().id, "a");
    assert!(s.get_by_name("bar").is_none());
}

#[test]
fn name_lookup_falls_back_to_folded() {
    let ds = vec![desc("a", Some("Vim"), None), desc("b", Some("Neovim"), None)];
    let s = ApplicationService::new(vec![], &ds);
    assert_eq!(s.get_by_name("NEOVIM").unwrap().id, "b");
}

#[test]
fn normalizes_descriptors() {
    let mut d = desc("term", None, Some("xterm"));
    d.categories = Some(vec!["System".to_string(), "".to_string(), "Utility".to_string()]);
    d.comment = Some("A terminal".to_string());
    let s = ApplicationService::new(vec![], &vec![d, desc("x", Some("FireFox"), None)]);
    let t = s.get("term").unwrap();
    assert_eq!(t.name, "");
    assert_eq!(t.lower_name, "");
    assert_eq!(t.categories, vec!["System".to_string(), "Utility".to_string()]);
    assert_eq!(t.comment.as_deref(), Some("A terminal"));
    assert_eq!(t.type_.as_deref(), Some("Application"));
    assert_eq!(t.path, "/usr/share/applications/term.desktop");
    let x = s.get("x").unwrap();
    assert_eq!(x.lower_name, "firefox");
    assert!(x.categories.is_empty());
}
