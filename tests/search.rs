use application::{ApplicationService, Descriptor, DesktopEntry};
use fuzzy_matcher::skim::SkimMatcherV2;
use fuzzy_matcher::FuzzyMatcher;

fn named(id: &str, name: &str) -> Descriptor {
    Descriptor {
        id: id.to_string(),
        name: Some(name.to_string()),
        type_: None,
        categories: None,
        comment: None,
        exec_template: None,
        path: String::new(),
    }
}

fn ids(v: &[DesktopEntry]) -> Vec<String> {
    v.iter().map(|e| e.id.clone()).collect()
}

fn five() -> ApplicationService {
    let ds = vec![
        named("e", "Editor"),
        named("a", "Firefox"),
        named("c", "Files"),
        named("b", "Terminal"),
        named("d", "Fire Starter"),
    ];
    ApplicationService::new(vec![], &ds)
}

#[test]
fn pagination_without_query() {
    let s = five();
    assert_eq!(ids(&s.search(None, 1, 2)), vec!["b", "c"]);
    assert_eq!(ids(&s.search(Some(""), 3, 10)), vec!["d", "e"]);
    assert_eq!(ids(&s.search(None, 0, 0)), Vec::<String>::new());
    assert!(s.search(None, 5, 3).is_empty());
    assert!(s.search(None, 99, 3).is_empty());
    assert_eq!(s.search(None, 2, usize::MAX).len(), 3);
}

#[test]
fn filter_keeps_only_matches() {
    let s = five();
    let m = SkimMatcherV2::default();
    let r = s.search(Some("fire"), 0, 100);
    assert!(!r.is_empty());
    for e in &r {
        assert!(m.fuzzy_match(&e.name, "fire").is_some());
    }
    let expected: Vec<&str> = ["Editor", "Firefox", "Files", "Terminal", "Fire Starter"]
        .iter()
        .copied()
        .filter(|n| m.fuzzy_match(n, "fire").is_some())
        .collect();
    assert_eq!(r.len(), expected.len());
    assert!(ids(&r).iter().all(|i| i != "b"));
}

#[test]
fn ranking_is_monotonic() {
    let s = five();
    let m = SkimMatcherV2::default();
    let r = s.search(Some("fi"), 0, 100);
    let scores: Vec<i64> = r.iter().map(|e| m.fuzzy_match(&e.name, "fi").unwrap()).collect();
    for w in scores.windows(2) {
        assert!(w[0] >= w[1]);
    }
}

#[test]
fn ranked_pagination() {
    let s = five();
    let full = ids(&s.search(Some("fi"), 0, 100));
    assert_eq!(ids(&s.search(Some("fi"), 1, 1)), full[1..2].to_vec());
    assert!(s.search(Some("fi"), full.len(), 5).is_empty());
}

#[test]
fn no_match_gives_empty() {
    let s = five();
    assert!(s.search(Some("zzzz"), 0, 10).is_empty());
}
