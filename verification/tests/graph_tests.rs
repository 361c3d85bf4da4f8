use casset::dependencies::{Dependencies, DependencyResolver};
use casset::errors::CassetError;
use casset::paths::{normalize_notification, str_eq};
use casset::resolvers::{AssetResolver, EmbeddedResolver, FileSystemResolver};

fn reads_of(g: &Dependencies, path: &str) -> Vec<String> {
    for d in g.dependencies() {
        if d.path == path {
            return d.reads.clone();
        }
    }
    Vec::new()
}

#[test]
fn edge_symmetry_add_and_remove() {
    let mut g = Dependencies::new();
    g.register("a");
    g.register("b");
    g.add("a", "b");
    assert_eq!(g.get_dependents("b").unwrap(), vec!["a".to_string()]);
    assert_eq!(reads_of(&g, "a"), vec!["b".to_string()]);
    g.remove("a", "b");
    assert!(g.get_dependents("b").unwrap().is_empty());
    assert!(reads_of(&g, "a").is_empty());
}

#[test]
fn add_requires_both_endpoints() {
    let mut g = Dependencies::new();
    g.register("a");
    g.add("a", "b");
    assert!(!g.is_registered("b"));
    assert!(reads_of(&g, "a").is_empty());
    g.add("c", "a");
    assert!(g.get_dependents("a").unwrap().is_empty());
}

#[test]
fn add_twice_keeps_one_edge() {
    let mut g = Dependencies::new();
    g.register("a");
    g.register("b");
    g.add("a", "b");
    g.add("a", "b");
    assert_eq!(g.get_dependents("b").unwrap(), vec!["a".to_string()]);
}

#[test]
fn self_edges_are_legal() {
    let mut g = Dependencies::new();
    g.register("a");
    g.add("a", "a");
    assert_eq!(g.get_dependents("a").unwrap(), vec!["a".to_string()]);
}

#[test]
fn register_is_idempotent() {
    let mut g = Dependencies::new();
    g.register("a");
    g.register("b");
    g.add("a", "b");
    g.register("a");
    assert_eq!(reads_of(&g, "a"), vec!["b".to_string()]);
}

#[test]
fn unregister_twice_is_a_no_op() {
    let mut g = Dependencies::new();
    g.register("p");
    g.unregister("p");
    assert!(!g.is_registered("p"));
    g.unregister("p");
    assert!(!g.is_registered("p"));
}

#[test]
fn unregister_severs_edges_in_both_directions() {
    let mut g = Dependencies::new();
    g.register("a");
    g.register("b");
    g.register("c");
    g.add("a", "b");
    g.add("b", "c");
    g.unregister("b");
    assert!(!g.is_registered("b"));
    assert!(reads_of(&g, "a").is_empty());
    assert!(g.get_dependents("c").unwrap().is_empty());
}

#[test]
fn dependents_of_unregistered_path_is_none() {
    let g = Dependencies::new();
    assert!(g.get_dependents("nope").is_none());
}

#[test]
fn recording_resolver_collects_resolved_paths_once() {
    let mut e = EmbeddedResolver::new();
    e.insert("p", vec![1, 2]);
    let mut r = DependencyResolver::new(e);
    assert_eq!(r.record_resolve("p").unwrap(), vec![1, 2]);
    assert_eq!(r.record_resolve("p").unwrap(), vec![1, 2]);
    assert!(matches!(r.record_resolve("q"), Err(CassetError::NotFound)));
    assert_eq!(r.collect(), vec!["p".to_string()]);
    assert!(r.collect().is_empty());
}

#[test]
fn recording_resolver_forwards_the_trait_calls() {
    let mut e = EmbeddedResolver::new();
    e.insert("p", vec![7]);
    let mut r = DependencyResolver::new(e);
    assert_eq!(r.resolve("p").unwrap(), vec![7]);
    assert!(r.hot_swap_path().is_none());
    assert_eq!(r.collect(), vec!["p".to_string()]);
}

#[test]
fn embedded_resolver_lookup_and_insert() {
    let mut e = EmbeddedResolver::new();
    assert!(e.lookup("a").is_none());
    e.insert("a", vec![1]);
    e.insert("a", vec![2]);
    assert_eq!(e.lookup("a").unwrap(), &vec![1]);
    assert!(matches!(e.resolve("b"), Err(CassetError::NotFound)));
    assert_eq!(e.resolve("a").unwrap(), vec![1]);
}

#[test]
fn file_system_resolver_paths() {
    let f = FileSystemResolver::new("assets");
    assert_eq!(f.hot_swap_path(), Some("assets".to_string()));
    assert_eq!(f.full_path("img/a.png"), "assets/img/a.png");
}

#[test]
fn normalization_strips_base_and_separators() {
    assert_eq!(
        normalize_notification("res", "res/sub/a.txt"),
        Some("sub/a.txt".to_string())
    );
    assert_eq!(
        normalize_notification("res", "res\\sub\\a.txt"),
        Some("sub/a.txt".to_string())
    );
    assert_eq!(normalize_notification("res", "other/a.txt"), None);
    assert_eq!(normalize_notification("res", "reserve/x.txt"), None);
    assert_eq!(normalize_notification("res", "res"), Some(String::new()));
    assert_eq!(
        normalize_notification("res/", "res/a.txt"),
        Some("a.txt".to_string())
    );
    assert_eq!(normalize_notification("res", "re"), None);
    assert_eq!(normalize_notification("", "a.txt"), Some("a.txt".to_string()));
}

#[test]
fn string_equality_is_by_content() {
    assert!(str_eq("abc", "abc"));
    assert!(!str_eq("abc", "abd"));
    assert!(!str_eq("abc", "ab"));
    assert!(str_eq("", ""));
}

#[test]
fn error_messages_name_the_failure() {
    assert_eq!(CassetError::NotFound.message(), "asset not found");
    assert_eq!(
        CassetError::ReloadError("boom".to_string()).message(),
        "error while running reload routine: boom"
    );
    assert_eq!(CassetError::Other("x".to_string()).message(), "x");
}
