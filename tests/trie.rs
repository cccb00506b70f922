use yahf::handle_selector::HandlerSelect;
use yahf::path::{is_parameter_declaration, split_path};

#[test]
fn split_drops_empty_segments() {
    assert_eq!(split_path("/users//42/"), vec!["users".to_string(), "42".to_string()]);
    assert_eq!(split_path("/"), Vec::<String>::new());
    assert_eq!(split_path(""), Vec::<String>::new());
    assert_eq!(split_path("a/b"), vec!["a".to_string(), "b".to_string()]);
}

#[test]
fn wildcard_segments_are_braced() {
    assert!(is_parameter_declaration("{id}"));
    assert!(is_parameter_declaration("{}"));
    assert!(!is_parameter_declaration("{"));
    assert!(!is_parameter_declaration("}"));
    assert!(!is_parameter_declaration("id"));
    assert!(!is_parameter_declaration("{id"));
    assert!(!is_parameter_declaration(""));
}

#[test]
fn literal_path_is_found_after_insert() {
    let mut t: HandlerSelect<u32> = HandlerSelect::new();
    t.insert("/path/to", 7);
    assert_eq!(t.get("/path/to"), Some(&7));
    assert_eq!(t.get("path/to/"), Some(&7));
    assert_eq!(t.get("/path/from"), None);
    assert_eq!(t.get("/path"), None);
    assert_eq!(t.get("/path/to/more"), None);
}

#[test]
fn root_path_has_its_own_handler() {
    let mut t: HandlerSelect<u32> = HandlerSelect::new();
    assert_eq!(t.get("/"), None);
    t.insert("/", 1);
    assert_eq!(t.get("/"), Some(&1));
    assert_eq!(t.get(""), Some(&1));
    assert_eq!(t.get("/x"), None);
}

#[test]
fn literal_beats_wildcard_sibling() {
    let mut t: HandlerSelect<&str> = HandlerSelect::new();
    t.insert("/{id}", "wildcard");
    t.insert("/users", "literal");
    assert_eq!(t.get("/users"), Some(&"literal"));
    assert_eq!(t.get("/other"), Some(&"wildcard"));
}

#[test]
fn lookup_does_not_backtrack_to_the_wildcard() {
    let mut t: HandlerSelect<&str> = HandlerSelect::new();
    t.insert("/users/list", "list");
    t.insert("/{id}/show", "show");
    assert_eq!(t.get("/users/show"), None);
    assert_eq!(t.get("/7/show"), Some(&"show"));
}

#[test]
fn wildcard_names_collapse() {
    let mut t: HandlerSelect<u32> = HandlerSelect::new();
    t.insert("/a/{x}/b", 1);
    assert!(t.contains("/a/{y}/b"));
    assert!(!t.contains("/a/{y}/c"));
    assert_eq!(t.get("/a/anything/b"), Some(&1));
}

#[test]
fn lookup_is_repeatable() {
    let mut t: HandlerSelect<u32> = HandlerSelect::new();
    t.insert("/a/b", 3);
    let first = t.get("/a/b").copied();
    let second = t.get("/a/b").copied();
    assert_eq!(first, Some(3));
    assert_eq!(first, second);
    assert_eq!(t.get("/a/c"), t.get("/a/c"));
}

#[test]
fn second_insert_at_same_path_is_refused() {
    let mut t: HandlerSelect<u32> = HandlerSelect::new();
    assert!(!t.contains("/a/b"));
    t.insert("/a/b", 1);
    assert!(t.contains("/a/b"));
    assert!(!t.contains("/a/c"));
    t.insert("/a/c", 2);
    assert_eq!(t.get("/a/b"), Some(&1));
    assert_eq!(t.get("/a/c"), Some(&2));
    assert!(!t.contains("/a"));
}

#[test]
fn extend_moves_every_handler() {
    let mut parent: HandlerSelect<u32> = HandlerSelect::new();
    parent.insert("/a", 1);
    let mut child: HandlerSelect<u32> = HandlerSelect::new();
    child.insert("/b", 2);
    child.insert("/b/{id}/c", 3);
    child.insert("/a/deeper", 4);
    parent.extend(child);
    assert_eq!(parent.get("/a"), Some(&1));
    assert_eq!(parent.get("/b"), Some(&2));
    assert_eq!(parent.get("/b/9/c"), Some(&3));
    assert_eq!(parent.get("/a/deeper"), Some(&4));
    assert_eq!(parent.get("/c"), None);
}

#[test]
fn apply_maps_every_handler() {
    let mut t: HandlerSelect<u32> = HandlerSelect::new();
    t.insert("/a", 1);
    t.insert("/a/{x}", 2);
    t.apply(|h: u32| h * 10);
    assert_eq!(t.get("/a"), Some(&10));
    assert_eq!(t.get("/a/z"), Some(&20));
    assert_eq!(t.get("/"), None);
}

#[test]
fn overlaps_sees_a_shared_pattern() {
    let mut a: HandlerSelect<u32> = HandlerSelect::new();
    a.insert("/x/{id}", 1);
    a.insert("/y", 2);
    let mut b: HandlerSelect<u32> = HandlerSelect::new();
    b.insert("/x", 3);
    b.insert("/x/{other}/z", 4);
    assert!(!a.overlaps(&b));
    b.insert("/x/{name}", 5);
    assert!(a.overlaps(&b));
    assert!(b.overlaps(&a));
}

#[test]
fn registered_wildcard_text_finds_its_handler() {
    let mut t: HandlerSelect<u32> = HandlerSelect::new();
    t.insert("/a/{id}", 1);
    t.insert("/a/b/c", 2);
    assert_eq!(t.get("/a/{id}"), Some(&1));
    assert_eq!(t.get("/a/{other}"), Some(&1));
    assert_eq!(t.get("/a/zzz"), Some(&1));
    assert_eq!(t.get("/b/zzz"), None);
    assert_eq!(t.get("/a/b/c"), Some(&2));
}
