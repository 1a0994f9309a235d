use routinator::{Params, Path, Route};

fn path(p: &str) -> Path {
    Path::parse(p).unwrap()
}

fn route(r: &str) -> Route {
    Route::parse(r).unwrap()
}

#[test]
fn parameter_capture() {
    let m = route("users/:id").matches(&path("/users/42"), 0).unwrap();
    assert_eq!(m.params.get("id"), Some(&"42".to_string()));
    assert_eq!(m.consumed, 2);
    assert!(m.remainder.is_none());
    assert!(route("users/:id").matches(&path("/users"), 0).is_none());
}

#[test]
fn continuation_captures_the_rest() {
    let m = route("admin/...").matches(&path("/admin/x/y"), 0).unwrap();
    assert_eq!(m.remainder, Some(path("/x/y")));
    assert_eq!(m.consumed, 3);
    let m = route("admin/...").matches(&path("/admin"), 0).unwrap();
    assert_eq!(m.remainder, Some(path("/")));
    assert_eq!(m.consumed, 1);
}

#[test]
fn no_implicit_prefix_match() {
    assert!(route("users").matches(&path("/users/42"), 0).is_none());
    assert!(route("users").matches(&path("/users"), 0).is_some());
    assert!(route("users").matches(&path("/posts"), 0).is_none());
}

#[test]
fn wildcards() {
    let m = route("a/*/c").matches(&path("/a/b/c"), 0).unwrap();
    assert_eq!(m.consumed, 3);
    assert!(route("a/*").matches(&path("/a"), 0).is_none());
    let m = route("a/**").matches(&path("/a/b/c"), 0).unwrap();
    assert_eq!(m.consumed, 1);
    assert!(m.remainder.is_none());
    let m = route("a/**").matches(&path("/a"), 0).unwrap();
    assert_eq!(m.consumed, 1);
    // later pattern segments are unreachable after `**`
    assert!(route("a/**/z").matches(&path("/a/b"), 0).is_some());
}

#[test]
fn matching_skips_leading_segments() {
    let m = route(":id").matches(&path("/users/7"), 1).unwrap();
    assert_eq!(m.params.get("id"), Some(&"7".to_string()));
    assert_eq!(m.consumed, 1);
    assert!(route("").matches(&path("/users/7"), 2).is_some());
    assert!(route("").matches(&path("/users/7"), 9).is_some());
}

#[test]
fn last_capture_of_a_name_wins() {
    let m = route(":x/:x").matches(&path("/a/b"), 0).unwrap();
    assert_eq!(m.params.get("x"), Some(&"b".to_string()));
}

#[test]
fn params_map() {
    let mut p = Params::new();
    assert_eq!(p.get("a"), None);
    p.insert("a", "1");
    p.insert("b", "2");
    p.insert("a", "3");
    assert_eq!(p.get("a"), Some(&"3".to_string()));
    assert_eq!(p.get("b"), Some(&"2".to_string()));

    let mut q = Params::new();
    q.insert("b", "2");
    q.insert("a", "3");
    assert!(p.equals(&q));
    q.insert("c", "4");
    assert!(!p.equals(&q));
    assert!(!q.equals(&p));

    let mut inner = Params::new();
    inner.insert("a", "inner");
    let m = p.merged(&inner);
    assert_eq!(m.get("a"), Some(&"inner".to_string()));
    assert_eq!(m.get("b"), Some(&"2".to_string()));
    assert!(p.duplicate().equals(&p));
}

#[test]
fn relative_paths_match_nothing() {
    assert!(route("x").matches(&path("./x"), 0).is_none());
    assert!(route("").matches(&path("."), 0).is_none());
    assert!(route("...").matches(&path("../a"), 0).is_none());
    assert!(route("x").matches(&path("/x"), 0).is_some());
}

#[test]
fn params_compare_as_maps() {
    let mut a = Params::new();
    a.insert("x", "1");
    a.insert("y", "2");
    let mut b = Params::new();
    b.insert("y", "2");
    b.insert("x", "0");
    assert!(a != b);
    b.insert("x", "1");
    assert!(a == b);
}
