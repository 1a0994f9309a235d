use routinator::{
    Context, NavigationKind, Outcome, Params, Path, RootRegistry, Router, UsageError,
};

fn path(p: &str) -> Path {
    Path::parse(p).unwrap()
}

fn rendered(o: &Outcome) -> Option<usize> {
    match o {
        Outcome::Render(i) => Some(*i),
        _ => None,
    }
}

fn is_unchanged(o: &Outcome) -> bool {
    matches!(o, Outcome::Unchanged)
}

#[test]
fn second_root_fails_while_first_is_alive() {
    let mut registry = RootRegistry::new();
    let first = Router::root(&mut registry, "/").unwrap();
    assert!(registry.is_live());
    assert!(matches!(
        Router::root(&mut registry, "/"),
        Err(UsageError::DuplicateRoot)
    ));
    first.teardown(&mut registry);
    assert!(!registry.is_live());
    assert!(Router::root(&mut registry, "/").is_ok());
}

#[test]
fn dedupe_same_route_and_params() {
    let mut registry = RootRegistry::new();
    let mut r = Router::root(&mut registry, "/users/42").unwrap();
    assert_eq!(r.route("users/:id"), Ok(0));
    assert_eq!(r.route("files/*"), Ok(1));
    let first = r.mount().unwrap();
    assert_eq!(rendered(&first), Some(0));
    assert!(is_unchanged(&r.observe(path("/users/42"))));
    assert_eq!(rendered(&r.observe(path("/users/43"))), Some(0));
    assert_eq!(rendered(&r.observe(path("/files/a"))), Some(1));
    // same route, same (empty) captures: no new view
    assert!(is_unchanged(&r.observe(path("/files/b"))));
    assert!(matches!(r.observe(path("/nothing")), Outcome::Clear));
    assert!(is_unchanged(&r.observe(path("/still/nothing"))));
}

#[test]
fn second_mount_fails() {
    let mut registry = RootRegistry::new();
    let r = Router::root(&mut registry, "/a").unwrap();
    let mut child = r.nest();
    assert!(child.mount().is_ok());
    assert!(matches!(child.mount(), Err(UsageError::AlreadyMounted)));
}

#[test]
fn nested_router_evaluates_past_parent_consumption() {
    let mut registry = RootRegistry::new();
    let mut root = Router::root(&mut registry, "/users/42/posts").unwrap();
    root.route("users/:id/**").unwrap();
    assert_eq!(rendered(&root.mount().unwrap()), Some(0));
    let mut child = root.nest();
    assert_eq!(child.offset(), 2);
    child.route("posts").unwrap();
    child.route("comments").unwrap();
    assert_eq!(rendered(&child.mount().unwrap()), Some(0));
    assert_eq!(child.param("id"), Some("42".to_string()));
    assert_eq!(child.param("missing"), None);
    // a change before the child's window does not recompute it
    assert!(is_unchanged(&child.observe(path("/users/7/posts"))));
    assert_eq!(rendered(&child.observe(path("/users/7/comments"))), Some(1));
}

#[test]
fn innermost_param_wins() {
    let mut registry = RootRegistry::new();
    let mut root = Router::root(&mut registry, "/a/b").unwrap();
    root.route(":x/**").unwrap();
    root.mount().unwrap();
    let mut child = root.nest();
    child.route(":x").unwrap();
    child.mount().unwrap();
    assert_eq!(root.param("x"), Some("a".to_string()));
    assert_eq!(child.param("x"), Some("b".to_string()));
}

#[test]
fn no_match_redirects_to_default() {
    let mut registry = RootRegistry::new();
    let mut r = Router::root(&mut registry, "/unknown").unwrap();
    r.route("home").unwrap();
    r.default("/home").unwrap();
    match r.mount().unwrap() {
        Outcome::Redirect(p) => assert_eq!(p, path("/home")),
        _ => panic!("expected a redirect"),
    }
    assert_eq!(rendered(&r.observe(path("/home"))), Some(0));
}

#[test]
fn navigation_resolves_against_base() {
    let mut registry = RootRegistry::new();
    let mut root = Router::root(&mut registry, "/users/42/posts").unwrap();
    root.route("users/:id/**").unwrap();
    root.mount().unwrap();
    let child = root.nest();
    let nav = child.goto("./edit").unwrap();
    assert_eq!(nav.kind, NavigationKind::Push);
    assert_eq!(nav.target, path("/users/42/edit"));
    let nav = child.replace("/x").unwrap();
    assert_eq!(nav.kind, NavigationKind::Replace);
    assert_eq!(nav.target, path("/x"));
    assert_eq!(child.link_target("./../9").unwrap(), path("/users/9"));
    assert!(child.goto("/:bad").is_err());
}

#[test]
fn active_links() {
    let mut registry = RootRegistry::new();
    let mut root = Router::root(&mut registry, "/users/42/posts").unwrap();
    root.route("users/:id/**").unwrap();
    root.mount().unwrap();
    let child = root.nest();
    assert_eq!(child.is_active("./posts"), Ok(true));
    assert_eq!(child.is_active("./comments"), Ok(false));
    // a prefix of the location is not a match
    assert_eq!(root.is_active("/users"), Ok(false));
    assert_eq!(root.is_active("/users/42/posts"), Ok(true));
    assert_eq!(root.is_active("/users/42/posts/more"), Ok(false));
}

#[test]
fn bad_pattern_is_refused_at_registration() {
    let mut registry = RootRegistry::new();
    let mut r = Router::root(&mut registry, "/").unwrap();
    assert!(r.route("a/.../b").is_err());
    assert!(r.default("/:x").is_err());
}

#[test]
fn context_merge() {
    let mut outer = Params::new();
    outer.insert("a", "1");
    let base = Context { path: path("/a"), params: outer };
    let mut inner = Params::new();
    inner.insert("a", "2");
    let rel = Context { path: path("./b"), params: inner };
    let merged = base.clone().merge_opt(Some(rel));
    assert_eq!(merged.path, path("/a/b"));
    assert_eq!(merged.params.get("a"), Some(&"2".to_string()));
    let same = base.merge_opt(None);
    assert_eq!(same.path, path("/a"));
    assert_eq!(same.params.get("a"), Some(&"1".to_string()));
}

#[test]
fn mounted_router_renders_once_across_two_changes() {
    let mut registry = RootRegistry::new();
    let mut r = Router::root(&mut registry, "/").unwrap();
    r.route("a/*").unwrap();
    assert!(matches!(r.mount().unwrap(), Outcome::Clear));
    assert_eq!(rendered(&r.observe(path("/a/x"))), Some(0));
    assert!(is_unchanged(&r.observe(path("/a/y"))));
    // a relative location matches no route
    assert!(matches!(r.observe(path("./a/x")), Outcome::Clear));
}

#[test]
fn continuation_remainder_reaches_nested_router() {
    let mut registry = RootRegistry::new();
    let mut root = Router::root(&mut registry, "/admin/x/y").unwrap();
    root.route("admin/...").unwrap();
    assert_eq!(rendered(&root.mount().unwrap()), Some(0));
    assert_eq!(root.remainder(), Some(path("/x/y")));
    let child = root.nest();
    assert_eq!(child.offset(), 3);
    assert_eq!(child.delegated(), Some(&path("/x/y")));
    // the remainder follows the location without a new view
    assert!(is_unchanged(&root.observe(path("/admin/z"))));
    assert_eq!(root.remainder(), Some(path("/z")));
    assert!(root.is_mounted());
}
