use routinator::{GrammarError, Path, Route, Segment};

fn st(s: &str) -> Segment {
    Segment::Static(s.to_string())
}

fn path(p: &str) -> Path {
    Path::parse(p).unwrap()
}

#[test]
fn test_parser() {
    assert_eq!("".parse(), Ok(Path::Absolute(Vec::new())));
    assert_eq!(Path::parse("/"), Ok(Path::Absolute(Vec::new())));
    assert_eq!(Path::parse("///././/"), Ok(Path::Absolute(Vec::new())));
    assert_eq!(Path::parse("a/.."), Ok(Path::Absolute(Vec::new())));
    // above the root of an absolute path, `..` is dropped
    assert_eq!(Path::parse("a/.././.."), Ok(Path::Absolute(Vec::new())));

    assert_eq!(Path::parse("."), Ok(Path::Relative(Vec::new())));
    assert_eq!(Path::parse(".."), Ok(Path::Relative(vec![Segment::Parent])));

    assert_eq!(
        Path::parse("../a"),
        Ok(Path::Relative(vec![Segment::Parent, st("a")]))
    );

    assert_eq!(
        Path::parse("a/b/c/../../d"),
        Ok(Path::Absolute(vec![st("a"), st("d")]))
    );

    assert_eq!(
        Path::parse("./a/b/../../.."),
        Ok(Path::Relative(vec![Segment::Parent]))
    );

    assert_eq!(
        Path::parse("./../a/b/../."),
        Ok(Path::Relative(vec![Segment::Parent, st("a")]))
    );

    let route: Route = "users/:id/details".parse().unwrap();
    assert_eq!(
        route.segments(),
        &vec![
            st("users"),
            Segment::Parameter("id".to_string()),
            st("details")
        ]
    );
}

// Concatenation folds the addition's segments into the base's tail; an
// absolute addition stands as it is.
#[test]
fn test_concatenation() {
    assert_eq!(
        path("foo/bar").concat(&path("./test")),
        Path::Absolute(vec![st("foo"), st("bar"), st("test")])
    );

    assert_eq!(
        path("foo/bar").concat(&path("test")),
        Path::Absolute(vec![st("test")])
    );

    assert_eq!(
        path("./.././foo/bar/test-a").concat(&path("./test-b/../..")),
        Path::Relative(vec![Segment::Parent, st("foo"), st("bar")])
    );
}

#[test]
fn canonical_forms_cancel_ascension() {
    assert_eq!(path("/a/../b"), path("/b"));
    assert_eq!(path("/a/b/../../c"), path("/c"));
    // above the root of an absolute path, ascension floors
    assert_eq!(path("/").concat(&path("./../x")), path("/x"));
    assert_eq!(path("/a").concat(&path("./../../x")), path("/x"));
    assert_eq!(Path::parse("/../x"), Ok(Path::Absolute(vec![st("x")])));
    assert_eq!(path("/../x"), path("/x"));
    assert_eq!(path("/../../a/../.."), path("/"));
}

#[test]
fn relative_composition() {
    assert_eq!(path("../foo").concat(&path("./bar")), path("../foo/bar"));
    assert_eq!(path("../foo").concat(&path("../bar")), path("../bar"));
    assert_eq!(
        path("../foo").concat(&path("./bar")),
        Path::Relative(vec![Segment::Parent, st("foo"), st("bar")])
    );
}

#[test]
fn concat_empty_relative_is_identity() {
    for p in ["/", "/a/b", ".", "../x/y", "./a"] {
        let p = path(p);
        assert_eq!(p.concat(&Path::Relative(Vec::new())), p);
    }
}

#[test]
fn text_round_trip() {
    for (text, written) in [
        ("", "/"),
        ("/a/b", "/a/b"),
        ("a//b/", "/a/b"),
        (".", "."),
        ("../a", "./../a"),
        ("./x/../../y", "./../y"),
    ] {
        let p = path(text);
        assert_eq!(p.to_text(), written);
        assert_eq!(path(&p.to_text()), p);
    }
    let r = Route::parse("users/:id/*/**").unwrap();
    assert_eq!(r.to_text(), "/users/:id/*/**");
    assert_eq!(Route::parse(&r.to_text()).unwrap(), r);
    let r = Route::parse("admin/...").unwrap();
    assert_eq!(r.to_text(), "/admin/...");
    assert_eq!(Route::parse("").unwrap().to_text(), "/");
}

#[test]
fn grammar_errors() {
    assert_eq!(Path::parse("/a/:id"), Err(GrammarError::ParameterNotAllowed));
    assert_eq!(Path::parse("/a/*"), Err(GrammarError::WildcardNotAllowed));
    assert_eq!(Path::parse("/a/**"), Err(GrammarError::WildcardNotAllowed));
    assert_eq!(Path::parse("/a/..."), Err(GrammarError::ContinuationNotAllowed));
    assert_eq!(
        Route::parse("a/.../b"),
        Err(GrammarError::TrailingAfterContinuation)
    );
    assert_eq!(
        Route::parse("a/.../.."),
        Err(GrammarError::TrailingAfterContinuation)
    );
    assert_eq!(Route::parse(".."), Err(GrammarError::UnresolvableAscension));
    assert_eq!(Route::parse(":id/.."), Err(GrammarError::UnresolvableAscension));
    // trailing empty pieces after `...` are not segments
    assert!(Route::parse("a/.../").is_ok());
}

#[test]
fn pattern_tokens() {
    assert!(Route::parse("/a/:n/*/**/.../").is_ok());
    let r = Route::parse("::x/*/**").unwrap();
    assert_eq!(
        r.segments(),
        &vec![
            Segment::Parameter(":x".to_string()),
            Segment::Wildcard(routinator::WildcardKind::Single),
            Segment::Wildcard(routinator::WildcardKind::Full),
        ]
    );
    assert_eq!(r.len(), 3);
}

#[test]
fn skip_drops_leading_segments() {
    let p = path("/a/b/c");
    assert_eq!(p.skip(0), p);
    assert_eq!(p.skip(2), path("/c"));
    assert_eq!(p.skip(3), path("/"));
    assert_eq!(p.skip(7), path("/"));
    assert_eq!(path("../a").skip(1), path("./a"));
    assert_eq!(path("../a").skip(5), path("."));
    assert_eq!(p.len(), 3);
    assert!(p.is_absolute());
    assert!(!path("./a").is_absolute());
}

#[test]
fn parse_or_root_falls_back() {
    assert_eq!(Path::parse_or_root("/a/b"), path("/a/b"));
    assert_eq!(Path::parse_or_root("/:x"), path("/"));
    assert_eq!(Path::default(), path("/"));
}

#[test]
fn from_str_reads_like_parse() {
    assert_eq!("/a/../b".parse::<Path>(), Ok(path("/b")));
    assert_eq!("/../x".parse::<Path>(), Ok(Path::Absolute(vec![st("x")])));
    assert_eq!("/a/:id".parse::<Path>(), Err(GrammarError::ParameterNotAllowed));
    assert_eq!(
        "admin/.../x".parse::<Route>(),
        Err(GrammarError::TrailingAfterContinuation)
    );
}
