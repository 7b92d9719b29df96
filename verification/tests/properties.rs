use tsukuyomi_router::tree::Tree;
use tsukuyomi_router::{ErrorKind, Router};

#[test]
fn literal_routes_recognize_themselves() {
    let mut tree = Tree::default();
    let patterns: Vec<&[u8]> = vec![
        b"/",
        b"/foo",
        b"/foo/bar",
        b"/foo/zoo",
        b"/a/b/c/d",
        b"/index.html",
    ];
    for (id, p) in patterns.iter().enumerate() {
        tree.insert_route(p, id).unwrap();
    }
    for (id, p) in patterns.iter().enumerate() {
        let rec = tree.recognize(p);
        assert_eq!(rec.route, Some(id));
        assert!(rec.params.is_empty());
        assert!(rec.wildcard.is_none());
    }
}

#[test]
fn param_capture_slices_the_path() -> Result<(), tsukuyomi_router::Error> {
    let mut router = Router::new();
    router.add_route("/posts/:post", "the_post")?;

    let res = router.recognize("/posts/42");
    let (route, params) = res.route().expect("route");
    assert_eq!(*route.data(), "the_post");
    let params = params.expect("params");
    assert_eq!(params.get(0), Some(&b"42"[..]));
    assert_eq!(params.get(1), None);
    assert_eq!(params.name("post"), Some(&b"42"[..]));
    assert_eq!(params.name("nope"), None);
    Ok(())
}

#[test]
fn shared_literal_branch() {
    let mut tree = Tree::default();
    tree.insert_route(b"/foo/bar", 0).unwrap();
    tree.insert_route(b"/foo/zoo", 1).unwrap();

    // The two patterns share one literal branch for their common prefix.
    assert_eq!(tree.root.static_segments.len(), 1);
    assert_eq!(tree.root.static_segments[0].segment, b"/foo/".to_vec());

    assert_eq!(tree.recognize(b"/foo/bar").route, Some(0));
    assert_eq!(tree.recognize(b"/foo/zoo").route, Some(1));
    assert!(tree.recognize(b"/foo/ba").route.is_none());
}

#[test]
fn duplicate_route_conflicts() {
    let mut tree = Tree::default();
    tree.insert_route(b"/a/b", 0).unwrap();

    let err = tree.insert_route(b"/a/b", 1).unwrap_err();
    assert_eq!(err.kind(), ErrorKind::DuplicateRoute);

    // Re-registering the identical identifier is idempotent.
    let mut tree = Tree::default();
    tree.insert_route(b"/a/b", 0).unwrap();
    tree.insert_route(b"/a/b", 0).unwrap();
    assert_eq!(tree.recognize(b"/a/b").route, Some(0));
}

#[test]
fn wildcard_first_registered_slug_wins() {
    // Slugs are tried in registration order; the first whose suffix
    // matches the path wins, so the winner depends on that order.
    let mut tree = Tree::default();
    tree.insert_route(b"/static/*", 0).unwrap();
    tree.insert_route(b"/static/*/index.html", 1).unwrap();

    // The empty slug was registered first and matches any tail.
    let rec = tree.recognize(b"/static/a/b/index.html");
    assert_eq!(rec.route, Some(0));
    assert_eq!(rec.wildcard, Some((8, 22)));

    // Registered the other way round, the longer slug is tried first.
    let mut tree = Tree::default();
    tree.insert_route(b"/static/*/index.html", 1).unwrap();
    tree.insert_route(b"/static/*", 0).unwrap();

    let rec = tree.recognize(b"/static/a/b/index.html");
    assert_eq!(rec.route, Some(1));
    assert_eq!(rec.wildcard, Some((8, 11)));
}

#[test]
fn scope_accumulation_outer_to_inner() {
    let mut tree = Tree::default();
    tree.insert_scope(b"/api/", 0).unwrap();
    tree.insert_scope(b"/api/v1/", 1).unwrap();
    tree.insert_route(b"/api/v1/posts/new", 2).unwrap();

    let rec = tree.recognize(b"/api/v1/posts/new");
    assert_eq!(rec.route, Some(2));
    assert_eq!(rec.scopes, vec![0, 1]);

    let rec = tree.recognize(b"/api/v1/users");
    assert!(rec.route.is_none());
    assert_eq!(rec.scopes, vec![0, 1]);

    let rec = tree.recognize(b"/other");
    assert!(rec.route.is_none());
    assert!(rec.scopes.is_empty());
}

#[test]
fn invalid_marker_position_is_rejected() {
    let mut tree = Tree::default();
    let err = tree.insert_route(b"/a:b", 0).unwrap_err();
    assert_eq!(err.kind(), ErrorKind::InvalidPatternSyntax);

    let mut tree = Tree::default();
    let err = tree.insert_route(b"/files/x*", 0).unwrap_err();
    assert_eq!(err.kind(), ErrorKind::InvalidPatternSyntax);
}

#[test]
fn duplicate_wildcard_conflicts() {
    let mut tree = Tree::default();
    tree.insert_route(b"/s/*", 0).unwrap();
    let err = tree.insert_route(b"/s/*", 1).unwrap_err();
    assert_eq!(err.kind(), ErrorKind::DuplicateWildcard);

    // The identical identifier merges without conflict.
    tree.insert_route(b"/s/*", 0).unwrap();
    assert_eq!(tree.recognize(b"/s/anything").route, Some(0));
}

#[test]
fn no_backtracking_static_over_param() {
    // A static branch that consumes a prefix is never retried against the
    // parameter branch, even when only the latter could have completed.
    let mut tree = Tree::default();
    tree.insert_route(b"/:x", 0).unwrap();
    tree.insert_route(b"/fo", 1).unwrap();

    assert_eq!(tree.recognize(b"/bar").route, Some(0));
    assert_eq!(tree.recognize(b"/fo").route, Some(1));
    assert!(tree.recognize(b"/foo").route.is_none());
}

#[test]
fn duplicate_route_at_router_level() {
    let mut router = Router::new();
    router.add_route("/a/b", "first").unwrap();
    // The router always assigns a fresh identifier, so re-registration
    // necessarily conflicts.
    let err = router.add_route("/a/b", "second").unwrap_err();
    assert_eq!(err.kind(), ErrorKind::DuplicateRoute);
    // The failed registration is observable nowhere.
    assert_eq!(
        router.recognize("/a/b").route().map(|(r, _)| *r.data()),
        Some("first")
    );
}

#[test]
fn empty_param_value() {
    let mut tree = Tree::default();
    tree.insert_route(b"/a/:x/b", 0).unwrap();

    let rec = tree.recognize(b"/a//b");
    assert_eq!(rec.route, Some(0));
    assert_eq!(rec.params[0], (3, 3));
}

#[test]
fn wildcard_name_needs_declared_wildcard() -> Result<(), tsukuyomi_router::Error> {
    let mut router = Router::new();
    router.add_route("/posts/:post", "p")?;
    let res = router.recognize("/posts/7");
    let (_, params) = res.route().expect("route");
    let params = params.expect("params");
    // No wildcard was declared, so the reserved name resolves to nothing.
    assert_eq!(params.name("*"), None);
    assert_eq!(params.get_wildcard(), None);
    Ok(())
}

#[test]
fn params_survive_detaching() -> Result<(), tsukuyomi_router::Error> {
    let mut router = Router::new();
    router.add_route("/u/:id", "u")?;
    let owned = {
        let res = router.recognize("/u/99");
        let (_, params) = res.route().expect("route");
        params.expect("params").into_owned()
    };
    assert_eq!(owned.get(0), Some(&b"99"[..]));
    assert_eq!(owned.name("id"), Some(&b"99"[..]));
    Ok(())
}

#[test]
fn position_finds_first_occurrence() -> Result<(), tsukuyomi_router::Error> {
    let mut router = Router::new();
    router.add_route("/:a/:b/:a", "dup")?;
    let res = router.recognize("/1/2/3");
    let (route, params) = res.route().expect("route");
    let names = route.names.as_ref().expect("names");
    assert_eq!(names.position("a"), Some(0));
    assert_eq!(names.position("b"), Some(1));
    assert_eq!(names.position("c"), None);
    // The repeated name resolves to its first capture.
    assert_eq!(params.expect("params").name("a"), Some(&b"1"[..]));
    Ok(())
}

#[test]
fn empty_pattern_and_path() {
    let mut tree = Tree::default();
    tree.insert_route(b"", 0).unwrap();
    assert_eq!(tree.recognize(b"").route, Some(0));
    assert!(tree.recognize(b"/").route.is_none());
}

#[test]
fn scope_with_captured_params() -> Result<(), tsukuyomi_router::Error> {
    let mut router = Router::new();
    router.add_scope("/u/:id/", "user_scope")?;
    router.add_route("/u/:id/posts", "user_posts")?;

    let res = router.recognize("/u/7/posts");
    assert_eq!(res.route().map(|(r, _)| *r.data()), Some("user_posts"));
    let (scope, params) = res.scope().expect("scope");
    assert_eq!(*scope.data(), "user_scope");
    let params = params.expect("params");
    assert_eq!(params.get(0), Some(&b"7"[..]));
    assert_eq!(params.name("id"), Some(&b"7"[..]));
    Ok(())
}

#[test]
fn default_router_is_empty() {
    let router: Router<u32> = Router::default();
    assert!(router.recognize("/").route().is_none());
    assert!(router.recognize("/").scope().is_none());
}

#[test]
fn shared_param_node_keeps_each_pattern_name() -> Result<(), tsukuyomi_router::Error> {
    // Two patterns introduce differently-named parameters at the same trie
    // position; each keeps its own name list, so name lookup works for both.
    let mut router = Router::new();
    let a = router.add_route("/u/:id", "by_id")?;
    let b = router.add_route("/u/:uid/x", "by_uid")?;

    let ea = router.endpoint(a).unwrap();
    assert_eq!(ea.names.as_ref().unwrap().names, vec![b"id".to_vec()]);
    let eb = router.endpoint(b).unwrap();
    assert_eq!(eb.names.as_ref().unwrap().names, vec![b"uid".to_vec()]);

    let res = router.recognize("/u/9/x");
    let (route, params) = res.route().expect("route");
    assert_eq!(*route.data(), "by_uid");
    assert_eq!(params.expect("params").name("uid"), Some(&b"9"[..]));
    Ok(())
}

#[test]
fn failed_insert_changes_nothing() {
    // Syntax is validated and conflicts are probed before the tree is
    // touched, so a failed registration leaves recognition exactly as it
    // was — no leftover splits, no empty parameter child.
    let mut tree = Tree::default();
    tree.insert_route(b"/a/*", 0).unwrap();
    assert_eq!(tree.recognize(b"/a/zzz").route, Some(0));

    let err = tree.insert_route(b"/a/:x/q*q", 1).unwrap_err();
    assert_eq!(err.kind(), ErrorKind::InvalidPatternSyntax);
    let err = tree.insert_route(b"/a/*", 1).unwrap_err();
    assert_eq!(err.kind(), ErrorKind::DuplicateWildcard);

    assert_eq!(tree.recognize(b"/a/zzz").route, Some(0));
    assert_eq!(tree.recognize(b"/a/b/q").route, Some(0));
}

#[test]
fn marker_not_after_slash_is_rejected_mid_pattern() {
    // The whole pattern is validated up front: a marker that does not
    // stand immediately after a slash is rejected even where descending
    // an existing branch would reach it at the start of the remainder.
    let mut tree = Tree::default();
    tree.insert_route(b"/a", 0).unwrap();
    let err = tree.insert_route(b"/a:x", 1).unwrap_err();
    assert_eq!(err.kind(), ErrorKind::InvalidPatternSyntax);
    let err = tree.insert_route(b"*all", 2).unwrap_err();
    assert_eq!(err.kind(), ErrorKind::InvalidPatternSyntax);
    assert_eq!(tree.recognize(b"/a").route, Some(0));
}

#[test]
fn router_rejects_bad_syntax_without_side_effects() {
    let mut router = Router::new();
    let err = router.add_route("/x:y", "nope").unwrap_err();
    assert_eq!(err.kind(), ErrorKind::InvalidPatternSyntax);
    assert_eq!(router.len(), 0);
    assert!(router.recognize("/x:y").route().is_none());

    router.add_route("/s/*", "w").unwrap();
    let err = router.add_route("/s/*", "w2").unwrap_err();
    assert_eq!(err.kind(), ErrorKind::DuplicateWildcard);
    assert_eq!(router.len(), 1);
    assert_eq!(
        router.recognize("/s/deep/path").route().map(|(r, _)| *r.data()),
        Some("w")
    );
}
