use tsukuyomi_router::tree::Tree;

#[test]
fn empty() {
    let tree = Tree::default();
    assert!(tree.recognize(b"/").route.is_none());
}

#[test]
fn root_node() {
    let mut tree = Tree::default();
    tree.insert_route(b"/", 0).unwrap();

    assert_eq!(tree.recognize(b"/").route, Some(0));
}

#[test]
fn nested_url() {
    let mut tree = Tree::default();
    tree.insert_route(b"/books/23/chapters", 0).unwrap();

    assert_eq!(tree.recognize(b"/books/23/chapters").route, Some(0));

    assert!(tree.recognize(b"/").route.is_none());
    assert!(tree.recognize(b"/books/34/chapters").route.is_none());
    assert!(tree.recognize(b"/books/23/chapters/").route.is_none());
}

#[test]
fn multiple_routes() {
    let mut tree = Tree::default();
    tree.insert_route(b"/domains/mime", 0).unwrap();
    tree.insert_route(b"/domains/yours", 1).unwrap();

    assert_eq!(tree.recognize(b"/domains/mime").route, Some(0));
    assert_eq!(tree.recognize(b"/domains/yours").route, Some(1));

    assert!(tree.recognize(b"/domains/").route.is_none());
    assert!(tree.recognize(b"/domains/me").route.is_none());
}

#[test]
fn single_param() {
    let mut tree = Tree::default();
    tree.insert_route(b"/posts/:post", 0).unwrap();

    let recognize = tree.recognize(b"/posts/42");
    assert_eq!(recognize.route, Some(0));
    assert_eq!(recognize.params[0], (7, 9));
}

#[test]
fn recognize_param_with_suffix() {
    let mut tree = Tree::default();
    tree.insert_route(b"/posts/:post/edit", 0).unwrap();

    let recognize = tree.recognize(b"/posts/42/edit");
    assert_eq!(recognize.route, Some(0));
    assert_eq!(recognize.params[0], (7, 9));

    assert!(tree.recognize(b"/posts/42/new").route.is_none());
}

#[test]
fn many_params() {
    let mut tree = Tree::default();
    tree.insert_route(b"/:year/:month/:date", 0).unwrap();

    let recognize = tree.recognize(b"/2019/05/01");
    assert_eq!(recognize.route, Some(0));
    assert_eq!(recognize.params[0], (1, 5));
    assert_eq!(recognize.params[1], (6, 8));
    assert_eq!(recognize.params[2], (9, 11));
}

#[test]
fn param_with_static_segment() {
    let mut tree = Tree::default();
    tree.insert_route(b"/posts/new", 0).unwrap();
    tree.insert_route(b"/posts/:post", 1).unwrap();

    assert_eq!(tree.recognize(b"/posts/new").route, Some(0));

    let recognize = tree.recognize(b"/posts/10");
    assert_eq!(recognize.route, Some(1));
    assert_eq!(recognize.params[0], (7, 9));
}

#[test]
fn recognize_wildcard() {
    let mut tree = Tree::default();
    tree.insert_route(b"/static/*", 0).unwrap();

    let recognize = tree.recognize(b"/static/path/to/index.html");
    assert_eq!(recognize.route, Some(0));
    assert_eq!(recognize.wildcard, Some((8, 26)));
}

#[test]
fn recognize_wildcard_with_slug() {
    let mut tree = Tree::default();
    tree.insert_route(b"/static/*/index.html", 0).unwrap();

    let recognize = tree.recognize(b"/static/path/to/index.html");
    assert_eq!(recognize.route, Some(0));
    assert_eq!(recognize.wildcard, Some((8, 15)));
}

#[test]
fn many_wildcards() {
    let mut tree = Tree::default();
    tree.insert_route(b"/static/*/index.html", 0).unwrap();
    tree.insert_route(b"/static/*.html", 1).unwrap();

    assert_eq!(tree.recognize(b"/static/path/to/index.html").route, Some(0));
    assert_eq!(tree.recognize(b"/static/about.html").route, Some(1));
}

#[test]
fn scopes() {
    let mut tree = Tree::default();
    tree.insert_route(b"/path/to/index.html", 0).unwrap();

    tree.insert_scope(b"/path/", 0).unwrap();
    tree.insert_scope(b"/path/to", 1).unwrap();

    assert_eq!(tree.recognize(b"/path/foo").scopes, vec![0]);
    assert_eq!(tree.recognize(b"/path/to/index").scopes, vec![0, 1]);
    assert_eq!(tree.recognize(b"/pattern").scopes, vec![]);
}
