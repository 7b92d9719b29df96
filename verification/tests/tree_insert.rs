use tsukuyomi_router::tree::{Node, StaticSegment, Tree, WildcardSegment};

#[test]
fn root() {
    let mut tree = Tree::default();
    tree.insert_route(b"/", 0).unwrap();

    assert_eq!(
        tree.root,
        Node {
            static_segments: vec![StaticSegment {
                segment: "/".into(),
                child: Node {
                    route: Some(0),
                    ..Default::default()
                }
            },],
            ..Default::default()
        }
    );
}

#[test]
fn inclusive() {
    let mut tree = Tree::default();
    tree.insert_route(b"/foo", 0).unwrap();
    tree.insert_route(b"/foo/bar", 1).unwrap();

    assert_eq!(
        tree.root,
        Node {
            static_segments: vec![StaticSegment {
                segment: "/foo".into(),
                child: Node {
                    route: Some(0),
                    static_segments: vec![StaticSegment {
                        segment: "/bar".into(),
                        child: Node {
                            route: Some(1),
                            ..Default::default()
                        },
                    }],
                    ..Default::default()
                }
            }],
            ..Default::default()
        }
    );
}

#[test]
fn different_suffix() {
    let mut tree = Tree::default();
    tree.insert_route(b"/foo/bar", 0).unwrap();
    tree.insert_route(b"/foo/zoo", 1).unwrap();

    assert_eq!(
        tree.root,
        Node {
            static_segments: vec![StaticSegment {
                segment: "/foo/".into(),
                child: Node {
                    static_segments: vec![
                        StaticSegment {
                            segment: "bar".into(),
                            child: Node {
                                route: Some(0),
                                ..Default::default()
                            },
                        },
                        StaticSegment {
                            segment: "zoo".into(),
                            child: Node {
                                route: Some(1),
                                ..Default::default()
                            }
                        },
                    ],
                    ..Default::default()
                }
            }],
            ..Default::default()
        }
    );
}

#[test]
fn insert_param() {
    let mut tree = Tree::default();
    let params = tree.insert_route(b"/posts/:post", 0).unwrap();

    assert_eq!(
        tree.root,
        Node {
            static_segments: vec![StaticSegment {
                segment: "/posts/".into(),
                child: Node {
                    param_segment: Some(Box::new(Node {
                        route: Some(0),
                        ..Default::default()
                    })),
                    ..Default::default()
                },
            }],
            ..Default::default()
        }
    );

    assert_eq!(params.unwrap().names, vec![b"post".to_vec()]);
}

#[test]
fn insert_param_with_suffix() {
    let mut tree = Tree::default();
    let params = tree.insert_route(b"/posts/:post/edit", 0).unwrap();

    assert_eq!(
        tree.root,
        Node {
            static_segments: vec![StaticSegment {
                segment: "/posts/".into(),
                child: Node {
                    param_segment: Some(Box::new(Node {
                        static_segments: vec![StaticSegment {
                            segment: "/edit".into(),
                            child: Node {
                                route: Some(0),
                                ..Default::default()
                            },
                        }],
                        ..Default::default()
                    })),
                    ..Default::default()
                },
            }],
            ..Default::default()
        }
    );

    assert_eq!(params.unwrap().names, vec![b"post".to_vec()]);
}

#[test]
fn parameters() {
    let mut tree = Tree::default();
    let p1 = tree.insert_route(b"/users/:id", 0).unwrap();
    let p2 = tree.insert_route(b"/users/:id/books", 1).unwrap();
    let p3 = tree.insert_route(b"/users/admin/books", 2).unwrap();

    assert_eq!(
        tree.root,
        Node {
            static_segments: vec![StaticSegment {
                segment: "/users/".into(),
                child: Node {
                    static_segments: vec![StaticSegment {
                        segment: "admin/books".into(),
                        child: Node {
                            route: Some(2),
                            ..Default::default()
                        },
                    }],
                    param_segment: Some(Box::new(Node {
                        route: Some(0),
                        static_segments: vec![StaticSegment {
                            segment: "/books".into(),
                            child: Node {
                                route: Some(1),
                                ..Default::default()
                            },
                        }],
                        ..Default::default()
                    })),
                    ..Default::default()
                },
            }],
            ..Default::default()
        }
    );

    assert_eq!(p1.unwrap().names, vec![b"id".to_vec()]);
    assert_eq!(p2.unwrap().names, vec![b"id".to_vec()]);
    assert!(p3.is_none());
}

#[test]
fn insert_wildcard() {
    let mut tree = Tree::default();
    let params = tree.insert_route(b"/static/*", 0).unwrap();

    assert_eq!(
        tree.root,
        Node {
            static_segments: vec![StaticSegment {
                segment: "/static/".into(),
                child: Node {
                    wildcard_segments: vec![WildcardSegment {
                        slug: "".into(),
                        child: Node {
                            route: Some(0),
                            ..Default::default()
                        },
                    }],
                    ..Default::default()
                },
            }],
            ..Default::default()
        }
    );
    assert!(params.map_or(false, |p| p.has_wildcard));
}

#[test]
fn insert_wildcard_with_slug() {
    let mut tree = Tree::default();
    let params = tree.insert_route(b"/static/*/index.html", 0).unwrap();

    assert_eq!(
        tree.root,
        Node {
            static_segments: vec![StaticSegment {
                segment: "/static/".into(),
                child: Node {
                    wildcard_segments: vec![WildcardSegment {
                        slug: "/index.html".into(),
                        child: Node {
                            route: Some(0),
                            ..Default::default()
                        },
                    }],
                    ..Default::default()
                },
            }],
            ..Default::default()
        }
    );
    assert!(params.map_or(false, |p| p.has_wildcard));
}

#[test]
fn wildcard_with_different_slugs() {
    let mut tree = Tree::default();
    tree.insert_route(b"/static/*/index.html", 0).unwrap();
    tree.insert_route(b"/static/*/index.js", 1).unwrap();

    assert_eq!(
        tree.root,
        Node {
            static_segments: vec![StaticSegment {
                segment: "/static/".into(),
                child: Node {
                    wildcard_segments: vec![
                        WildcardSegment {
                            slug: "/index.html".into(),
                            child: Node {
                                route: Some(0),
                                ..Default::default()
                            },
                        },
                        WildcardSegment {
                            slug: "/index.js".into(),
                            child: Node {
                                route: Some(1),
                                ..Default::default()
                            },
                        },
                    ],
                    ..Default::default()
                },
            }],
            ..Default::default()
        }
    );
}
