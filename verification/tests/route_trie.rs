use fastry::app::App;
use fastry::string_map::StringMap;

fn route(pattern: &str, handler: &str) -> (String, String) {
    (pattern.to_string(), handler.to_string())
}

fn value<'a>(variables: &'a StringMap, key: &str) -> Option<&'a str> {
    variables.get(key).map(|s| s.as_str())
}

#[test]
fn literal_route_wins_over_parameter_route() {
    let mut app: App<u32> = App::new();
    app.register_routes(vec![
        route("/a/b", "app.py::literal"),
        route("/a/<id>", "app.py::parameter"),
    ]);
    let (handler, variables) = app.resolve_route("/a/b");
    assert_eq!(handler, Some("app.py::literal".to_string()));
    assert!(variables.is_empty());

    let (handler, variables) = app.resolve_route("/a/c");
    assert_eq!(handler, Some("app.py::parameter".to_string()));
    assert_eq!(value(&variables, "id"), Some("c"));
}

#[test]
fn literal_route_wins_whatever_the_order() {
    let mut app: App<u32> = App::new();
    app.register_routes(vec![
        route("/a/<id>", "app.py::parameter"),
        route("/a/b", "app.py::literal"),
        route("/<x>/b", "app.py::other"),
    ]);
    let (handler, variables) = app.resolve_route("/a/b");
    assert_eq!(handler, Some("app.py::literal".to_string()));
    assert_eq!(variables.len(), 0);
}

#[test]
fn exact_child_wins_over_parameter_child_at_each_level() {
    let mut app: App<u32> = App::new();
    app.register_routes(vec![
        route("/users/<id>/posts", "app.py::posts"),
        route("/users/me/<what>", "app.py::mine"),
    ]);
    let (handler, variables) = app.resolve_route("/users/me/posts");
    assert_eq!(handler, Some("app.py::mine".to_string()));
    assert_eq!(variables.len(), 1);
    assert_eq!(value(&variables, "what"), Some("posts"));

    let (handler, variables) = app.resolve_route("/users/7/posts");
    assert_eq!(handler, Some("app.py::posts".to_string()));
    assert_eq!(value(&variables, "id"), Some("7"));
}

#[test]
fn parameters_are_captured_by_name() {
    let mut app: App<u32> = App::new();
    app.register_routes(vec![route("/users/<id>/posts/<post_id>", "blog.py::show_post")]);
    let (handler, variables) = app.resolve_route("/users/42/posts/7");
    assert_eq!(handler, Some("blog.py::show_post".to_string()));
    assert_eq!(variables.len(), 2);
    assert_eq!(value(&variables, "id"), Some("42"));
    assert_eq!(value(&variables, "post_id"), Some("7"));
}

#[test]
fn query_string_does_not_change_the_handler() {
    let mut app: App<u32> = App::new();
    app.register_routes(vec![route("/a/<id>", "app.py::show")]);
    let (plain, plain_variables) = app.resolve_route("/a/b");
    let (with_query, variables) = app.resolve_route("/a/b?x=1&y=2");
    assert_eq!(plain, Some("app.py::show".to_string()));
    assert_eq!(with_query, plain);
    assert_eq!(plain_variables.len(), 1);
    assert_eq!(variables.len(), 3);
    assert_eq!(value(&variables, "x"), Some("1"));
    assert_eq!(value(&variables, "y"), Some("2"));
    assert_eq!(value(&variables, "id"), Some("b"));
}

#[test]
fn query_pairs_without_equals_sign_are_ignored() {
    let mut app: App<u32> = App::new();
    app.register_routes(vec![route("/a/<id>", "app.py::show")]);
    let (handler, variables) = app.resolve_route("/a/b?flag&x=1&&y=2=3&x=4");
    assert_eq!(handler, Some("app.py::show".to_string()));
    assert_eq!(variables.len(), 3);
    assert_eq!(value(&variables, "x"), Some("4"));
    assert_eq!(value(&variables, "y"), Some("2=3"));
    assert_eq!(value(&variables, "flag"), None);
}

#[test]
fn path_parameter_overrides_query_pair_of_the_same_name() {
    let mut app: App<u32> = App::new();
    app.register_routes(vec![route("/a/<id>", "app.py::show")]);
    let (_, variables) = app.resolve_route("/a/b?id=q");
    assert_eq!(variables.len(), 1);
    assert_eq!(value(&variables, "id"), Some("b"));
}

#[test]
fn literal_route_stored_whole_does_not_match_with_query() {
    let mut app: App<u32> = App::new();
    app.register_routes(vec![route("/a/b", "app.py::literal")]);
    let (handler, variables) = app.resolve_route("/a/b?x=1");
    assert_eq!(handler, None);
    assert_eq!(value(&variables, "x"), Some("1"));
}

#[test]
fn registering_again_replaces_the_handler() {
    let mut app: App<u32> = App::new();
    app.register_routes(vec![
        route("/a/<id>", "app.py::first"),
        route("/a/<id>", "app.py::second"),
        route("/lit", "app.py::one"),
        route("/lit", "app.py::two"),
    ]);
    assert_eq!(app.resolve_route("/a/5").0, Some("app.py::second".to_string()));
    assert_eq!(app.resolve_route("/lit").0, Some("app.py::two".to_string()));
}

#[test]
fn later_parameter_name_wins_on_a_shared_edge() {
    let mut app: App<u32> = App::new();
    app.register_routes(vec![
        route("/a/<first>/x", "app.py::x"),
        route("/a/<second>/y", "app.py::y"),
    ]);
    let (handler, variables) = app.resolve_route("/a/1/x");
    assert_eq!(handler, Some("app.py::x".to_string()));
    assert_eq!(value(&variables, "second"), Some("1"));
    assert_eq!(value(&variables, "first"), None);
}

#[test]
fn unknown_segment_ends_resolution_without_a_match() {
    let mut app: App<u32> = App::new();
    app.register_routes(vec![route("/users/<id>/posts", "app.py::posts")]);
    assert_eq!(app.resolve_route("/users/1/comments").0, None);
    assert_eq!(app.resolve_route("/nothing/1/posts").0, None);
    assert_eq!(app.resolve_route("/users/1/posts/extra").0, None);
    assert_eq!(app.resolve_route("/users/1").0, None);
    assert_eq!(app.resolve_route("").0, None);
    assert_eq!(app.resolve_route("users").0, None);
}

#[test]
fn variables_bound_before_a_miss_are_kept() {
    let mut app: App<u32> = App::new();
    app.register_routes(vec![route("/users/<id>/posts", "app.py::posts")]);
    let (handler, variables) = app.resolve_route("/users/9/comments?x=1");
    assert_eq!(handler, None);
    assert_eq!(value(&variables, "id"), Some("9"));
    assert_eq!(value(&variables, "x"), Some("1"));
}

#[test]
fn first_piece_of_a_path_is_dropped_even_if_not_empty() {
    let mut app: App<u32> = App::new();
    app.register_routes(vec![route("/users/<id>", "app.py::user")]);
    assert_eq!(app.resolve_route("ignored/users/3").0, Some("app.py::user".to_string()));
}

#[test]
fn empty_segments_of_a_pattern_are_skipped_but_the_last() {
    let mut app: App<u32> = App::new();
    app.register_routes(vec![
        route("//a///<id>", "app.py::inner"),
        route("/b/<id>/", "app.py::trailing"),
    ]);
    assert_eq!(app.resolve_route("/a/1").0, Some("app.py::inner".to_string()));
    assert_eq!(app.resolve_route("/b/1/").0, Some("app.py::trailing".to_string()));
    assert_eq!(app.resolve_route("/b/1").0, None);
}

#[test]
fn literal_pattern_replaces_the_node_stored_under_it() {
    let mut app: App<u32> = App::new();
    app.register_routes(vec![
        route("about/<id>", "app.py::about_id"),
        route("about", "app.py::about"),
    ]);
    assert_eq!(app.resolve_route("about").0, Some("app.py::about".to_string()));
    assert_eq!(app.resolve_route("/about/1").0, None);
}

#[test]
fn new_application_resolves_nothing() {
    let app: App<u32> = App::new();
    let (handler, variables) = app.resolve_route("/a?x=1");
    assert_eq!(handler, None);
    assert_eq!(variables.len(), 1);
}

#[test]
fn parameter_name_is_what_stands_between_the_brackets() {
    let mut app: App<u32> = App::new();
    app.register_routes(vec![
        route("/a/<open", "app.py::a"),
        route("/b/<>", "app.py::b"),
        route("/c/<", "app.py::c"),
        route("/d/<x>>", "app.py::d"),
        route("/e/<n>/CUSTOM_PARAM", "app.py::e"),
    ]);
    let (handler, variables) = app.resolve_route("/a/1");
    assert_eq!(handler, Some("app.py::a".to_string()));
    assert_eq!(value(&variables, "open"), Some("1"));
    let (_, variables) = app.resolve_route("/b/2");
    assert_eq!(value(&variables, ""), Some("2"));
    let (_, variables) = app.resolve_route("/c/3");
    assert_eq!(value(&variables, ""), Some("3"));
    let (_, variables) = app.resolve_route("/d/4");
    assert_eq!(value(&variables, "x>"), Some("4"));
    let (handler, variables) = app.resolve_route("/e/5/anything");
    assert_eq!(handler, Some("app.py::e".to_string()));
    assert_eq!(variables.len(), 2);
    assert_eq!(value(&variables, "n"), Some("5"));
    assert_eq!(value(&variables, "CUSTOM_PARAM"), Some("anything"));
}
