use fastry::discovery::{get_routes_for_file, ScanError};

fn lines(text: &[&str]) -> Vec<String> {
    text.iter().map(|s| s.to_string()).collect()
}

#[test]
fn routes_are_found_with_their_handlers() {
    let source = lines(&[
        "import fastry",
        "",
        "#->r /users/<id>  ",
        "",
        "def show_user (app, request):",
        "    return None",
        "  # ->r is no marker",
        "#->r /about",
        "async def about(app, request): pass",
        "def helper(x):",
    ]);
    let routes = get_routes_for_file("project/app.py", &source).unwrap();
    assert_eq!(
        routes,
        vec![
            ("/users/<id>".to_string(), "project/app.py::show_user".to_string()),
            ("/about".to_string(), "project/app.py::about".to_string()),
        ]
    );
}

#[test]
fn later_marker_replaces_a_pending_one_and_a_pending_one_at_the_end_is_dropped() {
    let source = lines(&["#->r /first", "#->r /second", "def f(a):", "#->r /third"]);
    let routes = get_routes_for_file("a.py", &source).unwrap();
    assert_eq!(routes, vec![("/second".to_string(), "a.py::f".to_string())]);
    assert_eq!(get_routes_for_file("a.py", &Vec::new()).unwrap(), Vec::new());
}

#[test]
fn route_begins_at_the_first_slash_of_the_marker_line() {
    let source = lines(&["x = 1 / 2 #->r /late", "def g():"]);
    let routes = get_routes_for_file("a.py", &source).unwrap();
    assert_eq!(routes, vec![("/ 2 #->r /late".to_string(), "a.py::g".to_string())]);
}

#[test]
fn marker_without_route_is_rejected() {
    let source = lines(&["#->r users", "def f():"]);
    assert_eq!(get_routes_for_file("a.py", &source), Err(ScanError::MarkerWithoutRoute));
}

#[test]
fn marker_without_definition_is_rejected() {
    let source = lines(&["#->r /users", "class Users:", "def f():"]);
    assert_eq!(get_routes_for_file("a.py", &source), Err(ScanError::MissingDefinition));
}

#[test]
fn definition_without_parameter_list_is_rejected() {
    let source = lines(&["#->r /users", "def users", "#->r /more"]);
    assert_eq!(get_routes_for_file("a.py", &source), Err(ScanError::MissingParameterList));
}
