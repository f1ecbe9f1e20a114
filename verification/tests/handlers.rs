use fastry::app::{App, RequestPlan};
use fastry::handler_cache::{split_handler_id, HandlerCache, HandlerLookup};
use fastry::request::RequestMethod;

fn load_of<H>(lookup: HandlerLookup<'_, H>) -> Option<(String, String)> {
    match lookup {
        HandlerLookup::Load { source_location, symbol_name } => Some((source_location, symbol_name)),
        _ => None,
    }
}

#[test]
fn handler_id_is_split_at_its_first_double_colon() {
    assert_eq!(
        split_handler_id("project/app.py::index"),
        Some(("project/app.py".to_string(), "index".to_string()))
    );
    assert_eq!(split_handler_id("a::b::c"), Some(("a".to_string(), "b::c".to_string())));
    assert_eq!(split_handler_id("a:::b"), Some(("a".to_string(), ":b".to_string())));
    assert_eq!(split_handler_id("::"), Some((String::new(), String::new())));
    assert_eq!(split_handler_id("a:b"), None);
    assert_eq!(split_handler_id(""), None);
    assert_eq!(split_handler_id(":"), None);
}

#[test]
fn handler_is_loaded_once_and_then_found() {
    let mut cache: HandlerCache<u32> = HandlerCache::new();
    let mut loads = 0;
    for _ in 0..2 {
        let to_load = load_of(cache.lookup("app.py::index"));
        if let Some((source_location, symbol_name)) = to_load {
            loads += 1;
            cache.insert(source_location, symbol_name, 41);
        }
        assert!(matches!(cache.lookup("app.py::index"), HandlerLookup::Cached(&41)));
    }
    assert_eq!(loads, 1);
    assert_eq!(cache.len(), 1);
}

#[test]
fn handler_never_looked_up_is_to_be_loaded() {
    let mut cache: HandlerCache<u32> = HandlerCache::new();
    cache.insert("app.py".to_string(), "index".to_string(), 1);
    assert_eq!(
        load_of(cache.lookup("app.py::other")),
        Some(("app.py".to_string(), "other".to_string()))
    );
    assert_eq!(
        load_of(cache.lookup("other.py::index")),
        Some(("other.py".to_string(), "index".to_string()))
    );
    assert_eq!(cache.len(), 1);
}

#[test]
fn first_handler_stored_for_a_pair_stays() {
    let mut cache: HandlerCache<u32> = HandlerCache::new();
    cache.insert("app.py".to_string(), "index".to_string(), 1);
    cache.insert("app.py".to_string(), "index".to_string(), 2);
    assert_eq!(cache.get(&"app.py".to_string(), &"index".to_string()), Some(&1));
    assert_eq!(cache.len(), 1);
    assert_eq!(cache.get(&"app.py".to_string(), &"none".to_string()), None);
}

#[test]
fn malformed_handler_id_is_neither_found_nor_loaded() {
    let cache: HandlerCache<u32> = HandlerCache::new();
    assert!(matches!(cache.lookup("no separator"), HandlerLookup::Malformed));
}

#[test]
fn application_keeps_handlers_and_application_object() {
    let mut app: App<String> = App::new();
    assert!(app.application_object().is_none());
    app.set_application("the application".to_string());
    assert_eq!(app.application_object(), Some(&"the application".to_string()));
    assert_eq!(
        load_of(app.find_handler("app.py::index")),
        Some(("app.py".to_string(), "index".to_string()))
    );
    app.save_handler("app.py".to_string(), "index".to_string(), "handler".to_string());
    assert!(matches!(app.find_handler("app.py::index"), HandlerLookup::Cached(h) if h == "handler"));
    assert!(matches!(app.find_handler("app.py"), HandlerLookup::Malformed));
}

#[test]
fn new_context_has_the_routes_but_not_the_handlers() {
    let mut app: App<u32> = App::new();
    app.register_routes(vec![
        ("/users/<id>/posts".to_string(), "app.py::posts".to_string()),
        ("/about".to_string(), "app.py::about".to_string()),
    ]);
    app.save_handler("app.py".to_string(), "posts".to_string(), 5);
    app.set_application(9);
    let mut copy = app.new_context();
    assert_eq!(copy.raw_routes(), app.raw_routes());
    assert_eq!(copy.raw_routes().len(), 2);
    assert_eq!(copy.raw_routes()[1], ("/about".to_string(), "app.py::about".to_string()));
    let (handler, variables) = copy.resolve_route("/users/3/posts");
    assert_eq!(handler, Some("app.py::posts".to_string()));
    assert_eq!(variables.get("id").map(|s| s.as_str()), Some("3"));
    assert_eq!(copy.resolve_route("/about").0, Some("app.py::about".to_string()));
    assert!(copy.application_object().is_none());
    assert!(matches!(copy.find_handler("app.py::posts"), HandlerLookup::Load { .. }));
    // the copy is independent of the application that it was made from
    copy.register_routes(vec![("/about".to_string(), "app.py::other".to_string())]);
    assert_eq!(copy.resolve_route("/about").0, Some("app.py::other".to_string()));
    assert_eq!(app.resolve_route("/about").0, Some("app.py::about".to_string()));
}

#[test]
fn request_for_a_route_is_to_be_invoked_with_its_variables() {
    let mut app: App<u32> = App::new();
    app.register_routes(vec![("/users/<id>".to_string(), "app.py::user".to_string())]);
    let raw = "GET /users/12?full=1 HTTP/1.1\r\nHost: example\r\n\r\n".to_string();
    match app.process_request(raw) {
        RequestPlan::Invoke { request, handler_id } => {
            assert_eq!(handler_id, "app.py::user");
            assert_eq!(request.method, RequestMethod::GET);
            assert_eq!(request.path, "/users/12?full=1");
            let variables = request.path_variables.unwrap();
            assert_eq!(variables.len(), 2);
            assert_eq!(variables.get("id").map(|s| s.as_str()), Some("12"));
            assert_eq!(variables.get("full").map(|s| s.as_str()), Some("1"));
        }
        RequestPlan::Respond(_) => panic!("the route was not found"),
    }
}

#[test]
fn request_without_route_or_form_gets_the_empty_response() {
    let mut app: App<u32> = App::new();
    app.register_routes(vec![("/users/<id>".to_string(), "app.py::user".to_string())]);
    let unknown = "GET /nothing HTTP/1.1\r\nHost: example\r\n\r\n".to_string();
    assert!(matches!(app.process_request(unknown), RequestPlan::Respond(text) if text.is_empty()));
    let malformed = "FETCH /users/1 HTTP/1.1\r\nHost: example\r\n\r\n".to_string();
    assert!(matches!(app.process_request(malformed), RequestPlan::Respond(text) if text.is_empty()));
    assert!(matches!(app.process_request(String::new()), RequestPlan::Respond(text) if text.is_empty()));
}
