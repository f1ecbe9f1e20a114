use fastry::request::{ProcessedRequest, Request, RequestError, RequestMethod};
use fastry::string_map::StringMap;

fn text(s: &str) -> String {
    s.to_string()
}

fn header<'a>(headers: &'a StringMap, key: &str) -> Option<&'a str> {
    headers.get(key).map(|s| s.as_str())
}

#[test]
fn request_is_read_from_its_text() {
    let raw = "POST /users/1?x=2 HTTP/1.1\r\nHost: example.org\r\nContent-Type: text/plain\r\n\r\nhello\r\nworld";
    let request = Request::from_string(text(raw)).unwrap();
    assert_eq!(request.method, RequestMethod::POST);
    assert_eq!(request.path, "/users/1?x=2");
    assert_eq!(request.http_version, "HTTP/1.1");
    assert_eq!(request.raw_headers, "Host: example.org\r\nContent-Type: text/plain");
    assert_eq!(request.raw_body, "hello\r\nworld");
    assert_eq!(request.raw_request, "");
    assert!(request.json.is_none());
    assert!(request.headers.is_none());
    assert!(request.path_variables.is_none());
}

#[test]
fn every_known_method_is_read() {
    let methods = [
        ("GET", RequestMethod::GET),
        ("POST", RequestMethod::POST),
        ("PUT", RequestMethod::PUT),
        ("PATCH", RequestMethod::PATCH),
        ("DELETE", RequestMethod::DELETE),
        ("HEAD", RequestMethod::HEAD),
    ];
    for (name, method) in methods {
        let raw = format!("{} / HTTP/1.1\r\nA: b\r\n\r\n", name);
        assert_eq!(Request::from_string(raw).unwrap().method, method);
    }
}

#[test]
fn request_line_with_fewer_or_more_pieces() {
    let request = Request::from_string(text("GET\r\nA: b\r\n\r\n")).unwrap();
    assert_eq!(request.path, "");
    assert_eq!(request.http_version, "");
    let request = Request::from_string(text("GET  /x HTTP/1.1 extra\r\nA: b\r\n\r\n")).unwrap();
    assert_eq!(request.path, "");
    assert_eq!(request.http_version, "/x");
    let request = Request::from_string(text("GET /é HTTP/2 more and more\r\nA: b\r\n\r\nbody")).unwrap();
    assert_eq!(request.path, "/é");
    assert_eq!(request.http_version, "HTTP/2");
    assert_eq!(request.raw_body, "body");
}

#[test]
fn unknown_method_is_rejected() {
    assert_eq!(Request::from_string(text("FETCH / HTTP/1.1\r\nA: b\r\n\r\n")).unwrap_err(), RequestError::UnknownMethod);
    assert_eq!(Request::from_string(text("get / HTTP/1.1\r\nA: b\r\n\r\n")).unwrap_err(), RequestError::UnknownMethod);
    assert_eq!(Request::from_string(text("")).unwrap_err(), RequestError::UnknownMethod);
}

#[test]
fn request_without_line_break_is_rejected() {
    assert_eq!(Request::from_string(text("GET / HTTP/1.1")).unwrap_err(), RequestError::MissingLineBreak);
    assert_eq!(Request::from_string(text("GET / HTTP/1.1\rA: b")).unwrap_err(), RequestError::MissingLineBreak);
}

#[test]
fn request_without_blank_line_is_rejected() {
    assert_eq!(
        Request::from_string(text("GET / HTTP/1.1\r\nA: b\r\n")).unwrap_err(),
        RequestError::MissingBlankLine
    );
}

#[test]
fn request_without_headers_is_rejected() {
    assert_eq!(
        Request::from_string(text("GET / HTTP/1.1\r\n\r\nbody")).unwrap_err(),
        RequestError::MissingHeaders
    );
}

#[test]
fn headers_are_trimmed_and_later_lines_win() {
    let raw = "GET / HTTP/1.1\r\n  Host :  example.org \r\nX-Time: 12:30\r\nHost: other\r\nEmpty:\r\n\r\n";
    let request = Request::from_string(text(raw)).unwrap();
    let headers = request.headers().unwrap();
    assert_eq!(headers.len(), 3);
    assert_eq!(header(&headers, "Host"), Some("other"));
    assert_eq!(header(&headers, "X-Time"), Some("12:30"));
    assert_eq!(header(&headers, "Empty"), Some(""));
    assert_eq!(header(&headers, "host"), None);
}

#[test]
fn header_line_without_colon_is_rejected() {
    let raw = "GET / HTTP/1.1\r\nHost: example.org\r\nno colon here\r\nA: b\r\n\r\n";
    let mut request = Request::from_string(text(raw)).unwrap();
    assert_eq!(request.headers().unwrap_err(), RequestError::MalformedHeader);
    assert_eq!(request.process().unwrap_err(), RequestError::MalformedHeader);
    assert!(request.headers.is_none());
    assert_eq!(ProcessedRequest::from_request(request).err(), Some(RequestError::MalformedHeader));
}

#[test]
fn processing_takes_headers_and_json_body() {
    let raw = "POST /items HTTP/1.1\r\nContent-Type: application/json\r\n\r\n{\"a\": [1, true, \"x\"]}";
    let mut request = Request::from_string(text(raw)).unwrap();
    assert_eq!(request.process(), Ok(()));
    let mut object = serde_json::Map::new();
    object.insert(
        text("a"),
        serde_json::Value::Array(vec![
            serde_json::Value::from(1),
            serde_json::Value::Bool(true),
            serde_json::Value::from("x"),
        ]),
    );
    assert_eq!(request.json, Some(serde_json::Value::Object(object)));
    assert_eq!(header(request.headers.as_ref().unwrap(), "Content-Type"), Some("application/json"));
}

#[test]
fn body_is_not_read_as_json_unless_announced() {
    let raw = "POST /items HTTP/1.1\r\nContent-Type: text/plain\r\n\r\n{\"a\": 1}";
    let mut request = Request::from_string(text(raw)).unwrap();
    assert_eq!(request.process(), Ok(()));
    assert!(request.json.is_none());
    assert!(request.headers.is_some());
    let raw = "POST /items HTTP/1.1\r\ncontent-type: application/json\r\n\r\nnot json";
    let mut request = Request::from_string(text(raw)).unwrap();
    assert_eq!(request.process(), Ok(()));
    assert!(request.json.is_none());
}

#[test]
fn invalid_json_is_rejected_and_leaves_the_request_as_it_was() {
    let raw = "POST /items HTTP/1.1\r\nContent-Type: application/json\r\n\r\n{\"a\": ";
    let mut request = Request::from_string(text(raw)).unwrap();
    assert_eq!(request.process(), Err(RequestError::InvalidJson));
    assert!(request.json.is_none());
    assert!(request.headers.is_none());
}

#[test]
fn processing_twice_keeps_what_was_taken() {
    let raw = "POST /items HTTP/1.1\r\nContent-Type: application/json\r\n\r\n[2]";
    let mut request = Request::from_string(text(raw)).unwrap();
    assert_eq!(request.process(), Ok(()));
    request.raw_body = text("not json any more");
    request.raw_headers = text("no colon");
    assert_eq!(request.process(), Ok(()));
    assert_eq!(request.json, Some(serde_json::Value::Array(vec![serde_json::Value::from(2)])));
}

#[test]
fn accept_json_takes_the_parsed_body_or_rejects() {
    let raw = "POST /items HTTP/1.1\r\nA: b\r\n\r\n";
    let mut request = Request::from_string(text(raw)).unwrap();
    let failed: Result<serde_json::Value, serde_json::Error> = serde_json::from_str("{");
    assert_eq!(request.accept_json(StringMap::new(), failed), Err(RequestError::InvalidJson));
    assert!(request.headers.is_none());
    let mut headers = StringMap::new();
    headers.insert(text("A"), text("b"));
    assert_eq!(request.accept_json(headers, Ok(serde_json::Value::Null)), Ok(()));
    assert_eq!(request.json, Some(serde_json::Value::Null));
    assert_eq!(header(request.headers.as_ref().unwrap(), "A"), Some("b"));
}

#[test]
fn processed_request_holds_what_the_handler_is_given() {
    let raw = "PUT /items/4 HTTP/1.1\r\nContent-Type: application/json\r\nX: y\r\n\r\n{\"n\": 4}";
    let mut request = Request::from_string(text(raw)).unwrap();
    let mut variables = StringMap::new();
    variables.insert(text("<id>"), text("4"));
    request.path_variables = Some(variables);
    let processed = ProcessedRequest::from_request(request).unwrap();
    assert_eq!(processed.method, RequestMethod::PUT);
    assert_eq!(processed.http_version, "HTTP/1.1");
    assert_eq!(processed.text, "{\"n\": 4}");
    assert_eq!(processed.headers.len(), 2);
    assert_eq!(header(&processed.headers, "X"), Some("y"));
    assert_eq!(header(&processed.path_variables, "<id>"), Some("4"));
    let mut object = serde_json::Map::new();
    object.insert(text("n"), serde_json::Value::from(4));
    assert_eq!(processed.json, Some(serde_json::Value::Object(object)));
}

#[test]
fn processed_request_without_variables_or_json() {
    let raw = "GET / HTTP/1.1\r\nA: b\r\n\r\n";
    let request = Request::from_string(text(raw)).unwrap();
    let processed = ProcessedRequest::from_request(request).unwrap();
    assert!(processed.json.is_none());
    assert!(processed.path_variables.is_empty());
    assert_eq!(processed.text, "");
}
