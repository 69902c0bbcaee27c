use mini_http::app::app::App;
use mini_http::app::resource_map::ResourceMap;
use mini_http::app::route_definition::RouteDefinition;
use mini_http::http::error::ParseError;
use mini_http::http::method::HttpMethod;
use mini_http::http::path::HttpPath;
use mini_http::http::request::HttpRequest;
use mini_http::http::response::HttpResponse;

type Handler = fn(HttpRequest, &ResourceMap<String>) -> HttpResponse;

fn definition(method: HttpMethod, path: &str) -> RouteDefinition {
    RouteDefinition { method, path: HttpPath::from(&path.to_string()) }
}

fn request(stream: &[u8]) -> HttpRequest {
    let mut request = HttpRequest::new();
    request.parse(stream).unwrap();
    request
}

fn answer(code: i32, message: &str) -> HttpResponse {
    let mut response = HttpResponse::new();
    response.with_status_code(code).with_status_msg(message);
    response
}

fn handler_a(_req: HttpRequest, _pool: &ResourceMap<String>) -> HttpResponse {
    answer(200, "A")
}

fn handler_b(_req: HttpRequest, _pool: &ResourceMap<String>) -> HttpResponse {
    answer(201, "B")
}

fn handler_c(_req: HttpRequest, _pool: &ResourceMap<String>) -> HttpResponse {
    answer(202, "C")
}

fn echo(req: HttpRequest, _pool: &ResourceMap<String>) -> HttpResponse {
    let mut response = answer(200, "OK");
    if let Some(body) = req.body {
        response.with_json_text(body.raw);
    }
    response
}

fn greeting(_req: HttpRequest, pool: &ResourceMap<String>) -> HttpResponse {
    match pool.get_resource("greeting".to_string()) {
        Some(text) => {
            let mut response = answer(200, "OK");
            response.with_json_text(text.clone());
            response
        }
        None => answer(500, "INTERNAL ERROR"),
    }
}

fn app() -> App<String, Handler> {
    App::new()
}

#[test]
fn request_goes_to_the_handler_of_its_route() {
    let mut app = app();
    app.route(definition(HttpMethod::GET, "/"), handler_a)
        .route(definition(HttpMethod::POST, "/login"), handler_b);
    let response = app.dispatch(request(b"GET / HTTP/1.1"));
    assert_eq!(response.status_code, 200);
    assert_eq!(response.status_message, "A");
    let response = app.dispatch(request(b"POST /login HTTP/1.1\r\n\r\n"));
    assert_eq!(response.status_code, 201);
    assert_eq!(response.status_message, "B");
}

#[test]
fn request_without_a_route_is_not_found() {
    let mut app = app();
    app.route(definition(HttpMethod::GET, "/"), handler_a)
        .route(definition(HttpMethod::POST, "/login"), handler_b);
    let response = app.dispatch(request(b"GET /missing HTTP/1.1"));
    assert_eq!(response.status_code, 404);
    assert_eq!(response.status_message, "NOT FOUND");
    assert_eq!(response.headers.len(), 0);
    assert!(response.body.is_none());
    assert_eq!(response.prepare(), "HTTP/1.1 404 NOT FOUND\r\n\r\n");
}

#[test]
fn empty_application_finds_nothing() {
    let app = app();
    let response = app.dispatch(request(b"GET / HTTP/1.1"));
    assert_eq!(response.status_code, 404);
    assert_eq!(response.status_message, "NOT FOUND");
}

#[test]
fn method_must_be_the_same() {
    let mut app = app();
    app.route(definition(HttpMethod::GET, "/login"), handler_a);
    assert_eq!(app.dispatch(request(b"POST /login HTTP/1.1")).status_code, 404);
    assert_eq!(app.dispatch(request(b"PATCH /login HTTP/1.1")).status_code, 404);
    assert_eq!(app.dispatch(request(b"GET /login HTTP/1.1")).status_code, 200);
    app.route(definition(HttpMethod::UNDEFINED, "/login"), handler_c);
    assert_eq!(app.dispatch(request(b"PATCH /login HTTP/1.1")).status_code, 202);
}

#[test]
fn second_registration_replaces_the_first() {
    let mut app = app();
    app.route(definition(HttpMethod::GET, "/x"), handler_a);
    app.route(definition(HttpMethod::GET, "/x"), handler_b);
    let response = app.dispatch(request(b"GET /x HTTP/1.1"));
    assert_eq!(response.status_code, 201);
    assert_eq!(response.status_message, "B");
    app.route(definition(HttpMethod::GET, "x/"), handler_c);
    assert_eq!(app.dispatch(request(b"GET /x HTTP/1.1")).status_message, "C");
}

#[test]
fn second_registration_keeps_the_place_of_the_first() {
    let mut app = app();
    app.route(definition(HttpMethod::GET, "/items/:id"), handler_a)
        .route(definition(HttpMethod::GET, "/items/new"), handler_b)
        .route(definition(HttpMethod::GET, "/items/:id"), handler_c);
    assert_eq!(app.dispatch(request(b"GET /items/new HTTP/1.1")).status_message, "C");
    assert_eq!(app.dispatch(request(b"GET /items/7 HTTP/1.1")).status_message, "C");
}

#[test]
fn first_registered_route_that_serves_wins() {
    let mut app = app();
    app.route(definition(HttpMethod::GET, "/items/new"), handler_a)
        .route(definition(HttpMethod::GET, "/items/:id"), handler_b);
    assert_eq!(app.dispatch(request(b"GET /items/new HTTP/1.1")).status_message, "A");
    assert_eq!(app.dispatch(request(b"GET /items/7 HTTP/1.1")).status_message, "B");
    let mut app = self::app();
    app.route(definition(HttpMethod::GET, "/items/:id"), handler_b)
        .route(definition(HttpMethod::GET, "/items/new"), handler_a);
    assert_eq!(app.dispatch(request(b"GET /items/new HTTP/1.1")).status_message, "B");
}

#[test]
fn wildcards_with_other_names_are_other_routes() {
    let mut app = app();
    app.route(definition(HttpMethod::GET, "/items/:id"), handler_a)
        .route(definition(HttpMethod::GET, "/items/:name"), handler_b);
    assert_eq!(app.dispatch(request(b"GET /items/7 HTTP/1.1")).status_message, "A");
}

#[test]
fn query_does_not_count_for_the_route() {
    let mut app = app();
    app.route(definition(HttpMethod::GET, "/items"), handler_a);
    assert_eq!(app.dispatch(request(b"GET /items?x=1&y=2 HTTP/1.1")).status_message, "A");
    assert_eq!(app.dispatch(request(b"GET /items/?x=1 HTTP/1.1")).status_message, "A");
}

#[test]
fn handler_gets_the_request() {
    let mut app = app();
    app.route(definition(HttpMethod::POST, "/echo"), echo);
    let response = app.dispatch(request(
        b"POST /echo HTTP/1.1\r\nContent-Type: text/plain\r\nContent-Length: 5\r\n\r\nhello",
    ));
    assert_eq!(response.body.unwrap().raw, "hello");
}

#[test]
fn handler_reads_the_shared_resources() {
    let mut app = app();
    app.route(definition(HttpMethod::GET, "/hello"), greeting);
    assert_eq!(app.dispatch(request(b"GET /hello HTTP/1.1")).status_code, 500);
    app.resource("greeting".to_string(), "\"hi\"".to_string());
    let response = app.dispatch(request(b"GET /hello HTTP/1.1"));
    assert_eq!(response.status_code, 200);
    assert_eq!(response.body.unwrap().raw, "\"hi\"");
    app.resource("greeting".to_string(), "\"ho\"".to_string())
        .resource("other".to_string(), "x".to_string());
    assert_eq!(app.dispatch(request(b"GET /hello HTTP/1.1")).body.unwrap().raw, "\"ho\"");
}

#[test]
fn resources_are_found_by_name() {
    let mut pool: ResourceMap<u32> = ResourceMap::new();
    assert_eq!(pool.get_resource("a".to_string()), None);
    pool.add_resource("a".to_string(), 1).add_resource("b".to_string(), 2);
    assert_eq!(pool.get_resource("a".to_string()), Some(&1));
    assert_eq!(pool.get_resource("b".to_string()), Some(&2));
    assert_eq!(pool.get_resource("c".to_string()), None);
    pool.add_resource("a".to_string(), 3);
    assert_eq!(pool.get_resource("a".to_string()), Some(&3));
    assert_eq!(pool.get_resource("b".to_string()), Some(&2));
}

#[test]
fn registered_handler_can_be_called() {
    let mut app = app();
    app.route(definition(HttpMethod::GET, "/"), handler_a);
    app.call(definition(HttpMethod::GET, "/"), HttpRequest::new())
        .call(definition(HttpMethod::GET, ""), request(b"POST /x HTTP/1.1"));
    assert_eq!(app.dispatch(request(b"GET / HTTP/1.1")).status_message, "A");
}

#[test]
fn route_definitions_are_equal_by_method_and_tokens() {
    assert_eq!(definition(HttpMethod::GET, "/a/b"), definition(HttpMethod::GET, "a/b/"));
    assert_ne!(definition(HttpMethod::GET, "/a/b"), definition(HttpMethod::POST, "/a/b"));
    assert_ne!(definition(HttpMethod::GET, "/a/b"), definition(HttpMethod::GET, "/a/c"));
    assert_ne!(definition(HttpMethod::GET, "/a/:x"), definition(HttpMethod::GET, "/a/b"));
}

#[test]
fn connection_is_answered_with_rendered_text() {
    let mut app = app();
    app.route(definition(HttpMethod::GET, "/"), handler_a)
        .route(definition(HttpMethod::POST, "/echo"), echo);
    assert_eq!(app.handle_connection(b"GET / HTTP/1.1\r\n\r\n"), Ok("HTTP/1.1 200 A\r\n\r\n".to_string()));
    assert_eq!(
        app.handle_connection(b"GET /missing HTTP/1.1\r\nHost: x\r\n\r\n"),
        Ok("HTTP/1.1 404 NOT FOUND\r\n\r\n".to_string())
    );
    assert_eq!(
        app.handle_connection(b"POST /echo HTTP/1.1\r\nContent-Type: a/b\r\nContent-Length: 2\r\n\r\n{}tail"),
        Ok("HTTP/1.1 200 OK\r\nContent-Type: application/jsonContent-Length: 2\r\n\r\n{}".to_string())
    );
}

#[test]
fn unreadable_connection_gets_no_answer() {
    let mut app = app();
    app.route(definition(HttpMethod::GET, "/"), handler_a);
    assert_eq!(app.handle_connection(b""), Err(ParseError::MalformedRequestLine));
    assert_eq!(app.handle_connection(b"GET /"), Err(ParseError::MalformedRequestLine));
    assert_eq!(app.handle_connection(b"GET / HTTP/1.1\r\nbad\r\n\r\n"), Err(ParseError::MalformedHeader));
    assert_eq!(
        app.handle_connection(b"GET / HTTP/1.1\r\nContent-Type: a\r\n\r\n"),
        Err(ParseError::MissingContentLength)
    );
    assert_eq!(
        app.handle_connection(b"GET / HTTP/1.1\r\nContent-Type: a\r\nContent-Length: x\r\n\r\n"),
        Err(ParseError::InvalidContentLength)
    );
    assert_eq!(
        app.handle_connection(b"GET / HTTP/1.1\r\nContent-Type: a\r\nContent-Length: 3\r\n\r\n{}"),
        Err(ParseError::TruncatedBody)
    );
    assert_eq!(
        app.handle_connection(b"GET / HTTP/1.1\r\nContent-Type: a\r\nContent-Length: 2\r\n\r\n\xff\xfe"),
        Err(ParseError::MalformedBody)
    );
}

#[test]
fn echoed_body_keeps_its_length() {
    let mut app = app();
    app.route(definition(HttpMethod::POST, "/echo"), echo);
    let answer = app
        .handle_connection(
            b"POST /echo HTTP/1.1\r\nContent-Type: a/b\r\nContent-Length: 7\r\n\r\n\"\xc3\xa9\xe4\xb8\x96\"",
        )
        .unwrap();
    assert_eq!(
        answer.as_bytes(),
        b"HTTP/1.1 200 OK\r\nContent-Type: application/jsonContent-Length: 7\r\n\r\n\"\xc3\xa9\xe4\xb8\x96\""
    );
}

#[test]
fn second_registration_wins_among_other_routes() {
    let mut app = app();
    app.route(definition(HttpMethod::POST, "/x"), handler_c)
        .route(definition(HttpMethod::GET, "/y"), handler_c)
        .route(definition(HttpMethod::GET, "/x"), handler_a)
        .route(definition(HttpMethod::GET, "/z"), handler_c)
        .route(definition(HttpMethod::GET, "/x"), handler_b);
    assert_eq!(app.handle_connection(b"GET /x HTTP/1.1\r\n\r\n"), Ok("HTTP/1.1 201 B\r\n\r\n".to_string()));
    assert_eq!(app.handle_connection(b"GET /z HTTP/1.1\r\n\r\n"), Ok("HTTP/1.1 202 C\r\n\r\n".to_string()));
}

#[test]
fn earlier_route_that_serves_still_answers_first() {
    let mut app = app();
    app.route(definition(HttpMethod::GET, "/:any"), handler_c)
        .route(definition(HttpMethod::GET, "/x"), handler_a)
        .route(definition(HttpMethod::GET, "/x"), handler_b);
    assert_eq!(app.dispatch(request(b"GET /x HTTP/1.1")).status_message, "C");
}
