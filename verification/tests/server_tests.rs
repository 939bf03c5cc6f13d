use rustful_json_server::db::connection::Connection;
use rustful_json_server::json::parser::parse_json;
use rustful_json_server::server::config::Config;
use rustful_json_server::server::request::{
    parse_header_line, parse_request_line, path_segments, Request, RequestMethod,
};
use rustful_json_server::server::request_handler::{self, RouteTarget};
use rustful_json_server::server::response::ResponseBuilder;
use rustful_json_server::server::status_code::StatusCode;

fn args(list: &[&str]) -> Vec<String> {
    list.iter().map(|a| a.to_string()).collect()
}

fn open_store(text: &str) -> Connection {
    let (root, _) = parse_json(text, 0).unwrap();
    Connection::new(root).unwrap()
}

#[test]
fn status_codes_carry_their_number_and_phrase() {
    assert_eq!(StatusCode::Okay.get_value(), 200);
    assert_eq!(StatusCode::NotFound.get_value(), 404);
    assert_eq!(StatusCode::Okay.get_desc(), "200 OK");
    assert_eq!(StatusCode::NotFound.get_desc(), "404 Not Found");
}

#[test]
fn responses_format_as_http_text() {
    let response = ResponseBuilder::new()
        .set_status_code(StatusCode::Okay)
        .set_protocol("HTTP/1.1".to_owned())
        .set_content("hi".to_owned())
        .set_content_type("application/json".to_owned())
        .build();
    assert_eq!(
        response.format(),
        "HTTP/1.1 200 OK\r\nContent-Length: 2\r\nContent-Type: application/json\r\n\r\nhi"
    );
}

#[test]
fn responses_without_a_content_type_skip_that_header() {
    let response = ResponseBuilder::new()
        .set_protocol("HTTP/1.1".to_owned())
        .set_content("abc".to_owned())
        .build();
    assert_eq!(response.format(), "HTTP/1.1 200 OK\r\nContent-Length: 3\r\n\r\nabc");
}

#[test]
fn the_stock_not_found_response_is_json() {
    let response = ResponseBuilder::build_404("HTTP/1.1".to_owned());
    assert_eq!(
        response.format(),
        "HTTP/1.1 404 Not Found\r\nContent-Length: 30\r\nContent-Type: application/json\r\n\r\n{ \"message\": \"404 Not Found\" }"
    );
}

#[test]
fn config_reads_the_directory_and_options() {
    let config = Config::from(args(&["prog", "data"])).unwrap();
    assert_eq!(config.jsondb_dir, "data");
    assert_eq!(config.pool_capacity, None);
    assert_eq!(config.port, None);
    assert!(!config.verbose);

    let config = Config::from(args(&[
        "prog",
        "data",
        "--pool=8",
        "--port=8080",
        "--verbose=true",
    ]))
    .unwrap();
    assert_eq!(config.pool_capacity, Some(8));
    assert_eq!(config.port, Some(8080));
    assert!(config.verbose);

    let config = Config::from(args(&["prog", "data", "--verbose=false"])).unwrap();
    assert!(!config.verbose);
}

#[test]
fn config_rejects_bad_command_lines() {
    assert_eq!(
        Config::from(args(&["prog"])).unwrap_err(),
        "Please specify the entry folder for all json db files"
    );
    assert_eq!(
        Config::from(args(&["prog", "data", "--pool"])).unwrap_err(),
        "Expect option to be of format --<option>=<value>"
    );
    assert_eq!(
        Config::from(args(&["prog", "data", "--pool=abc"])).unwrap_err(),
        "Expect option value to be an unsigned integer"
    );
    assert_eq!(
        Config::from(args(&["prog", "data", "--verbose=sure"])).unwrap_err(),
        "The option \"--verbose\" only accepts \"true\" or \"false\" value"
    );
    assert_eq!(
        Config::from(args(&["prog", "data", "--loud=1"])).unwrap_err(),
        "Unrecognized option: --loud"
    );
}

#[test]
fn request_methods_match_case_insensitively_with_a_get_fallback() {
    assert_eq!(RequestMethod::from("GET"), RequestMethod::GET);
    assert_eq!(RequestMethod::from("get"), RequestMethod::GET);
    assert_eq!(RequestMethod::from("PoSt"), RequestMethod::POST);
    assert_eq!(RequestMethod::from("put"), RequestMethod::PUT);
    assert_eq!(RequestMethod::from("patch"), RequestMethod::PATCH);
    assert_eq!(RequestMethod::from("delete"), RequestMethod::DELETE);
    assert_eq!(RequestMethod::from("fetch"), RequestMethod::GET);
    assert_eq!(RequestMethod::from(""), RequestMethod::GET);
}

#[test]
fn request_lines_split_into_method_url_and_version() {
    let (method, url, version) = parse_request_line("GET /bolts/3 HTTP/1.1\r\n").unwrap();
    assert_eq!(method, RequestMethod::GET);
    assert_eq!(url, "/bolts/3");
    assert_eq!(version, "HTTP/1.1");

    assert_eq!(parse_request_line("GET\r\n"), Err("Empty Request URL".to_owned()));
    assert_eq!(parse_request_line("GET /bolts\r\n"), Err("Empty Request Version".to_owned()));
}

#[test]
fn header_lines_split_at_the_first_separator() {
    let (key, value) = parse_header_line("Content-Length: 42\r\n").unwrap();
    assert_eq!(key, "Content-Length");
    assert_eq!(value, "42");
    let (key, value) = parse_header_line("X-Note: a: b\r\n").unwrap();
    assert_eq!(key, "X-Note");
    assert_eq!(value, "a: b");
    assert_eq!(
        parse_header_line("garbage\r\n"),
        Err("Expect header to be of format <key>: <value>".to_owned())
    );
}

#[test]
fn requests_report_their_announced_body_length() {
    let request = Request::new(
        RequestMethod::POST,
        "/bolts".to_owned(),
        "HTTP/1.1".to_owned(),
        vec![("Content-Length".to_owned(), "11".to_owned())],
        Some("hello world".to_owned()),
    );
    assert_eq!(request.content_length(), Some(11));

    let bare = Request::new(
        RequestMethod::GET,
        "/bolts".to_owned(),
        "HTTP/1.1".to_owned(),
        vec![],
        None,
    );
    assert_eq!(bare.content_length(), None);
}

#[test]
fn urls_split_into_segments() {
    let segments = path_segments("/bolts/3");
    assert_eq!(segments, vec!["".to_owned(), "bolts".to_owned(), "3".to_owned()]);
    assert_eq!(path_segments(""), vec!["".to_owned()]);
    assert_eq!(path_segments("/"), vec!["".to_owned(), "".to_owned()]);
}

#[test]
fn routing_classifies_paths() {
    assert!(matches!(
        request_handler::route_target("/bolts"),
        RouteTarget::Collection(name) if name == "bolts"
    ));
    assert!(matches!(
        request_handler::route_target("/bolts/3"),
        RouteTarget::Record(name, 3) if name == "bolts"
    ));
    assert!(matches!(
        request_handler::route_target("/bolts/-12"),
        RouteTarget::Record(name, -12) if name == "bolts"
    ));
    assert!(matches!(request_handler::route_target("/"), RouteTarget::Collection(name) if name.is_empty()));
    assert!(matches!(
        request_handler::route_target("/bolts/three"),
        RouteTarget::Invalid
    ));
    assert!(matches!(
        request_handler::route_target("/a/b/c/d"),
        RouteTarget::Invalid
    ));
}

#[test]
fn the_collection_handler_answers_with_the_whole_table() {
    let store = open_store(r#"[{"id":1,"name":"bolt"}]"#);
    let response = request_handler::get("HTTP/1.1".to_owned(), &store);
    let text = response.format();
    assert!(text.starts_with("HTTP/1.1 200 OK\r\n"));
    assert!(text.ends_with("\r\n\r\n[{\"id\":1,\"name\":\"bolt\"}]"));
}

#[test]
fn the_record_handler_answers_with_one_record_or_not_found() {
    let store = open_store(r#"[{"id":1,"name":"bolt"}]"#);
    let hit = request_handler::get_id("HTTP/1.1".to_owned(), &store, 1);
    assert!(hit.format().starts_with("HTTP/1.1 200 OK\r\n"));
    let miss = request_handler::get_id("HTTP/1.1".to_owned(), &store, 9);
    assert!(miss.format().starts_with("HTTP/1.1 404 Not Found\r\n"));
}

#[test]
fn the_insert_handler_appends_and_reports_persistence() {
    let mut store = open_store(r#"[{"id":1,"name":"bolt"}]"#);
    let (response, inserted) =
        request_handler::post("HTTP/1.1".to_owned(), r#"{"name":"nut"}"#, &mut store);
    assert!(inserted);
    let text = response.format();
    assert!(text.starts_with("HTTP/1.1 200 OK\r\n"));
    assert!(text.ends_with("{\"name\":\"nut\",\"id\":2}"));
    assert_eq!(store.read(), r#"[{"id":1,"name":"bolt"},{"name":"nut","id":2}]"#);

    let before = store.read();
    let (bad, changed) = request_handler::post("HTTP/1.1".to_owned(), "not json", &mut store);
    assert!(!changed);
    assert!(bad.format().starts_with("HTTP/1.1 404 Not Found\r\n"));
    assert_eq!(store.read(), before);

    let (bad, changed) = request_handler::post("HTTP/1.1".to_owned(), "[1,2]", &mut store);
    assert!(!changed);
    assert!(bad.format().starts_with("HTTP/1.1 404 Not Found\r\n"));
    assert_eq!(store.read(), before);
}
