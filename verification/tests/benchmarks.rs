use nea::benchmarks::rust_nea::{
    allocation_of, first_line_is_too_long, format_response, has_only_points, receive,
    respond_with_allocation, respond_with_path, Request as NeaRequest,
};
use nea::benchmarks::rust_tokio::error::Error;
use nea::benchmarks::rust_tokio::request::{HeaderMap, ParseRequestError, Request, RequestBuf};
use nea::benchmarks::rust_tokio::response::{ContentType, Response, StatusCode};
use nea::benchmarks::rust_tokio::server::{
    average, buffered_request, capacity_of, favorable, gives_points, unfavorable, NextTransfer,
    RequestReader, ResponseWriter, Transfer, BUFFER_SIZE, PORT,
};

const GET: &str = "GET /12 HTTP/1.1\r\nHost: example.com\r\nAccept: */*\r\n\r\nthe body";

#[test]
fn a_request_is_cut_into_its_parts() {
    let request = NeaRequest::parse(GET).unwrap();
    assert_eq!(request.method, "GET");
    assert_eq!(request.path, "/12");
    assert_eq!(request.version, "HTTP/1.1");
    assert_eq!(request.body, "the body");
    let headers: Vec<(&str, &str)> = request.headers.iter().map(|h| (h.key, h.value)).collect();
    assert_eq!(headers, vec![("Host", "example.com"), ("Accept", "*/*")]);
}

#[test]
fn lines_of_the_body_that_look_like_headers_count_as_headers() {
    let request = NeaRequest::parse("GET / HTTP/1.1\r\nno header\r\n\r\nX: y").unwrap();
    assert_eq!(request.body, "X: y");
    assert_eq!(request.headers.len(), 1);
    assert_eq!(request.headers[0].key, "X");
}

#[test]
fn incomplete_requests_are_not_parsed() {
    assert!(NeaRequest::parse("").is_none());
    assert!(NeaRequest::parse("GET / HTTP/1.1\r\n").is_none());
    assert!(NeaRequest::parse("GET /\r\n\r\n").is_none());
    assert!(first_line_is_too_long("GET / HTTP/1.1 more\r\n\r\n"));
    assert!(!first_line_is_too_long("GET / HTTP/1.1\r\n\r\n"));
    assert!(!first_line_is_too_long("GET / HTTP/1.1 more"));
    assert!(receive(b"GET / HTTP/1.1 more\r\n\r\n").is_none());
    assert!(receive(&[0xC0, 0x80]).is_none());
    assert_eq!(receive(GET.as_bytes()).unwrap().path, "/12");
}

#[test]
fn responses_carry_the_text() {
    assert_eq!(
        format_response("<p>\u{e4}</p>"),
        "HTTP/1.1 200 OK\r\nContent-Type: text/html\r\n\r\n<p>\u{e4}</p>\r\n".as_bytes().to_vec()
    );
}

#[test]
fn points_become_a_path() {
    assert!(has_only_points("1, 2\nnothing\n30, 4"));
    assert!(!has_only_points("1, x"));
    let response = respond_with_path("1, 2\nnothing\n30, 4");
    let expected = "HTTP/1.1 200 OK\r\nContent-Type: text/html\r\n\r\n\
        <svg width=\"100\" height=\"100\" xmlns=\"http://www.w3.org/2000/svg\">\n    \
        <path d=\"M 0 0 L1 230 4\" stroke=\"black\" fill=\"transparent\"/>\n</svg>\n\r\n";
    assert_eq!(String::from_utf8(response).unwrap(), expected);
}

#[test]
fn allocations_are_answered_with_their_size() {
    assert_eq!(allocation_of("/3"), Some(3072));
    assert_eq!(allocation_of(""), None);
    assert_eq!(allocation_of("/"), None);
    assert_eq!(allocation_of("/99999999999999999"), None);
    assert_eq!(allocation_of("\u{e9}3"), None);
    assert_eq!(
        respond_with_allocation("/3"),
        b"HTTP/1.1 200 OK\r\nContent-Type: text/html\r\n\r\n3072\r\n".to_vec()
    );
}

#[test]
fn a_strict_request_has_its_parts() {
    let buf = RequestBuf::new(GET.to_string());
    let request = buf.as_request().unwrap();
    assert_eq!(request.method, "GET");
    assert_eq!(request.path, "/12");
    assert_eq!(request.version, "HTTP/1.1");
    assert_eq!(request.body, "the body");
    assert_eq!(request.headers.len(), 2);
    assert_eq!(request.headers.get("Host"), Some("example.com"));
    assert_eq!(request.headers.get("host"), None);
    assert_eq!(request.headers.entry(0), Some(("Accept", "*/*")));
    assert_eq!(request.headers.entry(2), None);
}

#[test]
fn strict_requests_have_to_be_complete() {
    for (text, expected) in [
        ("", ParseRequestError::Syntax),
        ("GET / HTTP/1.1\r\n", ParseRequestError::Syntax),
        ("\r\n\r\nbody", ParseRequestError::UnexpectedEof),
        ("GET\r\n\r\n", ParseRequestError::Syntax),
        ("GET /\r\n\r\n", ParseRequestError::Syntax),
        ("GET / HTTP/1.1\r\nno header\r\n\r\n", ParseRequestError::Syntax),
    ] {
        match Request::from_str(text) {
            Ok(_) => panic!("{text:?}"),
            Err(error) => assert_eq!(error, expected, "{text:?}"),
        }
    }
}

#[test]
fn headers_are_sorted_and_later_ones_count() {
    let mut headers = HeaderMap::new();
    headers.insert("b", "1");
    headers.insert("a", "2");
    headers.insert("c", "3");
    headers.insert("b", "4");
    headers.insert("ab", "5");
    let entries: Vec<(&str, &str)> = (0..4).map(|i| headers.entry(i).unwrap()).collect();
    assert_eq!(entries, vec![("a", "2"), ("ab", "5"), ("b", "4"), ("c", "3")]);
    let mut expected = std::collections::BTreeMap::new();
    expected.extend([("b", "1"), ("a", "2"), ("c", "3"), ("b", "4"), ("ab", "5")]);
    assert_eq!(entries, expected.into_iter().collect::<Vec<(&str, &str)>>());
}

#[test]
fn errors_have_words() {
    assert_eq!(
        Error::from(ParseRequestError::UnexpectedEof).to_string(),
        "parse request error: unexpected end of file when parsing request"
    );
    assert_eq!(
        Error::from(ParseRequestError::Syntax).to_string(),
        "parse request error: invalid request syntax"
    );
    let io = std::io::Error::new(std::io::ErrorKind::Other, "disk on fire");
    assert_eq!(Error::from(io).to_string(), "io error: disk on fire");
    let utf8 = std::str::from_utf8(&[0xFF]).unwrap_err();
    let words = format!("request is not valid utf-8: {utf8}");
    assert_eq!(Error::from(utf8).to_string(), words);
}

#[test]
fn responses_give_the_length_in_bytes() {
    let response = Response::from("h\u{e9}");
    assert_eq!(
        response.to_string(),
        "HTTP/1.1 200 OK\r\nContent-Type: text/plain; charset=utf-8\r\nContent-Length: 3\r\n\r\nh\u{e9}"
    );
    let picture = Response {
        content_type: ContentType::image_svg(),
        body: String::new(),
        status: StatusCode::new(404).unwrap(),
    };
    assert_eq!(
        picture.to_string(),
        "HTTP/1.1 404 Unknown\r\nContent-Type: image/svg+xml; charset=utf-8\r\nContent-Length: 0\r\n\r\n"
    );
    assert!(StatusCode::new(0).is_none());
    assert_eq!(ContentType::text_plain().to_string(), "text/plain");
    assert_eq!(Response::from(String::from("x")).body, "x");
}

#[test]
fn requests_are_read_until_nothing_comes() {
    let mut reader = RequestReader::new();
    assert!(matches!(reader.step(Transfer::Moved(1000)), NextTransfer::Again));
    assert_eq!(reader.position(), 1000);
    assert!(matches!(reader.step(Transfer::Moved(24)), NextTransfer::Again));
    assert!(matches!(reader.step(Transfer::Moved(0)), NextTransfer::Finished));
    assert_eq!(reader.position(), BUFFER_SIZE);
    assert!(matches!(reader.step(Transfer::WouldBlock), NextTransfer::Finished));
    let io = std::io::Error::new(std::io::ErrorKind::Other, "gone");
    match reader.step(Transfer::Failed(io)) {
        NextTransfer::Failed(error) => assert_eq!(error.to_string(), "io error: gone"),
        other => panic!("{other:?}"),
    }
}

#[test]
fn responses_are_written_until_the_bytes_add_up() {
    let mut writer = ResponseWriter::new();
    assert!(matches!(writer.step(10, Transfer::WouldBlock), NextTransfer::Again));
    assert!(matches!(writer.step(10, Transfer::Moved(4)), NextTransfer::Again));
    assert!(matches!(writer.step(10, Transfer::Moved(6)), NextTransfer::Finished));
    let io = std::io::Error::new(std::io::ErrorKind::Other, "gone");
    assert!(matches!(writer.step(10, Transfer::Failed(io)), NextTransfer::Failed(Error::Io(_))));
}

#[test]
fn the_whole_buffer_is_the_request() {
    let mut buffer = [0u8; 1024];
    buffer[..GET.len()].copy_from_slice(GET.as_bytes());
    let request = buffered_request(&buffer).unwrap();
    assert_eq!(request.as_request().unwrap().body.len(), 1024 - GET.len() + 8);
    buffer[3] = 0xFF;
    assert!(matches!(buffered_request(&buffer), Err(Error::Utf8(_))));
    assert_eq!(PORT, 8000);
}

#[test]
fn benchmark_handlers_answer() {
    assert_eq!(capacity_of(&RequestBuf::new(GET.to_string())), Some(12 * 1024));
    assert_eq!(capacity_of(&RequestBuf::new("GET / HTTP/1.1\r\n\r\n".to_string())), None);
    assert_eq!(capacity_of(&RequestBuf::new("nonsense".to_string())), None);
    assert_eq!(favorable(RequestBuf::new(GET.to_string())).body, "0");
    let response = unfavorable(RequestBuf::new(GET.to_string()), "static");
    assert_eq!(response.body, "static");
}

#[test]
fn points_are_drawn_as_a_path() {
    let request = |body: &str| RequestBuf::new(format!("GET /12 HTTP/1.1\r\n\r\n{body}"));
    assert!(gives_points(&request("1, 2\n30, +4\n")));
    assert_eq!(
        average(request("1, 2\n30, +4\n")).to_string(),
        "HTTP/1.1 200 OK\r\nContent-Type: text/plain; charset=utf-8\r\nContent-Length: 139\r\n\r\n\
         <svg width=\"100\" height=\"100\" xmlns=\"http://www.w3.org/2000/svg\">\n    \
         <path d=\"M 0 0 L1 2 30 4 \" stroke=\"black\" fill=\"transparent\"/>\n</svg>"
    );
    assert!(gives_points(&request("")));
    assert!(!gives_points(&request("1 2")));
    assert!(!gives_points(&request("1, 2\n\n")));
    assert!(!gives_points(&request("4294967296, 0")));
    assert!(gives_points(&request("4294967295, 0")));
    assert!(!gives_points(&RequestBuf::new("nonsense".to_string())));
}

#[test]
fn headers_are_sorted_by_key() {
    let request = Request::from_str(
        "GET / HTTP/1.1\r\nHost: here\r\nAccept: all\r\nHost: there\r\n\r\n",
    )
    .unwrap();
    assert_eq!(request.headers.len(), 2);
    assert_eq!(request.headers.entry(0), Some(("Accept", "all")));
    assert_eq!(request.headers.entry(1), Some(("Host", "there")));
    assert_eq!(request.headers.entry(2), None);
}
