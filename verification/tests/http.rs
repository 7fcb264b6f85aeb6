use sarascript::content::{ContentType, File};
use sarascript::http_msg::{
    parse_control_data_line, parse_header_line, parse_location, take_line, Body, HttpRequest,
    LineStatus, RequestBuffer, Response,
};

#[test]
fn response_format_with_header_and_body() {
    let mut resp = Response::ok();
    resp.add_header("content-type", b"text/html".to_vec());
    resp.add_message(b"hi".to_vec());
    assert_eq!(
        resp.format(),
        b"HTTP/1.1 200 OK\r\ncontent-type: text/html\r\nContent-Length: 4\r\n\r\nhi\r\n".to_vec()
    );
}

#[test]
fn response_format_supplies_content_type() {
    // No headers at all: the default content type, no body section.
    let resp = Response::bad_request();
    assert_eq!(
        resp.format(),
        b"HTTP/1.1 400 Bad Request\r\ncontent-type: text/plain; charset=utf-8\r\n".to_vec()
    );
    // Headers present but no content type among them.
    let mut resp = Response::ok();
    resp.add_header("x-extra", b"1".to_vec());
    assert_eq!(
        resp.format(),
        b"HTTP/1.1 200 OK\r\nx-extra: 1\r\ncontent-Type: text/plain; charset=utf-8\r\n".to_vec()
    );
}

#[test]
fn add_header_replaces_existing_key() {
    let mut resp = Response::ok();
    resp.add_header("cache-control", b"no-store".to_vec());
    resp.add_header("cache-control", b"max-age=86400".to_vec());
    resp.add_message(b"".to_vec());
    assert_eq!(
        resp.format(),
        b"HTTP/1.1 200 OK\r\ncache-control: max-age=86400\r\ncontent-Type: text/plain; charset=utf-8\r\nContent-Length: 2\r\n\r\n\r\n"
            .to_vec()
    );
}

#[test]
fn clone_with_message_keeps_code() {
    let resp = Response::internal_server_error();
    let cloned = resp.clone_with_message(b"oops".to_vec());
    assert_eq!(
        cloned.format(),
        b"HTTP/1.1 500 Internal Server Error\r\ncontent-type: text/plain; charset=utf-8\r\nContent-Length: 6\r\n\r\noops\r\n"
            .to_vec()
    );
}

fn buffer_with(bytes: &[u8]) -> RequestBuffer {
    let mut buf = RequestBuffer::new();
    buf.buffer[..bytes.len()].copy_from_slice(bytes);
    buf.size = bytes.len();
    buf.index = 0;
    buf
}

#[test]
fn take_line_reads_lines() {
    let mut buf = buffer_with(b"GET / HTTP/1.1\r\nHost: h\r\n");
    let mut line = Vec::new();
    assert!(matches!(take_line(&mut buf, &mut line), Ok(LineStatus::Complete)));
    assert_eq!(line, b"GET / HTTP/1.1".to_vec());
    let mut line2 = Vec::new();
    assert!(matches!(take_line(&mut buf, &mut line2), Ok(LineStatus::Complete)));
    assert_eq!(line2, b"Host: h".to_vec());
}

#[test]
fn take_line_needs_more_without_line_feed() {
    let mut buf = buffer_with(b"partial");
    let mut line = Vec::new();
    assert!(matches!(take_line(&mut buf, &mut line), Ok(LineStatus::NeedMore)));
    assert_eq!(line, b"partial".to_vec());
}

#[test]
fn take_line_rejects_dangling_line_feed() {
    let mut buf = buffer_with(b"no carriage return\n");
    let mut line = Vec::new();
    assert!(take_line(&mut buf, &mut line).is_err());
}

#[test]
fn take_line_rejects_empty_line() {
    let mut buf = buffer_with(b"\n");
    let mut line = Vec::new();
    assert!(take_line(&mut buf, &mut line).is_err());
}

#[test]
fn header_line_splits_once() {
    let (k, v) = parse_header_line(&b"Host: example.org".to_vec()).expect("must split");
    assert_eq!(k, b"Host".to_vec());
    assert_eq!(v, b"example.org".to_vec());
    assert!(parse_header_line(&b"no separator".to_vec()).is_err());
    assert!(parse_header_line(&b"a: b: c".to_vec()).is_err());
}

#[test]
fn control_line_parses() {
    let req = parse_control_data_line(&b"GET /x?a=b HTTP/1.1".to_vec()).expect("must parse");
    assert_eq!(req.method, b"GET".to_vec());
    assert_eq!(req.location, b"/x".to_vec());
    assert_eq!(req.query, vec![(b"a".to_vec(), b"b".to_vec())]);
    assert_eq!(req.version, b"1.1".to_vec());
    assert!(req.headers.is_empty());
    assert!(matches!(req.body, Body::Empty));
}

#[test]
fn control_line_needs_three_tokens() {
    assert!(parse_control_data_line(&b"GET /x".to_vec()).is_err());
    assert!(parse_control_data_line(&b"GET /x HTTP/1.1 extra".to_vec()).is_err());
    assert!(parse_control_data_line(&b"GET /x HTTP".to_vec()).is_err());
}

#[test]
fn location_decodes_and_splits_query() {
    let (loc, q) = parse_location(&b"/a%20b?x=1&y=2&skip".to_vec()).expect("must parse");
    assert_eq!(loc, b"/a b".to_vec());
    assert_eq!(
        q,
        vec![(b"x".to_vec(), b"1".to_vec()), (b"y".to_vec(), b"2".to_vec())]
    );
}

#[test]
fn later_duplicate_query_keys_overwrite() {
    let (_, q) = parse_location(&b"/p?a=1&a=2&b=3".to_vec()).expect("must parse");
    assert_eq!(
        q,
        vec![(b"a".to_vec(), b"2".to_vec()), (b"b".to_vec(), b"3".to_vec())]
    );
}

#[test]
fn location_strips_scheme() {
    let (loc, q) = parse_location(&b"http://host/a%2Fb".to_vec()).expect("must parse");
    assert_eq!(loc, b"host/a/b".to_vec());
    assert!(q.is_empty());
}

#[test]
fn location_rejects_double_question_mark() {
    assert!(parse_location(&b"/a?b?c".to_vec()).is_err());
}

#[test]
fn location_rejects_undecodable_path() {
    assert!(parse_location(&b"/a%FF".to_vec()).is_err());
}

#[test]
fn body_single_accessor() {
    let body = Body::Single(b"raw".to_vec());
    assert_eq!(body.single().expect("single body"), &b"raw".to_vec());
    let none = Body::Empty;
    assert!(none.single().is_err());
}

#[test]
fn request_constructor() {
    let req = HttpRequest::new(b"GET".to_vec(), b"/".to_vec(), Vec::new(), b"1.1".to_vec());
    assert_eq!(req.method, b"GET".to_vec());
    assert!(req.headers.is_empty());
}

#[test]
fn repeated_request_headers_are_joined() {
    let mut req = HttpRequest::new(b"GET".to_vec(), b"/".to_vec(), Vec::new(), b"1.1".to_vec());
    req.add_request_header(b"Accept".to_vec(), b"text/html".to_vec())
        .expect("first header");
    req.add_request_header(b"Accept".to_vec(), b"text/plain".to_vec())
        .expect("joined header");
    assert_eq!(
        req.headers,
        vec![(b"Accept".to_vec(), b"text/html, text/plain".to_vec())]
    );
}

#[test]
fn too_many_request_headers_are_rejected() {
    let mut req = HttpRequest::new(b"GET".to_vec(), b"/".to_vec(), Vec::new(), b"1.1".to_vec());
    for i in 0..32 {
        req.add_request_header(format!("h{i}").into_bytes(), b"v".to_vec())
            .expect("within the limit");
    }
    assert!(req.add_request_header(b"one-more".to_vec(), b"v".to_vec()).is_err());
}

#[test]
fn content_types_from_filenames() {
    assert!(matches!(ContentType::from_filename("x.html"), ContentType::Html));
    assert!(matches!(ContentType::from_filename("a.b.svg"), ContentType::Svg));
    assert!(matches!(ContentType::from_filename("doc.pdf"), ContentType::Pdf));
    assert!(matches!(ContentType::from_filename("notes.txt"), ContentType::Plain));
    assert!(matches!(ContentType::from_filename("style.css"), ContentType::Css));
    assert!(matches!(ContentType::from_filename("noext"), ContentType::Unknown));
    assert!(matches!(ContentType::from_filename("odd.ext"), ContentType::Unknown));
}

#[test]
fn content_type_header_values() {
    assert_eq!(ContentType::Html.as_str(), "text/html");
    assert_eq!(ContentType::Pdf.as_str(), "application/pdf");
    assert_eq!(ContentType::Unknown.as_str(), "application/octet-stream");
    assert_eq!(ContentType::Svg.as_str(), "image/svg+xml");
}

#[test]
fn only_markup_may_contain_scripts() {
    assert!(ContentType::Html.may_contain_scripts());
    assert!(ContentType::Markdown.may_contain_scripts());
    assert!(!ContentType::Css.may_contain_scripts());
    let file = File::new(b"<p>x</p>".to_vec(), "index.html");
    assert!(file.may_contain_scripts());
    let file = File::new(b"body {}".to_vec(), "site.css");
    assert!(!file.may_contain_scripts());
}
