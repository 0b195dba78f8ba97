use cs110l::http_message::{decimal, find_head_end, forward_head, frame, is_header_line, lines_of, Framing};
use cs110l::load_balancer::RequestError;

fn bytes(s: &str) -> Vec<u8> {
    s.as_bytes().to_vec()
}

#[test]
fn head_ends_after_the_first_blank_line() {
    assert_eq!(find_head_end(&bytes("GET / HTTP/1.1\r\n\r\nbody")), Some(18));
    assert_eq!(find_head_end(&bytes("GET / HTTP/1.1\r\nHost: a\r\n")), None);
    assert_eq!(find_head_end(&bytes("\r\n\r\n")), Some(4));
    assert_eq!(find_head_end(&bytes("")), None);
}

#[test]
fn lines_split_at_line_feeds_without_carriage_returns() {
    let buf = bytes("GET / HTTP/1.1\r\nHost: a\nX: y");
    let lines = lines_of(&buf, buf.len());
    assert_eq!(lines, vec![bytes("GET / HTTP/1.1"), bytes("Host: a"), bytes("X: y")]);
    assert_eq!(lines_of(&buf, 0), vec![Vec::<u8>::new()]);
}

#[test]
fn header_names_match_in_any_case() {
    let name = bytes("content-length");
    assert!(is_header_line(&bytes("Content-Length: 3"), &name));
    assert!(is_header_line(&bytes("CONTENT-LENGTH:3"), &name));
    assert!(!is_header_line(&bytes("Content-Length 3"), &name));
    assert!(!is_header_line(&bytes("Content-Type: x"), &name));
}

#[test]
fn decimal_reads_digits_only() {
    assert_eq!(decimal(&bytes("123")), Some(123));
    assert_eq!(decimal(&bytes("")), None);
    assert_eq!(decimal(&bytes("+1")), None);
    assert_eq!(decimal(&bytes("99999999999999999999999")), None);
}

#[test]
fn requests_are_framed_by_content_length() {
    let req = bytes("POST / HTTP/1.1\r\nContent-Length: 3\r\n\r\nabcGET");
    assert_eq!(frame(&req, false, false), Framing::Complete { head_len: 38, body_len: 3 });
    let partial = bytes("POST / HTTP/1.1\r\nContent-Length: 5\r\n\r\nab");
    assert_eq!(frame(&partial, false, false), Framing::NeedMore);
    assert_eq!(frame(&partial, true, false), Framing::Invalid(RequestError::ContentLengthMismatch));
    let bad = bytes("POST / HTTP/1.1\r\nContent-Length: x\r\n\r\n");
    assert_eq!(frame(&bad, false, false), Framing::Invalid(RequestError::InvalidContentLength));
    let big = bytes("POST / HTTP/1.1\r\nContent-Length: 20000000\r\n\r\n");
    assert_eq!(frame(&big, false, false), Framing::Invalid(RequestError::RequestBodyTooLarge));
    let get = bytes("GET / HTTP/1.1\r\nHost: a\r\n\r\n");
    assert_eq!(frame(&get, false, false), Framing::Complete { head_len: get.len(), body_len: 0 });
}

#[test]
fn unfinished_heads() {
    assert_eq!(frame(&bytes("GET / HT"), false, false), Framing::NeedMore);
    assert_eq!(frame(&Vec::new(), true, false), Framing::Invalid(RequestError::IncompleteRequest(0)));
    assert_eq!(frame(&bytes("GET / HT"), true, false), Framing::Invalid(RequestError::IncompleteRequest(8)));
    let huge = vec![b'a'; 9000];
    assert_eq!(frame(&huge, false, false), Framing::Invalid(RequestError::MalformedRequest(9000)));
}

#[test]
fn responses_without_length_run_until_close() {
    let resp = bytes("HTTP/1.1 200 OK\r\n\r\nhello");
    assert_eq!(frame(&resp, false, true), Framing::NeedMore);
    assert_eq!(frame(&resp, true, true), Framing::Complete { head_len: 19, body_len: 5 });
}

#[test]
fn forwarded_for_is_added_or_extended() {
    let req = bytes("GET / HTTP/1.1\r\nHost: a\r\n\r\n");
    let head = forward_head(&req, req.len(), &bytes("1.2.3.4"));
    assert_eq!(head, bytes("GET / HTTP/1.1\r\nHost: a\r\nx-forwarded-for: 1.2.3.4\r\n\r\n"));
    let req = bytes("GET / HTTP/1.1\r\nX-Forwarded-For: 9.9.9.9\r\nHost: a\r\nx-forwarded-for: 8.8.8.8\r\n\r\n");
    let head = forward_head(&req, req.len(), &bytes("1.2.3.4"));
    assert_eq!(head, bytes("GET / HTTP/1.1\r\nHost: a\r\nx-forwarded-for: 9.9.9.9, 1.2.3.4\r\n\r\n"));
    let req = bytes("GET / HTTP/1.1\r\nx-forwarded-for:\r\n\r\n");
    let head = forward_head(&req, req.len(), &bytes("::1"));
    assert_eq!(head, bytes("GET / HTTP/1.1\r\nx-forwarded-for: ::1\r\n\r\n"));
}
