use fileserve::error::{ParseFault, ServerError};
use fileserve::fields::Diagnostic;
use fileserve::request::{HTTPRequestType, HeaderScanner, Request};

#[test]
fn parses_request_line_and_fields() {
    let r = Request::parse_header(b"GET /docs/a.txt HTTP/1.1\r\nHost: example.org\r\nAccept: */*").unwrap();
    assert_eq!(r.r_type, HTTPRequestType::GET);
    assert_eq!(r.url, b"/docs/a.txt".to_vec());
    assert_eq!(r.version, b"HTTP/1.1".to_vec());
    assert_eq!(r.info.get(b"Host"), Some(&b"example.org".to_vec()));
    assert_eq!(r.info.get(b"Accept"), Some(&b"*/*".to_vec()));
    assert_eq!(r.info.get(b"host"), None);
}

#[test]
fn post_method_is_supported() {
    let r = Request::parse_header(b"POST /up/ HTTP/1.0").unwrap();
    assert_eq!(r.r_type, HTTPRequestType::POST);
    assert!(r.info.is_empty());
}

#[test]
fn later_duplicate_wins_and_values_are_trimmed() {
    let r = Request::parse_header(b"GET / HTTP/1.1\r\nX: one\r\nX:  two \t\r\nnot a field\r\nY: a: b").unwrap();
    assert_eq!(r.info.get(b"X"), Some(&b"two".to_vec()));
    assert_eq!(r.info.get(b"Y"), Some(&b"a: b".to_vec()));
    assert_eq!(r.info.get(b"not a field"), None);
}

#[test]
fn request_line_needs_three_tokens() {
    let e = Request::parse_header(b"GET /only\r\nHost: x").err().unwrap();
    assert_eq!(e, ServerError::HTTPParseError(ParseFault::MalformedRequestLine, b"GET /only".to_vec()));
    let e = Request::parse_header(b"GET  / HTTP/1.1").err().unwrap();
    assert_eq!(
        e,
        ServerError::HTTPParseError(ParseFault::MalformedRequestLine, b"GET  / HTTP/1.1".to_vec())
    );
    let e = Request::parse_header(b"").err().unwrap();
    assert_eq!(e, ServerError::HTTPParseError(ParseFault::MalformedRequestLine, Vec::new()));
}

#[test]
fn unsupported_method_is_named() {
    let e = Request::parse_header(b"PUT /x HTTP/1.1").err().unwrap();
    assert_eq!(e, ServerError::HTTPParseError(ParseFault::UnsupportedMethod, b"PUT".to_vec()));
    let e = HTTPRequestType::try_from(b"get").err().unwrap();
    assert_eq!(e, ServerError::HTTPParseError(ParseFault::UnsupportedMethod, b"get".to_vec()));
}

#[test]
fn method_tokens() {
    assert_eq!(HTTPRequestType::GET.token(), b"GET".to_vec());
    assert_eq!(HTTPRequestType::POST.token(), b"POST".to_vec());
    assert_eq!(HTTPRequestType::try_from(b"POST"), Ok(HTTPRequestType::POST));
}

fn scan(reads: &[&[u8]]) -> Option<(Vec<u8>, Vec<u8>)> {
    let mut s = HeaderScanner::new();
    for r in reads {
        if let Some(found) = s.push(r) {
            return Some(found);
        }
    }
    None
}

#[test]
fn header_round_trip_under_every_fragmentation() {
    let text = b"POST /up/ HTTP/1.1\r\nContent-Type: multipart/form-data; boundary=Q\r\nContent-Length: 12\r\n\r\n--Q\r\nbody";
    let whole = scan(&[text]).unwrap();
    assert_eq!(
        whole.0,
        b"POST /up/ HTTP/1.1\r\nContent-Type: multipart/form-data; boundary=Q\r\nContent-Length: 12".to_vec()
    );
    assert_eq!(whole.1, b"--Q\r\nbody".to_vec());
    let req = Request::parse_header(&whole.0).unwrap();
    assert_eq!(req.r_type, HTTPRequestType::POST);
    assert_eq!(req.url, b"/up/".to_vec());
    assert_eq!(req.version, b"HTTP/1.1".to_vec());
    assert_eq!(req.info.get(b"Content-Length"), Some(&b"12".to_vec()));
    assert_eq!(
        req.info.get(b"Content-Type"),
        Some(&b"multipart/form-data; boundary=Q".to_vec())
    );
    for size in 1..=text.len() {
        let reads: Vec<&[u8]> = text.chunks(size).collect();
        let (head, rest) = scan(&reads).unwrap();
        assert_eq!(head, whole.0);
        assert!(whole.1.starts_with(&rest));
        let r = Request::parse_header(&head).unwrap();
        assert_eq!(r.url, req.url);
        assert_eq!(r.info.get(b"Content-Type"), req.info.get(b"Content-Type"));
    }
}

#[test]
fn terminator_split_across_reads_is_found() {
    let text = b"GET / HTTP/1.1\r\n\r\n";
    for cut in 0..text.len() {
        let (head, rest) = scan(&[&text[..cut], &text[cut..]]).unwrap();
        assert_eq!(head, b"GET / HTTP/1.1".to_vec());
        assert!(rest.is_empty());
    }
}

#[test]
fn no_terminator_no_header() {
    assert_eq!(scan(&[b"GET / HTTP/1.1\r\n", b"Host: x\r\n"]), None);
    assert_eq!(scan(&[]), None);
}

#[test]
fn field_map_emptiness() {
    let r = Request::parse_header(b"GET / HTTP/1.1\r\nno separator here").unwrap();
    assert!(r.info.is_empty());
    let r = Request::parse_header(b"GET / HTTP/1.1\r\nA: b").unwrap();
    assert!(!r.info.is_empty());
}

#[test]
fn skipped_and_repeated_lines_are_reported() {
    let r = Request::parse_header(b"GET / HTTP/1.1\r\nX: one\r\nbroken\r\nX: two\r\nY: 1").unwrap();
    assert_eq!(
        r.warnings,
        vec![
            Diagnostic::MalformedLine(b"broken".to_vec()),
            Diagnostic::DuplicateField(b"X".to_vec()),
        ]
    );
    assert_eq!(r.info.get(b"X"), Some(&b"two".to_vec()));
    let r = Request::parse_header(b"GET / HTTP/1.1\r\nA: 1\r\nB: 2").unwrap();
    assert!(r.warnings.is_empty());
}

#[test]
fn values_are_trimmed_of_unicode_whitespace() {
    let text = "GET / HTTP/1.1\r\nA: x\u{a0}\r\nB: \u{3000}\u{2009}y z\u{85}\u{2028}\r\nC: \u{1680}\u{205f}\u{202f}".as_bytes();
    let r = Request::parse_header(text).unwrap();
    assert_eq!(r.info.get(b"A"), Some(&b"x".to_vec()));
    assert_eq!(r.info.get(b"B"), Some(&b"y z".to_vec()));
    assert_eq!(r.info.get(b"C"), Some(&Vec::new()));
    let r = Request::parse_header("GET / HTTP/1.1\r\nD: \u{2020}x\u{b7}".as_bytes()).unwrap();
    assert_eq!(r.info.get(b"D"), Some(&"\u{2020}x\u{b7}".as_bytes().to_vec()));
}

#[test]
fn lone_carriage_returns_round_trip() {
    let text = b"GET /a\rb HTTP/1.1\r\nX\r: v\r\nN:a: w\r\n\r\n";
    let (head, rest) = scan(&[text]).unwrap();
    assert!(rest.is_empty());
    let r = Request::parse_header(&head).unwrap();
    assert_eq!(r.url, b"/a\rb".to_vec());
    assert_eq!(r.info.get(b"X\r"), Some(&b"v".to_vec()));
    assert_eq!(r.info.get(b"N:a"), Some(&b"w".to_vec()));
}
