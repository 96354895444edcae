use fileserve::error::ServerError;
use fileserve::request::{HTTPRequestType, Request};
use fileserve::response::{compile_response, parse_content_length, route, to_decimal, Route};

#[test]
fn response_is_framed_with_its_length() {
    let r = compile_response("HTTP/1.1 200 OK", b"hello".to_vec());
    assert_eq!(r, b"HTTP/1.1 200 OK\r\nContent-Length:5\r\n\r\nhello".to_vec());
    let r = compile_response("HTTP/1.1 404 NOT FOUND", Vec::new());
    assert_eq!(r, b"HTTP/1.1 404 NOT FOUND\r\nContent-Length:0\r\n\r\n".to_vec());
}

#[test]
fn decimal_digits() {
    assert_eq!(to_decimal(0), b"0".to_vec());
    assert_eq!(to_decimal(9), b"9".to_vec());
    assert_eq!(to_decimal(10), b"10".to_vec());
    assert_eq!(to_decimal(8096), b"8096".to_vec());
    assert_eq!(to_decimal(usize::MAX), usize::MAX.to_string().into_bytes());
}

#[test]
fn content_length_values() {
    assert_eq!(parse_content_length(b"42"), Ok(42));
    assert_eq!(parse_content_length(b"+7"), Ok(7));
    assert_eq!(parse_content_length(b"007"), Ok(7));
    assert_eq!(parse_content_length(usize::MAX.to_string().as_bytes()), Ok(usize::MAX));
    for bad in [&b""[..], b"+", b"-1", b"12a", b" 1", b"++1"] {
        assert_eq!(parse_content_length(bad), Err(ServerError::ParseIntError));
    }
    let too_big = format!("{}0", usize::MAX);
    assert_eq!(parse_content_length(too_big.as_bytes()), Err(ServerError::ParseIntError));
}

fn req(text: &[u8]) -> Request {
    Request::parse_header(text).unwrap()
}

#[test]
fn get_routes() {
    assert!(matches!(route(&req(b"GET /a/../b HTTP/1.1")), Ok(Route::Forbidden)));
    match route(&req(b"GET /pics/ HTTP/1.1")) {
        Ok(Route::ListDirectory(p)) => assert_eq!(p, b"pics/".to_vec()),
        _ => panic!("expected a listing"),
    }
    match route(&req(b"GET /static/icons/x.png HTTP/1.1")) {
        Ok(Route::StaticAsset(p)) => assert_eq!(p, b"static/icons/x.png".to_vec()),
        _ => panic!("expected an icon"),
    }
    match route(&req(b"GET /a.txt HTTP/1.1")) {
        Ok(Route::ServeFile(p)) => assert_eq!(p, b"a.txt".to_vec()),
        _ => panic!("expected a file"),
    }
}

#[test]
fn post_routes() {
    match route(&req(b"POST /new HTTP/1.1\r\nAction: create_directory")) {
        Ok(Route::CreateDirectory(p)) => assert_eq!(p, b"/new".to_vec()),
        _ => panic!("expected a directory"),
    }
    let empty = req(b"POST  HTTP/1.1\r\nAction: create_directory");
    assert_eq!(empty.r_type, HTTPRequestType::POST);
    assert!(matches!(route(&empty), Ok(Route::MissingDirectoryName)));
    assert!(matches!(
        route(&req(b"POST /x HTTP/1.1\r\nAction: delete")),
        Ok(Route::InvalidAction)
    ));
    match route(&req(
        b"POST /up/ HTTP/1.1\r\nContent-Type: multipart/form-data; boundary=----abc\r\nContent-Length: 120",
    )) {
        Ok(Route::Upload(dir, boundary, len)) => {
            assert_eq!(dir, b"up/".to_vec());
            assert_eq!(boundary, b"----abc".to_vec());
            assert_eq!(len, 120);
        }
        _ => panic!("expected an upload"),
    }
    assert!(matches!(
        route(&req(b"POST /up/ HTTP/1.1\r\nContent-Type: multipart/form-data; boundary=z\r\nContent-Length: ten")),
        Err(ServerError::ParseIntError)
    ));
    assert!(matches!(
        route(&req(b"POST /up/ HTTP/1.1\r\nContent-Type: text/plain\r\nContent-Length: 3")),
        Ok(Route::NotUpload)
    ));
    assert!(matches!(route(&req(b"POST /up/ HTTP/1.1")), Ok(Route::NotUpload)));
}
