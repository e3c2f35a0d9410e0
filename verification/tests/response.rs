use httpfromtcp::error::{HTTPParsingError, ServerError};
use httpfromtcp::headers::Headers;
use httpfromtcp::response::{IntoResponse, Response};
use httpfromtcp::status::StatusCode;

#[test]
fn response_new_sets_content_length() {
    let r = Response::new(Some(b"hi".to_vec()));
    assert_eq!(r.head.status.code, 200);
    assert_eq!(r.head.headers.get(b"Content-Length").unwrap(), b"2".to_vec());
    assert_eq!(r.body, b"hi".to_vec());

    let empty = Response::new(None);
    assert!(empty.head.headers.get(b"content-length").is_none());
    assert!(empty.body.is_empty());
}

#[test]
fn response_encode_bytes() {
    let r = Response::new(Some(b"hi".to_vec()));
    let bytes = r.encode().unwrap();
    assert_eq!(bytes, b"HTTP/1.1 200 OK\r\ncontent-length: 2\r\n\r\nhi".to_vec());
}

#[test]
fn status_lines() {
    assert_eq!(StatusCode::ok().encode().unwrap(), b"HTTP/1.1 200 OK\r\n".to_vec());
    assert_eq!(
        StatusCode::bad_request().encode().unwrap(),
        b"HTTP/1.1 400 Bad Request\r\n".to_vec()
    );
    assert_eq!(
        StatusCode::internal_server_error().encode().unwrap(),
        b"HTTP/1.1 500 Internal Server Error\r\n".to_vec()
    );
}

#[test]
fn status_encode_unsupported() {
    let teapot = StatusCode::from_bytes(b"418").unwrap();
    assert_eq!(teapot.encode().unwrap_err(), ServerError::Internal);
}

#[test]
fn default_headers_entries() {
    let h = Headers::default_headers(42).unwrap();
    assert_eq!(h.get(b"Content-Length").unwrap(), b"42".to_vec());
    assert_eq!(h.get(b"Connection").unwrap(), b"closed".to_vec());
    assert_eq!(h.get(b"Content-Type").unwrap(), b"text/plain".to_vec());
}

#[test]
fn error_response_bad_request() {
    let r = Response::from_error(ServerError::BadRequest);
    assert_eq!(r.head.status.code, 400);
    assert_eq!(r.body, b"Bad Request".to_vec());
    assert_eq!(r.head.headers.get(b"content-length").unwrap(), b"11".to_vec());
    assert_eq!(r.head.headers.get(b"content-type").unwrap(), b"text/plain".to_vec());
}

#[test]
fn error_response_internal() {
    let r = Response::from_error(ServerError::Internal);
    assert_eq!(r.head.status.code, 500);
    assert_eq!(r.body, b"Internal Server Error".to_vec());

    let io = Response::from_error(ServerError::IOError);
    assert_eq!(io.head.status.code, 500);

    let parse = Response::from_error(ServerError::Parsing(HTTPParsingError::BadRequestLine));
    assert_eq!(parse.head.status.code, 400);
}

#[test]
fn into_response_result() {
    let ok: Result<Response, ServerError> = Ok(Response::new(None));
    assert_eq!(ok.into_response().head.status.code, 200);
    let err: Result<Response, ServerError> = Err(ServerError::Internal);
    assert_eq!(err.into_response().head.status.code, 500);
}
