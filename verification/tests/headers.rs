use httpfromtcp::error::HTTPParsingError;
use httpfromtcp::headers::Headers;

#[test]
fn test_header_parse() {
    let mut headers = Headers::new();

    let (n, done) = headers.parse("Host: localhost:42069\r\n\r\n".as_bytes()).unwrap();

    assert_eq!(b"localhost:42069".to_vec(), headers.get(b"Host").unwrap());
    assert_eq!(25, n);
    assert_eq!(done, true);
}

#[test]
fn invalid_header() {
    let mut headers = Headers::new();

    let r = headers.parse("       Host : localhost:42069       \r\n\r\n".as_bytes());

    assert!(r.is_err());
}

#[test]
fn header_case_insensitive() {
    let mut headers = Headers::new();
    let (_, done) = headers.parse("Host: localhost:42069\r\n\r\n".as_bytes()).unwrap();
    assert!(done);
    assert_eq!(headers.get(b"Host"), headers.get(b"HOST"));
    assert_eq!(headers.get(b"host").unwrap(), b"localhost:42069".to_vec());
}

#[test]
fn duplicate_headers_merge() {
    let mut headers = Headers::new();
    let (n, done) = headers.parse("Host: a\r\nHost: b\r\n\r\n".as_bytes()).unwrap();
    assert!(done);
    assert_eq!(n, 20);
    assert_eq!(headers.get(b"Host").unwrap(), b"a,b".to_vec());
}

#[test]
fn header_name_with_at_rejected() {
    let mut headers = Headers::new();
    let r = headers.parse("Ho@st: x\r\n\r\n".as_bytes());
    assert_eq!(r.unwrap_err(), HTTPParsingError::BadToken);
}

#[test]
fn header_name_trailing_space_rejected() {
    let mut headers = Headers::new();
    let r = headers.parse("Host : x\r\n\r\n".as_bytes());
    assert_eq!(r.unwrap_err(), HTTPParsingError::BadFieldLine);
}

#[test]
fn header_missing_colon_rejected() {
    let mut headers = Headers::new();
    let r = headers.parse("no colon here\r\n\r\n".as_bytes());
    assert_eq!(r.unwrap_err(), HTTPParsingError::BadFieldLine);
}

#[test]
fn header_needs_more_input() {
    let mut headers = Headers::new();
    let (n, done) = headers.parse("Host: partial".as_bytes()).unwrap();
    assert_eq!(n, 0);
    assert!(!done);
}

#[test]
fn header_set_merges_and_replace_overwrites() {
    let mut headers = Headers::new();
    headers.set(b"Host".to_vec(), b"a".to_vec()).unwrap();
    headers.set(b"HOST".to_vec(), b"b".to_vec()).unwrap();
    assert_eq!(headers.get(b"host").unwrap(), b"a,b".to_vec());
    headers.replace(b"host".to_vec(), b"c".to_vec()).unwrap();
    assert_eq!(headers.get(b"Host").unwrap(), b"c".to_vec());
}

#[test]
fn header_set_rejects_bad_token() {
    let mut headers = Headers::new();
    let r = headers.set(b"bad name".to_vec(), b"v".to_vec());
    assert_eq!(r.unwrap_err(), HTTPParsingError::BadToken);
}

#[test]
fn header_get_missing() {
    let headers = Headers::new();
    assert!(headers.get(b"absent").is_none());
}
