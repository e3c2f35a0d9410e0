use httpfromtcp::chunked::{build_chunked_response, chunk_encode, digest_trailers, Frame, Route};
use httpfromtcp::chunked::route;
use httpfromtcp::headers::Headers;

#[test]
fn chunk_encode_small() {
    assert_eq!(chunk_encode(b"abc", 2), b"2\r\nab\r\n1\r\nc\r\n0\r\n".to_vec());
}

#[test]
fn chunk_encode_empty() {
    assert_eq!(chunk_encode(b"", 32), b"0\r\n".to_vec());
}

#[test]
fn chunk_encode_hex_length() {
    let payload = vec![120u8; 33];
    let encoded = chunk_encode(&payload, 32);
    let mut expected = b"20\r\n".to_vec();
    expected.extend_from_slice(&[120u8; 32]);
    expected.extend_from_slice(b"\r\n1\r\nx\r\n0\r\n");
    assert_eq!(encoded, expected);
}

#[test]
fn digest_trailers_empty_payload() {
    let t = digest_trailers(b"");
    assert_eq!(
        t.get(b"X-Content-SHA256").unwrap(),
        b"e3b0c44298fc1c149afbf4c8996fb92427ae41e4649b934ca495991b7852b855".to_vec()
    );
    assert_eq!(t.get(b"X-Content-Length").unwrap(), b"0".to_vec());
}

#[test]
fn build_chunked_response_shape() {
    let r = build_chunked_response(b"abc");
    assert_eq!(r.head.status.code, 200);
    assert_eq!(r.head.headers.get(b"Transfer-Encoding").unwrap(), b"chunked".to_vec());
    let mut expected = b"3\r\nabc\r\n0\r\n".to_vec();
    expected.extend_from_slice(
        b"x-content-sha256: ba7816bf8f01cfea414140de5dae2223b00361a396177a9cb410ff61f20015ad\r\n",
    );
    expected.extend_from_slice(b"x-content-length: 3\r\n\r\n");
    assert_eq!(r.body, expected);
}

#[test]
fn route_decisions() {
    assert!(matches!(route(b"/myproblem"), Route::Internal));
    assert!(matches!(route(b"yourproblem"), Route::BadRequest));
    assert!(matches!(route(b"/"), Route::Static));
    assert!(matches!(route(b"/index.html"), Route::Static));
    match route(b"/httpbin/get") {
        Route::Fetch(u) => assert_eq!(u, b"https://httpbin.org/get".to_vec()),
        _ => panic!("expected a fetch route"),
    }
}

#[test]
fn frame_accessors() {
    let f = Frame::data(b"payload".to_vec());
    assert!(f.is_data());
    assert_eq!(f.data_ref().unwrap(), &b"payload".to_vec());
    match f.into_data() {
        Ok(d) => assert_eq!(d, b"payload".to_vec()),
        Err(_) => panic!("expected a data frame"),
    }

    let t: Frame<Vec<u8>> = Frame::trailers(Headers::new());
    assert!(!t.is_data());
    assert!(t.data_ref().is_none());
    assert!(t.into_data().is_err());
}
