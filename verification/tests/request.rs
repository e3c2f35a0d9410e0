use httpfromtcp::error::HTTPParsingError;
use httpfromtcp::method::Method;
use httpfromtcp::reader::PollBytes;
use httpfromtcp::request::{ParserState, Request};
use httpfromtcp::status::StatusCode;
use httpfromtcp::version::Version;

struct ChunkReader {
    data: Vec<u8>,
    num_bytes_per_read: usize,
    pos: usize,
}

impl ChunkReader {
    fn new(data: &str, num_bytes_per_read: usize) -> Self {
        Self { data: data.as_bytes().to_vec(), num_bytes_per_read, pos: 0 }
    }
}

impl PollBytes for ChunkReader {
    fn read_mem(&mut self, len: usize) -> Result<Vec<u8>, HTTPParsingError> {
        if self.pos >= self.data.len() {
            return Ok(Vec::new());
        }
        let end = (self.pos + self.num_bytes_per_read).min(self.data.len());
        let n = len.min(end - self.pos);
        let out = self.data[self.pos..self.pos + n].to_vec();
        self.pos += n;
        Ok(out)
    }
}

struct FailingReader;

impl PollBytes for FailingReader {
    fn read_mem(&mut self, _len: usize) -> Result<Vec<u8>, HTTPParsingError> {
        Err(HTTPParsingError::IOError)
    }
}

#[test]
fn good_get_request_line() {
    let r = Request::from_reader(&mut ChunkReader::new(
        "GET / HTTP/1.1\r\nHost: localhost:42069\r\nUser-Agent: curl/7.81.0\r\nAccept: */*\r\n\r\n",
        3,
    ))
    .unwrap();

    let rl = r.request_line.unwrap();
    assert_eq!("GET", rl.method.as_str());
    assert_eq!(b"/".to_vec(), rl.uri);
    assert_eq!("1.1", rl.version.as_str());
}

#[test]
fn good_get_request_line_with_path() {
    let r = Request::from_reader(&mut ChunkReader::new(
        "GET /coffee HTTP/1.1\r\nHost: localhost:42069\r\nUser-Agent: curl/7.81.0\r\nAccept: */*\r\n\r\n",
        1,
    ))
    .unwrap();

    let rl = r.request_line.unwrap();
    assert_eq!("GET", rl.method.as_str());
    assert_eq!(b"/coffee".to_vec(), rl.uri);
    assert_eq!("1.1", rl.version.as_str());
}

#[test]
fn bad_input() {
    let r = Request::from_reader(&mut ChunkReader::new(
        "/coffee HTTP/1.1\r\nHost: localhost:42069\r\nUser-Agent: curl/7.81.0\r\nAccept: */*\r\n\r\n",
        2,
    ));
    assert!(r.is_err());
}

#[test]
fn lowercase_method_rejected() {
    let r = Request::from_reader(&mut ChunkReader::new(
        "get / HTTP/1.1\r\nHost: localhost:42069\r\n\r\n",
        4,
    ));
    assert_eq!(r.err().unwrap(), HTTPParsingError::BadRequestLine);
}

#[test]
fn unknown_method_rejected() {
    let r = Request::from_reader(&mut ChunkReader::new("FETCH / HTTP/1.1\r\n\r\n", 4));
    assert_eq!(r.err().unwrap(), HTTPParsingError::BadMethod);
}

#[test]
fn unsupported_version_rejected() {
    let r = Request::from_reader(&mut ChunkReader::new(
        "GET / HTTP/2.0\r\nHost: localhost:42069\r\n\r\n",
        4,
    ));
    assert_eq!(r.err().unwrap(), HTTPParsingError::UnsupportedHTTPVersion);
}

#[test]
fn extra_token_rejected() {
    let r = Request::from_reader(&mut ChunkReader::new("GET / HTTP/1.1 extra\r\n\r\n", 4));
    assert_eq!(r.err().unwrap(), HTTPParsingError::BadRequestLine);
}

#[test]
fn post_submit_body_three_byte_chunks() {
    let r = Request::from_reader(&mut ChunkReader::new(
        "POST /submit HTTP/1.1\r\nHost: localhost:42069\r\nContent-Length: 13\r\n\r\nhello world!\n",
        3,
    ))
    .unwrap();
    assert_eq!(r.body, b"hello world!\n".to_vec());
    assert!(matches!(r.state, ParserState::Done));
    let rl = r.request_line.unwrap();
    assert_eq!("POST", rl.method.as_str());
    assert_eq!(b"/submit".to_vec(), rl.uri);
}

#[test]
fn chunk_size_invariance() {
    let input =
        "POST /submit HTTP/1.1\r\nHost: localhost:42069\r\nContent-Length: 13\r\n\r\nhello world!\n";
    let whole = Request::from_reader(&mut ChunkReader::new(input, input.len())).unwrap();
    for chunk in 1..input.len() {
        let piecemeal = Request::from_reader(&mut ChunkReader::new(input, chunk)).unwrap();
        let a = whole.request_line.as_ref().unwrap();
        let b = piecemeal.request_line.as_ref().unwrap();
        assert_eq!(a.method.as_str(), b.method.as_str());
        assert_eq!(a.uri, b.uri);
        assert_eq!(a.version.as_str(), b.version.as_str());
        assert_eq!(whole.body, piecemeal.body);
        assert_eq!(whole.headers.get(b"host"), piecemeal.headers.get(b"host"));
        assert_eq!(
            whole.headers.get(b"content-length"),
            piecemeal.headers.get(b"content-length")
        );
    }
}

#[test]
fn short_body_is_error() {
    let r = Request::from_reader(&mut ChunkReader::new(
        "POST / HTTP/1.1\r\nContent-Length: 10\r\n\r\nabc",
        4,
    ));
    assert_eq!(r.err().unwrap(), HTTPParsingError::BadBody);
}

#[test]
fn no_content_length_completes_empty() {
    let r = Request::from_reader(&mut ChunkReader::new(
        "GET / HTTP/1.1\r\nHost: localhost:42069\r\n\r\n",
        5,
    ))
    .unwrap();
    assert!(matches!(r.state, ParserState::Done));
    assert!(r.body.is_empty());
}

#[test]
fn bad_content_length_int_error() {
    let r = Request::from_reader(&mut ChunkReader::new(
        "POST / HTTP/1.1\r\nContent-Length: abc\r\n\r\nxyz",
        6,
    ));
    assert_eq!(r.err().unwrap(), HTTPParsingError::IntError);
}

#[test]
fn non_utf8_body_utf_error() {
    let mut req = Request::new();
    let mut input = b"POST / HTTP/1.1\r\nContent-Length: 1\r\n\r\n".to_vec();
    input.push(0xFF);
    let r = req.parse(&input);
    assert_eq!(r.err().unwrap(), HTTPParsingError::UtfError);
}

#[test]
fn parser_error_after_error() {
    let mut req = Request::new();
    let r = req.parse(b"bogus request line\r\n");
    assert!(r.is_err());
    let again = req.parse(b"");
    assert_eq!(again.err().unwrap(), HTTPParsingError::Parser);
}

#[test]
fn eof_before_request_line() {
    let r = Request::from_reader(&mut ChunkReader::new("GET / HT", 3));
    assert_eq!(r.err().unwrap(), HTTPParsingError::RequestLineNotFound);
}

#[test]
fn eof_in_headers() {
    let r = Request::from_reader(&mut ChunkReader::new("GET / HTTP/1.1\r\nHost: x", 3));
    assert_eq!(r.err().unwrap(), HTTPParsingError::BadFieldLine);
}

#[test]
fn reader_failure_io_error() {
    let r = Request::from_reader(&mut FailingReader);
    assert_eq!(r.err().unwrap(), HTTPParsingError::IOError);
}

#[test]
fn incremental_parse_reports_consumed() {
    let mut req = Request::new();
    let n = req.parse(b"GET / HT").unwrap();
    assert_eq!(n, 0);
    let n = req.parse(b"GET / HTTP/1.1\r\nHo").unwrap();
    assert_eq!(n, 16);
    assert!(matches!(req.state, ParserState::Headers));
}

#[test]
fn method_matching() {
    assert_eq!(Method::from_bytes(b"GET").unwrap().as_str(), "GET");
    assert_eq!(Method::from_bytes(b"POST").unwrap().as_str(), "POST");
    assert_eq!(Method::from_bytes(b"PUT").unwrap().as_str(), "PUT");
    assert_eq!(Method::from_bytes(b"PATCH").unwrap().as_str(), "PATCH");
    assert_eq!(Method::from_bytes(b"DELETE").unwrap().as_str(), "DELETE");
    assert_eq!(Method::from_bytes(b"OPTIONS").unwrap_err(), HTTPParsingError::BadMethod);
    assert_eq!(Method::from_bytes(b"").unwrap_err(), HTTPParsingError::BadMethod);
}

#[test]
fn version_matching() {
    assert_eq!(Version::from_bytes(b"HTTP/1.1").unwrap().as_str(), "1.1");
    assert_eq!(
        Version::from_bytes(b"HTTP/2.0").unwrap_err(),
        HTTPParsingError::UnsupportedHTTPVersion
    );
    assert_eq!(
        Version::from_bytes(b"HTTP/1.0").unwrap_err(),
        HTTPParsingError::UnsupportedHTTPVersion
    );
    assert_eq!(Version::from_bytes(b"HTP/1.1").unwrap_err(), HTTPParsingError::BadRequestLine);
    assert_eq!(Version::from_bytes(b"HTTP/11").unwrap_err(), HTTPParsingError::BadRequestLine);
    assert_eq!(Version::from_bytes(b"HTTP/1.1x").unwrap_err(), HTTPParsingError::BadRequestLine);
}

#[test]
fn status_from_bytes() {
    assert_eq!(StatusCode::from_bytes(b"200").unwrap().code, 200);
    assert_eq!(StatusCode::from_bytes(b"999").unwrap().code, 999);
    assert_eq!(StatusCode::from_bytes(b"099").unwrap_err(), HTTPParsingError::BadStatusCode);
    assert_eq!(StatusCode::from_bytes(b"20x").unwrap_err(), HTTPParsingError::BadStatusCode);
    assert_eq!(StatusCode::from_bytes(b"1234").unwrap_err(), HTTPParsingError::BadStatusCode);
}
