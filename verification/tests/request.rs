use learn_browser::error::{RequestError, Stage, TransportError};
use learn_browser::markup::strip_html_tags;
use learn_browser::request::{format_request, make_request_with_socket, request};
use learn_browser::socket::Socket;
use learn_browser::url::Url;

#[derive(Debug)]
struct MockSocket;

impl Socket for MockSocket {
    fn connect(&mut self, _host: &str, _port: u16) -> Result<(), TransportError> {
        Ok(())
    }

    fn send(&mut self, _data: &[u8]) -> Result<(), TransportError> {
        Ok(())
    }

    fn read_line(&mut self) -> Result<String, TransportError> {
        Ok("HTTP/1.0 200 OK\r\n".to_string())
    }

    fn read_to_string(&mut self) -> Result<String, TransportError> {
        Ok("Mock body content".to_string())
    }
}

#[derive(Debug)]
struct TestSocket {
    connect_calls: Vec<(String, u16)>,
    send_calls: Vec<String>,
    connect_should_fail: bool,
    send_should_fail: bool,
    response_lines: Vec<String>,
    current_line_index: usize,
}

impl TestSocket {
    fn with_response_lines(lines: Vec<String>) -> Self {
        TestSocket {
            connect_calls: Vec::new(),
            send_calls: Vec::new(),
            connect_should_fail: false,
            send_should_fail: false,
            response_lines: lines,
            current_line_index: 0,
        }
    }

    fn with_full_response() -> Self {
        TestSocket::with_response_lines(vec![
            "HTTP/1.1 200 OK\r\n".to_string(),
            "Content-Type: text/html\r\n".to_string(),
            "Content-Length: 13\r\n".to_string(),
            "\r\n".to_string(),
            "Hello, World!".to_string(),
        ])
    }

    fn with_connect_failure() -> Self {
        TestSocket {
            connect_calls: Vec::new(),
            send_calls: Vec::new(),
            connect_should_fail: true,
            send_should_fail: false,
            response_lines: Vec::new(),
            current_line_index: 0,
        }
    }

    fn with_send_failure() -> Self {
        TestSocket {
            connect_calls: Vec::new(),
            send_calls: Vec::new(),
            connect_should_fail: false,
            send_should_fail: true,
            response_lines: Vec::new(),
            current_line_index: 0,
        }
    }

    fn with_eof_after_status() -> Self {
        TestSocket::with_response_lines(vec!["HTTP/1.1 200 OK\r\n".to_string()])
    }

    fn with_eof_during_headers() -> Self {
        TestSocket::with_response_lines(vec![
            "HTTP/1.1 200 OK\r\n".to_string(),
            "Content-Type: text/html\r\n".to_string(),
        ])
    }

    fn with_eof_before_status() -> Self {
        TestSocket::with_response_lines(vec![])
    }
}

impl Socket for TestSocket {
    fn connect(&mut self, host: &str, port: u16) -> Result<(), TransportError> {
        self.connect_calls.push((host.to_string(), port));
        if self.connect_should_fail {
            Err(TransportError::ConnectFailed("Connection failed".to_string()))
        } else {
            Ok(())
        }
    }

    fn send(&mut self, data: &[u8]) -> Result<(), TransportError> {
        self.send_calls
            .push(String::from_utf8_lossy(data).to_string());
        if self.send_should_fail {
            Err(TransportError::SendFailed("Send failed".to_string()))
        } else {
            Ok(())
        }
    }

    fn read_line(&mut self) -> Result<String, TransportError> {
        if self.current_line_index < self.response_lines.len() {
            let line = self.response_lines[self.current_line_index].clone();
            self.current_line_index += 1;
            Ok(line)
        } else {
            Err(TransportError::ReadFailed("No more lines to read".to_string()))
        }
    }

    fn read_to_string(&mut self) -> Result<String, TransportError> {
        let mut result = String::new();
        while self.current_line_index < self.response_lines.len() {
            result.push_str(&self.response_lines[self.current_line_index]);
            self.current_line_index += 1;
        }
        Ok(result)
    }
}

fn lines(text: &[&str]) -> Vec<String> {
    text.iter().map(|line| line.to_string()).collect()
}

#[test]
fn test_socket_connect() {
    let _url = Url::new("http://example.com").unwrap();
    let mut socket = MockSocket;
    let result = socket.connect("example.com", 80);
    assert!(result.is_ok());
}

#[test]
fn test_url_request() {
    let mut socket = TestSocket::with_full_response();
    let url = Url::new("http://example.com/path").unwrap();
    let result = make_request_with_socket(&mut socket, &url);
    assert!(result.is_ok());
}

#[test]
fn test_url_request_connect_failed() {
    let mut socket = TestSocket::with_connect_failure();
    let url = Url::new("http://example.com/path").unwrap();

    let result = make_request_with_socket(&mut socket, &url);

    assert!(result.is_err());
    assert_eq!(result.unwrap_err().message(), "Connection failed");

    assert_eq!(socket.connect_calls.len(), 1);
    assert_eq!(socket.connect_calls[0], ("example.com".to_string(), 80));

    assert_eq!(socket.send_calls.len(), 0);
}

#[test]
fn test_url_request_send_failed() {
    let mut socket = TestSocket::with_send_failure();
    let url = Url::new("http://example.com/path").unwrap();

    let result = make_request_with_socket(&mut socket, &url);

    assert!(result.is_err());
    assert_eq!(result.unwrap_err().message(), "Send failed");

    assert_eq!(socket.connect_calls.len(), 1);
    assert_eq!(socket.connect_calls[0], ("example.com".to_string(), 80));

    assert_eq!(socket.send_calls.len(), 1);
    assert_eq!(
        socket.send_calls[0],
        "GET /path HTTP/1.0\r\nHost: example.com\r\n\r\n"
    );
}

#[test]
fn test_url_request_success() {
    let mut socket = TestSocket::with_full_response();
    let url = Url::new("http://example.com/path/to/resource").unwrap();

    let result = make_request_with_socket(&mut socket, &url);

    assert!(result.is_ok());

    let response = result.unwrap();
    assert_eq!(response.version, "HTTP/1.1");
    assert_eq!(response.status, 200);
    assert_eq!(response.explanation, "OK");
    assert_eq!(
        response.headers.get("content-type"),
        Some(&"text/html".to_string())
    );
    assert_eq!(
        response.headers.get("content-length"),
        Some(&"13".to_string())
    );
    assert_eq!(response.body, "Hello, World!");

    assert_eq!(socket.connect_calls.len(), 1);
    assert_eq!(socket.connect_calls[0], ("example.com".to_string(), 80));

    assert_eq!(socket.send_calls.len(), 1);
    assert_eq!(
        socket.send_calls[0],
        "GET /path/to/resource HTTP/1.0\r\nHost: example.com\r\n\r\n"
    );
}

#[test]
fn test_http_response_parsing_status_line() {
    let mut socket = TestSocket::with_response_lines(vec![
        "HTTP/1.0 404 Not Found\r\n".to_string(),
        "\r\n".to_string(),
    ]);
    let url = Url::new("http://example.com/notfound").unwrap();

    let result = make_request_with_socket(&mut socket, &url);
    assert!(result.is_ok());

    let response = result.unwrap();
    assert_eq!(response.version, "HTTP/1.0");
    assert_eq!(response.status, 404);
    assert_eq!(response.explanation, "Not Found");
    assert!(response.headers.is_empty());
    assert_eq!(response.body, "");
}

#[test]
fn test_http_response_parsing_with_headers() {
    let mut socket = TestSocket::with_response_lines(vec![
        "HTTP/1.1 200 OK\r\n".to_string(),
        "Server: Apache/2.4.41\r\n".to_string(),
        "Content-Type: application/json\r\n".to_string(),
        "Cache-Control: no-cache\r\n".to_string(),
        "\r\n".to_string(),
        "{\"message\": \"success\"}".to_string(),
    ]);
    let url = Url::new("http://api.example.com/data").unwrap();

    let result = make_request_with_socket(&mut socket, &url);
    assert!(result.is_ok());

    let response = result.unwrap();
    assert_eq!(response.version, "HTTP/1.1");
    assert_eq!(response.status, 200);
    assert_eq!(response.explanation, "OK");
    assert_eq!(
        response.headers.get("server"),
        Some(&"Apache/2.4.41".to_string())
    );
    assert_eq!(
        response.headers.get("content-type"),
        Some(&"application/json".to_string())
    );
    assert_eq!(
        response.headers.get("cache-control"),
        Some(&"no-cache".to_string())
    );
    assert_eq!(response.body, "{\"message\": \"success\"}");
}

#[test]
fn test_http_response_parsing_multiline_body() {
    let mut socket = TestSocket::with_response_lines(vec![
        "HTTP/1.1 200 OK\r\n".to_string(),
        "Content-Type: text/plain\r\n".to_string(),
        "\r\n".to_string(),
        "Line 1\n".to_string(),
        "Line 2\n".to_string(),
        "Line 3".to_string(),
    ]);
    let url = Url::new("http://example.com/text").unwrap();

    let result = make_request_with_socket(&mut socket, &url);
    assert!(result.is_ok());

    let response = result.unwrap();
    assert_eq!(response.body, "Line 1\nLine 2\nLine 3");
}

#[test]
fn test_http_response_parsing_invalid_status_line() {
    let mut socket = TestSocket::with_response_lines(vec![
        "HTTP/1.1 ABC Not Found\r\n".to_string(),
        "\r\n".to_string(),
    ]);
    let url = Url::new("http://example.com/invalid").unwrap();

    let result = make_request_with_socket(&mut socket, &url);
    assert!(result.is_err());
    assert_eq!(result.unwrap_err().message(), "Invalid HTTP status code");
}

#[test]
fn test_http_response_parsing_headers_case_insensitive() {
    let mut socket = TestSocket::with_response_lines(vec![
        "HTTP/1.1 200 OK\r\n".to_string(),
        "Content-Type: text/html\r\n".to_string(),
        "CONTENT-LENGTH: 5\r\n".to_string(),
        "Cache-CONTROL: max-age=3600\r\n".to_string(),
        "\r\n".to_string(),
        "Hello".to_string(),
    ]);
    let url = Url::new("http://example.com/case").unwrap();

    let result = make_request_with_socket(&mut socket, &url);
    assert!(result.is_ok());

    let response = result.unwrap();
    assert_eq!(
        response.headers.get("content-type"),
        Some(&"text/html".to_string())
    );
    assert_eq!(
        response.headers.get("content-length"),
        Some(&"5".to_string())
    );
    assert_eq!(
        response.headers.get("cache-control"),
        Some(&"max-age=3600".to_string())
    );
}

#[test]
fn example_request_with_html_stripping() {
    let mut socket = TestSocket::with_response_lines(vec![
        "HTTP/1.1 200 OK\r\n".to_string(),
        "Content-Type: text/html\r\n".to_string(),
        "Content-Length: 50\r\n".to_string(),
        "\r\n".to_string(),
        "<html><head><title>Test</title></head>".to_string(),
        "<body><h1>Welcome!</h1><p>This is a test page.</p></body></html>".to_string(),
    ]);

    let url = Url::new("http://example.com").unwrap();
    let response = make_request_with_socket(&mut socket, &url).unwrap();

    println!("Status: {}", response.status);
    println!("Headers: {:?}", response.headers);
    println!("Raw body: {}", response.body);

    let clean_body = strip_html_tags(&response.body);
    println!("Body without HTML tags: {}", clean_body);

    assert_eq!(response.status, 200);
    assert_eq!(clean_body, "TestWelcome!This is a test page.");
}

#[test]
fn test_eof_before_status_line() {
    let mut socket = TestSocket::with_eof_before_status();
    let url = Url::new("http://example.com").unwrap();

    let result = make_request_with_socket(&mut socket, &url);
    assert!(result.is_err());
    assert_eq!(result.unwrap_err().message(), "No more lines to read");
}

#[test]
fn test_eof_after_status_line() {
    let mut socket = TestSocket::with_eof_after_status();
    let url = Url::new("http://example.com").unwrap();

    let result = make_request_with_socket(&mut socket, &url);
    assert!(result.is_err());
    assert_eq!(result.unwrap_err().message(), "No more lines to read");
}

#[test]
fn test_eof_during_headers() {
    let mut socket = TestSocket::with_eof_during_headers();
    let url = Url::new("http://example.com").unwrap();

    let result = make_request_with_socket(&mut socket, &url);
    assert!(result.is_err());
    assert_eq!(result.unwrap_err().message(), "No more lines to read");
}

#[test]
fn test_eof_in_body_is_ok() {
    let mut socket = TestSocket::with_response_lines(vec![
        "HTTP/1.1 200 OK\r\n".to_string(),
        "Content-Type: text/plain\r\n".to_string(),
        "\r\n".to_string(),
        "Partial body".to_string(),
    ]);
    let url = Url::new("http://example.com").unwrap();

    let result = make_request_with_socket(&mut socket, &url);
    assert!(result.is_ok());

    let response = result.unwrap();
    assert_eq!(response.status, 200);
    assert_eq!(response.body, "Partial body");
}

#[test]
fn request_text_is_one_request_line_one_header_and_a_blank_line() {
    let url = Url::new("http://example.com/a/b?c=d").unwrap();
    assert_eq!(
        format_request(&url),
        "GET /a/b?c=d HTTP/1.0\r\nHost: example.com\r\n\r\n"
    );
    let url = Url::new("https://example.org").unwrap();
    assert_eq!(format_request(&url), "GET / HTTP/1.0\r\nHost: example.org\r\n\r\n");
}

#[test]
fn https_connects_to_port_443() {
    let mut socket = TestSocket::with_full_response();
    let url = Url::new("https://example.com/").unwrap();
    assert!(make_request_with_socket(&mut socket, &url).is_ok());
    assert_eq!(socket.connect_calls, vec![("example.com".to_string(), 443)]);
}

#[test]
fn failures_name_their_stage_and_carry_the_transport_error() {
    let url = Url::new("http://example.com").unwrap();

    let mut socket = TestSocket::with_connect_failure();
    assert_eq!(
        make_request_with_socket(&mut socket, &url).unwrap_err(),
        RequestError::Transport {
            stage: Stage::Connect,
            error: TransportError::ConnectFailed("Connection failed".to_string()),
        }
    );

    let mut socket = TestSocket::with_send_failure();
    assert_eq!(
        make_request_with_socket(&mut socket, &url).unwrap_err(),
        RequestError::Transport {
            stage: Stage::Send,
            error: TransportError::SendFailed("Send failed".to_string()),
        }
    );

    let mut socket = TestSocket::with_eof_before_status();
    assert_eq!(
        make_request_with_socket(&mut socket, &url).unwrap_err(),
        RequestError::Transport {
            stage: Stage::Status,
            error: TransportError::ReadFailed("No more lines to read".to_string()),
        }
    );

    let mut socket = TestSocket::with_eof_during_headers();
    assert_eq!(
        make_request_with_socket(&mut socket, &url).unwrap_err(),
        RequestError::Transport {
            stage: Stage::Headers,
            error: TransportError::ReadFailed("No more lines to read".to_string()),
        }
    );
}

struct FailingBody;

impl Socket for FailingBody {
    fn connect(&mut self, _host: &str, _port: u16) -> Result<(), TransportError> {
        Ok(())
    }

    fn send(&mut self, _data: &[u8]) -> Result<(), TransportError> {
        Ok(())
    }

    fn read_line(&mut self) -> Result<String, TransportError> {
        Ok("\r\n".to_string())
    }

    fn read_to_string(&mut self) -> Result<String, TransportError> {
        Err(TransportError::ReadFailed("broken pipe".to_string()))
    }
}

#[test]
fn a_blank_status_line_is_no_status_line() {
    let url = Url::new("http://example.com").unwrap();
    assert_eq!(
        make_request_with_socket(&mut FailingBody, &url).unwrap_err(),
        RequestError::InvalidStatusLine
    );
}

struct StatusThenFailingBody(bool);

impl Socket for StatusThenFailingBody {
    fn connect(&mut self, _host: &str, _port: u16) -> Result<(), TransportError> {
        Ok(())
    }

    fn send(&mut self, _data: &[u8]) -> Result<(), TransportError> {
        Ok(())
    }

    fn read_line(&mut self) -> Result<String, TransportError> {
        if self.0 {
            Ok("\r\n".to_string())
        } else {
            self.0 = true;
            Ok("HTTP/1.0 200 OK\r\n".to_string())
        }
    }

    fn read_to_string(&mut self) -> Result<String, TransportError> {
        Err(TransportError::ReadFailed("broken pipe".to_string()))
    }
}

#[test]
fn a_failure_while_reading_the_body_is_a_failure() {
    let url = Url::new("http://example.com").unwrap();
    let error = make_request_with_socket(&mut StatusThenFailingBody(false), &url).unwrap_err();
    assert_eq!(
        error,
        RequestError::Transport {
            stage: Stage::Body,
            error: TransportError::ReadFailed("broken pipe".to_string()),
        }
    );
    assert_eq!(error.message(), "broken pipe");
}

#[test]
fn status_line_with_fewer_than_three_parts_is_invalid() {
    let url = Url::new("http://example.com").unwrap();
    for status in ["HTTP/1.1\r\n", "HTTP/1.1 200\r\n", "HTTP/1.1200OK\r\n", "", "\n"] {
        let mut socket = TestSocket::with_response_lines(lines(&[status, "\r\n"]));
        let error = make_request_with_socket(&mut socket, &url).unwrap_err();
        assert_eq!(error, RequestError::InvalidStatusLine, "{status:?}");
        assert_eq!(error.message(), "Invalid HTTP status line");
        assert_eq!(socket.current_line_index, 1);
    }
}

#[test]
fn status_code_must_be_a_16_bit_number() {
    let url = Url::new("http://example.com").unwrap();
    for status in [
        "HTTP/1.1 ABC Not Found\r\n",
        "HTTP/1.1  200 OK\r\n",
        "HTTP/1.1 65536 Big\r\n",
        "HTTP/1.1 -1 Negative\r\n",
        "HTTP/1.1 2x0 OK\r\n",
        "HTTP/1.1 + OK\r\n",
        "HTTP/1.1 ٢٠٠ OK\r\n",
    ] {
        let mut socket = TestSocket::with_response_lines(lines(&[status, "\r\n"]));
        let error = make_request_with_socket(&mut socket, &url).unwrap_err();
        assert_eq!(error, RequestError::InvalidStatusCode, "{status:?}");
    }
    for (status, code) in [
        ("HTTP/1.1 65535 Max\r\n", 65535),
        ("HTTP/1.1 0 Zero\r\n", 0),
        ("HTTP/1.1 +204 Plus\r\n", 204),
        ("HTTP/1.1 000301 Zeros\r\n", 301),
    ] {
        let mut socket = TestSocket::with_response_lines(lines(&[status, "\r\n"]));
        let response = make_request_with_socket(&mut socket, &url).unwrap();
        assert_eq!(response.status, code, "{status:?}");
    }
}

#[test]
fn explanation_keeps_its_spaces_and_may_be_empty() {
    let url = Url::new("http://example.com").unwrap();
    let mut socket = TestSocket::with_response_lines(lines(&[
        "HTTP/1.1 500 Internal  Server Error \r\n",
        "\r\n",
    ]));
    let response = make_request_with_socket(&mut socket, &url).unwrap();
    assert_eq!(response.explanation, "Internal  Server Error ");

    let mut socket = TestSocket::with_response_lines(lines(&["HTTP/1.1 200 \r\n", "\r\n"]));
    let response = make_request_with_socket(&mut socket, &url).unwrap();
    assert_eq!(response.explanation, "");
}

#[test]
fn header_lines_without_colon_are_ignored() {
    let url = Url::new("http://example.com").unwrap();
    let mut socket = TestSocket::with_response_lines(lines(&[
        "HTTP/1.1 200 OK\r\n",
        "this line has no colon\r\n",
        "X-Real: yes\r\n",
        "\n",
        "\r\n",
        "body",
    ]));
    let response = make_request_with_socket(&mut socket, &url).unwrap();
    assert_eq!(response.headers.len(), 1);
    assert_eq!(response.headers.get("x-real"), Some(&"yes".to_string()));
    assert_eq!(response.body, "body");
}

#[test]
fn header_names_and_values_are_trimmed_and_cut_at_the_first_colon() {
    let url = Url::new("http://example.com").unwrap();
    let mut socket = TestSocket::with_response_lines(lines(&[
        "HTTP/1.1 200 OK\r\n",
        "  Location \t:   http://example.com:8080/x  \r\n",
        "Empty:\r\n",
        ": nameless\r\n",
        "\r\n",
    ]));
    let response = make_request_with_socket(&mut socket, &url).unwrap();
    assert_eq!(
        response.headers.get("location"),
        Some(&"http://example.com:8080/x".to_string())
    );
    assert_eq!(response.headers.get("empty"), Some(&"".to_string()));
    assert_eq!(response.headers.get(""), Some(&"nameless".to_string()));
    assert_eq!(response.headers.len(), 3);
}

#[test]
fn of_two_headers_with_one_name_the_last_counts() {
    let url = Url::new("http://example.com").unwrap();
    let mut socket = TestSocket::with_response_lines(lines(&[
        "HTTP/1.1 200 OK\r\n",
        "Set-Cookie: a=1\r\n",
        "X-Other: o\r\n",
        "SET-COOKIE: b=2\r\n",
        "\r\n",
    ]));
    let response = make_request_with_socket(&mut socket, &url).unwrap();
    assert_eq!(response.headers.get("set-cookie"), Some(&"b=2".to_string()));
    assert_eq!(response.headers.get("x-other"), Some(&"o".to_string()));
    assert_eq!(response.headers.len(), 2);
    assert_eq!(response.headers.get("Set-Cookie"), None);
}

#[test]
fn header_case_does_not_change_the_mapping() {
    let url = Url::new("http://example.com").unwrap();
    let mut upper = TestSocket::with_response_lines(lines(&[
        "HTTP/1.1 200 OK\r\n",
        "CONTENT-LENGTH: 5\r\n",
        "\r\n",
    ]));
    let mut lower = TestSocket::with_response_lines(lines(&[
        "HTTP/1.1 200 OK\r\n",
        "content-length: 5\r\n",
        "\r\n",
    ]));
    let upper = make_request_with_socket(&mut upper, &url).unwrap();
    let lower = make_request_with_socket(&mut lower, &url).unwrap();
    assert_eq!(upper.headers.len(), 1);
    assert_eq!(lower.headers.len(), 1);
    assert_eq!(upper.headers.get("content-length"), Some(&"5".to_string()));
    assert_eq!(
        upper.headers.get("content-length"),
        lower.headers.get("content-length")
    );
    assert_eq!(upper.headers.get("CONTENT-LENGTH"), None);
}

#[test]
fn header_names_outside_ascii_are_put_in_lower_case_too() {
    let url = Url::new("http://example.com").unwrap();
    let mut socket = TestSocket::with_response_lines(lines(&[
        "HTTP/1.1 200 OK\r\n",
        "ÄÖÜ-Σ: x\r\n",
        "\r\n",
    ]));
    let response = make_request_with_socket(&mut socket, &url).unwrap();
    assert_eq!(response.headers.get("äöü-σ"), Some(&"x".to_string()));
}

#[test]
fn only_an_exact_blank_line_ends_the_headers() {
    let url = Url::new("http://example.com").unwrap();
    let mut socket = TestSocket::with_response_lines(lines(&[
        "HTTP/1.1 200 OK\r\n",
        " \r\n",
        "\r\n\r\n",
        "A: 1\r\n",
        "\r\n",
        "rest",
    ]));
    let response = make_request_with_socket(&mut socket, &url).unwrap();
    assert_eq!(response.headers.get("a"), Some(&"1".to_string()));
    assert_eq!(response.headers.len(), 1);
    assert_eq!(response.body, "rest");
}

#[test]
fn empty_body_without_content_length_is_success() {
    let url = Url::new("http://example.com").unwrap();
    let mut socket = TestSocket::with_response_lines(lines(&["HTTP/1.0 204 No Content\r\n", "\r\n"]));
    let response = make_request_with_socket(&mut socket, &url).unwrap();
    assert_eq!(response.body, "");
    assert!(response.headers.is_empty());
    assert_eq!(response.headers.len(), 0);
}

#[test]
fn request_selects_the_transport_by_scheme() {
    let mut plain = TestSocket::with_full_response();
    let mut encrypted = TestSocket::with_full_response();
    let url = Url::new("http://example.com/p").unwrap();
    let response = request(&mut plain, &mut encrypted, &url).unwrap();
    assert_eq!(response.status, 200);
    assert_eq!(plain.connect_calls, vec![("example.com".to_string(), 80)]);
    assert_eq!(plain.send_calls.len(), 1);
    assert!(encrypted.connect_calls.is_empty());
    assert!(encrypted.send_calls.is_empty());
    assert_eq!(encrypted.current_line_index, 0);

    let mut plain = TestSocket::with_full_response();
    let mut encrypted = TestSocket::with_full_response();
    let url = Url::new("https://example.com/s").unwrap();
    let response = request(&mut plain, &mut encrypted, &url).unwrap();
    assert_eq!(response.body, "Hello, World!");
    assert_eq!(encrypted.connect_calls, vec![("example.com".to_string(), 443)]);
    assert_eq!(
        encrypted.send_calls,
        vec!["GET /s HTTP/1.0\r\nHost: example.com\r\n\r\n".to_string()]
    );
    assert!(plain.connect_calls.is_empty());
    assert_eq!(plain.current_line_index, 0);
}

#[test]
fn nothing_is_read_after_a_failure() {
    let url = Url::new("http://example.com").unwrap();
    let mut socket = TestSocket::with_response_lines(lines(&[
        "HTTP/1.1 ABC Not Found\r\n",
        "A: 1\r\n",
        "\r\n",
        "body",
    ]));
    assert!(make_request_with_socket(&mut socket, &url).is_err());
    assert_eq!(socket.current_line_index, 1);

    let mut socket = TestSocket::with_connect_failure();
    assert!(make_request_with_socket(&mut socket, &url).is_err());
    assert_eq!(socket.current_line_index, 0);
    assert!(socket.send_calls.is_empty());
}

#[test]
fn mock_socket_always_gives_the_same_answers() {
    let mut socket = MockSocket;
    assert_eq!(socket.read_line().unwrap(), "HTTP/1.0 200 OK\r\n");
    assert_eq!(socket.read_to_string().unwrap(), "Mock body content");
    assert!(socket.send(b"x").is_ok());
}
