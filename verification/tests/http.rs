use spate_bench::http::decode;
use spate_bench::http::get;
use spate_bench::http::post;
use spate_bench::http::post_typed;

#[test]
fn splits_headers_from_body() {
    let raw = "HTTP/1.1 200 OK\r\nContent-Length: 3\r\n\r\n42\n";
    assert_eq!(decode(raw), "42\n");
}

#[test]
fn reassembles_a_chunked_body() {
    // ClickHouse chunks most SELECT responses, so this is the common path.
    let raw = "HTTP/1.1 200 OK\r\nTransfer-Encoding: chunked\r\n\r\n3\r\n42\n\r\n0\r\n\r\n";
    assert_eq!(decode(raw), "42\n");
}

#[test]
fn a_truncated_chunk_yields_nothing_rather_than_panicking() {
    // A read timeout leaves a chunk header that promises more bytes than
    // arrived. Half a chunk is not data.
    let raw = "HTTP/1.1 200 OK\r\nTransfer-Encoding: chunked\r\n\r\nff\r\nshort";
    assert_eq!(decode(raw), "");
}

#[test]
fn a_complete_chunk_before_a_truncated_one_survives() {
    let raw = "HTTP/1.1 200 OK\r\nTransfer-Encoding: chunked\r\n\r\n3\r\n42\n\r\nff\r\nshort";
    assert_eq!(decode(raw), "42\n");
}

#[test]
fn a_response_without_a_header_terminator_is_empty() {
    assert_eq!(decode("garbage"), "");
}

#[test]
fn chunk_lengths_count_bytes_and_are_hexadecimal() {
    // Ten bytes, of which the last two write one character.
    let raw = "HTTP/1.1 200 OK\r\nTransfer-Encoding: Chunked\r\n\r\na\r\nabcdefgh\u{e9}\r\n0\r\n\r\n";
    assert_eq!(decode(raw), "abcdefgh\u{e9}");
}

#[test]
fn a_plain_body_may_name_the_header() {
    assert_eq!(
        decode("HTTP/1.1 200 OK\r\n\r\nTransfer-Encoding: chunked"),
        "Transfer-Encoding: chunked"
    );
    // A second blank line belongs to the body.
    assert_eq!(
        decode("HTTP/1.1 200 OK\r\n\r\nTransfer-Encoding: chunked\r\n\r\n2\r\nok\r\n"),
        "Transfer-Encoding: chunked\r\n\r\n2\r\nok\r\n"
    );
}

#[test]
fn requests_close_their_connection() {
    assert_eq!(
        get("localhost:8123", "/ping"),
        "GET /ping HTTP/1.1\r\nHost: localhost:8123\r\nConnection: close\r\n\r\n"
    );
    let typed = post_typed("h", "/p", Some("application/json"), "{}");
    assert!(typed.contains("Content-Type: application/json\r\n"));
    assert!(typed.contains("Content-Length: 2\r\n"));
    assert!(typed.ends_with("\r\n\r\n{}"));
    assert!(!post("h", "/p", "{}").contains("Content-Type"));
}
