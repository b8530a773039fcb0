use gfwsni::http::{
    content_length_of, host_header, host_of, http_response, length_of, parse_number, parse_request_line,
    push_decimal, request_line_of, BodyReader, HeadReader, HeadStep, HEAD_LIMIT,
};

fn number(s: &str, max: u64) -> Option<u64> {
    let chars: Vec<char> = s.chars().collect();
    parse_number(&chars, max)
}

fn decimal(n: usize) -> String {
    let mut s = String::new();
    push_decimal(&mut s, n);
    s
}

fn pair(a: &str, b: &str) -> (String, String) {
    (a.to_string(), b.to_string())
}

#[test]
fn numbers_are_read() {
    assert_eq!(number("0", 10), Some(0));
    assert_eq!(number("+42", 100), Some(42));
    assert_eq!(number("00017", 100), Some(17));
    assert_eq!(number("18446744073709551615", u64::MAX), Some(u64::MAX));
    assert_eq!(number("255", 255), Some(255));
}

#[test]
fn what_is_no_number() {
    for s in ["", "+", "-1", "1 ", "1a", "++1", "٣"] {
        assert_eq!(number(s, u64::MAX), None);
    }
    assert_eq!(number("18446744073709551616", u64::MAX), None);
    assert_eq!(number("256", 255), None);
    assert_eq!(number("99999999999999999999999999", u64::MAX), None);
}

#[test]
fn numbers_are_written() {
    for n in [0, 7, 10, 99, 100, 65536, usize::MAX] {
        assert_eq!(decimal(n), n.to_string());
        assert_eq!(number(&decimal(n), u64::MAX), Some(n as u64));
    }
}

#[test]
fn request_line_is_read() {
    let head = b"GET /dns-query?dns=AA HTTP/1.1\r\nHost: localhost\r\n\r\n";
    assert_eq!(parse_request_line(head), pair("GET", "/dns-query?dns=AA"));
    assert_eq!(request_line_of("  POST\t/x\nrest"), pair("POST", "/x"));
    assert_eq!(request_line_of("POST"), pair("POST", ""));
    assert_eq!(request_line_of(""), pair("", ""));
    assert_eq!(request_line_of("\r\nGET / HTTP/1.1"), pair("", ""));
    assert_eq!(parse_request_line(b"G\xFF /"), pair("G\u{FFFD}", "/"));
}

#[test]
fn host_field_is_read() {
    let head = b"GET / HTTP/1.1\r\nAccept: a:b\r\nhOsT:  github.com:443 \r\nHost: other\r\n\r\n";
    assert_eq!(host_header(head), "github.com:443");
    assert_eq!(host_of("GET / HTTP/1.1\r\nHost : x\r\n\r\n"), "");
    assert_eq!(host_of("Host: first-line\r\n\r\n"), "");
    assert_eq!(host_of(""), "");
}

#[test]
fn length_field_is_read() {
    let head = b"POST / HTTP/1.1\r\nContent-Length: 33\r\n\r\n";
    assert_eq!(content_length_of(head), 33);
    assert_eq!(length_of("P / x\ncontent-length: no\nCONTENT-LENGTH: +7\n"), 7);
    assert_eq!(length_of("P / x\ncontent-length: -7\n"), 0);
    assert_eq!(length_of("content-length: 5\n"), 0);
    assert_eq!(length_of(""), 0);
}

#[test]
fn response_is_written() {
    assert_eq!(
        http_response("200 OK", b"abc"),
        b"HTTP/1.1 200 OK\r\nContent-Type: application/dns-message\r\nContent-Length: 3\r\nConnection: close\r\n\r\nabc"
            .to_vec()
    );
}

#[test]
fn response_is_read_back() {
    let body: Vec<u8> = (0..300).map(|i| i as u8).collect();
    let all = http_response("200 OK", &body);
    let mut reader = HeadReader::new();
    match reader.feed(&all) {
        HeadStep::Done(head, behind) => {
            assert_eq!(behind, body);
            let mut rest = BodyReader::for_head(&head);
            assert!(rest.wants_more());
            rest.feed(&behind);
            assert!(!rest.wants_more());
            assert_eq!(rest.finish(), body);
        }
        _ => panic!("no head"),
    }
}

#[test]
fn length_of_a_whole_response() {
    let bodies: [&[u8]; 5] = [b"", b"abc", &[0xff, 0xfe, 0x80], &[0xc3], b"\r\nContent-Length: 9\r\n"];
    for body in bodies {
        assert_eq!(content_length_of(&http_response("200 OK", body)), body.len());
    }
}

#[test]
fn head_comes_in_pieces() {
    let all = b"GET / HTTP/1.1\r\nHost: a\r\n\r\nbody";
    let mut reader = HeadReader::new();
    for i in 0..26 {
        assert!(matches!(reader.feed(&all[i..i + 1]), HeadStep::More));
    }
    match reader.feed(&all[26..]) {
        HeadStep::Done(head, rest) => {
            assert_eq!(head, all[..27].to_vec());
            assert_eq!(rest, b"body".to_vec());
        }
        _ => panic!("no head"),
    }
}

#[test]
fn head_that_is_cut_off() {
    let mut reader = HeadReader::new();
    assert!(matches!(reader.feed(b"GET /"), HeadStep::More));
    assert!(matches!(reader.feed(b""), HeadStep::Closed));
}

#[test]
fn head_that_is_too_large() {
    let mut reader = HeadReader::new();
    assert!(matches!(reader.feed(&vec![b'a'; HEAD_LIMIT]), HeadStep::More));
    assert!(matches!(reader.feed(b"b"), HeadStep::TooLarge));
    let mut reader = HeadReader::new();
    let mut big = vec![b'a'; HEAD_LIMIT + 5];
    big.extend_from_slice(b"\r\n\r\n");
    assert!(matches!(reader.feed(&big), HeadStep::Done(_, _)));
}

#[test]
fn body_is_cut_to_its_length() {
    let mut reader = BodyReader::new(4);
    reader.feed(b"ab");
    assert!(reader.wants_more());
    reader.feed(b"cdef");
    assert!(!reader.wants_more());
    assert_eq!(reader.finish(), b"abcd".to_vec());
}

#[test]
fn body_that_ends_early() {
    let mut reader = BodyReader::new(4);
    reader.feed(b"ab");
    assert_eq!(reader.finish(), b"ab".to_vec());
    assert!(!BodyReader::new(0).wants_more());
}

#[test]
fn what_comes_behind_a_head_does_not_change_it() {
    let head = b"GET / HTTP/1.1\r\n\r\n";
    for more in [&b""[..], b"\r\n\r\n", b"body\r\n\r\n", b"\n"] {
        let mut all = head.to_vec();
        all.extend_from_slice(more);
        match HeadReader::new().feed(&all) {
            HeadStep::Done(h, rest) => {
                assert_eq!(h, head.to_vec());
                assert_eq!(rest, more.to_vec());
            }
            _ => panic!("no head"),
        }
    }
}
