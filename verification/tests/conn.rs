use gfwsni::conn::{identity, is_doh, Conn, Identity, Next};

#[test]
fn certificate_that_is_shown() {
    assert_eq!(identity("", false), Identity::Local);
    assert_eq!(identity("127.0.0.1", true), Identity::Local);
    assert_eq!(identity("github.com", false), Identity::Host);
}

#[test]
fn request_for_this_machine() {
    assert!(is_doh("", "/dns-query"));
    assert!(is_doh("127.0.0.1", "/dns-query?dns=AA"));
    assert!(is_doh("localhost", "/dns-query?"));
    assert!(!is_doh("localhost", "/dns-queryX"));
    assert!(!is_doh("localhost", "/dns-query/x?dns=AA"));
    assert!(!is_doh("localhost", ""));
    assert!(!is_doh("localhost", "/dns"));
    assert!(!is_doh("localhost:443", "/dns-query"));
    assert!(!is_doh("github.com", "/dns-query"));
}

#[test]
fn get_is_served_at_once() {
    let mut c = Conn::new();
    assert!(matches!(c.feed(b"GET /dns-query?dns=AA HTTP/1.1\r\n"), Next::Read));
    match c.feed(b"Host: localhost\r\n\r\n") {
        Next::Serve(method, target, body) => {
            assert_eq!(method, "GET");
            assert_eq!(target, "/dns-query?dns=AA");
            assert!(body.is_empty());
        }
        _ => panic!("not served"),
    }
    assert!(matches!(c.feed(b"x"), Next::Close));
}

#[test]
fn post_is_served_with_its_body() {
    let mut c = Conn::new();
    assert!(matches!(c.feed(b"POST /dns-query HTTP/1.1\r\nContent-Length: 4\r\n\r\n"), Next::Read));
    assert!(matches!(c.feed(b"ab"), Next::Read));
    match c.feed(b"cdef") {
        Next::Serve(method, _, body) => {
            assert_eq!(method, "POST");
            assert_eq!(body, b"abcd".to_vec());
        }
        _ => panic!("not served"),
    }
}

#[test]
fn post_that_comes_in_one_piece() {
    let all = b"POST /dns-query HTTP/1.1\r\nContent-Length: 4\r\n\r\nabcdef";
    match Conn::new().feed(all) {
        Next::Serve(method, target, body) => {
            assert_eq!(method, "POST");
            assert_eq!(target, "/dns-query");
            assert_eq!(body, b"abcd".to_vec());
        }
        _ => panic!("not served"),
    }
    for cut in 1..all.len() - 2 {
        let mut c = Conn::new();
        assert!(matches!(c.feed(&all[..cut]), Next::Read));
        match c.feed(&all[cut..]) {
            Next::Serve(_, _, body) => assert_eq!(body, b"abcd".to_vec()),
            _ => panic!("not served"),
        }
    }
}

#[test]
fn post_that_ends_early() {
    let mut c = Conn::new();
    c.feed(b"POST /dns-query HTTP/1.1\r\nContent-Length: 4\r\n\r\n");
    c.feed(b"ab");
    match c.feed(b"") {
        Next::Serve(_, _, body) => assert_eq!(body, b"ab".to_vec()),
        _ => panic!("not served"),
    }
}

#[test]
fn other_request_is_forwarded_with_its_head() {
    let head = b"GET / HTTP/1.1\r\nHost: github.com\r\n\r\n";
    let mut c = Conn::new();
    match c.feed(head) {
        Next::Forward(h) => assert_eq!(h, head.to_vec()),
        _ => panic!("not forwarded"),
    }
}

#[test]
fn other_request_is_forwarded_with_its_body() {
    let all = b"POST /x HTTP/1.1\r\nHost: github.com\r\nContent-Length: 2\r\n\r\nab\r\n\r\n";
    match Conn::new().feed(all) {
        Next::Forward(front) => assert_eq!(front, all.to_vec()),
        _ => panic!("not forwarded"),
    }
}

#[test]
fn pieces_make_no_difference() {
    let head = b"GET / HTTP/1.1\r\nHost: github.com\r\n\r\n";
    for cut in 1..head.len() {
        let mut c = Conn::new();
        assert!(matches!(c.feed(&head[..cut]), Next::Read));
        match c.feed(&head[cut..]) {
            Next::Forward(h) => assert_eq!(h, head.to_vec()),
            _ => panic!("not forwarded"),
        }
    }
}

#[test]
fn request_that_never_comes() {
    assert!(matches!(Conn::new().feed(b""), Next::Close));
    assert!(matches!(Conn::new().feed(&vec![b'a'; 65537]), Next::Close));
}
