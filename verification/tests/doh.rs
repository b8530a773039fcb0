use gfwsni::doh::{answer_query, doh_query, forward_upstream, handle_doh, relay, DohStep, Refusal};
use gfwsni::http::http_response;
use gfwsni::table::Table;

fn github() -> Table {
    let mut t = Table::new();
    t.insert("github.com".to_string(), "140.82.112.3".to_string());
    t
}

fn query(name: &str, qtype: u8) -> Vec<u8> {
    let mut q = vec![0, 0, 1, 0, 0, 1, 0, 0, 0, 0, 0, 0];
    for l in name.split('.') {
        q.push(l.len() as u8);
        q.extend_from_slice(l.as_bytes());
    }
    q.extend_from_slice(&[0, 0, qtype, 0, 1]);
    q
}

fn reply(step: DohStep) -> Vec<u8> {
    match step {
        DohStep::Reply(b) => b,
        DohStep::Forward(u) => panic!("forwarded to {}", u),
    }
}

fn forwarded(step: DohStep) -> String {
    match step {
        DohStep::Reply(_) => panic!("answered"),
        DohStep::Forward(u) => u,
    }
}

#[test]
fn query_in_base_64() {
    assert_eq!(doh_query("GET", "/dns-query?dns=AAEC_-8", b""), Ok(vec![0, 1, 2, 255, 239]));
    assert_eq!(doh_query("get", "/dns-query?x=1&dns=%20&dns=AA", b""), Err(Refusal::BadRequest));
    assert_eq!(doh_query("GET", "/dns-query?x=1&dns=AA&dns=AB", b""), Ok(vec![0]));
    assert_eq!(doh_query("GET", "/dns-query?xdns=AA", b"body"), Ok(Vec::new()));
    assert_eq!(doh_query("GET", "/dns-query", b"body"), Ok(Vec::new()));
}

#[test]
fn query_that_is_not_in_base_64() {
    for bad in ["A", "AB", "AA==", "AAE=", "A+/A", "AAAA\n*", "AAF"] {
        let target = format!("/dns-query?dns={}", bad);
        assert_eq!(doh_query("GET", &target, b""), Err(Refusal::BadRequest), "{}", bad);
    }
}

#[test]
fn query_in_a_body() {
    assert_eq!(doh_query("Post", "/dns-query?dns=AA", b"\x01\x02"), Ok(vec![1, 2]));
    assert_eq!(doh_query("PUT", "/dns-query?dns=AA", b"\x01\x02"), Err(Refusal::MethodNotAllowed));
    assert_eq!(doh_query("", "", b""), Err(Refusal::MethodNotAllowed));
}

#[test]
fn target_and_body_carry_the_same() {
    let hosts = github();
    let q = query("api.github.com", 1);
    let url = forward_upstream(&q);
    let target = url.strip_prefix("https://doh.pub").unwrap();
    assert_eq!(doh_query("GET", target, b""), Ok(q.clone()));
    assert_eq!(
        reply(handle_doh(&hosts, "GET", target, b"")),
        reply(handle_doh(&hosts, "POST", "/dns-query", &q))
    );
}

#[test]
fn upstream_address() {
    assert_eq!(forward_upstream(&[]), "https://doh.pub/dns-query?dns=");
    assert_eq!(forward_upstream(b"f"), "https://doh.pub/dns-query?dns=Zg");
    assert_eq!(forward_upstream(b"fo"), "https://doh.pub/dns-query?dns=Zm8");
    assert_eq!(forward_upstream(b"foo"), "https://doh.pub/dns-query?dns=Zm9v");
    assert_eq!(forward_upstream(&[0xFB, 0xFF, 0xFE, 0]), "https://doh.pub/dns-query?dns=-__-AA");
}

#[test]
fn covered_name_is_answered_here() {
    let q = query("API.github.com", 1);
    let all = reply(handle_doh(&github(), "POST", "/dns-query", &q));
    let text = String::from_utf8_lossy(&all).into_owned();
    assert!(text.starts_with("HTTP/1.1 200 OK\r\n"));
    assert_eq!(&all[all.len() - 4..], &[127, 0, 0, 1]);
    assert_eq!(all[all.len() - q.len() - 16 + 12..all.len() - 16], q[12..]);
}

#[test]
fn covered_name_has_no_other_record() {
    let q = query("github.com", 28);
    let mut body = vec![0, 0, 0x81, 0x80, 0, 1, 0, 0, 0, 0, 0, 0];
    body.extend_from_slice(&q[12..]);
    assert_eq!(reply(answer_query(&github(), &q)), http_response("200 OK", &body));
}

#[test]
fn other_name_is_answered_upstream() {
    let q = query("example.org", 1);
    assert_eq!(forwarded(answer_query(&github(), &q)), forward_upstream(&q));
    assert_eq!(forwarded(answer_query(&github(), b"junk")), forward_upstream(b"junk"));
    let root = vec![0, 0, 1, 0, 0, 1, 0, 0, 0, 0, 0, 0, 0, 0, 2, 0, 1];
    assert_eq!(forwarded(answer_query(&github(), &root)), forward_upstream(&root));
}

#[test]
fn refusals_are_answered() {
    assert_eq!(
        reply(handle_doh(&github(), "GET", "/dns-query?dns=A", b"")),
        http_response("400 Bad Request", b"")
    );
    assert_eq!(
        reply(handle_doh(&github(), "DELETE", "/dns-query", b"")),
        http_response("405 Method Not Allowed", b"")
    );
}

#[test]
fn what_came_back_is_relayed() {
    assert_eq!(relay(Some(vec![1, 2, 3])), http_response("200 OK", &[1, 2, 3]));
    assert_eq!(relay(None), http_response("200 OK", b""));
}
