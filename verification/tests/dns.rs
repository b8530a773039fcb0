use gfwsni::dns::{
    build_local_response, domains, dotted_name, first_fields, has, lookup_ip, name_labels, normalize, parse_hosts,
    parse_question, refresh, reply_to, resolve_real_ip, RefreshStep,
};
use gfwsni::table::Table;

fn addresses(list: &[Option<&str>]) -> Vec<Option<String>> {
    list.iter().map(|a| a.map(|s| s.to_string())).collect()
}

fn table(pairs: &[(&str, &str)]) -> Table {
    let mut t = Table::new();
    for (k, v) in pairs {
        t.insert(k.to_string(), v.to_string());
    }
    t
}

fn value(t: &Table, key: &str) -> Option<String> {
    t.get(key).map(|s| s.to_string())
}

fn query(labels: &[&[u8]], qtype: u16) -> Vec<u8> {
    let mut q = vec![0xAB, 0xCD, 1, 0, 0, 1, 0, 0, 0, 0, 0, 0];
    for l in labels {
        q.push(l.len() as u8);
        q.extend_from_slice(l);
    }
    q.push(0);
    q.push((qtype >> 8) as u8);
    q.push(qtype as u8);
    q.extend_from_slice(&[0, 1]);
    q
}

#[test]
fn normal_form_of_a_host() {
    assert_eq!(normalize("GitHub.COM.."), "github.com");
    assert_eq!(normalize("..."), "");
    assert_eq!(normalize("ÄÖ.Com"), "ÄÖ.com");
}

#[test]
fn normal_form_is_kept() {
    let once = normalize("Api.GitHub.com.");
    assert_eq!(normalize(&once), once);
}

#[test]
fn rules_are_read() {
    let body = "# comment\n\n140.82.112.3 GitHub.com\r\n  1.2.3.4   Pixiv.net.  extra words\nlonely\nwww.pixiv.net pixiv.net\n#1.1.1.1 no\n";
    assert_eq!(first_fields(body), vec!["140.82.112.3", "1.2.3.4", "www.pixiv.net"]);
    let hosts = parse_hosts(body, &addresses(&[Some("140.82.112.3"), Some("1.2.3.4"), None]));
    assert_eq!(hosts.len(), 3);
    assert_eq!(value(&hosts, "github.com"), Some("140.82.112.3".to_string()));
    assert_eq!(value(&hosts, "pixiv.net"), Some("1.2.3.4".to_string()));
    assert_eq!(value(&hosts, "www.pixiv.net"), Some("1.2.3.4".to_string()));
    assert_eq!(value(&hosts, "lonely"), None);
}

#[test]
fn alias_chain_is_followed_in_any_order() {
    let body = "a b\nb c\nc d\n9.9.9.9 d\nx y\n";
    let hosts = parse_hosts(body, &addresses(&[None, None, None, Some("9.9.9.9"), None]));
    for name in ["a", "b", "c", "d"] {
        assert_eq!(value(&hosts, name), Some("9.9.9.9".to_string()));
    }
    assert_eq!(value(&hosts, "x"), None);
    assert_eq!(hosts.len(), 4);
}

#[test]
fn alias_circle_gets_no_address() {
    let hosts = parse_hosts("a b\nb a\n", &addresses(&[None, None]));
    assert_eq!(hosts.len(), 0);
}

#[test]
fn alias_takes_over_an_address_of_its_own() {
    let body = "1.1.1.1 a\n2.2.2.2 b\na b\n";
    let hosts = parse_hosts(body, &addresses(&[Some("1.1.1.1"), Some("2.2.2.2"), None]));
    assert_eq!(value(&hosts, "a"), Some("2.2.2.2".to_string()));
}

#[test]
fn later_rule_counts() {
    let hosts = parse_hosts("1.1.1.1 a\n2.2.2.2 A\n", &addresses(&[Some("1.1.1.1"), Some("2.2.2.2")]));
    assert_eq!(value(&hosts, "a"), Some("2.2.2.2".to_string()));
    assert_eq!(hosts.len(), 1);
}

#[test]
fn nearest_name_above_counts() {
    let hosts = table(&[("example.com", "1.1.1.1"), ("deep.example.com", "2.2.2.2")]);
    assert_eq!(lookup_ip(&hosts, "WWW.example.com."), Some("1.1.1.1".to_string()));
    assert_eq!(lookup_ip(&hosts, "x.deep.example.com"), Some("2.2.2.2".to_string()));
    assert_eq!(lookup_ip(&hosts, "com"), None);
    assert_eq!(lookup_ip(&hosts, "anexample.com"), None);
}

#[test]
fn below_a_covered_host_all_is_covered() {
    let hosts = table(&[("github.com", "1.1.1.1")]);
    assert!(has(&hosts, "github.com"));
    assert!(has(&hosts, "api.github.com"));
    assert!(has(&hosts, "a.b.c.GITHUB.com"));
    assert!(!has(&hosts, "github.io"));
    assert!(!has(&hosts, ""));
}

#[test]
fn endpoint_is_the_address_at_port_443() {
    let hosts = table(&[("github.com", "1.1.1.1")]);
    assert_eq!(resolve_real_ip(&hosts, "api.github.com"), vec!["1.1.1.1:443"]);
    assert_eq!(resolve_real_ip(&hosts, "other.com"), Vec::<String>::new());
}

#[test]
fn every_name_is_listed_once() {
    let hosts = table(&[("b", "1"), ("a", "2"), ("b", "3")]);
    assert_eq!(domains(&hosts), vec!["b", "a"]);
}

#[test]
fn file_with_rules_is_not_written_over() {
    assert_eq!(refresh(true), RefreshStep::Load);
    assert_eq!(refresh(false), RefreshStep::Fetch);
}

#[test]
fn question_is_read() {
    let q = query(&[b"api", b"GitHub", b"com"], 1);
    assert_eq!(parse_question(&q), Some(("api.GitHub.com".to_string(), 1, q.len())));
    let q = query(&[b"x"], 0x1234);
    assert_eq!(parse_question(&q), Some(("x".to_string(), 0x1234, q.len())));
    let q = query(&[], 255);
    assert_eq!(parse_question(&q), Some(("".to_string(), 255, 17)));
}

#[test]
fn question_that_is_cut_off() {
    let q = query(&[b"api", b"com"], 1);
    for n in 0..q.len() {
        assert_eq!(parse_question(&q[..n]), None);
    }
}

#[test]
fn question_with_a_pointer() {
    let mut q = query(&[], 1);
    q.truncate(12);
    q.extend_from_slice(&[3, b'a', b'b', b'c', 0xC0, 0x0C, 0, 28, 0, 1]);
    assert_eq!(parse_question(&q), Some(("abc".to_string(), 28, 22)));
    q.truncate(17);
    assert_eq!(parse_question(&q), None);
}

#[test]
fn question_with_bytes_that_are_no_text() {
    let q = query(&[&[0xFF], b"com"], 1);
    assert_eq!(parse_question(&q).unwrap().0, "\u{FFFD}.com");
}

#[test]
fn name_that_is_too_long() {
    let label = [b'a'; 63];
    let q = query(&[&label, &label, &label, &label[..61]], 1);
    assert_eq!(parse_question(&q).unwrap().0.len(), 253);
    let q = query(&[&label, &label, &label, &label[..62]], 1);
    assert_eq!(parse_question(&q), None);
    let texts: Vec<String> = vec!["a".repeat(200), "b".repeat(52)];
    assert_eq!(dotted_name(&texts).unwrap().len(), 253);
    let texts: Vec<String> = vec!["a".repeat(200), "b".repeat(53)];
    assert_eq!(dotted_name(&texts), None);
}

#[test]
fn labels_of_a_name() {
    let q = query(&[b"ab", b"c"], 1);
    assert_eq!(name_labels(&q, 12), Some((vec![b"ab".to_vec(), b"c".to_vec()], 18)));
    assert_eq!(name_labels(&[64, 0], 0), Some((Vec::new(), 2)));
    assert_eq!(name_labels(&[64], 0), None);
    assert_eq!(name_labels(&[], 7), None);
}

#[test]
fn local_response_to_a_query_for_an_address() {
    let q = query(&[b"github", b"com"], 1);
    let r = build_local_response(&q).unwrap();
    let mut want = vec![0xAB, 0xCD, 0x81, 0x80, 0, 1, 0, 1, 0, 0, 0, 0];
    want.extend_from_slice(&q[12..]);
    want.extend_from_slice(&[0xC0, 0x0C, 0, 1, 0, 1, 0, 0, 1, 44, 0, 4, 127, 0, 0, 1]);
    assert_eq!(r, want);
    assert_eq!(parse_question(&r), parse_question(&q));
}

#[test]
fn local_response_to_another_query() {
    let mut q = query(&[b"github", b"com"], 28);
    let end = q.len();
    q.extend_from_slice(&[1, 2, 3]);
    let r = build_local_response(&q).unwrap();
    let mut want = vec![0xAB, 0xCD, 0x81, 0x80, 0, 1, 0, 0, 0, 0, 0, 0];
    want.extend_from_slice(&q[12..end]);
    assert_eq!(r, want);
    assert_eq!(parse_question(&r), parse_question(&q));
    assert_eq!(reply_to(&q, 28, end), want);
}

#[test]
fn local_response_to_any() {
    let q = query(&[b"github", b"com"], 255);
    let r = build_local_response(&q).unwrap();
    assert_eq!(r[7], 1);
    assert_eq!(&r[r.len() - 4..], &[127, 0, 0, 1]);
}

#[test]
fn local_response_to_what_is_no_query() {
    assert_eq!(build_local_response(&[1, 2, 3]), None);
}

#[test]
fn names_of_rules_are_words() {
    let body = "1.1.1.1\u{3000}a.b\u{a0}c\nx\ty\r\n";
    assert_eq!(first_fields(body), vec!["1.1.1.1", "x"]);
    let hosts = parse_hosts(body, &addresses(&[Some("1.1.1.1"), None]));
    assert_eq!(domains(&hosts), vec!["a.b"]);
}

#[test]
fn rules_that_were_read_are_read_back() {
    let body = "1.1.1.1 B.c.\n2.2.2.2 d\nx b.c\ny X\n";
    let hosts = parse_hosts(body, &addresses(&[Some("1.1.1.1"), Some("2.2.2.2"), None, None]));
    let mut names = domains(&hosts);
    names.sort();
    assert_eq!(names, vec!["b.c", "d", "x", "y"]);
    for _ in 0..2 {
        names.reverse();
        let text: String = names.iter().map(|n| format!("{} {}\n", value(&hosts, n).unwrap(), n)).collect();
        let first: Vec<Option<String>> = first_fields(&text).into_iter().map(Some).collect();
        assert_eq!(first, names.iter().map(|n| value(&hosts, n)).collect::<Vec<_>>());
        let again = parse_hosts(&text, &first);
        assert_eq!(again.len(), hosts.len());
        for n in &names {
            assert_eq!(value(&again, n), value(&hosts, n));
            assert_eq!(&normalize(n), n);
        }
    }
}
