use gfwsni::proxy::{
    chop, dial_target, forward_tls, init, needs_proxy, needs_proxy_checked, resolve_real_ip, target_ip, Forward,
    ForwardStep,
};
use gfwsni::table::Table;

fn list() -> publicsuffix::List {
    publicsuffix::List::from_bytes(b"// BEGIN ICANN DOMAINS\ncom\nnet\n").unwrap()
}

fn table(pairs: &[(&str, &str)]) -> Table {
    let mut t = Table::new();
    for (k, v) in pairs {
        t.insert(k.to_string(), v.to_string());
    }
    t
}

fn dialled(step: &ForwardStep) -> String {
    match step {
        ForwardStep::Dial(a) => a.to_string(),
        _ => panic!("not dialled"),
    }
}

#[test]
fn covered_hosts_are_proxied() {
    let hosts = table(&[("github.com", "1.1.1.1")]);
    assert!(needs_proxy(&hosts, &list(), "github.com"));
    assert!(needs_proxy(&hosts, &list(), "a.b.GitHub.com"));
    assert!(!needs_proxy(&hosts, &list(), "a.b.example.com"));
    assert!(!needs_proxy(&hosts, &list(), "com"));
    assert!(!needs_proxy(&hosts, &list(), "localhost"));
    assert!(!needs_proxy(&hosts, &list(), ""));
}

#[test]
fn host_with_a_dot_at_its_end() {
    let hosts = table(&[("github.com", "1.1.1.1")]);
    assert_eq!(needs_proxy_checked(&hosts, &list(), "api.github.com."), Some(true));
    assert_eq!(needs_proxy_checked(&hosts, &list(), "api.example.com."), None);
    assert_eq!(needs_proxy_checked(&hosts, &list(), "com."), Some(false));
    assert_eq!(needs_proxy_checked(&hosts, &list(), "..."), Some(false));
    assert_eq!(needs_proxy_checked(&hosts, &list(), ""), Some(false));
    assert_eq!(needs_proxy_checked(&hosts, &list(), "api.example.com"), Some(false));
}

#[test]
fn labels_are_taken_off() {
    let hosts = table(&[("b.c", "1.1.1.1")]);
    assert_eq!(chop(&hosts, "x.y.z", "z"), Some(false));
    assert_eq!(chop(&hosts, "a.b.c", "c"), Some(true));
    assert_eq!(chop(&hosts, "b.c", "b.c"), Some(false));
    assert_eq!(chop(&hosts, "x.y.z", "w"), None);
}

#[test]
fn endpoint_for_a_host() {
    let hosts = table(&[("github.com", "1.1.1.1")]);
    assert_eq!(resolve_real_ip(&hosts, "www.github.com"), vec!["1.1.1.1:443"]);
    assert!(resolve_real_ip(&hosts, "example.com").is_empty());
}

#[test]
fn address_in_an_endpoint() {
    assert_eq!(target_ip("1.2.3.4:443"), "1.2.3.4");
    assert_eq!(target_ip("[::1]:443"), "::1");
    assert_eq!(target_ip("2001:db8::1:443"), "2001:db8::1");
    assert_eq!(target_ip("plain"), "plain");
    assert_eq!(target_ip(""), "");
}

#[test]
fn dial_sends_no_name() {
    let plan = dial_target("1.2.3.4:443", "github.com");
    assert_eq!(plan.connect, "1.2.3.4:443");
    assert_eq!(plan.server_ip, "1.2.3.4");
    assert_eq!(plan.verify, "github.com");
}

#[test]
fn rules_are_asked_where_nothing_is_known() {
    let hosts = table(&[("github.com", "1.1.1.1")]);
    let mut reached = init();
    assert_eq!(reached.len(), 0);
    let (f, step) = forward_tls(true, &hosts, &reached, "api.github.com");
    assert_eq!(dialled(&step), "1.1.1.1:443");
    f.succeeded(&mut reached);
    assert_eq!(reached.get("api.github.com").map(|s| s.as_str()), Some("1.1.1.1:443"));
    assert_eq!(reached.len(), 1);
}

#[test]
fn known_endpoint_is_tried_first() {
    let hosts = table(&[("github.com", "1.1.1.1")]);
    let mut reached = table(&[("github.com", "9.9.9.9:443")]);
    let (f, step) = forward_tls(true, &hosts, &reached, "github.com");
    assert_eq!(dialled(&step), "9.9.9.9:443");
    assert!(f.tried().is_empty());
    f.succeeded(&mut reached);
    assert_eq!(reached.get("github.com").map(|s| s.as_str()), Some("9.9.9.9:443"));
}

#[test]
fn rules_are_asked_where_the_known_endpoint_fails() {
    let hosts = table(&[("github.com", "1.1.1.1")]);
    let mut reached = table(&[("github.com", "9.9.9.9:443")]);
    let (mut f, _) = forward_tls(true, &hosts, &reached, "github.com");
    assert_eq!(dialled(&f.failed(&hosts)), "1.1.1.1:443");
    f.succeeded(&mut reached);
    assert_eq!(reached.get("github.com").map(|s| s.as_str()), Some("1.1.1.1:443"));
    let (_, step) = forward_tls(true, &hosts, &reached, "github.com");
    assert_eq!(dialled(&step), "1.1.1.1:443");
}

#[test]
fn host_that_does_not_answer() {
    let hosts = table(&[("github.com", "1.1.1.1")]);
    let (mut f, _) = Forward::begin(&hosts, &init(), "github.com");
    assert!(matches!(f.failed(&hosts), ForwardStep::Unreachable));
    assert_eq!(f.tried(), vec!["1.1.1.1:443"]);
}

#[test]
fn host_without_an_address() {
    let (_, step) = forward_tls(true, &init(), &init(), "github.com");
    assert!(matches!(step, ForwardStep::NoAddress));
    let reached = table(&[("github.com", "9.9.9.9:443")]);
    let (mut f, _) = forward_tls(true, &init(), &reached, "github.com");
    assert!(matches!(f.failed(&init()), ForwardStep::NoAddress));
}

#[test]
fn host_that_is_not_proxied() {
    let hosts = table(&[("github.com", "1.1.1.1")]);
    let (_, step) = forward_tls(false, &hosts, &init(), "github.com");
    assert!(matches!(step, ForwardStep::NotProxied));
}
