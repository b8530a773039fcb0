//! DNS over HTTPS: what a request is answered with, and what is asked of the server upstream.
use base64::Engine;
use vstd::prelude::*;
use vstd::slice::slice_subrange;
use vstd::utf8::encode_utf8;
use crate::dns::{
    build_local_response, covered, has, law_reply_points_here, law_reply_repeats_question,
    local_reply, parse_question, question, wants_address,
};
use crate::http::{
    decimal, field_lines, head_end, http_response, law_reply_framed, law_reply_head_lines, length_in,
    reply_bytes, reply_head,
};
use crate::table::Table;
use crate::text::{
    chars_of, copy_of, find_char, is_empty, join, law_text_of, lemma_trim_end, lemma_trim_start, lines,
    lower, push_bytes, same_ignoring_case, string_of, strip_prefix, text_of, trim, trim_of, trim_start,
};

verus! {

/// The server that is asked for the names that no rule covers.
pub const DOH_UPSTREAM: &'static str = "https://doh.pub/dns-query";

/// The character for a number below sixty-four in the alphabet for URLs.
pub open spec fn sextet(v: int) -> char {
    if v < 26 {
        (65 + v) as char
    } else if v < 52 {
        (97 + v - 26) as char
    } else if v < 62 {
        (48 + v - 52) as char
    } else if v == 62 {
        '-'
    } else {
        '_'
    }
}

/// Bytes in base 64, in the alphabet for URLs and without padding.
pub open spec fn base64url(b: Seq<u8>) -> Seq<char>
    decreases b.len(),
{
    if b.len() == 0 {
        Seq::empty()
    } else if b.len() == 1 {
        seq![sextet(b[0] as int / 4), sextet(b[0] as int % 4 * 16)]
    } else if b.len() == 2 {
        seq![
            sextet(b[0] as int / 4),
            sextet(b[0] as int % 4 * 16 + b[1] as int / 16),
            sextet(b[1] as int % 16 * 4),
        ]
    } else {
        seq![
            sextet(b[0] as int / 4),
            sextet(b[0] as int % 4 * 16 + b[1] as int / 16),
            sextet(b[1] as int % 16 * 4 + b[2] as int / 64),
            sextet(b[2] as int % 64),
        ] + base64url(b.skip(3))
    }
}

/// The error of `base64` on a text that it cannot decode.
#[verifier::external_type_specification]
#[verifier::external_body]
pub struct ExDecodeError(base64::DecodeError);

/// Calls `Engine::encode` of `base64` on `URL_SAFE_NO_PAD`: base 64 in the alphabet for URLs,
/// without padding. It panics where the text would be longer than memory can hold.
#[verifier::external_body]
fn base64_encode(bytes: &[u8]) -> (r: String)
    requires
        base64url(bytes@).len() <= usize::MAX,
    ensures
        r@ == base64url(bytes@),
{
    base64::engine::general_purpose::URL_SAFE_NO_PAD.encode(bytes)
}

/// Calls `Engine::decode` of `base64` on `URL_SAFE_NO_PAD`: the bytes whose encoding the text
/// is, and an error where it is that of none. Padding, other characters, a length that no
/// encoding has and bits left over at the end are all errors.
#[verifier::external_body]
fn base64_decode(text: &str) -> (r: Result<Vec<u8>, base64::DecodeError>)
    ensures
        match r {
            Ok(b) => base64url(b@) == text@,
            Err(_) => forall|b: Seq<u8>| #[trigger] base64url(b) != text@,
        },
{
    base64::engine::general_purpose::URL_SAFE_NO_PAD.decode(text)
}

/// The bytes whose encoding the text is.
pub open spec fn unbase64url(text: Seq<char>) -> Option<Seq<u8>> {
    if exists|b: Seq<u8>| #[trigger] base64url(b) == text {
        Some(choose|b: Seq<u8>| #[trigger] base64url(b) == text)
    } else {
        None
    }
}

proof fn lemma_sextet(a: int, b: int)
    requires
        0 <= a < 64,
        0 <= b < 64,
        sextet(a) == sextet(b),
    ensures
        a == b,
{
}

proof fn lemma_base64url_len(b: Seq<u8>)
    ensures
        base64url(b).len() == b.len() / 3 * 4 + (if b.len() % 3 == 0 {
            0nat
        } else {
            b.len() % 3 + 1
        }),
        base64url(b).len() >= b.len(),
    decreases b.len(),
{
    if b.len() >= 3 {
        lemma_base64url_len(b.skip(3));
    }
}

/// Two byte sequences with one encoding are the same.
proof fn lemma_base64url_injective(a: Seq<u8>, b: Seq<u8>)
    requires
        base64url(a) == base64url(b),
    ensures
        a == b,
    decreases a.len(),
{
    let t = base64url(a);
    lemma_base64url_len(a);
    lemma_base64url_len(b);
    assert(a.len() == b.len());
    if a.len() == 0 {
        assert(a =~= b);
    } else if a.len() == 1 {
        let (a0, b0) = (a[0] as int, b[0] as int);
        assert(t[0] == sextet(a0 / 4) && t[0] == sextet(b0 / 4));
        assert(t[1] == sextet(a0 % 4 * 16) && t[1] == sextet(b0 % 4 * 16));
        lemma_sextet(a0 / 4, b0 / 4);
        lemma_sextet(a0 % 4 * 16, b0 % 4 * 16);
        assert(a =~= b);
    } else {
        let (a0, a1, b0, b1) = (a[0] as int, a[1] as int, b[0] as int, b[1] as int);
        assert(t[0] == sextet(a0 / 4) && t[0] == sextet(b0 / 4));
        assert(t[1] == sextet(a0 % 4 * 16 + a1 / 16) && t[1] == sextet(b0 % 4 * 16 + b1 / 16));
        lemma_sextet(a0 / 4, b0 / 4);
        lemma_sextet(a0 % 4 * 16 + a1 / 16, b0 % 4 * 16 + b1 / 16);
        if a.len() == 2 {
            assert(t[2] == sextet(a1 % 16 * 4) && t[2] == sextet(b1 % 16 * 4));
            lemma_sextet(a1 % 16 * 4, b1 % 16 * 4);
            assert(a =~= b);
        } else {
            let (a2, b2) = (a[2] as int, b[2] as int);
            assert(t[2] == sextet(a1 % 16 * 4 + a2 / 64) && t[2] == sextet(
                b1 % 16 * 4 + b2 / 64,
            ));
            assert(t[3] == sextet(a2 % 64) && t[3] == sextet(b2 % 64));
            lemma_sextet(a1 % 16 * 4 + a2 / 64, b1 % 16 * 4 + b2 / 64);
            lemma_sextet(a2 % 64, b2 % 64);
            assert(t.skip(4) =~= base64url(a.skip(3)));
            assert(t.skip(4) =~= base64url(b.skip(3)));
            lemma_base64url_injective(a.skip(3), b.skip(3));
            assert forall|i: int| 0 <= i < a.len() implies a[i] == b[i] by {
                if i >= 3 {
                    assert(a.skip(3)[i - 3] == b.skip(3)[i - 3]);
                }
            }
            assert(a =~= b);
        }
    }
}

/// What was encoded is decoded.
pub proof fn law_base64url_decoded(b: Seq<u8>)
    ensures
        unbase64url(base64url(b)) == Some(b),
{
    let c = choose|c: Seq<u8>| #[trigger] base64url(c) == base64url(b);
    lemma_base64url_injective(b, c);
}

/// The parts of a text between the occurrences of `sep`.
pub open spec fn split(s: Seq<char>, sep: char) -> Seq<Seq<char>>
    decreases s.len(),
{
    proof {
        s.index_of_first_ensures(sep);
    }
    match s.index_of_first(sep) {
        Some(i) => seq![s.take(i)] + split(s.skip(i + 1), sep),
        None => seq![s],
    }
}

/// The value of the first part that begins with the given words; no text where none does.
pub open spec fn first_with(parts: Seq<Seq<char>>, prefix: Seq<char>) -> Seq<char>
    decreases parts.len(),
{
    if parts.len() == 0 {
        Seq::empty()
    } else if prefix.is_prefix_of(parts[0]) {
        parts[0].skip(prefix.len() as int)
    } else {
        first_with(parts.drop_first(), prefix)
    }
}

/// The parameter that carries the query in the target of a request.
pub open spec fn dns_param(target: Seq<char>) -> Seq<char> {
    match target.index_of_first('?') {
        Some(i) => first_with(split(target.skip(i + 1), '&'), "dns="@),
        None => Seq::empty(),
    }
}

/// Reads the parameter that carries the query.
fn dns_param_of(target: &[char]) -> (r: Vec<char>)
    ensures
        r@ == dns_param(target@),
{
    let none: Vec<char> = Vec::new();
    let prefix: Vec<char> = chars_of("dns=");
    let n: usize = target.len();
    match find_char(target, '?') {
        None => none,
        Some(i) => {
            let mut rest: &[char] = slice_subrange(target, i + 1, n);
            assert(rest@ =~= target@.skip(i + 1));
            loop
                invariant
                    prefix@ == "dns="@,
                    first_with(split(rest@, '&'), "dns="@) == dns_param(target@),
                decreases rest@.len(),
            {
                let m: usize = rest.len();
                let ghost parts = split(rest@, '&');
                match find_char(rest, '&') {
                    Some(j) => {
                        let part: &[char] = slice_subrange(rest, 0, j);
                        let tail: &[char] = slice_subrange(rest, j + 1, m);
                        assert(part@ =~= rest@.take(j as int));
                        assert(tail@ =~= rest@.skip(j + 1));
                        assert(parts.drop_first() =~= split(tail@, '&'));
                        match strip_prefix(part, prefix.as_slice()) {
                            Some(v) => {
                                return copy_of(v);
                            },
                            None => {},
                        }
                        rest = tail;
                    },
                    None => {
                        assert(parts.drop_first() =~= Seq::empty());
                        assert(first_with(parts.drop_first(), "dns="@) =~= Seq::empty());
                        return match strip_prefix(rest, prefix.as_slice()) {
                            Some(v) => copy_of(v),
                            None => Vec::new(),
                        };
                    },
                }
            }
        },
    }
}

/// Why a request carries no query.
#[derive(Clone, Copy, Debug, PartialEq, Eq, Structural)]
pub enum Refusal {
    /// The query is not in base 64.
    BadRequest,
    /// The method is neither GET nor POST.
    MethodNotAllowed,
}

/// The query that a request carries: in its target with GET, in its body with POST.
pub open spec fn query_in(method: Seq<char>, target: Seq<char>, body: Seq<u8>) -> Result<
    Seq<u8>,
    Refusal,
> {
    if lower(method) == lower("GET"@) {
        match unbase64url(trim(dns_param(target))) {
            Some(b) => Ok(b),
            None => Err(Refusal::BadRequest),
        }
    } else if lower(method) == lower("POST"@) {
        Ok(body)
    } else {
        Err(Refusal::MethodNotAllowed)
    }
}

/// Reads the query that a request carries.
pub fn doh_query(method: &str, target: &str, body: &[u8]) -> (r: Result<Vec<u8>, Refusal>)
    ensures
        match r {
            Ok(q) => query_in(method@, target@, body@) == Ok::<Seq<u8>, Refusal>(q@),
            Err(e) => query_in(method@, target@, body@) == Err::<Seq<u8>, Refusal>(e),
        },
{
    let m: Vec<char> = chars_of(method);
    let get: Vec<char> = chars_of("GET");
    let post: Vec<char> = chars_of("POST");
    if same_ignoring_case(m.as_slice(), get.as_slice()) {
        let t: Vec<char> = chars_of(target);
        let param: Vec<char> = dns_param_of(t.as_slice());
        let text: String = string_of(trim_of(param.as_slice()));
        match base64_decode(text.as_str()) {
            Ok(b) => {
                proof {
                    law_base64url_decoded(b@);
                }
                Ok(b)
            },
            Err(_) => Err(Refusal::BadRequest),
        }
    } else if same_ignoring_case(m.as_slice(), post.as_slice()) {
        let mut q: Vec<u8> = Vec::new();
        push_bytes(&mut q, body);
        assert(q@ =~= body@);
        Ok(q)
    } else {
        Err(Refusal::MethodNotAllowed)
    }
}

/// Where a query is sent that is answered upstream.
pub open spec fn upstream_url(query: Seq<u8>) -> Seq<char> {
    DOH_UPSTREAM@ + "?dns="@ + base64url(query)
}

/// Writes where a query is sent that is answered upstream.
pub fn forward_upstream(query: &[u8]) -> (r: String)
    requires
        query@.len() <= isize::MAX,
    ensures
        r@ == upstream_url(query@),
{
    proof {
        lemma_base64url_len(query@);
    }
    let mut url: String = String::new();
    url.append(DOH_UPSTREAM);
    url.append("?dns=");
    url.append(base64_encode(query).as_str());
    assert(url@ =~= upstream_url(query@));
    url
}

/// What becomes of a request.
pub enum DohStep {
    /// It is answered with these bytes.
    Reply(Vec<u8>),
    /// Its query is sent to this address upstream first.
    Forward(String),
}

/// What becomes of a request, as plain values.
pub enum Served {
    /// It is answered with these bytes.
    Reply(Seq<u8>),
    /// Its query is sent to this address upstream first.
    Forward(Seq<char>),
}

impl View for DohStep {
    type V = Served;

    open spec fn view(&self) -> Served {
        match self {
            DohStep::Reply(b) => Served::Reply(b@),
            DohStep::Forward(u) => Served::Forward(u@),
        }
    }
}

/// What becomes of a query: one for a name that the rules cover is answered here, any other
/// upstream.
pub open spec fn answered(hosts: Map<Seq<char>, Seq<char>>, query: Seq<u8>) -> Served {
    match question(query) {
        Some((name, qtype, end)) => if name.len() > 0 && covered(hosts, name) {
            Served::Reply(reply_bytes("200 OK"@, local_reply(query, qtype, end)))
        } else {
            Served::Forward(upstream_url(query))
        },
        None => Served::Forward(upstream_url(query)),
    }
}

/// What becomes of a request.
pub open spec fn served(
    hosts: Map<Seq<char>, Seq<char>>,
    method: Seq<char>,
    target: Seq<char>,
    body: Seq<u8>,
) -> Served {
    match query_in(method, target, body) {
        Ok(query) => answered(hosts, query),
        Err(Refusal::BadRequest) => Served::Reply(reply_bytes("400 Bad Request"@, Seq::empty())),
        Err(Refusal::MethodNotAllowed) => Served::Reply(
            reply_bytes("405 Method Not Allowed"@, Seq::empty()),
        ),
    }
}

/// Decides what becomes of a query.
pub fn answer_query(hosts: &Table, query: &[u8]) -> (r: DohStep)
    requires
        hosts.wf(),
        query@.len() <= isize::MAX,
    ensures
        r@ == answered(hosts@, query@),
{
    match parse_question(query) {
        Some((name, _qtype, _end)) => {
            if !is_empty(name.as_str()) && has(hosts, name.as_str()) {
                match build_local_response(query) {
                    Some(resp) => {
                        return DohStep::Reply(http_response("200 OK", resp.as_slice()));
                    },
                    None => {},
                }
            }
        },
        None => {},
    }
    DohStep::Forward(forward_upstream(query))
}

/// Decides what becomes of a request: it is refused, answered here, or sent upstream.
pub fn handle_doh(hosts: &Table, method: &str, target: &str, body: &[u8]) -> (r: DohStep)
    requires
        hosts.wf(),
        target@.len() <= isize::MAX,
        body@.len() <= isize::MAX,
    ensures
        r@ == served(hosts@, method@, target@, body@),
{
    let none: Vec<u8> = Vec::new();
    assert(none@ =~= Seq::empty());
    match doh_query(method, target, body) {
        Ok(query) => {
            proof {
                lemma_query_len(method@, target@, body@);
            }
            answer_query(hosts, query.as_slice())
        },
        Err(Refusal::BadRequest) => DohStep::Reply(
            http_response("400 Bad Request", none.as_slice()),
        ),
        Err(Refusal::MethodNotAllowed) => DohStep::Reply(
            http_response("405 Method Not Allowed", none.as_slice()),
        ),
    }
}

/// The answer to a request whose query went upstream: what came back, or an empty body where
/// nothing did.
pub open spec fn relayed(upstream: Option<Seq<u8>>) -> Seq<u8> {
    reply_bytes(
        "200 OK"@,
        match upstream {
            Some(b) => b,
            None => Seq::empty(),
        },
    )
}

/// Writes the answer to a request whose query went upstream.
pub fn relay(upstream: Option<Vec<u8>>) -> (r: Vec<u8>)
    ensures
        r@ == relayed(
            match upstream {
                Some(b) => Some(b@),
                None => None,
            },
        ),
{
    match upstream {
        Some(b) => http_response("200 OK", b.as_slice()),
        None => {
            let none: Vec<u8> = Vec::new();
            assert(none@ =~= Seq::empty());
            http_response("200 OK", none.as_slice())
        },
    }
}

proof fn lemma_first_with_len(s: Seq<char>, sep: char, prefix: Seq<char>)
    ensures
        first_with(split(s, sep), prefix).len() <= s.len(),
    decreases s.len(),
{
    s.index_of_first_ensures(sep);
    let parts = split(s, sep);
    match s.index_of_first(sep) {
        Some(i) => {
            lemma_first_with_len(s.skip(i + 1), sep, prefix);
            assert(parts.drop_first() =~= split(s.skip(i + 1), sep));
        },
        None => {
            assert(parts.drop_first() =~= Seq::empty());
            assert(first_with(parts.drop_first(), prefix) =~= Seq::empty());
        },
    }
}

/// A query is no longer than what carries it.
proof fn lemma_query_len(method: Seq<char>, target: Seq<char>, body: Seq<u8>)
    requires
        query_in(method, target, body) is Ok,
    ensures
        query_in(method, target, body).unwrap().len() <= target.len() || query_in(
            method,
            target,
            body,
        ).unwrap().len() <= body.len(),
{
    if lower(method) == lower("GET"@) {
        let p = dns_param(target);
        target.index_of_first_ensures('?');
        if let Some(i) = target.index_of_first('?') {
            lemma_first_with_len(target.skip(i + 1), '&', "dns="@);
        }
        lemma_trim_start(p);
        lemma_trim_end(trim_start(p));
        lemma_base64url_len(unbase64url(trim(p)).unwrap());
    }
}

/// Whether a character is one of the alphabet for URLs.
pub open spec fn url_safe(c: char) -> bool {
    'A' <= c <= 'Z' || 'a' <= c <= 'z' || '0' <= c <= '9' || c == '-' || c == '_'
}

proof fn lemma_base64url_safe(b: Seq<u8>)
    ensures
        forall|i: int| 0 <= i < base64url(b).len() ==> url_safe(#[trigger] base64url(b)[i]),
    decreases b.len(),
{
    if b.len() >= 3 {
        lemma_base64url_safe(b.skip(3));
        let rest = base64url(b.skip(3));
        assert forall|i: int| 0 <= i < base64url(b).len() implies url_safe(
            #[trigger] base64url(b)[i],
        ) by {
            if i >= 4 {
                assert(base64url(b)[i] == rest[i - 4]);
            }
        }
    }
}

/// A query in the target of a GET request is the query: it need not come in a body.
pub proof fn law_query_in_target(path: Seq<char>, query: Seq<u8>, method: Seq<char>, body: Seq<u8>)
    requires
        !path.contains('?'),
        lower(method) == lower("GET"@),
    ensures
        query_in(method, path + "?dns="@ + base64url(query), body) == Ok::<Seq<u8>, Refusal>(query),
{
    let e = base64url(query);
    let target = path + "?dns="@ + e;
    reveal_strlit("?dns=");
    reveal_strlit("dns=");
    lemma_base64url_safe(query);
    target.index_of_first_ensures('?');
    let n = path.len() as int;
    assert(target[n] == '?');
    assert(target.index_of_first('?') == Some(n)) by {
        let i = target.index_of_first('?').unwrap();
        if i < n {
            assert(path[i] == '?');
        }
    }
    let q = target.skip(n + 1);
    assert(q =~= "dns="@ + e);
    q.index_of_first_ensures('&');
    assert(q.index_of_first('&') is None) by {
        if let Some(i) = q.index_of_first('&') {
            if i >= 4 {
                assert(q[i] == e[i - 4]);
            }
        }
    }
    assert("dns="@.is_prefix_of(split(q, '&')[0]));
    assert(q.skip(4) =~= e);
    assert(dns_param(target) == e);
    assert(trim(e) == e) by {
        if e.len() > 0 {
            assert(url_safe(e[0]));
            assert(url_safe(e[e.len() - 1]));
        }
    }
    law_base64url_decoded(query);
}

/// What goes upstream is the query itself: a server there reads it back from the address.
pub proof fn law_forwarded_verbatim(query: Seq<u8>)
    ensures
        query_in("GET"@, upstream_url(query), Seq::empty()) == Ok::<Seq<u8>, Refusal>(query),
{
    reveal_strlit("https://doh.pub/dns-query");
    assert(!DOH_UPSTREAM@.contains('?'));
    law_query_in_target(DOH_UPSTREAM@, query, "GET"@, Seq::empty());
}

/// A query for a name that the rules cover does not leave this machine: it is answered with a
/// reply to its own question, and where it asks for an address that is 127.0.0.1.
pub proof fn law_covered_stays_here(hosts: Map<Seq<char>, Seq<char>>, query: Seq<u8>)
    requires
        question(query) is Some,
        question(query).unwrap().0.len() > 0,
        covered(hosts, question(query).unwrap().0),
    ensures
        ({
            let (name, qtype, end) = question(query).unwrap();
            let reply = local_reply(query, qtype, end);
            &&& answered(hosts, query) == Served::Reply(reply_bytes("200 OK"@, reply))
            &&& question(reply) == question(query)
            &&& wants_address(qtype) ==> reply.skip(reply.len() - 4) == seq![127u8, 0, 0, 1]
        }),
{
    law_reply_repeats_question(query);
    law_reply_points_here(query);
}

/// Only a query for a name that the rules cover is answered here.
pub proof fn law_others_go_upstream(hosts: Map<Seq<char>, Seq<char>>, query: Seq<u8>)
    requires
        question(query) matches Some((name, _, _)) ==> !covered(hosts, name),
    ensures
        answered(hosts, query) == Served::Forward(upstream_url(query)),
{
}

/// The alphabet: capital letters, small letters, digits, a hyphen and a low line, in this order.
pub proof fn law_alphabet(v: int)
    requires
        0 <= v < 64,
    ensures
        sextet(v) == "ABCDEFGHIJKLMNOPQRSTUVWXYZabcdefghijklmnopqrstuvwxyz0123456789-_"@[v],
{
    reveal_strlit("ABCDEFGHIJKLMNOPQRSTUVWXYZabcdefghijklmnopqrstuvwxyz0123456789-_");
}

/// Three bytes are four characters whose numbers spell the same number in base 64; one or two
/// bytes at the end are two or three, with zeros for the bits that are missing.
pub proof fn law_base64url(b: Seq<u8>, rest: Seq<u8>)
    requires
        b.len() == 3,
    ensures
        exists|v: Seq<int>| #[trigger]
            v.len() == 4 && (forall|i: int| 0 <= i < 4 ==> 0 <= #[trigger] v[i] < 64) && base64url(
                b + rest,
            ) == Seq::new(4, |i: int| sextet(v[i])) + base64url(rest) && v[0] * 262144 + v[1] * 4096
                + v[2] * 64 + v[3] == b[0] * 65536 + b[1] * 256 + b[2],
        exists|v: Seq<int>| #[trigger]
            v.len() == 3 && (forall|i: int| 0 <= i < 3 ==> 0 <= #[trigger] v[i] < 64) && base64url(
                b.take(2),
            ) == Seq::new(3, |i: int| sextet(v[i])) && v[0] * 4096 + v[1] * 64 + v[2] == (b[0] * 256
                + b[1]) * 4,
        exists|v: Seq<int>| #[trigger]
            v.len() == 2 && (forall|i: int| 0 <= i < 2 ==> 0 <= #[trigger] v[i] < 64) && base64url(
                b.take(1),
            ) == Seq::new(2, |i: int| sextet(v[i])) && v[0] * 64 + v[1] == b[0] * 16,
        base64url(Seq::empty()).len() == 0,
{
    let (x, y, z) = (b[0] as int, b[1] as int, b[2] as int);
    let all = b + rest;
    assert(all.skip(3) =~= rest);
    assert(all[0] == b[0] && all[1] == b[1] && all[2] == b[2]);
    let v = seq![x / 4, x % 4 * 16 + y / 16, y % 16 * 4 + z / 64, z % 64];
    assert(v.len() == 4);
    assert(base64url(all) =~= Seq::new(4, |i: int| sextet(v[i])) + base64url(rest));
    let w = seq![x / 4, x % 4 * 16 + y / 16, y % 16 * 4];
    assert(w.len() == 3);
    assert(base64url(b.take(2)) =~= Seq::new(3, |i: int| sextet(w[i])));
    let u = seq![x / 4, x % 4 * 16];
    assert(u.len() == 2);
    assert(base64url(b.take(1)) =~= Seq::new(2, |i: int| sextet(u[i])));
}

/// What is the encoding of no bytes is not decoded, and what is decoded has the text for its
/// encoding.
pub proof fn law_decoded(text: Seq<char>)
    ensures
        match unbase64url(text) {
            Some(b) => base64url(b) == text,
            None => forall|b: Seq<u8>| #[trigger] base64url(b) != text,
        },
{
}

/// A text is split at every separator, and nowhere else: its parts hold none, and joined they are
/// the text again.
pub proof fn law_split(s: Seq<char>, sep: char)
    ensures
        split(s, sep).len() > 0,
        forall|i: int| 0 <= i < split(s, sep).len() ==> !(#[trigger] split(s, sep)[i]).contains(sep),
        join(split(s, sep), sep) == s,
    decreases s.len(),
{
    s.index_of_first_ensures(sep);
    let parts = split(s, sep);
    match s.index_of_first(sep) {
        Some(i) => {
            let first = s.take(i);
            let rest = s.skip(i + 1);
            law_split(rest, sep);
            assert(!first.contains(sep)) by {
                if first.contains(sep) {
                    let j = choose|j: int| 0 <= j < first.len() && first[j] == sep;
                    assert(s[j] == sep);
                }
            }
            assert forall|k: int| 0 <= k < parts.len() implies !(#[trigger] parts[k]).contains(sep) by {
                if k > 0 {
                    assert(parts[k] == split(rest, sep)[k - 1]);
                }
            }
            lemma_join_cons(first, split(rest, sep), sep);
            assert(s =~= first.push(sep) + rest);
        },
        None => {
            assert(!s.contains(sep));
        },
    }
}

proof fn lemma_join_cons(first: Seq<char>, more: Seq<Seq<char>>, sep: char)
    requires
        more.len() > 0,
    ensures
        join(seq![first] + more, sep) == first.push(sep) + join(more, sep),
    decreases more.len(),
{
    let all = seq![first] + more;
    if more.len() == 1 {
        assert(all.drop_last() =~= seq![first]);
        assert(join(seq![first], sep) == first);
        assert(all.last() == more[0]);
        assert(join(all, sep) =~= first.push(sep) + join(more, sep));
    } else {
        assert(all.drop_last() =~= seq![first] + more.drop_last());
        lemma_join_cons(first, more.drop_last(), sep);
        assert(join(all, sep) =~= first.push(sep) + join(more, sep));
    }
}

/// The query is carried by the first parameter in the target whose name is `dns`, whatever
/// parameters stand around it; without one it is empty.
pub proof fn law_param_found(
    path: Seq<char>,
    before: Seq<char>,
    text: Seq<char>,
    behind: Seq<char>,
)
    requires
        !path.contains('?'),
        !before.contains('&'),
        !"dns="@.is_prefix_of(before),
        !text.contains('&'),
        behind.len() > 0 ==> behind[0] == '&',
    ensures
        dns_param(path) == Seq::<char>::empty(),
        dns_param(path.push('?') + before) == Seq::<char>::empty(),
        dns_param(path.push('?') + ("dns="@ + text + behind)) == text,
        dns_param(path.push('?') + (before.push('&') + behind)) == dns_param(path.push('?') + behind),
{
    reveal_strlit("dns=");
    path.index_of_first_ensures('?');
    let none: Seq<Seq<char>> = Seq::empty();
    assert(first_with(none, "dns="@) =~= Seq::empty());
    lemma_query_of(path, before);
    before.index_of_first_ensures('&');
    assert(split(before, '&') =~= seq![before]);
    assert(seq![before].drop_first() =~= none);
    let whole = "dns="@ + text;
    let q = whole + behind;
    lemma_query_of(path, q);
    assert(!whole.contains('&')) by {
        if whole.contains('&') {
            let i = choose|i: int| 0 <= i < whole.len() && whole[i] == '&';
            if i >= 4 {
                assert(text[i - 4] == '&');
            }
        }
    }
    lemma_split_first(whole, behind);
    assert("dns="@.is_prefix_of(whole));
    assert(whole.skip(4) =~= text);
    let r = before.push('&') + behind;
    lemma_query_of(path, r);
    lemma_query_of(path, behind);
    lemma_split_first(before, seq!['&'] + behind);
    assert(before + (seq!['&'] + behind) =~= r);
    assert((seq!['&'] + behind).skip(1) =~= behind);
    assert(split(r, '&').drop_first() =~= split(behind, '&'));
}

proof fn lemma_query_of(path: Seq<char>, query: Seq<char>)
    requires
        !path.contains('?'),
    ensures
        dns_param(path.push('?') + query) == first_with(split(query, '&'), "dns="@),
{
    let target = path.push('?') + query;
    target.index_of_first_ensures('?');
    let n = path.len() as int;
    assert(target[n] == '?');
    let i = target.index_of_first('?').unwrap();
    assert(i == n) by {
        if i < n {
            assert(path[i] == '?');
        }
    }
    assert(target.skip(n + 1) =~= query);
}

proof fn lemma_split_first(part: Seq<char>, behind: Seq<char>)
    requires
        !part.contains('&'),
        behind.len() > 0 ==> behind[0] == '&',
    ensures
        split(part + behind, '&')[0] == part,
        behind.len() > 0 ==> split(part + behind, '&') == seq![part] + split(behind.skip(1), '&'),
{
    let s = part + behind;
    let n = part.len() as int;
    s.index_of_first_ensures('&');
    if behind.len() > 0 {
        assert(s[n] == '&');
        let i = s.index_of_first('&').unwrap();
        assert(i == n) by {
            if i < n {
                assert(part[i] == '&');
            }
        }
        assert(s.take(n) =~= part);
        assert(s.skip(n + 1) =~= behind.skip(1));
    } else {
        assert(s =~= part);
    }
}

/// A request by POST carries its query in its body, to the byte; one by GET in its target, in base
/// 64; one by any other method is refused, and so is one by GET whose parameter is not base 64. In
/// which letters the method is written makes no difference.
pub proof fn law_query_by_method(method: Seq<char>, target: Seq<char>, body: Seq<u8>)
    ensures
        lower(method) == "post"@ ==> query_in(method, target, body) == Ok::<Seq<u8>, Refusal>(body),
        lower(method) == "get"@ ==> match query_in(method, target, body) {
            Ok(query) => base64url(query) == trim(dns_param(target)),
            Err(why) => why == Refusal::BadRequest && forall|b: Seq<u8>| #[trigger]
                base64url(b) != trim(dns_param(target)),
        },
        lower(method) != "post"@ && lower(method) != "get"@ ==> query_in(method, target, body) == Err::<
            Seq<u8>,
            Refusal,
        >(Refusal::MethodNotAllowed),
{
    reveal_strlit("GET");
    reveal_strlit("get");
    reveal_strlit("POST");
    reveal_strlit("post");
    assert(lower("GET"@) =~= "get"@);
    assert(lower("POST"@) =~= "post"@);
    assert("get"@.len() != "post"@.len());
}

/// A refused request is answered with the status that says why, and an empty body; any other is
/// answered as its query is.
pub proof fn law_refusals(
    hosts: Map<Seq<char>, Seq<char>>,
    method: Seq<char>,
    target: Seq<char>,
    body: Seq<u8>,
)
    ensures
        match query_in(method, target, body) {
            Ok(query) => served(hosts, method, target, body) == answered(hosts, query),
            Err(why) => served(hosts, method, target, body) == Served::Reply(
                encode_utf8(
                    (if why == Refusal::BadRequest {
                        "HTTP/1.1 400 Bad Request\r\nContent-Type: application/dns-message\r\nContent-Length: 0\r\nConnection: close\r\n\r\n"@
                    } else {
                        "HTTP/1.1 405 Method Not Allowed\r\nContent-Type: application/dns-message\r\nContent-Length: 0\r\nConnection: close\r\n\r\n"@
                    }),
                ),
            ),
        },
{
    if let Err(why) = query_in(method, target, body) {
        let none: Seq<u8> = Seq::empty();
        reveal_strlit("HTTP/1.1 ");
        reveal_strlit("\r\nContent-Type: application/dns-message\r\nContent-Length: ");
        reveal_strlit("\r\nConnection: close\r\n\r\n");
        assert(decimal(0) =~= seq!['0']);
        if why == Refusal::BadRequest {
            reveal_strlit("400 Bad Request");
            reveal_strlit(
                "HTTP/1.1 400 Bad Request\r\nContent-Type: application/dns-message\r\nContent-Length: 0\r\nConnection: close\r\n\r\n",
            );
            assert(reply_head("400 Bad Request"@, 0)
                =~= "HTTP/1.1 400 Bad Request\r\nContent-Type: application/dns-message\r\nContent-Length: 0\r\nConnection: close\r\n\r\n"@);
            assert(reply_bytes("400 Bad Request"@, none) =~= encode_utf8(
                reply_head("400 Bad Request"@, 0),
            ));
        } else {
            reveal_strlit("405 Method Not Allowed");
            reveal_strlit(
                "HTTP/1.1 405 Method Not Allowed\r\nContent-Type: application/dns-message\r\nContent-Length: 0\r\nConnection: close\r\n\r\n",
            );
            assert(reply_head("405 Method Not Allowed"@, 0)
                =~= "HTTP/1.1 405 Method Not Allowed\r\nContent-Type: application/dns-message\r\nContent-Length: 0\r\nConnection: close\r\n\r\n"@);
            assert(reply_bytes("405 Method Not Allowed"@, none) =~= encode_utf8(
                reply_head("405 Method Not Allowed"@, 0),
            ));
        }
    }
}

/// What came from upstream is the body of the reply, to the byte: read as HTTP, the reply has a
/// head with the status 200 that ends where these bytes begin, and gives their number. Where
/// nothing came, the reply is the same as where no bytes did.
pub proof fn law_relayed_verbatim(upstream: Seq<u8>)
    requires
        upstream.len() <= usize::MAX,
    ensures
        ({
            let all = relayed(Some(upstream));
            let h = all.len() - upstream.len();
            let text = text_of(all.take(h));
            &&& head_end(all, 0) == Some(h)
            &&& all.skip(h) == upstream
            &&& length_in(field_lines(text)) == upstream.len()
            &&& lines(text)[0] == "HTTP/1.1 200 OK"@
        }),
        relayed(None) == relayed(Some(Seq::empty())),
{
    reveal_strlit("200 OK");
    reveal_strlit("HTTP/1.1 ");
    reveal_strlit("HTTP/1.1 200 OK");
    assert(!"200 OK"@.contains('\n'));
    law_reply_framed("200 OK"@, upstream);
    let head = reply_head("200 OK"@, upstream.len());
    let all = relayed(Some(upstream));
    let h = all.len() - upstream.len();
    assert(all.take(h) =~= encode_utf8(head));
    law_text_of(head);
    law_reply_head_lines("200 OK"@, upstream.len());
    assert("HTTP/1.1 "@ + "200 OK"@ =~= "HTTP/1.1 200 OK"@);
}

/// What is asked upstream is asked at one server, by its address for DNS over HTTPS, with the query
/// in base 64 behind it.
pub proof fn law_asked_upstream(query: Seq<u8>)
    ensures
        upstream_url(query) == "https://doh.pub/dns-query?dns="@ + base64url(query),
{
    reveal_strlit("https://doh.pub/dns-query");
    reveal_strlit("?dns=");
    reveal_strlit("https://doh.pub/dns-query?dns=");
    assert(upstream_url(query) =~= "https://doh.pub/dns-query?dns="@ + base64url(query));
}

/// A query without a name, or that cannot be read, goes upstream whatever the rules are.
pub proof fn law_nameless_goes_upstream(hosts: Map<Seq<char>, Seq<char>>, query: Seq<u8>)
    requires
        question(query) matches Some((name, _, _)) ==> name.len() == 0,
    ensures
        answered(hosts, query) == Served::Forward(upstream_url(query)),
{
}

} // verus!
