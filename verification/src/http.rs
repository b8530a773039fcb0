//! The parts of HTTP that the proxy reads and writes itself.
use vstd::arithmetic::div_mod::lemma_div_denominator;
use vstd::arithmetic::power::{lemma_pow_positive, pow};
use vstd::prelude::*;
use vstd::slice::slice_subrange;
use vstd::utf8::{
    encode_utf8, encode_utf8_decode_utf8, encode_utf8_valid_utf8, is_ascii_chars,
    is_ascii_chars_encode_utf8,
};
use crate::text::{
    chars_of, drop_cr, find_char, is_white, law_first_line, law_first_word, law_no_word, lemma_encode_add,
    lemma_lines_add, lemma_lines_one, lemma_no_feed_byte, lines, lossy, lower, next_line, next_word,
    push_bytes, same_ignoring_case, string_of, text_of, trim, trim_end, trim_of, trim_start, words,
};

verus! {

/// The largest head that is read, in bytes, but for what the last piece brings.
pub const HEAD_LIMIT: usize = 65536;

/// The digit for a number below ten.
pub open spec fn digit(d: nat) -> char {
    (48 + d) as char
}

/// Whether a character is a decimal digit.
pub open spec fn is_digit(c: char) -> bool {
    '0' <= c <= '9'
}

/// A number in decimal digits.
pub open spec fn decimal(n: nat) -> Seq<char>
    decreases n,
{
    if n < 10 {
        seq![digit(n)]
    } else {
        decimal(n / 10).push(digit(n % 10))
    }
}

/// The number that decimal digits spell.
pub open spec fn value(s: Seq<char>) -> nat
    decreases s.len(),
{
    if s.len() == 0 {
        0
    } else {
        value(s.drop_last()) * 10 + (s.last() as nat - 48) as nat
    }
}

/// A text without one plus sign in front.
pub open spec fn unsigned(s: Seq<char>) -> Seq<char> {
    if s.len() > 0 && s[0] == '+' {
        s.skip(1)
    } else {
        s
    }
}

/// The number that a text spells, where it is one and is not above `max`.
pub open spec fn number(s: Seq<char>, max: nat) -> Option<nat> {
    let d = unsigned(s);
    if d.len() > 0 && (forall|i: int| 0 <= i < d.len() ==> is_digit(#[trigger] d[i])) && value(d)
        <= max {
        Some(value(d))
    } else {
        None
    }
}

/// Appends a number in decimal digits.
pub fn push_decimal(out: &mut String, n: usize)
    ensures
        final(out)@ == old(out)@ + decimal(n as nat),
    decreases n,
{
    let ghost before = out@;
    if n >= 10 {
        push_decimal(out, n / 10);
    }
    let d: u8 = (n % 10) as u8;
    out.push((48u8 + d) as char);
    assert(out@ =~= before + decimal(n as nat));
}

proof fn lemma_value_grows(s: Seq<char>, i: int)
    requires
        0 <= i <= s.len(),
    ensures
        value(s.take(i)) <= value(s),
    decreases s.len() - i,
{
    if i < s.len() {
        lemma_value_grows(s, i + 1);
        assert(s.take(i + 1).drop_last() =~= s.take(i));
    } else {
        assert(s.take(i) =~= s);
    }
}

/// Reads a number that is not above `max`.
pub fn parse_number(s: &[char], max: u64) -> (r: Option<u64>)
    ensures
        match r {
            Some(n) => number(s@, max as nat) == Some(n as nat),
            None => number(s@, max as nat) is None,
        },
{
    let d: &[char] = if s.len() > 0 && s[0] == '+' {
        slice_subrange(s, 1, s.len())
    } else {
        s
    };
    assert(d@ =~= unsigned(s@));
    if d.len() == 0 {
        return None;
    }
    let mut v: u64 = 0;
    let mut i: usize = 0;
    while i < d.len()
        invariant
            i <= d@.len(),
            d@ == unsigned(s@),
            v <= max,
            v == value(d@.take(i as int)),
            forall|j: int| 0 <= j < i ==> is_digit(#[trigger] d@[j]),
        decreases d@.len() - i,
    {
        let c: char = d[i];
        if c < '0' || '9' < c {
            assert(!is_digit(d@[i as int]));
            return None;
        }
        let x: u64 = c as u64 - 48;
        proof {
            assert(d@.take(i + 1).drop_last() =~= d@.take(i as int));
            assert(value(d@.take(i + 1)) == v * 10 + x);
            lemma_value_grows(d@, i + 1);
        }
        if x > max || v > (max - x) / 10 {
            return None;
        }
        v = v * 10 + x;
        i = i + 1;
    }
    assert(d@.take(i as int) =~= d@);
    Some(v)
}

/// The text at a place of a sequence, or no text.
pub open spec fn nth(ws: Seq<Seq<char>>, i: int) -> Seq<char> {
    if i < ws.len() {
        ws[i]
    } else {
        Seq::empty()
    }
}

/// The method and the target of a request: the first two words of its first line.
pub open spec fn request_line(head: Seq<char>) -> (Seq<char>, Seq<char>) {
    let ws = words(nth(lines(head), 0));
    (nth(ws, 0), nth(ws, 1))
}

/// Reads the method and the target of a request.
pub fn request_line_of(head: &str) -> (r: (String, String))
    ensures
        (r.0@, r.1@) == request_line(head@),
{
    let all: Vec<char> = chars_of(head);
    match next_line(all.as_slice()) {
        None => {
            assert(words(Seq::<char>::empty()) =~= Seq::empty());
            (String::new(), String::new())
        },
        Some((line, _rest)) => {
            assert(lines(head@)[0] == line@);
            match next_word(line) {
                None => (String::new(), String::new()),
                Some((method, behind)) => {
                    assert(words(line@)[0] == method@);
                    match next_word(behind) {
                        None => {
                            assert(words(line@) =~= seq![method@]);
                            (string_of(method), String::new())
                        },
                        Some((target, _more)) => {
                            assert(words(line@)[1] == words(behind@)[0]);
                            (string_of(method), string_of(target))
                        },
                    }
                },
            }
        },
    }
}

/// Reads the method and the target, with its query, from the head of a request.
pub fn parse_request_line(head: &[u8]) -> (r: (String, String))
    ensures
        (r.0@, r.1@) == request_line(text_of(head@)),
{
    let text: String = lossy(head);
    request_line_of(text.as_str())
}

/// The lines of a head behind its first.
pub open spec fn field_lines(head: Seq<char>) -> Seq<Seq<char>> {
    let ls = lines(head);
    if ls.len() == 0 {
        ls
    } else {
        ls.skip(1)
    }
}

/// The value of the field, where the line is a field of that name.
pub open spec fn field_value(line: Seq<char>, name: Seq<char>) -> Option<Seq<char>> {
    match line.index_of_first(':') {
        Some(i) => if lower(line.take(i)) == lower(name) {
            Some(trim(line.skip(i + 1)))
        } else {
            None
        },
        None => None,
    }
}

/// The value of the field, where the line is a field of that name.
fn field_value_of<'a>(line: &'a [char], name: &[char]) -> (r: Option<&'a [char]>)
    ensures
        match r {
            Some(v) => field_value(line@, name@) == Some(v@),
            None => field_value(line@, name@) is None,
        },
{
    let n: usize = line.len();
    match find_char(line, ':') {
        None => None,
        Some(i) => {
            let key: &[char] = slice_subrange(line, 0, i);
            assert(key@ =~= line@.take(i as int));
            if same_ignoring_case(key, name) {
                let rest: &'a [char] = slice_subrange(line, i + 1, n);
                assert(rest@ =~= line@.skip(i + 1));
                Some(trim_of(rest))
            } else {
                None
            }
        },
    }
}

/// The value of the first of the lines that names a host; no text where none does.
pub open spec fn host_in(ls: Seq<Seq<char>>) -> Seq<char>
    decreases ls.len(),
{
    if ls.len() == 0 {
        Seq::empty()
    } else {
        match field_value(ls[0], "host"@) {
            Some(v) => v,
            None => host_in(ls.drop_first()),
        }
    }
}

/// The number in the first of the lines that gives a length that can be read; zero where none
/// does.
pub open spec fn length_in(ls: Seq<Seq<char>>) -> nat
    decreases ls.len(),
{
    if ls.len() == 0 {
        0
    } else {
        match field_value(ls[0], "content-length"@) {
            Some(v) => match number(v, usize::MAX as nat) {
                Some(n) => n,
                None => length_in(ls.drop_first()),
            },
            None => length_in(ls.drop_first()),
        }
    }
}

/// Reads the host from the text of a head.
pub fn host_of(head: &str) -> (r: String)
    ensures
        r@ == host_in(field_lines(head@)),
{
    let all: Vec<char> = chars_of(head);
    let name: Vec<char> = chars_of("host");
    match next_line(all.as_slice()) {
        None => String::new(),
        Some((_first, behind)) => {
            let mut rest: &[char] = behind;
            assert(field_lines(head@) =~= lines(rest@));
            loop
                invariant
                    name@ == "host"@,
                    host_in(lines(rest@)) == host_in(field_lines(head@)),
                decreases rest@.len(),
            {
                match next_line(rest) {
                    None => {
                        return String::new();
                    },
                    Some((line, tail)) => {
                        assert(lines(rest@)[0] == line@);
                        assert(lines(rest@).drop_first() =~= lines(tail@));
                        match field_value_of(line, name.as_slice()) {
                            Some(v) => {
                                return string_of(v);
                            },
                            None => {},
                        }
                        rest = tail;
                    },
                }
            }
        },
    }
}

/// Reads the length of the body from the text of a head.
pub fn length_of(head: &str) -> (r: usize)
    ensures
        r == length_in(field_lines(head@)),
{
    let all: Vec<char> = chars_of(head);
    let name: Vec<char> = chars_of("content-length");
    match next_line(all.as_slice()) {
        None => 0,
        Some((_first, behind)) => {
            let mut rest: &[char] = behind;
            assert(field_lines(head@) =~= lines(rest@));
            loop
                invariant
                    name@ == "content-length"@,
                    length_in(lines(rest@)) == length_in(field_lines(head@)),
                decreases rest@.len(),
            {
                match next_line(rest) {
                    None => {
                        return 0;
                    },
                    Some((line, tail)) => {
                        assert(lines(rest@)[0] == line@);
                        assert(lines(rest@).drop_first() =~= lines(tail@));
                        match field_value_of(line, name.as_slice()) {
                            Some(v) => match parse_number(v, usize::MAX as u64) {
                                Some(n) => {
                                    return n as usize;
                                },
                                None => {},
                            },
                            None => {},
                        }
                        rest = tail;
                    },
                }
            }
        },
    }
}

/// Reads the value of the Host field from the head of a request.
pub fn host_header(head: &[u8]) -> (r: String)
    ensures
        r@ == host_in(field_lines(text_of(head@))),
{
    let text: String = lossy(head);
    host_of(text.as_str())
}

/// Reads how long the body of a request is from its head. Of a whole reply it reads the length
/// of the body, whatever bytes the body holds.
pub fn content_length_of(head: &[u8]) -> (r: usize)
    ensures
        r == length_in(field_lines(text_of(head@))),
        forall|status: Seq<char>, body: Seq<u8>|
            !status.contains('\n') && head@ == #[trigger] reply_bytes(status, body) ==> r
                == body.len(),
{
    let text: String = lossy(head);
    let r: usize = length_of(text.as_str());
    let size: usize = head.len();
    proof {
        assert forall|status: Seq<char>, body: Seq<u8>|
            !status.contains('\n') && head@ == #[trigger] reply_bytes(status, body) implies r
            == body.len() by {
            let front = reply_head(status, body.len());
            assert(head@ == encode_utf8(front) + body);
            assert(body.len() <= size);
            let behind = text@.skip(front.len() as int);
            assert(text@ =~= front + behind);
            lemma_reply_behind(status, body.len(), behind);
        }
    }
    r
}

/// The head of a reply with a body of the given length.
pub open spec fn reply_head(status: Seq<char>, len: nat) -> Seq<char> {
    "HTTP/1.1 "@ + status + "\r\nContent-Type: application/dns-message\r\nContent-Length: "@ + decimal(
        len,
    ) + "\r\nConnection: close\r\n\r\n"@
}

/// The bytes of a reply.
pub open spec fn reply_bytes(status: Seq<char>, body: Seq<u8>) -> Seq<u8> {
    encode_utf8(reply_head(status, body.len())) + body
}

/// Writes a reply with the given status and body.
pub fn http_response(status: &str, body: &[u8]) -> (r: Vec<u8>)
    ensures
        r@ == reply_bytes(status@, body@),
{
    let mut head: String = String::new();
    head.append("HTTP/1.1 ");
    head.append(status);
    head.append("\r\nContent-Type: application/dns-message\r\nContent-Length: ");
    push_decimal(&mut head, body.len());
    head.append("\r\nConnection: close\r\n\r\n");
    assert(head@ =~= reply_head(status@, body@.len()));
    let mut out: Vec<u8> = Vec::new();
    push_bytes(&mut out, head.as_str().as_bytes());
    push_bytes(&mut out, body);
    assert(out@ =~= reply_bytes(status@, body@));
    out
}

/// Whether a blank line begins behind the line that ends at `p`: two line endings in a row.
pub open spec fn blank_at(buf: Seq<u8>, p: int) -> bool {
    0 <= p && p + 4 <= buf.len() && buf[p] == 13 && buf[p + 1] == 10 && buf[p + 2] == 13 && buf[p
        + 3] == 10
}

/// Where the first head in the bytes ends: behind the first blank line.
pub open spec fn head_end(buf: Seq<u8>, from: int) -> Option<int>
    decreases buf.len() - from,
{
    if from < 0 || from + 4 > buf.len() {
        None
    } else if blank_at(buf, from) {
        Some(from + 4)
    } else {
        head_end(buf, from + 1)
    }
}

/// Looks for the end of the head.
fn find_head_end(buf: &[u8]) -> (r: Option<usize>)
    ensures
        match r {
            Some(n) => head_end(buf@, 0) == Some(n as int) && n <= buf@.len(),
            None => head_end(buf@, 0) is None,
        },
{
    let mut p: usize = 0;
    while p < buf.len() && buf.len() - p >= 4
        invariant
            p <= buf@.len(),
            head_end(buf@, p as int) == head_end(buf@, 0),
        decreases buf@.len() - p,
    {
        if buf[p] == 13 && buf[p + 1] == 10 && buf[p + 2] == 13 && buf[p + 3] == 10 {
            return Some(p + 4);
        }
        p = p + 1;
    }
    None
}

/// What reading on for a head comes to.
pub enum HeadStep {
    /// The head is not complete: another piece is needed.
    More,
    /// The head, with the blank line at its end, and what came behind it.
    Done(Vec<u8>, Vec<u8>),
    /// The connection ended before the head did.
    Closed,
    /// The head is larger than what is read.
    TooLarge,
}

/// Collects the head of a request from the pieces in which it comes.
pub struct HeadReader {
    buf: Vec<u8>,
}

impl View for HeadReader {
    type V = Seq<u8>;

    /// The bytes that have come so far.
    closed spec fn view(&self) -> Seq<u8> {
        self.buf@
    }
}

impl HeadReader {
    /// A reader that no byte has come to.
    pub fn new() -> (r: HeadReader)
        ensures
            r@ == Seq::<u8>::empty(),
    {
        HeadReader { buf: Vec::new() }
    }

    /// Takes the next piece; an empty one says that the connection has ended.
    pub fn feed(&mut self, piece: &[u8]) -> (r: HeadStep)
        ensures
            final(self)@ == old(self)@ + piece@,
            ({
                let all = old(self)@ + piece@;
                match r {
                    HeadStep::Closed => piece@.len() == 0,
                    HeadStep::Done(head, rest) => piece@.len() > 0 && head_end(all, 0) == Some(
                        head@.len() as int,
                    ) && head@ + rest@ == all,
                    HeadStep::TooLarge => piece@.len() > 0 && head_end(all, 0) is None && all.len()
                        > HEAD_LIMIT,
                    HeadStep::More => piece@.len() > 0 && head_end(all, 0) is None && all.len()
                        <= HEAD_LIMIT,
                }
            }),
    {
        let ghost before = self.buf@;
        push_bytes(&mut self.buf, piece);
        assert(piece@.len() == 0 ==> before + piece@ =~= before);
        if piece.len() == 0 {
            return HeadStep::Closed;
        }
        match find_head_end(self.buf.as_slice()) {
            Some(n) => {
                let mut head: Vec<u8> = Vec::new();
                push_bytes(&mut head, slice_subrange(self.buf.as_slice(), 0, n));
                assert(head@ =~= self.buf@.take(n as int));
                let mut rest: Vec<u8> = Vec::new();
                push_bytes(&mut rest, slice_subrange(self.buf.as_slice(), n, self.buf.len()));
                assert(head@ + rest@ =~= self.buf@);
                HeadStep::Done(head, rest)
            },
            None => if self.buf.len() > HEAD_LIMIT {
                HeadStep::TooLarge
            } else {
                HeadStep::More
            },
        }
    }
}

/// Collects the body of a request from the pieces in which it comes.
pub struct BodyReader {
    total: usize,
    body: Vec<u8>,
}

impl View for BodyReader {
    type V = Seq<u8>;

    /// The bytes that have come so far.
    closed spec fn view(&self) -> Seq<u8> {
        self.body@
    }
}

impl BodyReader {
    /// How long the body is to be.
    pub closed spec fn total(&self) -> nat {
        self.total as nat
    }

    /// The body that the bytes up to now make up.
    pub open spec fn made(&self) -> Seq<u8> {
        if self@.len() <= self.total() {
            self@
        } else {
            self@.take(self.total() as int)
        }
    }

    /// A reader for a body of the given length.
    pub fn new(total: usize) -> (r: BodyReader)
        ensures
            r@ == Seq::<u8>::empty(),
            r.total() == total,
    {
        BodyReader { total: total, body: Vec::new() }
    }

    /// A reader for the body of the request with the given head.
    pub fn for_head(head: &[u8]) -> (r: BodyReader)
        ensures
            r@ == Seq::<u8>::empty(),
            r.total() == length_in(field_lines(text_of(head@))),
    {
        BodyReader::new(content_length_of(head))
    }

    /// Whether another piece is needed.
    pub fn wants_more(&self) -> (r: bool)
        ensures
            r == (self@.len() < self.total()),
    {
        self.body.len() < self.total
    }

    /// Takes the next piece.
    pub fn feed(&mut self, piece: &[u8])
        ensures
            final(self)@ == old(self)@ + piece@,
            final(self).total() == old(self).total(),
    {
        push_bytes(&mut self.body, piece);
    }

    /// The body; it is short where the connection ended early.
    pub fn finish(self) -> (r: Vec<u8>)
        ensures
            r@ == self.made(),
    {
        let mut out: Vec<u8> = Vec::new();
        if self.body.len() <= self.total {
            push_bytes(&mut out, self.body.as_slice());
            assert(out@ =~= self.body@);
        } else {
            push_bytes(&mut out, slice_subrange(self.body.as_slice(), 0, self.total));
            assert(out@ =~= self.body@.take(self.total as int));
        }
        out
    }
}

/// Once a head is complete, what comes behind it does not change it.
pub proof fn law_head_settled(buf: Seq<u8>, more: Seq<u8>, from: int)
    requires
        head_end(buf, from) is Some,
    ensures
        head_end(buf + more, from) == head_end(buf, from),
    decreases buf.len() - from,
{
    if !blank_at(buf, from) {
        law_head_settled(buf, more, from + 1);
    }
}

/// A head ends with the first blank line: it holds one at its end and none before.
pub proof fn law_head_first_blank(buf: Seq<u8>, from: int)
    requires
        head_end(buf, from) is Some,
    ensures
        from <= head_end(buf, from).unwrap() - 4,
        blank_at(buf, head_end(buf, from).unwrap() - 4),
        forall|p: int| from <= p < head_end(buf, from).unwrap() - 4 ==> !blank_at(buf, p),
    decreases buf.len() - from,
{
    if !blank_at(buf, from) {
        law_head_first_blank(buf, from + 1);
    }
}

proof fn lemma_decimal(n: nat)
    ensures
        decimal(n).len() > 0,
        forall|i: int| 0 <= i < decimal(n).len() ==> is_digit(#[trigger] decimal(n)[i]),
        value(decimal(n)) == n,
    decreases n,
{
    if n >= 10 {
        lemma_decimal(n / 10);
        assert(decimal(n).drop_last() =~= decimal(n / 10));
    } else {
        assert(decimal(n).drop_last() =~= Seq::empty());
        assert(value(decimal(n).drop_last()) == 0);
    }
}

/// A number that was written is read back.
pub proof fn law_number_written(n: nat, max: nat)
    requires
        n <= max,
    ensures
        number(decimal(n), max) == Some(n),
{
    lemma_decimal(n);
    assert(is_digit(decimal(n)[0]));
}

/// A line and its ending, with more lines behind it.
proof fn lemma_first_line(l: Seq<char>, rest: Seq<char>)
    requires
        !l.contains('\n'),
    ensures
        lines(l + seq!['\r', '\n'] + rest) == seq![l] + lines(rest),
{
    let whole = l.push('\r');
    assert(!whole.contains('\n')) by {
        if whole.contains('\n') {
            let i = choose|i: int| 0 <= i < whole.len() && whole[i] == '\n';
            assert(l[i] == '\n');
        }
    }
    lemma_lines_one(whole);
    assert(drop_cr(whole) =~= l);
    lemma_lines_add(whole.push('\n'), rest);
    assert(l + seq!['\r', '\n'] + rest =~= whole.push('\n') + rest);
}

/// The head of a reply, line by line.
pub open spec fn reply_fields(len: nat) -> Seq<Seq<char>> {
    seq![
        "Content-Type: application/dns-message"@,
        "Content-Length: "@ + decimal(len),
        "Connection: close"@,
    ]
}

/// The lines of a reply's head hold no line feed.
proof fn lemma_reply_fields(status: Seq<char>, len: nat)
    requires
        !status.contains('\n'),
    ensures
        !("HTTP/1.1 "@ + status).contains('\n'),
        !reply_fields(len)[0].contains('\n'),
        !reply_fields(len)[1].contains('\n'),
        !reply_fields(len)[2].contains('\n'),
        reply_fields(len)[0].len() > 0,
        reply_fields(len)[1].len() > 0,
        reply_fields(len)[2].len() > 0,
        reply_head(status, len) == "HTTP/1.1 "@ + status + seq!['\r', '\n'] + (reply_fields(len)[0]
            + seq!['\r', '\n'] + (reply_fields(len)[1] + seq!['\r', '\n'] + (reply_fields(len)[2]
            + seq!['\r', '\n'] + seq!['\r', '\n']))),
{
    let end = seq!['\r', '\n'];
    let a = "HTTP/1.1 "@ + status;
    let b = "Content-Type: application/dns-message"@;
    let c = "Content-Length: "@ + decimal(len);
    let d = "Connection: close"@;
    reveal_strlit("HTTP/1.1 ");
    reveal_strlit("Content-Type: application/dns-message");
    reveal_strlit("Content-Length: ");
    reveal_strlit("Connection: close");
    reveal_strlit("\r\nContent-Type: application/dns-message\r\nContent-Length: ");
    reveal_strlit("\r\nConnection: close\r\n\r\n");
    assert("\r\nContent-Type: application/dns-message\r\nContent-Length: "@ =~= end + b + end
        + "Content-Length: "@);
    assert("\r\nConnection: close\r\n\r\n"@ =~= end + d + end + end);
    assert(reply_head(status, len) =~= a + end + (b + end + (c + end + (d + end + end))));
    lemma_decimal(len);
    assert(!a.contains('\n')) by {
        if a.contains('\n') {
            let i = choose|i: int| 0 <= i < a.len() && a[i] == '\n';
            if i >= 9 {
                assert(status[i - 9] == '\n');
            }
        }
    }
    assert(!c.contains('\n')) by {
        if c.contains('\n') {
            let i = choose|i: int| 0 <= i < c.len() && c[i] == '\n';
            if i >= 16 {
                assert(is_digit(decimal(len)[i - 16]));
            }
        }
    }
}

/// The lines of a reply's head behind its first.
proof fn lemma_reply_lines(status: Seq<char>, len: nat)
    requires
        !status.contains('\n'),
    ensures
        field_lines(reply_head(status, len)) == reply_fields(len).push(Seq::<char>::empty()),
{
    lemma_reply_fields(status, len);
    let end = seq!['\r', '\n'];
    let none = Seq::<char>::empty();
    let fs = reply_fields(len);
    let r3 = none + end + none;
    assert(r3 =~= end);
    let r2 = fs[2] + end + r3;
    let r1 = fs[1] + end + r2;
    let r0 = fs[0] + end + r1;
    lemma_first_line("HTTP/1.1 "@ + status, r0);
    lemma_first_line(fs[0], r1);
    lemma_first_line(fs[1], r2);
    lemma_first_line(fs[2], r3);
    lemma_first_line(none, none);
    assert(lines(none) =~= Seq::<Seq<char>>::empty());
    assert(field_lines(reply_head(status, len)) =~= fs.push(none));
}

/// Where a field's name ends.
proof fn lemma_field(line: Seq<char>, i: int, name: Seq<char>)
    requires
        0 <= i < line.len(),
        line[i] == ':',
        forall|j: int| 0 <= j < i ==> line[j] != ':',
    ensures
        field_value(line, name) == if lower(line.take(i)) == lower(name) {
            Some(trim(line.skip(i + 1)))
        } else {
            None
        },
{
    line.index_of_first_ensures(':');
}

/// The length is read from the second of a reply's fields.
proof fn lemma_reply_length(fields: Seq<Seq<char>>, len: nat)
    requires
        len <= usize::MAX,
        fields.len() >= 2,
        fields[0] == reply_fields(len)[0],
        fields[1] == reply_fields(len)[1],
    ensures
        length_in(fields) == len,
{
    let b = "Content-Type: application/dns-message"@;
    let c = "Content-Length: "@ + decimal(len);
    reveal_strlit("Content-Type: application/dns-message");
    reveal_strlit("Content-Length: ");
    reveal_strlit("content-length");
    lemma_decimal(len);
    lemma_field(b, 12, "content-length"@);
    assert(lower(b.take(12)).len() != lower("content-length"@).len());
    lemma_field(c, 14, "content-length"@);
    assert(lower(c.take(14)) =~= lower("content-length"@));
    let v = c.skip(15);
    assert(v =~= seq![' '] + decimal(len));
    assert(trim(v) == decimal(len)) by {
        let d = decimal(len);
        assert(v.drop_first() =~= d);
        assert(is_digit(d[0]));
        assert(is_digit(d[d.len() - 1]));
        assert(trim_start(v) == trim_start(d));
        assert(trim_start(d) == d);
        assert(trim_end(d) == d);
    }
    law_number_written(len, usize::MAX as nat);
    assert(fields.drop_first()[0] == c);
    assert(length_in(fields.drop_first()) == len);
}

/// The length that a reply's head gives is that of its body.
pub proof fn law_reply_length(status: Seq<char>, len: nat)
    requires
        !status.contains('\n'),
        len <= usize::MAX,
    ensures
        length_in(field_lines(reply_head(status, len))) == len,
{
    lemma_reply_lines(status, len);
    lemma_reply_length(field_lines(reply_head(status, len)), len);
}

/// What stands behind a reply's head does not change the length that is read from it.
proof fn lemma_reply_behind(status: Seq<char>, len: nat, behind: Seq<char>)
    requires
        !status.contains('\n'),
        len <= usize::MAX,
    ensures
        length_in(field_lines(reply_head(status, len) + behind)) == len,
{
    lemma_reply_lines(status, len);
    lemma_reply_fields(status, len);
    let head = reply_head(status, len);
    assert(head.last() == '\n');
    lemma_lines_add(head, behind);
    let some = field_lines(head);
    let all = field_lines(head + behind);
    assert(lines(head).len() > 0);
    assert(all =~= some + lines(behind));
    lemma_reply_length(all, len);
}

/// The end of a head moves with what stands in front.
proof fn lemma_head_end_shift(front: Seq<u8>, rest: Seq<u8>, from: int)
    requires
        0 <= from,
    ensures
        head_end(front + rest, front.len() + from) == match head_end(rest, from) {
            Some(n) => Some(n + front.len()),
            None => None,
        },
    decreases rest.len() - from,
{
    if from + 4 <= rest.len() {
        assert(blank_at(front + rest, front.len() + from) == blank_at(rest, from));
        lemma_head_end_shift(front, rest, from + 1);
    }
}

/// A line that is not blank is passed over in the search for the end of a head.
proof fn lemma_pass_line(buf: Seq<u8>, from: int, to: int)
    requires
        0 <= from < to,
        to + 4 <= buf.len(),
        buf[to] == 13,
        buf[to + 1] == 10,
        buf[to + 3] != 10,
        forall|i: int| from <= i < to ==> buf[i] != 10,
    ensures
        head_end(buf, from) == head_end(buf, to + 2),
    decreases to - from,
{
    assert(buf[from + 1] != 10);
    if from + 1 < to {
        lemma_pass_line(buf, from + 1, to);
    } else {
        assert(head_end(buf, from) == head_end(buf, to));
        assert(!blank_at(buf, to));
        assert(head_end(buf, to) == head_end(buf, to + 1));
        assert(!blank_at(buf, to + 1));
    }
}

/// The end of a head with one more line in front.
proof fn lemma_line_in_front(l: Seq<u8>, rest: Seq<u8>)
    requires
        l.len() > 0,
        forall|i: int| 0 <= i < l.len() ==> l[i] != 10,
        rest.len() >= 2,
        rest[1] != 10,
    ensures
        head_end(l + seq![13u8, 10] + rest, 0) == match head_end(rest, 0) {
            Some(n) => Some(n + l.len() + 2),
            None => None,
        },
{
    let front = l + seq![13u8, 10];
    let buf = front + rest;
    let to = l.len() as int;
    assert(buf[to] == 13);
    assert(buf[to + 1] == 10);
    assert(buf[to + 3] == rest[1]);
    assert forall|i: int| 0 <= i < to implies buf[i] != 10 by {
        assert(buf[i] == l[i]);
    }
    lemma_pass_line(buf, 0, to);
    lemma_head_end_shift(front, rest, 0);
}

/// The last line of a head is passed over, and the head ends behind the blank line.
proof fn lemma_reach_blank(buf: Seq<u8>, from: int, to: int)
    requires
        0 <= from <= to,
        blank_at(buf, to),
        forall|i: int| from <= i < to ==> buf[i] != 10,
    ensures
        head_end(buf, from) == Some(to + 4),
    decreases to - from,
{
    if from < to {
        assert(buf[from + 1] != 10);
        lemma_reach_blank(buf, from + 1, to);
    }
}

/// The bytes of a reply's head, line by line.
proof fn lemma_reply_encoded(status: Seq<char>, len: nat)
    requires
        !status.contains('\n'),
    ensures
        ({
            let e = seq![13u8, 10];
            let fs = reply_fields(len);
            encode_utf8(reply_head(status, len)) == encode_utf8("HTTP/1.1 "@ + status) + e + (
            encode_utf8(fs[0]) + e + (encode_utf8(fs[1]) + e + (encode_utf8(fs[2]) + e + e)))
        }),
{
    lemma_reply_fields(status, len);
    let end = seq!['\r', '\n'];
    let fs = reply_fields(len);
    let first = "HTTP/1.1 "@ + status;
    assert(is_ascii_chars(end));
    is_ascii_chars_encode_utf8(end);
    assert(encode_utf8(end) =~= seq![13u8, 10]);
    let t3 = fs[2] + end + end;
    let t2 = fs[1] + end + t3;
    let t1 = fs[0] + end + t2;
    lemma_encode_add(first + end, t1);
    lemma_encode_add(first, end);
    lemma_encode_add(fs[0] + end, t2);
    lemma_encode_add(fs[0], end);
    lemma_encode_add(fs[1] + end, t3);
    lemma_encode_add(fs[1], end);
    lemma_encode_add(fs[2] + end, end);
    lemma_encode_add(fs[2], end);
}

/// What is written as a reply is read back: its head ends where its body begins, and gives the
/// length of the body.
pub proof fn law_reply_framed(status: Seq<char>, body: Seq<u8>)
    requires
        !status.contains('\n'),
        body.len() <= usize::MAX,
    ensures
        ({
            let all = reply_bytes(status, body);
            let h = all.len() - body.len();
            &&& head_end(all, 0) == Some(h)
            &&& length_in(field_lines(text_of(all.take(h)))) == body.len()
            &&& all.skip(h) == body
        }),
{
    let len = body.len();
    let head = reply_head(status, len);
    let all = reply_bytes(status, body);
    let h = all.len() - body.len();
    assert(all.take(h) =~= encode_utf8(head));
    assert(all.skip(h) =~= body);
    encode_utf8_valid_utf8(head);
    encode_utf8_decode_utf8(head);
    law_reply_length(status, len);
    lemma_reply_fields(status, len);
    lemma_reply_encoded(status, len);
    let fs = reply_fields(len);
    let first = "HTTP/1.1 "@ + status;
    reveal_strlit("HTTP/1.1 ");
    let a = encode_utf8(first);
    let b = encode_utf8(fs[0]);
    let c = encode_utf8(fs[1]);
    let d = encode_utf8(fs[2]);
    lemma_no_feed_byte(first);
    lemma_no_feed_byte(fs[0]);
    lemma_no_feed_byte(fs[1]);
    lemma_no_feed_byte(fs[2]);
    lemma_framed(a, b, c, d, body);
}

/// Four lines and a blank one, with a body behind them.
proof fn lemma_framed(a: Seq<u8>, b: Seq<u8>, c: Seq<u8>, d: Seq<u8>, body: Seq<u8>)
    requires
        a.len() > 0 && forall|i: int| 0 <= i < a.len() ==> a[i] != 10,
        b.len() > 0 && forall|i: int| 0 <= i < b.len() ==> b[i] != 10,
        c.len() > 0 && forall|i: int| 0 <= i < c.len() ==> c[i] != 10,
        d.len() > 0 && forall|i: int| 0 <= i < d.len() ==> d[i] != 10,
    ensures
        ({
            let e = seq![13u8, 10];
            let head = a + e + (b + e + (c + e + (d + e + e)));
            head_end(head + body, 0) == Some(head.len() as int)
        }),
{
    let e = seq![13u8, 10];
    let head = a + e + (b + e + (c + e + (d + e + e)));
    let r2 = d + e + e + body;
    let r1 = c + e + r2;
    let r0 = b + e + r1;
    assert(head + body =~= a + e + r0);
    assert forall|i: int| 0 <= i < d.len() implies r2[i] != 10 by {
        assert(r2[i] == d[i]);
    }
    assert(blank_at(r2, d.len() as int));
    lemma_reach_blank(r2, 0, d.len() as int);
    assert(r2[1] != 10);
    assert(r1[1] == if c.len() > 1 {
        c[1]
    } else {
        13
    });
    assert(r0[1] == if b.len() > 1 {
        b[1]
    } else {
        13
    });
    lemma_line_in_front(c, r2);
    lemma_line_in_front(b, r1);
    lemma_line_in_front(a, r0);
}

/// A number is written in decimal: its digits in order, by their places, and no zero in front.
pub proof fn law_decimal(n: nat, i: int)
    ensures
        decimal(n).len() > 0,
        n < pow(10, decimal(n).len()),
        decimal(n).len() > 1 ==> n >= pow(10, (decimal(n).len() - 1) as nat),
        0 <= i < decimal(n).len() ==> decimal(n)[i] as int - 48 == n as int / pow(
            10,
            (decimal(n).len() - 1 - i) as nat,
        ) % 10,
    decreases n,
{
    let d = decimal(n);
    reveal(pow);
    if n < 10 {
        assert(pow(10, 1) == 10 * pow(10, 0));
        assert(pow(10, 0) == 1);
        if i == 0 {
            assert(n as int / 1 % 10 == n);
        }
    } else {
        let m = n / 10;
        let k = decimal(m).len();
        law_decimal(m, i);
        assert(d.len() == k + 1);
        assert(pow(10, k + 1) == 10 * pow(10, k));
        assert(n < 10 * pow(10, k)) by (nonlinear_arith)
            requires
                m == n / 10,
                m < pow(10, k),
        ;
        if k > 1 {
            let low = pow(10, (k - 1) as nat);
            assert(pow(10, k) == 10 * low);
            assert(n >= 10 * low) by (nonlinear_arith)
                requires
                    m == n / 10,
                    m >= low,
            ;
        } else {
            assert(pow(10, 1) == 10 * pow(10, 0));
            assert(pow(10, 0) == 1);
        }
        if 0 <= i < k {
            let p = pow(10, (k - 1 - i) as nat);
            assert(pow(10, (k - i) as nat) == 10 * p);
            lemma_pow_positive(10, (k - 1 - i) as nat);
            lemma_div_denominator(n as int, 10, p);
            assert(d[i] == decimal(m)[i]);
        } else if i == k {
            assert(pow(10, 0) == 1);
            assert(n as int / 1 == n);
        }
    }
}

/// A number is read from its decimal digits, whatever zeros and one plus sign stand in front, where
/// it is not too large.
pub proof fn law_number_read(zeros: Seq<char>, n: nat, max: nat)
    requires
        forall|i: int| 0 <= i < zeros.len() ==> #[trigger] zeros[i] == '0',
    ensures
        number(zeros + decimal(n), max) == if n <= max {
            Some(n)
        } else {
            None
        },
        number(seq!['+'] + zeros + decimal(n), max) == if n <= max {
            Some(n)
        } else {
            None
        },
{
    let d = zeros + decimal(n);
    lemma_decimal(n);
    lemma_value_zeros(zeros, decimal(n));
    assert forall|i: int| 0 <= i < d.len() implies is_digit(#[trigger] d[i]) by {
        if i < zeros.len() {
            assert(d[i] == zeros[i]);
        } else {
            assert(d[i] == decimal(n)[i - zeros.len()]);
        }
    }
    assert(is_digit(d[0]));
    let e = seq!['+'] + zeros + decimal(n);
    assert(e.skip(1) =~= d);
    assert(unsigned(d) == d);
    assert(unsigned(e) == d);
}

proof fn lemma_value_zeros(zeros: Seq<char>, d: Seq<char>)
    requires
        forall|i: int| 0 <= i < zeros.len() ==> #[trigger] zeros[i] == '0',
    ensures
        value(zeros + d) == value(d),
    decreases d.len(), zeros.len(),
{
    let s = zeros + d;
    if d.len() > 0 {
        assert(s.drop_last() =~= zeros + d.drop_last());
        assert(s.last() == d.last());
        lemma_value_zeros(zeros, d.drop_last());
    } else if zeros.len() > 0 {
        let front = zeros.drop_last();
        assert(forall|i: int| 0 <= i < front.len() ==> #[trigger] front[i] == zeros[i]);
        assert(s.drop_last() =~= front + d);
        assert(s.last() == zeros[zeros.len() - 1]);
        lemma_value_zeros(front, d);
    }
}

/// What is not decimal digits, with one plus sign in front or none, is no number.
pub proof fn law_no_number(s: Seq<char>, max: nat, i: int)
    requires
        s.len() == 0 || s == seq!['+'] || (0 <= i < s.len() && !(48 <= s[i] as u32 <= 57) && (i > 0
            || s[i] != '+')),
    ensures
        number(s, max) is None,
{
    let d = unsigned(s);
    if s.len() > 0 && s != seq!['+'] {
        if s[0] == '+' {
            assert(d[i - 1] == s[i]);
            assert(!is_digit(d[i - 1]));
        } else {
            assert(!is_digit(d[i]));
        }
    }
}

/// The method and the target of a request are the first two words of its first line, whatever
/// else stands there and behind it.
pub proof fn law_request_line_read(
    method: Seq<char>,
    target: Seq<char>,
    behind: Seq<char>,
    rest: Seq<char>,
)
    requires
        method.len() > 0,
        forall|i: int| 0 <= i < method.len() ==> !is_white(#[trigger] method[i]),
        target.len() > 0,
        forall|i: int| 0 <= i < target.len() ==> !is_white(#[trigger] target[i]),
        behind.len() > 0 ==> is_white(behind[0]),
        !behind.contains('\n'),
    ensures
        request_line(method + seq![' '] + target + behind + seq!['\r', '\n'] + rest) == (
            method,
            target,
        ),
{
    let line = method + seq![' '] + target + behind;
    let more = seq![' '] + target + behind;
    assert(!line.contains('\n')) by {
        if line.contains('\n') {
            let i = choose|i: int| 0 <= i < line.len() && line[i] == '\n';
            if i < method.len() {
                assert(!is_white(method[i]));
            } else if i > method.len() && i < method.len() + 1 + target.len() {
                assert(!is_white(target[i - method.len() - 1]));
            } else if i > method.len() {
                assert(behind[i - method.len() - 1 - target.len()] == '\n');
            }
        }
    }
    law_first_line(line, rest);
    assert(line + seq!['\r', '\n'] + rest =~= line.push('\r').push('\n') + rest);
    assert(method + seq![' '] + target + behind + seq!['\r', '\n'] + rest =~= line + seq![
        '\r',
        '\n',
    ] + rest);
    let none: Seq<char> = Seq::empty();
    law_first_word(none, method, more);
    assert(none + method + more =~= line);
    law_first_word(seq![' '], target, behind);
    let ws = words(line);
    assert(ws[0] == method);
    assert(ws[1] == target);
}

/// The fields of a head are the lines behind its first.
pub proof fn law_field_lines(line: Seq<char>, rest: Seq<char>)
    requires
        !line.contains('\n'),
    ensures
        field_lines(line + seq!['\r', '\n'] + rest) == lines(rest),
        field_lines(Seq::<char>::empty()).len() == 0,
{
    law_first_line(line, rest);
    assert(line + seq!['\r', '\n'] + rest =~= line.push('\r').push('\n') + rest);
    let ls = lines(line + seq!['\r', '\n'] + rest);
    assert(ls.skip(1) =~= lines(rest));
}

/// The host of a head is the trimmed value of the first field of that name, in whatever letters
/// the name is written; fields of other names, and lines without a colon, are passed over.
pub proof fn law_host_read(name: Seq<char>, text: Seq<char>, more: Seq<Seq<char>>)
    requires
        !name.contains(':'),
    ensures
        lower(name) == seq!['h', 'o', 's', 't'] ==> host_in(seq![name.push(':') + text] + more)
            == trim(text),
        lower(name) != seq!['h', 'o', 's', 't'] ==> host_in(seq![name.push(':') + text] + more)
            == host_in(more),
        host_in(seq![name] + more) == host_in(more),
        host_in(Seq::<Seq<char>>::empty()).len() == 0,
{
    let line = name.push(':') + text;
    let n = name.len() as int;
    reveal_strlit("host");
    assert(lower("host"@) =~= seq!['h', 'o', 's', 't']);
    lemma_named_field(name, text, "host"@);
    assert((seq![line] + more).drop_first() =~= more);
    assert((seq![name] + more).drop_first() =~= more);
    assert((seq![line] + more)[0] == line);
    assert((seq![name] + more)[0] == name);
}

proof fn lemma_named_field(name: Seq<char>, text: Seq<char>, wanted: Seq<char>)
    requires
        !name.contains(':'),
    ensures
        field_value(name.push(':') + text, wanted) == if lower(name) == lower(wanted) {
            Some(trim(text))
        } else {
            None
        },
        field_value(name, wanted) is None,
{
    let line = name.push(':') + text;
    let n = name.len() as int;
    assert(line[n] == ':');
    assert forall|j: int| 0 <= j < n implies line[j] != ':' by {
        assert(line[j] == name[j]);
        assert(name.contains(name[j]));
    }
    lemma_field(line, n, wanted);
    assert(line.take(n) =~= name);
    assert(line.skip(n + 1) =~= text);
    name.index_of_first_ensures(':');
}

/// The length that a head gives is that in the first field of that name that holds a number; all
/// other lines are passed over.
pub proof fn law_length_read(name: Seq<char>, text: Seq<char>, more: Seq<Seq<char>>)
    requires
        !name.contains(':'),
    ensures
        lower(name) == "content-length"@ ==> length_in(seq![name.push(':') + text] + more)
            == match number(trim(text), usize::MAX as nat) {
            Some(n) => n,
            None => length_in(more),
        },
        lower(name) != "content-length"@ ==> length_in(seq![name.push(':') + text] + more)
            == length_in(more),
        length_in(seq![name] + more) == length_in(more),
        length_in(Seq::<Seq<char>>::empty()) == 0,
{
    let line = name.push(':') + text;
    reveal_strlit("content-length");
    assert(lower("content-length"@) =~= "content-length"@);
    lemma_named_field(name, text, "content-length"@);
    assert((seq![line] + more).drop_first() =~= more);
    assert((seq![name] + more).drop_first() =~= more);
    assert((seq![line] + more)[0] == line);
    assert((seq![name] + more)[0] == name);
}

/// The head of a reply, line by line: the status as it was given, that the body is a DNS message,
/// how long it is, that the connection ends with it, and a blank line.
pub proof fn law_reply_head_lines(status: Seq<char>, len: nat)
    requires
        !status.contains('\n'),
    ensures
        lines(reply_head(status, len)) == seq![
            "HTTP/1.1 "@ + status,
            "Content-Type: application/dns-message"@,
            "Content-Length: "@ + decimal(len),
            "Connection: close"@,
            Seq::empty(),
        ],
{
    lemma_reply_fields(status, len);
    lemma_reply_lines(status, len);
    let fs = reply_fields(len);
    let end = seq!['\r', '\n'];
    let rest = fs[0] + end + (fs[1] + end + (fs[2] + end + end));
    lemma_first_line("HTTP/1.1 "@ + status, rest);
    let ls = lines(reply_head(status, len));
    assert(ls[0] == "HTTP/1.1 "@ + status);
    assert(ls =~= seq![ls[0]] + field_lines(reply_head(status, len)));
    assert(ls =~= seq![
        "HTTP/1.1 "@ + status,
        "Content-Type: application/dns-message"@,
        "Content-Length: "@ + decimal(len),
        "Connection: close"@,
        Seq::empty(),
    ]);
}

/// A head ends behind the first place where two line endings stand in a row, and there is no head
/// where they stand nowhere.
pub proof fn law_head_end(buf: Seq<u8>, p: int)
    requires
        0 <= p <= buf.len() - 4,
    ensures
        buf.subrange(p, p + 4) == seq![13u8, 10, 13, 10] && (forall|q: int|
            0 <= q < p ==> #[trigger] buf.subrange(q, q + 4) != seq![13u8, 10, 13, 10]) ==> head_end(
            buf,
            0,
        ) == Some(p + 4),
        head_end(buf, 0) == Some(p + 4) ==> buf.subrange(p, p + 4) == seq![13u8, 10, 13, 10],
        head_end(buf, 0) matches Some(n) ==> 4 <= n <= buf.len(),
{
    assert forall|q: int| 0 <= q <= buf.len() - 4 implies (#[trigger] buf.subrange(q, q + 4)
        == seq![13u8, 10, 13, 10]) == blank_at(buf, q) by {
        let b = buf.subrange(q, q + 4);
        assert(b[0] == buf[q] && b[1] == buf[q + 1] && b[2] == buf[q + 2] && b[3] == buf[q + 3]);
        if blank_at(buf, q) {
            assert(b =~= seq![13u8, 10, 13, 10]);
        }
    }
    if head_end(buf, 0) is Some {
        law_head_first_blank(buf, 0);
        let n = head_end(buf, 0).unwrap();
        assert(blank_at(buf, n - 4));
        if buf.subrange(p, p + 4) == seq![13u8, 10, 13, 10] && (forall|q: int|
            0 <= q < p ==> #[trigger] buf.subrange(q, q + 4) != seq![13u8, 10, 13, 10]) {
            if n - 4 < p {
                assert(buf.subrange(n - 4, n - 4 + 4) != seq![13u8, 10, 13, 10]);
            } else if n - 4 > p {
                assert(!blank_at(buf, p));
            }
        }
    } else if buf.subrange(p, p + 4) == seq![13u8, 10, 13, 10] {
        lemma_head_missed(buf, 0, p);
    }
}

proof fn lemma_head_missed(buf: Seq<u8>, from: int, p: int)
    requires
        0 <= from <= p,
        blank_at(buf, p),
    ensures
        head_end(buf, from) is Some,
    decreases p - from,
{
    if from < p && !blank_at(buf, from) {
        lemma_head_missed(buf, from + 1, p);
    }
}

/// Where the first line of a request has one word, that is the method and there is no target;
/// where it has none, there is neither.
pub proof fn law_request_line_short(front: Seq<char>, word: Seq<char>, behind: Seq<char>, rest: Seq<char>)
    requires
        forall|i: int| 0 <= i < front.len() ==> is_white(#[trigger] front[i]),
        forall|i: int| 0 <= i < word.len() ==> !is_white(#[trigger] word[i]),
        forall|i: int| 0 <= i < behind.len() ==> is_white(#[trigger] behind[i]),
        !(front + word + behind).contains('\n'),
    ensures
        request_line(front + word + behind + seq!['\r', '\n'] + rest) == (word, Seq::<char>::empty()),
{
    let line = front + word + behind;
    law_first_line(line, rest);
    assert(line + seq!['\r', '\n'] + rest =~= line.push('\r').push('\n') + rest);
    law_no_word(behind);
    if word.len() > 0 {
        law_first_word(front, word, behind);
        assert(words(line) =~= seq![word]);
    } else {
        assert forall|i: int| 0 <= i < line.len() implies is_white(#[trigger] line[i]) by {
            if i < front.len() {
                assert(line[i] == front[i]);
            } else {
                assert(line[i] == behind[i - front.len()]);
            }
        }
        law_no_word(line);
        assert(word =~= Seq::empty());
    }
}

} // verus!
