//! What becomes of a connection: the certificate it is shown, and who serves its request.
use vstd::prelude::*;
use vstd::slice::slice_subrange;
use crate::http::{
    field_lines, head_end, host_header, host_in, law_head_first_blank, law_head_settled, length_in,
    parse_request_line, request_line, HEAD_LIMIT, BodyReader, HeadReader, HeadStep,
};
use crate::text::{chars_of, find_char, is_empty, is_text, push_bytes, text_of};

verus! {

/// Which certificate a client is shown.
#[derive(Clone, Copy, Debug, PartialEq, Eq, Structural)]
pub enum Identity {
    /// That of this machine.
    Local,
    /// That of the host it asked for.
    Host,
}

/// Which certificate a client is shown: that of this machine where it named no host, or an
/// address.
pub open spec fn identity_for(host: Seq<char>, is_address: bool) -> Identity {
    if host.len() == 0 || is_address {
        Identity::Local
    } else {
        Identity::Host
    }
}

/// A client that names a host is shown a certificate for that host, whatever the host; one that
/// names an address, or nothing, that of this machine.
pub proof fn law_identity(host: Seq<char>, is_address: bool)
    ensures
        identity_for(host, is_address) == Identity::Host <==> host.len() > 0 && !is_address,
        identity_for(host, is_address) == Identity::Local <==> host.len() == 0 || is_address,
{
}

/// Decides which certificate a client is shown: that of this machine where it named no host, or
/// an address.
pub fn identity(host: &str, is_address: bool) -> (r: Identity)
    ensures
        r == identity_for(host@, is_address),
{
    if is_empty(host) || is_address {
        Identity::Local
    } else {
        Identity::Host
    }
}

/// Whether a host is this machine.
pub open spec fn is_here(host: Seq<char>) -> bool {
    host.len() == 0 || host == "127.0.0.1"@ || host == "localhost"@
}

/// The path of a target: what stands in front of its query.
pub open spec fn path_of(target: Seq<char>) -> Seq<char> {
    match target.index_of_first('?') {
        Some(i) => target.take(i),
        None => target,
    }
}

/// Whether a request is a DNS query for this machine.
pub open spec fn is_dns_query(host: Seq<char>, target: Seq<char>) -> bool {
    is_here(host) && path_of(target) == "/dns-query"@
}

/// Whether a request is a DNS query for this machine.
pub fn is_doh(host: &str, target: &str) -> (r: bool)
    ensures
        r == is_dns_query(host@, target@),
{
    let h: Vec<char> = chars_of(host);
    if !(h.len() == 0 || is_text(h.as_slice(), "127.0.0.1") || is_text(h.as_slice(), "localhost")) {
        return false;
    }
    let t: Vec<char> = chars_of(target);
    match find_char(t.as_slice(), '?') {
        Some(i) => {
            let path: &[char] = slice_subrange(t.as_slice(), 0, i);
            assert(path@ =~= target@.take(i as int));
            is_text(path, "/dns-query")
        },
        None => is_text(t.as_slice(), "/dns-query"),
    }
}

/// How far the request on a connection has come.
pub enum Phase {
    /// Its head is read.
    Head(HeadReader),
    /// It is a DNS query, and its body is read.
    Body(String, String, BodyReader),
    /// It has been read, or never will be.
    Over,
}

/// How far the request on a connection has come, as plain values.
pub enum Progress {
    /// Its head is read; these bytes have come.
    Head(Seq<u8>),
    /// It is a DNS query with the given method and target, and its body of the given length is
    /// read; these bytes have come.
    Body(Seq<char>, Seq<char>, nat, Seq<u8>),
    /// It has been read, or never will be.
    Over,
}

impl View for Phase {
    type V = Progress;

    open spec fn view(&self) -> Progress {
        match self {
            Phase::Head(reader) => Progress::Head(reader@),
            Phase::Body(method, target, reader) => Progress::Body(
                method@,
                target@,
                reader.total(),
                reader@,
            ),
            Phase::Over => Progress::Over,
        }
    }
}

/// What is to be done on a connection.
pub enum Next {
    /// More is to be read.
    Read,
    /// The connection is to be closed.
    Close,
    /// The DNS query with this method, target and body is to be answered.
    Serve(String, String, Vec<u8>),
    /// The connection is to be forwarded, with these bytes of it in front.
    Forward(Vec<u8>),
}

/// What is to be done on a connection, as plain values.
pub enum Action {
    /// More is to be read.
    Read,
    /// The connection is to be closed.
    Close,
    /// The DNS query with this method, target and body is to be answered.
    Serve(Seq<char>, Seq<char>, Seq<u8>),
    /// The connection is to be forwarded, with these bytes of it in front.
    Forward(Seq<u8>),
}

impl View for Next {
    type V = Action;

    open spec fn view(&self) -> Action {
        match self {
            Next::Read => Action::Read,
            Next::Close => Action::Close,
            Next::Serve(method, target, body) => Action::Serve(method@, target@, body@),
            Next::Forward(front) => Action::Forward(front@),
        }
    }
}

/// What becomes of a connection once the head of its request is there, with what came behind it:
/// a DNS query for this machine is served when its body has come, anything else is forwarded.
pub open spec fn with_head(head: Seq<u8>, rest: Seq<u8>) -> (Progress, Action) {
    let text = text_of(head);
    let (method, target) = request_line(text);
    let total = length_in(field_lines(text));
    if !is_dns_query(host_in(field_lines(text)), target) {
        (Progress::Over, Action::Forward(head + rest))
    } else if rest.len() < total {
        (Progress::Body(method, target, total, rest), Action::Read)
    } else {
        (Progress::Over, Action::Serve(method, target, rest.take(total as int)))
    }
}

/// What becomes of a connection when the next piece comes; an empty one says that the client has
/// ended it.
pub open spec fn fed(progress: Progress, piece: Seq<u8>) -> (Progress, Action) {
    match progress {
        Progress::Head(buf) => {
            let all = buf + piece;
            if piece.len() == 0 {
                (Progress::Over, Action::Close)
            } else {
                match head_end(all, 0) {
                    Some(n) => with_head(all.take(n), all.skip(n)),
                    None => if all.len() > HEAD_LIMIT {
                        (Progress::Over, Action::Close)
                    } else {
                        (Progress::Head(all), Action::Read)
                    },
                }
            }
        },
        Progress::Body(method, target, total, got) => {
            let all = got + piece;
            if piece.len() == 0 {
                (Progress::Over, Action::Serve(method, target, got))
            } else if all.len() < total {
                (Progress::Body(method, target, total, all), Action::Read)
            } else {
                (Progress::Over, Action::Serve(method, target, all.take(total as int)))
            }
        },
        Progress::Over => (Progress::Over, Action::Close),
    }
}

/// The request on a connection, as far as it has come.
pub struct Conn {
    phase: Phase,
}

impl View for Conn {
    type V = Progress;

    closed spec fn view(&self) -> Progress {
        self.phase@
    }
}

impl Conn {
    /// Whether no more of a body is kept than was to come.
    pub open spec fn wf(&self) -> bool {
        self@ matches Progress::Body(_, _, total, got) ==> got.len() < total
    }

    /// A connection on which nothing has come.
    pub fn new() -> (r: Conn)
        ensures
            r@ == Progress::Head(Seq::empty()),
            r.wf(),
    {
        Conn { phase: Phase::Head(HeadReader::new()) }
    }

    /// Takes the next piece; an empty one says that the client has ended the connection.
    pub fn feed(&mut self, piece: &[u8]) -> (r: Next)
        requires
            old(self).wf(),
        ensures
            final(self).wf(),
            (final(self)@, r@) == fed(old(self)@, piece@),
    {
        let mut phase: Phase = Phase::Over;
        std::mem::swap(&mut phase, &mut self.phase);
        match phase {
            Phase::Head(mut reader) => match reader.feed(piece) {
                HeadStep::More => {
                    self.phase = Phase::Head(reader);
                    Next::Read
                },
                HeadStep::Closed => Next::Close,
                HeadStep::TooLarge => Next::Close,
                HeadStep::Done(head, rest) => {
                    proof {
                        let n = head@.len() as int;
                        assert((head@ + rest@).take(n) =~= head@);
                        assert((head@ + rest@).skip(n) =~= rest@);
                    }
                    self.take_head(head, rest)
                },
            },
            Phase::Body(method, target, mut reader) => {
                let ghost got = reader@;
                if piece.len() > 0 {
                    reader.feed(piece);
                    if reader.wants_more() {
                        self.phase = Phase::Body(method, target, reader);
                        return Next::Read;
                    }
                }
                assert(piece@.len() == 0 ==> got + piece@ =~= got);
                let ghost all = reader@;
                let body: Vec<u8> = reader.finish();
                assert(all.len() == reader.total() ==> all.take(all.len() as int) =~= all);
                Next::Serve(method, target, body)
            },
            Phase::Over => Next::Close,
        }
    }

    /// Decides what becomes of the connection once the head is there, with what came behind it.
    fn take_head(&mut self, head: Vec<u8>, rest: Vec<u8>) -> (r: Next)
        requires
            old(self)@ is Over,
        ensures
            final(self).wf(),
            (final(self)@, r@) == with_head(head@, rest@),
    {
        let (method, target): (String, String) = parse_request_line(head.as_slice());
        let host: String = host_header(head.as_slice());
        if !is_doh(host.as_str(), target.as_str()) {
            let mut front: Vec<u8> = head;
            push_bytes(&mut front, rest.as_slice());
            return Next::Forward(front);
        }
        let mut reader: BodyReader = BodyReader::for_head(head.as_slice());
        reader.feed(rest.as_slice());
        assert(reader@ =~= rest@);
        if reader.wants_more() {
            self.phase = Phase::Body(method, target, reader);
            Next::Read
        } else {
            assert(rest@.len() == reader.total() ==> rest@.take(rest@.len() as int) =~= rest@);
            let body: Vec<u8> = reader.finish();
            Next::Serve(method, target, body)
        }
    }
}

/// In how many pieces a request comes, and where it is cut, makes no difference: as long as more
/// is to be read, two pieces come to the same as the two in one.
pub proof fn law_pieces(progress: Progress, a: Seq<u8>, b: Seq<u8>)
    requires
        a.len() > 0,
        b.len() > 0,
        fed(progress, a).1 is Read,
    ensures
        fed(fed(progress, a).0, b) == fed(progress, a + b),
{
    match progress {
        Progress::Head(buf) => {
            let all = buf + a;
            assert(all + b =~= buf + (a + b));
            if let Some(n) = head_end(all, 0) {
                law_head_settled(all, b, 0);
                law_head_first_blank(all, 0);
                assert((all + b).take(n) =~= all.take(n));
                assert((all + b).skip(n) =~= all.skip(n) + b);
            }
        },
        Progress::Body(_, _, _, got) => {
            assert(got + a + b =~= got + (a + b));
        },
        Progress::Over => {},
    }
}

/// A connection is forwarded with all that has come on it in front, as it came, and that begins
/// with the head of its request.
pub proof fn law_forwards_all(progress: Progress, piece: Seq<u8>)
    ensures
        fed(progress, piece).1 matches Action::Forward(front) ==> (progress matches Progress::Head(
            buf,
        ) && front == buf + piece && head_end(front, 0) is Some),
{
    if let Progress::Head(buf) = progress {
        let all = buf + piece;
        if let Some(n) = head_end(all, 0) {
            law_head_first_blank(all, 0);
            assert(all.take(n) + all.skip(n) =~= all);
        }
    }
}

/// A request is a DNS query for this machine where it names this machine, or no host, and its
/// target is `/dns-query`, with a query behind it or none.
pub proof fn law_dns_query(host: Seq<char>, target: Seq<char>)
    ensures
        is_dns_query(host, target) <==> (host.len() == 0 || host == "127.0.0.1"@ || host
            == "localhost"@) && (target == "/dns-query"@ || "/dns-query?"@.is_prefix_of(target)),
{
    reveal_strlit("/dns-query");
    reveal_strlit("/dns-query?");
    target.index_of_first_ensures('?');
    let p = "/dns-query"@;
    let q = "/dns-query?"@;
    assert(q =~= p.push('?'));
    assert(!p.contains('?'));
    if let Some(i) = target.index_of_first('?') {
        if target.take(i) == p {
            assert(target.take(11) =~= q);
            assert(q.is_prefix_of(target));
        }
        if q.is_prefix_of(target) {
            assert(forall|j: int| 0 <= j < 11 ==> target[j] == q[j]);
            assert(target[10] == '?');
            assert(i == 10) by {
                if i < 10 {
                    assert(p[i] == '?');
                    assert(p.contains('?'));
                }
            }
            assert(target.take(10) =~= p);
        }
        if target == p {
            assert(p[i] == '?');
            assert(p.contains('?'));
        }
    } else if q.is_prefix_of(target) {
        assert(target[10] == q[10]);
    }
}

/// Every request whose head has come and that is no DNS query for this machine is forwarded with
/// all that came, whatever its method and wherever in the pieces its head ends.
pub proof fn law_others_forwarded(buf: Seq<u8>, piece: Seq<u8>, n: int)
    requires
        piece.len() > 0,
        head_end(buf + piece, 0) == Some(n),
        ({
            let text = text_of((buf + piece).take(n));
            let host = host_in(field_lines(text));
            let target = request_line(text).1;
            !((host.len() == 0 || host == "127.0.0.1"@ || host == "localhost"@) && (target
                == "/dns-query"@ || "/dns-query?"@.is_prefix_of(target)))
        }),
    ensures
        fed(Progress::Head(buf), piece) == (Progress::Over, Action::Forward(buf + piece)),
{
    let all = buf + piece;
    let text = text_of(all.take(n));
    law_dns_query(host_in(field_lines(text)), request_line(text).1);
    law_head_first_blank(all, 0);
    assert(all.take(n) + all.skip(n) =~= all);
}

/// A DNS query for this machine is served with the method and the target of its head and, for its
/// body, as many of the bytes behind the head as the head says; while these have not all come,
/// more is read.
pub proof fn law_query_served(buf: Seq<u8>, piece: Seq<u8>, n: int)
    requires
        piece.len() > 0,
        head_end(buf + piece, 0) == Some(n),
        ({
            let text = text_of((buf + piece).take(n));
            let host = host_in(field_lines(text));
            let target = request_line(text).1;
            (host.len() == 0 || host == "127.0.0.1"@ || host == "localhost"@) && (target
                == "/dns-query"@ || "/dns-query?"@.is_prefix_of(target))
        }),
    ensures
        ({
            let text = text_of((buf + piece).take(n));
            let (method, target) = request_line(text);
            let total = length_in(field_lines(text));
            let body = (buf + piece).skip(n);
            fed(Progress::Head(buf), piece) == if body.len() < total {
                (Progress::Body(method, target, total, body), Action::Read)
            } else {
                (Progress::Over, Action::Serve(method, target, body.take(total as int)))
            }
        }),
{
    let text = text_of((buf + piece).take(n));
    law_dns_query(host_in(field_lines(text)), request_line(text).1);
}

/// A body is read until it is as long as was said, and served cut to that length; where the client
/// ends before, what has come is served.
pub proof fn law_body_read(
    method: Seq<char>,
    target: Seq<char>,
    total: nat,
    got: Seq<u8>,
    piece: Seq<u8>,
)
    ensures
        fed(Progress::Body(method, target, total, got), Seq::empty()) == (
            Progress::Over,
            Action::Serve(method, target, got),
        ),
        piece.len() > 0 && got.len() + piece.len() < total ==> fed(
            Progress::Body(method, target, total, got),
            piece,
        ) == (Progress::Body(method, target, total, got + piece), Action::Read),
        piece.len() > 0 && got.len() + piece.len() >= total ==> fed(
            Progress::Body(method, target, total, got),
            piece,
        ) == (Progress::Over, Action::Serve(method, target, (got + piece).take(total as int))),
{
}

/// A head that has not come to its end is read on up to 65536 bytes, and the connection closed
/// beyond that, or where the client ends; once a request has been dealt with, nothing more is
/// done for it.
pub proof fn law_head_goes_on(buf: Seq<u8>, piece: Seq<u8>)
    ensures
        fed(Progress::Head(buf), Seq::empty()) == (Progress::Over, Action::Close),
        piece.len() > 0 && head_end(buf + piece, 0) is None && buf.len() + piece.len() <= 65536 ==> fed(
            Progress::Head(buf),
            piece,
        ) == (Progress::Head(buf + piece), Action::Read),
        piece.len() > 0 && head_end(buf + piece, 0) is None && buf.len() + piece.len() > 65536 ==> fed(
            Progress::Head(buf),
            piece,
        ) == (Progress::Over, Action::Close),
        fed(Progress::Over, piece) == (Progress::Over, Action::Close),
{
}

} // verus!
