//! Which hosts are proxied, and how a connection to one is tried.
use vstd::prelude::*;
use vstd::slice::slice_subrange;
use crate::cert::{dotless_len, effective_tld_plus_one, list_rules, registrable};
use crate::dns::{covered, has, https_endpoint, label_start, law_subdomain_covered, lookup, normal};
use crate::table::Table;
use crate::text::{
    chars_of, find_char, law_trim_end_char, law_trim_start_char, same, string_of, trim_end_char,
    trim_end_char_of, trim_start_char, trim_start_char_of, views,
};

verus! {

/// The addresses at which hosts were last reached: none to begin with.
pub fn init() -> (r: Table)
    ensures
        r.wf(),
        r@ == Map::<Seq<char>, Seq<char>>::empty(),
{
    Table::new()
}

/// Takes one label after the other off the front of a name until the given one is left, and
/// says whether the rules cover one of those in between; nothing where the given name is never
/// left.
pub open spec fn chopped(
    hosts: Map<Seq<char>, Seq<char>>,
    name: Seq<char>,
    last: Seq<char>,
) -> Option<bool>
    decreases name.len(),
{
    if name == last {
        Some(false)
    } else {
        proof {
            name.index_of_first_ensures('.');
        }
        match name.index_of_first('.') {
            Some(i) => if covered(hosts, name.skip(i + 1)) {
                Some(true)
            } else {
                chopped(hosts, name.skip(i + 1), last)
            },
            None => None,
        }
    }
}

/// Whether a host is proxied: where the rules cover it, or a name above it down to its
/// registrable domain. Nothing where its registrable domain is not the end of the host.
pub open spec fn proxied(
    hosts: Map<Seq<char>, Seq<char>>,
    rules: Set<Seq<u8>>,
    host: Seq<char>,
) -> Option<bool> {
    if covered(hosts, host) {
        Some(true)
    } else {
        match registrable(rules, host) {
            Some(last) => chopped(hosts, host, last),
            None => Some(false),
        }
    }
}

/// Takes one label after the other off the front of a name until the given one is left.
pub fn chop(hosts: &Table, name: &str, last: &str) -> (r: Option<bool>)
    requires
        hosts.wf(),
    ensures
        r == chopped(hosts@, name@, last@),
{
    let all: Vec<char> = chars_of(name);
    let end: Vec<char> = chars_of(last);
    let mut d: &[char] = all.as_slice();
    loop
        invariant
            hosts.wf(),
            end@ == last@,
            chopped(hosts@, d@, last@) == chopped(hosts@, name@, last@),
        decreases d@.len(),
    {
        if same(d, end.as_slice()) {
            return Some(false);
        }
        let n: usize = d.len();
        match find_char(d, '.') {
            Some(i) => {
                let rest: &[char] = slice_subrange(d, i + 1, n);
                assert(rest@ =~= d@.skip(i + 1));
                let text: String = string_of(rest);
                if has(hosts, text.as_str()) {
                    return Some(true);
                }
                d = rest;
            },
            None => {
                return None;
            },
        }
    }
}

/// Whether a host is proxied.
pub fn needs_proxy(hosts: &Table, list: &publicsuffix::List, domain: &str) -> (r: bool)
    requires
        hosts.wf(),
        proxied(hosts@, list_rules(*list), domain@) is Some,
    ensures
        proxied(hosts@, list_rules(*list), domain@) == Some(r),
        domain@.len() == 0 || domain@.last() != '.' ==> r == covered(hosts@, domain@),
{
    if has(hosts, domain) {
        return true;
    }
    match effective_tld_plus_one(list, domain) {
        Some(last) => {
            proof {
                if domain@.len() == 0 || domain@.last() != '.' {
                    lemma_registrable_left(hosts@, domain@, last@);
                }
            }
            match chop(hosts, domain, last.as_str()) {
                Some(b) => b,
                None => false,
            }
        },
        None => false,
    }
}

/// Whether a host is proxied, where that can be told.
pub fn needs_proxy_checked(hosts: &Table, list: &publicsuffix::List, domain: &str) -> (r: Option<
    bool,
>)
    requires
        hosts.wf(),
    ensures
        r == proxied(hosts@, list_rules(*list), domain@),
        domain@.len() == 0 || domain@.last() != '.' ==> r == Some(covered(hosts@, domain@)),
{
    let told: bool = if has(hosts, domain) {
        true
    } else {
        match effective_tld_plus_one(list, domain) {
            Some(last) => {
                proof {
                    if domain@.len() == 0 || domain@.last() != '.' {
                        lemma_registrable_left(hosts@, domain@, last@);
                    }
                }
                chop(hosts, domain, last.as_str()).is_some()
            },
            None => true,
        }
    };
    if told {
        Some(needs_proxy(hosts, list, domain))
    } else {
        None
    }
}

/// What is left of a host that does not end in a dot is its registrable domain.
proof fn lemma_registrable_left(
    hosts: Map<Seq<char>, Seq<char>>,
    host: Seq<char>,
    last: Seq<char>,
)
    requires
        host.len() == 0 || host.last() != '.',
        !covered(hosts, host),
        exists|k: int| #[trigger]
            label_start(host, k) && k <= dotless_len(host) && last == host.subrange(
                k,
                dotless_len(host),
            ),
    ensures
        chopped(hosts, host, last) == Some(false),
{
    let k = choose|k: int| #[trigger]
        label_start(host, k) && k <= dotless_len(host) && last == host.subrange(
            k,
            dotless_len(host),
        );
    assert(last =~= host.skip(k));
    law_names_above_not_covered(hosts, host, k, 0);
    assert(host.skip(0) =~= host);
}

/// What is not covered stays so when labels are taken off its front: a host that does not end
/// in a dot is proxied where, and only where, the rules cover it.
pub proof fn law_names_above_not_covered(
    hosts: Map<Seq<char>, Seq<char>>,
    host: Seq<char>,
    k: int,
    j: int,
)
    requires
        host.len() == 0 || host.last() != '.',
        !covered(hosts, host),
        label_start(host, k),
        label_start(host, j),
        j <= k,
    ensures
        chopped(hosts, host.skip(j), host.skip(k)) == Some(false),
    decreases k - j,
{
    let d = host.skip(j);
    if j < k {
        assert(host.skip(j).len() != host.skip(k).len());
        d.index_of_first_ensures('.');
        assert(host[k - 1] == '.');
        assert(d[k - 1 - j] == '.');
        let i = d.index_of_first('.').unwrap();
        let m = j + i + 1;
        assert(host[m - 1] == '.');
        assert(label_start(host, m));
        assert(d.skip(i + 1) =~= host.skip(m));
        let rest = host.skip(m);
        assert(rest.last() == host.last());
        assert(trim_end_char(rest, '.') == rest);
        if covered(hosts, rest) {
            assert(host =~= host.take(m - 1).push('.') + rest);
            law_subdomain_covered(hosts, host.take(m - 1), rest);
        }
        law_names_above_not_covered(hosts, host, k, m);
    }
}

/// Where to connect for a host.
pub open spec fn endpoints(hosts: Map<Seq<char>, Seq<char>>, host: Seq<char>) -> Seq<Seq<char>> {
    match lookup(hosts, normal(host)) {
        Some(ip) => seq![https_endpoint(ip)],
        None => Seq::empty(),
    }
}

/// Where to connect for a host.
pub fn resolve_real_ip(hosts: &Table, host: &str) -> (r: Vec<String>)
    requires
        hosts.wf(),
    ensures
        views(r@) == endpoints(hosts@, host@),
{
    crate::dns::resolve_real_ip(hosts, host)
}

/// The address in an endpoint: what stands before the last colon, without brackets.
pub open spec fn endpoint_ip(addr: Seq<char>) -> Seq<char> {
    let front = match addr.index_of_last(':') {
        Some(i) => addr.take(i),
        None => addr,
    };
    trim_end_char(trim_start_char(front, '['), ']')
}

/// The address in an endpoint.
pub fn target_ip(addr: &str) -> (r: String)
    ensures
        r@ == endpoint_ip(addr@),
{
    let all: Vec<char> = chars_of(addr);
    let mut n: usize = all.len();
    while n > 0 && all[n - 1] != ':'
        invariant
            n <= all@.len(),
            forall|j: int| n <= j < all@.len() ==> all@[j] != ':',
        decreases n,
    {
        n = n - 1;
    }
    proof {
        all@.index_of_last_ensures(':');
    }
    let front: &[char] = if n > 0 {
        slice_subrange(all.as_slice(), 0, n - 1)
    } else {
        all.as_slice()
    };
    assert(front@ =~= match addr@.index_of_last(':') {
        Some(i) => addr@.take(i),
        None => addr@,
    });
    string_of(trim_end_char_of(trim_start_char_of(front, '['), ']'))
}

/// How an endpoint is dialled for a host.
pub struct DialPlan {
    /// The endpoint to connect to.
    pub connect: String,
    /// The address that is given as the server's name: with an address no name is sent.
    pub server_ip: String,
    /// The name that the server's certificate must be for.
    pub verify: String,
}

/// Decides how an endpoint is dialled for a host: by its address alone, with the certificate
/// held to the host.
pub fn dial_target(addr: &str, host: &str) -> (r: DialPlan)
    ensures
        r.connect@ == addr@,
        r.server_ip@ == endpoint_ip(addr@),
        r.verify@ == host@,
{
    DialPlan { connect: addr.to_string(), server_ip: target_ip(addr), verify: host.to_string() }
}

/// The address in the endpoint for an address is that address.
pub proof fn law_endpoint_ip(ip: Seq<char>)
    requires
        ip.len() > 0 ==> ip[0] != '[' && ip.last() != ']',
    ensures
        endpoint_ip(https_endpoint(ip)) == ip,
{
    let e = https_endpoint(ip);
    reveal_strlit(":443");
    e.index_of_last_ensures(':');
    assert(e[ip.len() as int] == ':');
    assert(e.take(ip.len() as int) =~= ip);
}

/// How the attempt to reach a host goes on.
pub enum ForwardStep {
    /// This endpoint is dialled.
    Dial(String),
    /// The host is not proxied.
    NotProxied,
    /// The rules have no address for the host.
    NoAddress,
    /// None of the endpoints answered.
    Unreachable,
}

/// How the attempt to reach a host goes on, as plain values.
pub enum Forwarding {
    /// This endpoint is dialled.
    Dial(Seq<char>),
    /// The host is not proxied.
    NotProxied,
    /// The rules have no address for the host.
    NoAddress,
    /// None of the endpoints answered.
    Unreachable,
}

impl View for ForwardStep {
    type V = Forwarding;

    open spec fn view(&self) -> Forwarding {
        match self {
            ForwardStep::Dial(a) => Forwarding::Dial(a@),
            ForwardStep::NotProxied => Forwarding::NotProxied,
            ForwardStep::NoAddress => Forwarding::NoAddress,
            ForwardStep::Unreachable => Forwarding::Unreachable,
        }
    }
}

/// An attempt to reach a host: first where it was last reached, then where the rules say.
pub struct Forward {
    host: String,
    resolved: Option<Vec<String>>,
    at: usize,
}

impl Forward {
    /// The host to reach.
    pub closed spec fn host(&self) -> Seq<char> {
        self.host@
    }

    /// The endpoints that the rules gave, once they were asked.
    pub closed spec fn resolved(&self) -> Option<Seq<Seq<char>>> {
        match self.resolved {
            Some(v) => Some(views(v@)),
            None => None,
        }
    }

    /// Which of these endpoints is tried.
    pub closed spec fn at(&self) -> int {
        self.at as int
    }

    /// Whether an endpoint of the rules is tried only where there is one.
    pub open spec fn wf(&self) -> bool {
        self.resolved() matches Some(v) ==> 0 <= self.at() < v.len()
    }

    /// The endpoints that the rules gave.
    pub fn tried(&self) -> (r: Vec<String>)
        ensures
            views(r@) == match self.resolved() {
                Some(v) => v,
                None => Seq::empty(),
            },
    {
        let mut out: Vec<String> = Vec::new();
        assert(views(out@) =~= Seq::empty());
        match &self.resolved {
            Some(v) => {
                let mut i: usize = 0;
                while i < v.len()
                    invariant
                        i <= v@.len(),
                        views(out@) == views(v@).take(i as int),
                    decreases v@.len() - i,
                {
                    let ghost had = out@;
                    out.push(v[i].clone());
                    assert(views(out@) =~= views(had).push(v@[i as int]@));
                    assert(views(v@).take(i + 1) =~= views(v@).take(i as int).push(v@[i as int]@));
                    i = i + 1;
                }
                assert(views(out@) =~= views(v@));
            },
            None => {},
        }
        out
    }

    /// Begins the attempt to reach a host: where it was last reached, or where the rules say.
    pub fn begin(hosts: &Table, reached: &Table, host: &str) -> (r: (Forward, ForwardStep))
        requires
            hosts.wf(),
            reached.wf(),
        ensures
            r.0.host() == host@,
            match r.1 {
                ForwardStep::Dial(_) => r.0.wf(),
                _ => true,
            },
            if reached@.contains_key(host@) {
                r.0.resolved() is None && r.1@ == Forwarding::Dial(reached@[host@])
            } else {
                let ends = endpoints(hosts@, host@);
                r.0.resolved() == Some(ends) && r.0.at() == 0 && r.1@ == if ends.len() > 0 {
                    Forwarding::Dial(ends[0])
                } else {
                    Forwarding::NoAddress
                }
            },
    {
        let mut f: Forward = Forward { host: host.to_string(), resolved: None, at: 0 };
        match reached.get(host) {
            Some(addr) => (f, ForwardStep::Dial(addr.clone())),
            None => {
                let step: ForwardStep = f.ask_rules(hosts);
                (f, step)
            },
        }
    }

    /// Asks the rules where to connect.
    fn ask_rules(&mut self, hosts: &Table) -> (r: ForwardStep)
        requires
            hosts.wf(),
        ensures
            final(self).host() == old(self).host(),
            final(self).resolved() == Some(endpoints(hosts@, old(self).host())),
            final(self).at() == 0,
            r@ == if endpoints(hosts@, old(self).host()).len() > 0 {
                Forwarding::Dial(endpoints(hosts@, old(self).host())[0])
            } else {
                Forwarding::NoAddress
            },
    {
        let ends: Vec<String> = resolve_real_ip(hosts, self.host.as_str());
        let step: ForwardStep = if ends.len() > 0 {
            assert(views(ends@)[0] == ends@[0]@);
            ForwardStep::Dial(ends[0].clone())
        } else {
            ForwardStep::NoAddress
        };
        self.resolved = Some(ends);
        self.at = 0;
        step
    }

    /// How many endpoints may still be tried at most, once the rules were asked.
    pub open spec fn left(&self) -> int {
        match self.resolved() {
            Some(v) => v.len() - self.at(),
            None => 0,
        }
    }

    /// Goes on after an endpoint did not answer: where the one from before did not, the rules
    /// are asked, else the next that they gave is tried.
    pub fn failed(&mut self, hosts: &Table) -> (r: ForwardStep)
        requires
            old(self).wf(),
            hosts.wf(),
        ensures
            final(self).host() == old(self).host(),
            match r {
                ForwardStep::Dial(_) => final(self).wf(),
                _ => true,
            },
            match old(self).resolved() {
                None => {
                    let ends = endpoints(hosts@, old(self).host());
                    final(self).resolved() == Some(ends) && final(self).at() == 0 && r@
                        == if ends.len() > 0 {
                        Forwarding::Dial(ends[0])
                    } else {
                        Forwarding::NoAddress
                    }
                },
                Some(ends) => final(self).resolved() == Some(ends) && if old(self).at() + 1
                    < ends.len() {
                    final(self).at() == old(self).at() + 1 && r@ == Forwarding::Dial(
                        ends[old(self).at() + 1],
                    )
                } else {
                    final(self).at() == old(self).at() && r@ == Forwarding::Unreachable
                },
            },
            old(self).resolved() is Some && r is Dial ==> final(self).left() < old(self).left(),
    {
        match &self.resolved {
            None => {},
            Some(ends) => {
                if ends.len() - self.at > 1 {
                    let next: usize = self.at + 1;
                    assert(views(ends@)[next as int] == ends@[next as int]@);
                    let addr: String = ends[next].clone();
                    self.at = next;
                    return ForwardStep::Dial(addr);
                }
                return ForwardStep::Unreachable;
            },
        }
        self.ask_rules(hosts)
    }

    /// Ends the attempt after an endpoint answered: one that the rules gave is remembered.
    pub fn succeeded(&self, reached: &mut Table)
        requires
            self.wf(),
            old(reached).wf(),
        ensures
            final(reached).wf(),
            final(reached)@ == reached_after(
                old(reached)@,
                self.host(),
                self.resolved(),
                self.at(),
            ),
    {
        match &self.resolved {
            Some(ends) => {
                assert(views(ends@)[self.at as int] == ends@[self.at as int]@);
                reached.insert(self.host.clone(), ends[self.at].clone());
            },
            None => {},
        }
    }
}

/// Begins to forward a connection for a host.
pub fn forward_tls(is_proxied: bool, hosts: &Table, reached: &Table, host: &str) -> (r: (
    Forward,
    ForwardStep,
))
    requires
        hosts.wf(),
        reached.wf(),
    ensures
        r.0.host() == host@,
        r.1 is Dial ==> r.0.wf(),
        r.1@ == begun(is_proxied, hosts@, reached@, host@),
        r.1 is Dial ==> r.0.resolved() == (if reached@.contains_key(host@) {
            None
        } else {
            Some(endpoints(hosts@, host@))
        }) && (r.0.resolved() is Some ==> r.0.at() == 0),
{
    if !is_proxied {
        let f: Forward = Forward { host: host.to_string(), resolved: None, at: 0 };
        return (f, ForwardStep::NotProxied);
    }
    Forward::begin(hosts, reached, host)
}

/// How the attempt to reach a host begins.
pub open spec fn begun(
    is_proxied: bool,
    hosts: Map<Seq<char>, Seq<char>>,
    reached: Map<Seq<char>, Seq<char>>,
    host: Seq<char>,
) -> Forwarding {
    if !is_proxied {
        Forwarding::NotProxied
    } else if reached.contains_key(host) {
        Forwarding::Dial(reached[host])
    } else if endpoints(hosts, host).len() > 0 {
        Forwarding::Dial(endpoints(hosts, host)[0])
    } else {
        Forwarding::NoAddress
    }
}

/// Where a host was reached is where it is looked for first the next time, whatever the rules
/// say by then.
pub proof fn law_reached_first(
    hosts: Map<Seq<char>, Seq<char>>,
    reached: Map<Seq<char>, Seq<char>>,
    host: Seq<char>,
    addr: Seq<char>,
)
    ensures
        begun(true, hosts, reached.insert(host, addr), host) == Forwarding::Dial(addr),
{
}

/// A proxied host that the rules cover always has an endpoint to dial.
pub proof fn law_covered_is_dialled(
    hosts: Map<Seq<char>, Seq<char>>,
    reached: Map<Seq<char>, Seq<char>>,
    host: Seq<char>,
)
    requires
        covered(hosts, host),
    ensures
        begun(true, hosts, reached, host) is Dial,
{
}

/// A host that the rules cover, and that was not reached before, is dialled at the address that
/// they have for it, and that address alone is given as the server's name.
pub proof fn law_dialled_by_address(
    hosts: Map<Seq<char>, Seq<char>>,
    reached: Map<Seq<char>, Seq<char>>,
    host: Seq<char>,
    ip: Seq<char>,
)
    requires
        lookup(hosts, normal(host)) == Some(ip),
        !reached.contains_key(host),
        ip.len() > 0 ==> ip[0] != '[' && ip.last() != ']',
    ensures
        begun(true, hosts, reached, host) == Forwarding::Dial(https_endpoint(ip)),
        endpoint_ip(https_endpoint(ip)) == ip,
{
    law_endpoint_ip(ip);
}

/// A host that the rules cover has one endpoint, at the address that they have for it and the port
/// of HTTPS; any other has none.
pub proof fn law_endpoints(hosts: Map<Seq<char>, Seq<char>>, host: Seq<char>)
    ensures
        match lookup(hosts, normal(host)) {
            Some(ip) => endpoints(hosts, host) == seq![ip + ":443"@],
            None => endpoints(hosts, host).len() == 0,
        },
{
}

/// The address in an endpoint is what stands in front of its last colon, with the brackets around
/// it left out; where there is no colon, it is the whole.
pub proof fn law_endpoint_address(open: Seq<char>, ip: Seq<char>, close: Seq<char>, port: Seq<char>)
    requires
        forall|i: int| 0 <= i < open.len() ==> #[trigger] open[i] == '[',
        ip.len() > 0 && ip[0] != '[' && ip.last() != ']',
        forall|i: int| 0 <= i < close.len() ==> #[trigger] close[i] == ']',
        !port.contains(':'),
    ensures
        endpoint_ip(open + ip + close + seq![':'] + port) == ip,
        !ip.contains(':') ==> endpoint_ip(open + ip + close) == ip,
{
    let front = open + ip + close;
    let addr = front + seq![':'] + port;
    addr.index_of_last_ensures(':');
    let n = front.len() as int;
    assert(addr[n] == ':');
    let i = addr.index_of_last(':').unwrap();
    assert(i == n) by {
        if i > n {
            assert(port[i - n - 1] == ':');
        }
    }
    assert(addr.take(n) =~= front);
    law_trim_start_char(open, ip + close, '[');
    assert(open + (ip + close) =~= front);
    law_trim_end_char(ip, close, ']');
    front.index_of_last_ensures(':');
    if !ip.contains(':') {
        if let Some(j) = front.index_of_last(':') {
            if j < open.len() {
                assert(open[j] == ':');
            } else if j < open.len() + ip.len() {
                assert(ip[j - open.len()] == ':');
            } else {
                assert(close[j - open.len() - ip.len()] == ':');
            }
        }
    }
}

/// How the attempt to reach a host begins: not at all where it is not proxied; where it was last
/// reached, else where the rules say, else nowhere.
pub proof fn law_begun(
    hosts: Map<Seq<char>, Seq<char>>,
    reached: Map<Seq<char>, Seq<char>>,
    host: Seq<char>,
)
    ensures
        begun(false, hosts, reached, host) == Forwarding::NotProxied,
        !reached.contains_key(host) ==> match lookup(hosts, normal(host)) {
            Some(ip) => begun(true, hosts, reached, host) == Forwarding::Dial(ip + ":443"@),
            None => begun(true, hosts, reached, host) == Forwarding::NoAddress,
        },
        reached.contains_key(host) ==> begun(true, hosts, reached, host) == Forwarding::Dial(
            reached[host],
        ),
{
}

/// Labels are taken off a name one by one until the given one is left: a name in between that the
/// rules cover ends this with yes, and where none does it ends with no.
pub proof fn law_chopped(
    hosts: Map<Seq<char>, Seq<char>>,
    label: Seq<char>,
    above: Seq<char>,
    last: Seq<char>,
)
    requires
        !label.contains('.'),
        label.push('.') + above != last,
    ensures
        chopped(hosts, label.push('.') + above, last) == if covered(hosts, above) {
            Some(true)
        } else {
            chopped(hosts, above, last)
        },
        label != last ==> chopped(hosts, label, last) is None,
        chopped(hosts, last, last) == Some(false),
{
    let name = label.push('.') + above;
    name.index_of_first_ensures('.');
    label.index_of_first_ensures('.');
    assert(name[label.len() as int] == '.');
    let i = name.index_of_first('.').unwrap();
    assert(i == label.len()) by {
        if i < label.len() {
            assert(label[i] == '.');
        }
    }
    assert(name.skip(i + 1) =~= above);
}

/// A host that the rules cover is proxied, and one without a registrable domain only then; of any
/// other, that is decided by the names above it.
pub proof fn law_proxied(
    hosts: Map<Seq<char>, Seq<char>>,
    rules: Set<Seq<u8>>,
    host: Seq<char>,
)
    ensures
        covered(hosts, host) ==> proxied(hosts, rules, host) == Some(true),
        !covered(hosts, host) && registrable(rules, host) is None ==> proxied(hosts, rules, host)
            == Some(false),
        !covered(hosts, host) && registrable(rules, host) is Some ==> proxied(hosts, rules, host)
            == chopped(hosts, host, registrable(rules, host).unwrap()),
{
}

/// Where hosts were reached, after one was: at the endpoint of those that the rules gave, or where
/// it was reached before.
pub open spec fn reached_after(
    reached: Map<Seq<char>, Seq<char>>,
    host: Seq<char>,
    resolved: Option<Seq<Seq<char>>>,
    at: int,
) -> Map<Seq<char>, Seq<char>> {
    match resolved {
        Some(ends) => reached.insert(host, ends[at]),
        None => reached,
    }
}

/// The endpoint at which a host answered is dialled first for it from then on, and what is known of
/// other hosts stays; where a host answers where it was reached before, nothing changes.
pub proof fn law_answer_remembered(
    hosts: Map<Seq<char>, Seq<char>>,
    reached: Map<Seq<char>, Seq<char>>,
    host: Seq<char>,
    ends: Seq<Seq<char>>,
    at: int,
    other: Seq<char>,
)
    ensures
        begun(true, hosts, reached_after(reached, host, Some(ends), at), host) == Forwarding::Dial(
            ends[at],
        ),
        other != host ==> begun(true, hosts, reached_after(reached, host, Some(ends), at), other)
            == begun(true, hosts, reached, other),
        reached_after(reached, host, None, at) == reached,
{
}

} // verus!
