//! The names that the proxy takes over and the addresses it has for them.
use vstd::prelude::*;
use vstd::slice::slice_subrange;
use vstd::utf8::encode_utf8;
use crate::table::Table;
use crate::text::{
    chars_of, drop_cr, find_char, is_white, join, law_first_word, law_no_word, law_text_of, law_trim,
    law_trim_end_char, lemma_lines_unlines, lemma_trim_cut, lemma_trim_start, lemma_word_len, lines,
    lossy, lower, lower_char, lower_of, next_line, next_word, option_text, push_bytes, string_of,
    text_of, trim, trim_end, trim_end_char, trim_end_char_of, trim_of, trim_start, unlines, views,
    word_len, words,
};

verus! {

/// A host name without the dots at its end and without capital letters.
pub open spec fn normal(host: Seq<char>) -> Seq<char> {
    lower(trim_end_char(host, '.'))
}

/// A host name in the form in which it is looked up.
pub fn normalize(host: &str) -> (r: String)
    ensures
        r@ == normal(host@),
{
    let chars: Vec<char> = chars_of(host);
    let low: Vec<char> = lower_of(trim_end_char_of(chars.as_slice(), '.'));
    string_of(low.as_slice())
}

/// The first two words of a line that is no comment and has two.
pub open spec fn fields(line: Seq<char>) -> Option<(Seq<char>, Seq<char>)> {
    let t = trim(line);
    if (t.len() > 0 && t[0] == '#') || words(t).len() < 2 {
        None
    } else {
        Some((words(t)[0], words(t)[1]))
    }
}

/// The fields of the lines that have them, in order.
pub open spec fn entries(ls: Seq<Seq<char>>) -> Seq<(Seq<char>, Seq<char>)>
    decreases ls.len(),
{
    if ls.len() == 0 {
        Seq::empty()
    } else {
        match fields(ls.last()) {
            Some(e) => entries(ls.drop_last()).push(e),
            None => entries(ls.drop_last()),
        }
    }
}

/// The first two words of a line that is no comment and has two.
fn fields_of(line: &[char]) -> (r: Option<(String, String)>)
    ensures
        match r {
            Some((a, b)) => fields(line@) == Some((a@, b@)),
            None => fields(line@) is None,
        },
{
    let t: &[char] = trim_of(line);
    if t.len() > 0 && t[0] == '#' {
        return None;
    }
    match next_word(t) {
        None => None,
        Some((first, rest)) => match next_word(rest) {
            None => None,
            Some((second, behind)) => {
                assert(words(t@)[0] == first@);
                assert(words(t@)[1] == words(rest@)[0]);
                assert(words(rest@)[0] == second@);
                Some((string_of(first), string_of(second)))
            },
        },
    }
}

/// The fields of every rule in the text.
fn entries_of(body: &str) -> (r: Vec<(String, String)>)
    ensures
        r@.len() == entries(lines(body@)).len(),
        forall|i: int|
            0 <= i < r@.len() ==> (#[trigger] r@[i]).0@ == entries(lines(body@))[i].0 && r@[i].1@
                == entries(lines(body@))[i].1,
{
    let all: Vec<char> = chars_of(body);
    let mut rest: &[char] = all.as_slice();
    let mut out: Vec<(String, String)> = Vec::new();
    let ghost mut done: Seq<Seq<char>> = Seq::empty();
    assert(done + lines(rest@) =~= lines(body@));
    loop
        invariant
            lines(body@) == done + lines(rest@),
            out@.len() == entries(done).len(),
            forall|i: int|
                0 <= i < out@.len() ==> (#[trigger] out@[i]).0@ == entries(done)[i].0 && out@[i].1@
                    == entries(done)[i].1,
        ensures
            lines(body@) == done,
            out@.len() == entries(done).len(),
            forall|i: int|
                0 <= i < out@.len() ==> (#[trigger] out@[i]).0@ == entries(done)[i].0 && out@[i].1@
                    == entries(done)[i].1,
        decreases rest@.len(),
    {
        match next_line(rest) {
            None => {
                assert(done + lines(rest@) =~= done);
                break;
            },
            Some((line, tail)) => {
                proof {
                    assert(done.push(line@).drop_last() =~= done);
                    assert(done + lines(rest@) =~= done.push(line@) + lines(tail@));
                }
                match fields_of(line) {
                    Some(e) => {
                        out.push(e);
                    },
                    None => {},
                }
                proof {
                    done = done.push(line@);
                }
                rest = tail;
            },
        }
    }
    out
}

/// The first word of every rule, in order: an address, or the alias of another name.
pub fn first_fields(body: &str) -> (r: Vec<String>)
    ensures
        r@.len() == entries(lines(body@)).len(),
        forall|i: int| 0 <= i < r@.len() ==> (#[trigger] r@[i])@ == entries(lines(body@))[i].0,
{
    let es: Vec<(String, String)> = entries_of(body);
    let mut out: Vec<String> = Vec::new();
    let mut i: usize = 0;
    while i < es.len()
        invariant
            i <= es@.len(),
            out@.len() == i,
            forall|j: int| 0 <= j < i ==> (#[trigger] out@[j])@ == es@[j].0@,
        decreases es@.len() - i,
    {
        out.push(es[i].0.clone());
        i = i + 1;
    }
    out
}

/// The texts of optional strings.
pub open spec fn option_views(v: Seq<Option<String>>) -> Seq<Option<Seq<char>>> {
    Seq::new(v.len(), |i: int| option_text(v[i]))
}

/// The names that a rule gives an address; of two rules for one name the later counts.
pub open spec fn addressed(
    es: Seq<(Seq<char>, Seq<char>)>,
    addresses: Seq<Option<Seq<char>>>,
) -> Map<Seq<char>, Seq<char>>
    decreases es.len(),
{
    if es.len() == 0 {
        Map::empty()
    } else {
        let less = addressed(es.drop_last(), addresses);
        match addresses[es.len() - 1] {
            Some(ip) => less.insert(normal(es.last().1), ip),
            None => less,
        }
    }
}

/// The names that a rule makes an alias of another; of two rules for one alias the later counts.
pub open spec fn aliases(
    es: Seq<(Seq<char>, Seq<char>)>,
    addresses: Seq<Option<Seq<char>>>,
) -> Map<Seq<char>, Seq<char>>
    decreases es.len(),
{
    if es.len() == 0 {
        Map::empty()
    } else {
        let less = aliases(es.drop_last(), addresses);
        match addresses[es.len() - 1] {
            Some(_) => less,
            None => less.insert(normal(es.last().0), normal(es.last().1)),
        }
    }
}

/// Whether `name` is an alias of a name that has an address.
pub open spec fn leads_on(
    ips: Map<Seq<char>, Seq<char>>,
    cnames: Map<Seq<char>, Seq<char>>,
    name: Seq<char>,
) -> bool {
    cnames.contains_key(name) && ips.contains_key(cnames[name])
}

/// Gives every alias the address that the name it stands for has now.
pub open spec fn step(
    ips: Map<Seq<char>, Seq<char>>,
    cnames: Map<Seq<char>, Seq<char>>,
) -> Map<Seq<char>, Seq<char>> {
    Map::new(
        |n: Seq<char>| ips.contains_key(n) || leads_on(ips, cnames, n),
        |n: Seq<char>|
            if leads_on(ips, cnames, n) {
                ips[cnames[n]]
            } else {
                ips[n]
            },
    )
}

pub proof fn lemma_step_grows(
    ips: Map<Seq<char>, Seq<char>>,
    cnames: Map<Seq<char>, Seq<char>>,
)
    requires
        cnames.dom().finite(),
        step(ips, cnames).dom() != ips.dom(),
    ensures
        cnames.dom().difference(step(ips, cnames).dom()).len() < cnames.dom().difference(
            ips.dom(),
        ).len(),
{
    let next = step(ips, cnames);
    let a = cnames.dom().difference(next.dom());
    let b = cnames.dom().difference(ips.dom());
    assert(exists|n: Seq<char>| next.dom().contains(n) && !ips.dom().contains(n)) by {
        if forall|n: Seq<char>| next.dom().contains(n) ==> ips.dom().contains(n) {
            assert(next.dom() =~= ips.dom());
        }
    }
    let n = choose|n: Seq<char>| next.dom().contains(n) && !ips.dom().contains(n);
    assert(b.contains(n) && !a.contains(n));
    assert(a.subset_of(b.remove(n)));
    vstd::set_lib::lemma_len_subset(a, b.remove(n));
}

/// Repeats the step until it adds no name.
pub open spec fn expanded(
    ips: Map<Seq<char>, Seq<char>>,
    cnames: Map<Seq<char>, Seq<char>>,
) -> Map<Seq<char>, Seq<char>>
    decreases cnames.dom().difference(ips.dom()).len(),
    when cnames.dom().finite()
{
    let next = step(ips, cnames);
    if next.dom() == ips.dom() {
        next
    } else {
        proof {
            lemma_step_grows(ips, cnames);
        }
        expanded(next, cnames)
    }
}

/// The names and addresses that the rules give, where `addresses` says of each rule which
/// address, if any, its first word spells.
pub open spec fn parsed(body: Seq<char>, addresses: Seq<Option<Seq<char>>>) -> Map<
    Seq<char>,
    Seq<char>,
> {
    let es = entries(lines(body));
    expanded(addressed(es, addresses), aliases(es, addresses))
}

/// One step of the expansion; says whether it added a name.
fn expand_once(ips: &mut Table, cnames: &Table) -> (changed: bool)
    requires
        old(ips).wf(),
        cnames.wf(),
    ensures
        final(ips).wf(),
        final(ips)@ == step(old(ips)@, cnames@),
        changed == (final(ips)@.dom() != old(ips)@.dom()),
{
    let ghost before = ips@;
    proof {
        cnames.lemma_order();
    }
    let ghost order = cnames.order();
    let n: usize = cnames.len();
    let mut to_add: Vec<(String, String)> = Vec::new();
    let mut i: usize = 0;
    while i < n
        invariant
            i <= n,
            n == order.len(),
            order == cnames.order(),
            order.no_duplicates(),
            cnames.wf(),
            ips.wf(),
            ips@ == before,
            forall|j: int|
                0 <= j < to_add@.len() ==> leads_on(before, cnames@, (#[trigger] to_add@[j]).0@)
                    && to_add@[j].1@ == before[cnames@[to_add@[j].0@]],
            forall|k: int|
                0 <= k < i && leads_on(before, cnames@, #[trigger] order[k]) ==> exists|j: int|
                    0 <= j < to_add@.len() && (#[trigger] to_add@[j]).0@ == order[k],
        decreases n - i,
    {
        let ghost had = to_add@;
        match ips.get(cnames.value(i).as_str()) {
            Some(ip) => {
                to_add.push((cnames.key(i).clone(), ip.clone()));
                assert(to_add@[had.len() as int].0@ == order[i as int]);
            },
            None => {},
        }
        assert forall|k: int| 0 <= k < i + 1 && leads_on(before, cnames@, #[trigger] order[k]) implies exists|
            j: int,
        |
            0 <= j < to_add@.len() && (#[trigger] to_add@[j]).0@ == order[k] by {
            if k < i {
                let j = choose|j: int| 0 <= j < had.len() && (#[trigger] had[j]).0@ == order[k];
                assert(to_add@[j] == had[j]);
            }
        }
        i = i + 1;
    }
    let mut changed: bool = false;
    let mut m: usize = 0;
    assert(forall|k: Seq<char>| #[trigger] cnames@.contains_key(k) ==> order.contains(k));
    while m < to_add.len()
        invariant
            m <= to_add@.len(),
            ips.wf(),
            forall|j: int|
                0 <= j < to_add@.len() ==> leads_on(before, cnames@, (#[trigger] to_add@[j]).0@)
                    && to_add@[j].1@ == before[cnames@[to_add@[j].0@]],
            forall|k: Seq<char>|
                #![trigger ips@.contains_key(k)]
                ips@.contains_key(k) <==> before.contains_key(k) || exists|j: int|
                    0 <= j < m && (#[trigger] to_add@[j]).0@ == k,
            forall|k: Seq<char>| #[trigger]
                ips@.contains_key(k) ==> ips@[k] == if exists|j: int|
                    0 <= j < m && (#[trigger] to_add@[j]).0@ == k {
                    before[cnames@[k]]
                } else {
                    before[k]
                },
            changed <==> exists|j: int|
                0 <= j < m && !before.contains_key((#[trigger] to_add@[j]).0@),
        decreases to_add@.len() - m,
    {
        let ghost was = ips@;
        let ghost name = to_add@[m as int].0@;
        if ips.insert(to_add[m].0.clone(), to_add[m].1.clone()) {
            changed = true;
        }
        proof {
            assert(leads_on(before, cnames@, name));
            if was.contains_key(name) && !before.contains_key(name) {
                let j = choose|j: int| 0 <= j < m && (#[trigger] to_add@[j]).0@ == name;
                assert(!before.contains_key(to_add@[j].0@));
            }
            assert forall|k: Seq<char>| #[trigger] ips@.contains_key(k) implies ips@[k]
                == if exists|j: int| 0 <= j < m + 1 && (#[trigger] to_add@[j]).0@ == k {
                before[cnames@[k]]
            } else {
                before[k]
            } by {
                if k == name {
                    assert(to_add@[m as int].0@ == k);
                } else {
                    assert(was.contains_key(k));
                    assert((exists|j: int| 0 <= j < m && (#[trigger] to_add@[j]).0@ == k) <==> (
                    exists|j: int| 0 <= j < m + 1 && (#[trigger] to_add@[j]).0@ == k));
                }
            }
        }
        m = m + 1;
    }
    proof {
        let next = step(before, cnames@);
        assert forall|k: Seq<char>| leads_on(before, cnames@, k) <==> exists|j: int|
            0 <= j < to_add@.len() && (#[trigger] to_add@[j]).0@ == k by {
            if leads_on(before, cnames@, k) {
                assert(order.contains(k));
                let o = choose|o: int| 0 <= o < order.len() && order[o] == k;
                assert(leads_on(before, cnames@, order[o]));
            }
        }
        assert(ips@ =~= next);
        if changed {
            let j = choose|j: int|
                0 <= j < to_add@.len() && !before.contains_key((#[trigger] to_add@[j]).0@);
            assert(ips@.dom().contains(to_add@[j].0@));
        } else {
            assert(ips@.dom() =~= before.dom());
        }
    }
    changed
}

/// Reads the rules: a line is an address and a name, or an alias and the name it stands for.
/// `addresses` says of each rule which address its first word spells, if it spells one.
pub fn parse_hosts(body: &str, addresses: &Vec<Option<String>>) -> (r: Table)
    requires
        addresses@.len() == entries(lines(body@)).len(),
    ensures
        r.wf(),
        r@ == parsed(body@, option_views(addresses@)),
{
    let es: Vec<(String, String)> = entries_of(body);
    let ghost model = entries(lines(body@));
    let ghost given = option_views(addresses@);
    let mut ips: Table = Table::new();
    let mut cnames: Table = Table::new();
    let mut i: usize = 0;
    while i < es.len()
        invariant
            i <= es@.len(),
            es@.len() == model.len(),
            addresses@.len() == model.len(),
            given == option_views(addresses@),
            forall|j: int|
                0 <= j < es@.len() ==> (#[trigger] es@[j]).0@ == model[j].0 && es@[j].1@
                    == model[j].1,
            ips.wf(),
            cnames.wf(),
            ips@ == addressed(model.take(i as int), given),
            cnames@ == aliases(model.take(i as int), given),
        decreases es@.len() - i,
    {
        proof {
            assert(model.take(i + 1).drop_last() =~= model.take(i as int));
            assert(model.take(i + 1).last() == model[i as int]);
            assert(es@[i as int].0@ == model[i as int].0);
        }
        match &addresses[i] {
            Some(ip) => {
                assert(given[i as int] == Some(ip@));
                ips.insert(normalize(es[i].1.as_str()), ip.clone());
            },
            None => {
                assert(given[i as int] is None);
                cnames.insert(normalize(es[i].0.as_str()), normalize(es[i].1.as_str()));
            },
        }
        i = i + 1;
    }
    assert(model.take(i as int) =~= model);
    proof {
        cnames.lemma_order();
    }
    let ghost start = ips@;
    let mut changed: bool = true;
    while changed
        invariant
            ips.wf(),
            cnames.wf(),
            cnames@.dom().finite(),
            changed ==> expanded(ips@, cnames@) == expanded(start, cnames@),
            !changed ==> ips@ == expanded(start, cnames@),
        decreases cnames@.dom().difference(ips@.dom()).len(), changed as int,
    {
        let ghost before = ips@;
        changed = expand_once(&mut ips, &cnames);
        proof {
            if changed {
                lemma_step_grows(before, cnames@);
            } else {
                assert(ips@.dom() =~= before.dom());
            }
        }
    }
    ips
}

/// What getting the rules comes to.
#[derive(Clone, Copy, Debug, PartialEq, Eq, Structural)]
pub enum RefreshStep {
    /// The file is there and is read; it is never written over.
    Load,
    /// The rules are downloaded, written to the file, and read.
    Fetch,
}

/// Decides how the rules are had.
pub fn refresh(file_exists: bool) -> (r: RefreshStep)
    ensures
        r == if file_exists {
            RefreshStep::Load
        } else {
            RefreshStep::Fetch
        },
{
    if file_exists {
        RefreshStep::Load
    } else {
        RefreshStep::Fetch
    }
}

/// Whether a label of the name begins at `k`.
pub open spec fn label_start(name: Seq<char>, k: int) -> bool {
    0 <= k <= name.len() && (k == 0 || name[k - 1] == '.')
}

/// The address of the name, or else of the nearest name above it that has one.
pub open spec fn lookup(hosts: Map<Seq<char>, Seq<char>>, name: Seq<char>) -> Option<Seq<char>>
    decreases name.len(),
{
    if hosts.contains_key(name) {
        Some(hosts[name])
    } else {
        proof {
            name.index_of_first_ensures('.');
        }
        match name.index_of_first('.') {
            Some(i) => lookup(hosts, name.skip(i + 1)),
            None => None,
        }
    }
}

/// Whether a host has an address of its own or through a name above it.
pub open spec fn covered(hosts: Map<Seq<char>, Seq<char>>, host: Seq<char>) -> bool {
    lookup(hosts, normal(host)) is Some
}

/// The address that the rules have for a host.
pub fn lookup_ip(hosts: &Table, host: &str) -> (r: Option<String>)
    requires
        hosts.wf(),
    ensures
        match r {
            Some(ip) => lookup(hosts@, normal(host@)) == Some(ip@),
            None => lookup(hosts@, normal(host@)) is None,
        },
{
    let name: String = normalize(host);
    let all: Vec<char> = chars_of(name.as_str());
    let mut d: &[char] = all.as_slice();
    loop
        invariant
            hosts.wf(),
            lookup(hosts@, d@) == lookup(hosts@, normal(host@)),
        decreases d@.len(),
    {
        let n: usize = d.len();
        let key: String = string_of(d);
        match hosts.get(key.as_str()) {
            Some(ip) => {
                return Some(ip.clone());
            },
            None => {},
        }
        match find_char(d, '.') {
            Some(i) => {
                let rest: &[char] = slice_subrange(d, i + 1, n);
                assert(rest@ =~= d@.skip(i + 1));
                d = rest;
            },
            None => {
                return None;
            },
        }
    }
}

/// Whether the rules cover a host.
pub fn has(hosts: &Table, host: &str) -> (r: bool)
    requires
        hosts.wf(),
    ensures
        r == covered(hosts@, host@),
{
    lookup_ip(hosts, host).is_some()
}

/// Every name that the rules give an address, each once.
pub fn domains(hosts: &Table) -> (r: Vec<String>)
    requires
        hosts.wf(),
    ensures
        views(r@).no_duplicates(),
        views(r@).to_set() == hosts@.dom(),
{
    proof {
        hosts.lemma_order();
    }
    let n: usize = hosts.len();
    let mut out: Vec<String> = Vec::new();
    let mut i: usize = 0;
    while i < n
        invariant
            i <= n,
            hosts.wf(),
            n == hosts.order().len(),
            views(out@) == hosts.order().take(i as int),
        decreases n - i,
    {
        let ghost had = out@;
        out.push(hosts.key(i).clone());
        assert(views(out@) =~= views(had).push(hosts.order()[i as int]));
        assert(hosts.order().take(i + 1) =~= hosts.order().take(i as int).push(
            hosts.order()[i as int],
        ));
        i = i + 1;
    }
    assert(hosts.order().take(i as int) =~= hosts.order());
    out
}

/// Where to connect for a host at an address.
pub open spec fn https_endpoint(ip: Seq<char>) -> Seq<char> {
    ip + ":443"@
}

/// Where to connect for a host: one endpoint where the rules cover it, else none.
pub fn resolve_real_ip(hosts: &Table, host: &str) -> (r: Vec<String>)
    requires
        hosts.wf(),
    ensures
        views(r@) == match lookup(hosts@, normal(host@)) {
            Some(ip) => seq![https_endpoint(ip)],
            None => Seq::empty(),
        },
{
    let mut out: Vec<String> = Vec::new();
    match lookup_ip(hosts, host) {
        Some(ip) => {
            let mut s: String = ip.clone();
            s.append(":443");
            out.push(s);
            assert(views(out@) =~= seq![https_endpoint(ip@)]);
        },
        None => {
            assert(views(out@) =~= Seq::empty());
        },
    }
    out
}

/// The labels of the name that begins at `off`, and where what follows it begins. A name ends
/// with an empty label, or with a pointer, whose two bytes are passed over.
pub open spec fn walk(msg: Seq<u8>, off: int) -> Option<(Seq<Seq<u8>>, int)>
    decreases msg.len() - off,
{
    if off < 0 || off >= msg.len() {
        None
    } else {
        let len = msg[off] as int;
        if len == 0 {
            Some((Seq::empty(), off + 1))
        } else if len >= 0x40 {
            Some((Seq::empty(), off + 2))
        } else if off + 1 + len > msg.len() {
            None
        } else {
            match walk(msg, off + 1 + len) {
                Some((labels, end)) => Some(
                    (seq![msg.subrange(off + 1, off + 1 + len)] + labels, end),
                ),
                None => None,
            }
        }
    }
}

/// The texts of labels.
pub open spec fn label_texts(labels: Seq<Seq<u8>>) -> Seq<Seq<char>> {
    Seq::new(labels.len(), |i: int| text_of(labels[i]))
}

/// The name that labels spell.
pub open spec fn dotted(labels: Seq<Seq<u8>>) -> Seq<char> {
    join(label_texts(labels), '.')
}

/// Whether a name is short enough, in bytes.
pub open spec fn fits(name: Seq<char>) -> bool {
    encode_utf8(name).len() <= 253
}

/// The question of a DNS query: the name asked for, the type asked for, and where what follows
/// the question begins.
pub open spec fn question(msg: Seq<u8>) -> Option<(Seq<char>, u16, int)> {
    if msg.len() < 12 {
        None
    } else {
        match walk(msg, 12) {
            Some((labels, end)) => if fits(dotted(labels)) && end + 4 <= msg.len() {
                Some((dotted(labels), (msg[end] * 256 + msg[end + 1]) as u16, end + 4))
            } else {
                None
            },
            None => None,
        }
    }
}

/// The views of byte vectors.
pub open spec fn byte_views(v: Seq<Vec<u8>>) -> Seq<Seq<u8>> {
    Seq::new(v.len(), |i: int| v[i]@)
}

/// The labels of the name that begins at `start`, and where what follows it begins, where that
/// is still in the message.
pub fn name_labels(msg: &[u8], start: usize) -> (r: Option<(Vec<Vec<u8>>, usize)>)
    ensures
        match r {
            Some((labels, end)) => walk(msg@, start as int) == Some(
                (byte_views(labels@), end as int),
            ) && end <= msg@.len(),
            None => walk(msg@, start as int) matches Some((_, end)) ==> end > msg@.len(),
        },
{
    let mut labels: Vec<Vec<u8>> = Vec::new();
    let mut off: usize = start;
    assert(byte_views(labels@) =~= Seq::empty());
    loop
        invariant
            walk(msg@, off as int) is None ==> walk(msg@, start as int) is None,
            walk(msg@, off as int) matches Some((ls, end)) ==> walk(msg@, start as int) == Some(
                (byte_views(labels@) + ls, end),
            ),
        decreases msg@.len() - off,
    {
        if off >= msg.len() {
            return None;
        }
        let len: usize = msg[off] as usize;
        if len == 0 {
            assert(byte_views(labels@) + Seq::empty() =~= byte_views(labels@));
            return Some((labels, off + 1));
        }
        if len >= 0x40 {
            if msg.len() - off < 2 {
                return None;
            }
            assert(byte_views(labels@) + Seq::empty() =~= byte_views(labels@));
            return Some((labels, off + 2));
        }
        off = off + 1;
        if len > msg.len() - off {
            return None;
        }
        let mut label: Vec<u8> = Vec::new();
        push_bytes(&mut label, slice_subrange(msg, off, off + len));
        let ghost had = byte_views(labels@);
        let ghost next = walk(msg@, off + len);
        labels.push(label);
        proof {
            let l = msg@.subrange(off as int, off + len);
            assert(label@ =~= l);
            assert(byte_views(labels@) =~= had.push(l));
            if let Some((ls, end)) = next {
                assert(had + (seq![l] + ls) =~= had.push(l) + ls);
            }
        }
        off = off + len;
    }
}

/// The texts of the labels as one name, where it is short enough.
pub fn dotted_name(texts: &Vec<String>) -> (r: Option<String>)
    ensures
        r is Some <==> fits(join(views(texts@), '.')),
        r matches Some(name) ==> name@ == join(views(texts@), '.'),
{
    let mut name: String = String::new();
    let ghost all = views(texts@);
    let mut i: usize = 0;
    while i < texts.len()
        invariant
            i <= texts@.len(),
            all == views(texts@),
            name@ == join(all.take(i as int), '.'),
        decreases texts@.len() - i,
    {
        if i > 0 {
            name.push('.');
        }
        name.append(texts[i].as_str());
        proof {
            let more = all.take(i + 1);
            assert(more.drop_last() =~= all.take(i as int));
            assert(more.last() == texts@[i as int]@);
            if i == 0 {
                assert(name@ =~= more[0]);
            }
        }
        i = i + 1;
    }
    assert(all.take(i as int) =~= all);
    if name.as_str().as_bytes().len() > 253 {
        None
    } else {
        Some(name)
    }
}

/// Reads the question of a DNS query: the name, the type, and where what follows begins.
pub fn parse_question(msg: &[u8]) -> (r: Option<(String, u16, usize)>)
    ensures
        match r {
            Some((name, qtype, end)) => question(msg@) == Some((name@, qtype, end as int)),
            None => question(msg@) is None,
        },
{
    if msg.len() < 12 {
        return None;
    }
    match name_labels(msg, 12) {
        None => None,
        Some((labels, end)) => {
            let mut texts: Vec<String> = Vec::new();
            let mut i: usize = 0;
            while i < labels.len()
                invariant
                    i <= labels@.len(),
                    views(texts@) == label_texts(byte_views(labels@)).take(i as int),
                decreases labels@.len() - i,
            {
                let ghost had = texts@;
                texts.push(lossy(labels[i].as_slice()));
                assert(views(texts@) =~= views(had).push(text_of(labels@[i as int]@)));
                assert(label_texts(byte_views(labels@)).take(i + 1) =~= views(had).push(
                    text_of(labels@[i as int]@),
                ));
                i = i + 1;
            }
            assert(views(texts@) =~= label_texts(byte_views(labels@)));
            match dotted_name(&texts) {
                None => None,
                Some(name) => {
                    if msg.len() - end < 4 {
                        return None;
                    }
                    let qtype: u16 = msg[end] as u16 * 256 + msg[end + 1] as u16;
                    Some((name, qtype, end + 4))
                },
            }
        },
    }
}

/// Whether a type asks for the address of a name: A or ANY.
pub open spec fn wants_address(qtype: u16) -> bool {
    qtype == 1 || qtype == 255
}

/// The record that points the name at offset twelve at 127.0.0.1, for five minutes.
pub open spec fn local_record() -> Seq<u8> {
    seq![0xC0u8, 0x0C, 0, 1, 0, 1, 0, 0, 1, 44, 0, 4, 127, 0, 0, 1]
}

/// The reply to a query whose question ends at `end`: the query's identifier, the question as
/// it came, and the local address where an address was asked for.
pub open spec fn local_reply(req: Seq<u8>, qtype: u16, end: int) -> Seq<u8> {
    let answers: u8 = if wants_address(qtype) {
        1
    } else {
        0
    };
    req.take(2) + seq![0x81u8, 0x80, 0, 1, 0, answers, 0, 0, 0, 0] + req.subrange(12, end) + if wants_address(
        qtype,
    ) {
        local_record()
    } else {
        Seq::empty()
    }
}

/// Writes the reply to a query whose question ends at `end`.
pub fn reply_to(req: &[u8], qtype: u16, end: usize) -> (r: Vec<u8>)
    requires
        12 <= end <= req@.len(),
    ensures
        r@ == local_reply(req@, qtype, end as int),
{
    let have_answer: bool = qtype == 1 || qtype == 255;
    let answers: u8 = if have_answer {
        1
    } else {
        0
    };
    let mut resp: Vec<u8> = Vec::new();
    push_bytes(&mut resp, slice_subrange(req, 0, 2));
    push_bytes(&mut resp, [0x81u8, 0x80, 0, 1, 0, answers, 0, 0, 0, 0].as_slice());
    push_bytes(&mut resp, slice_subrange(req, 12, end));
    if have_answer {
        push_bytes(&mut resp, [0xC0u8, 0x0C, 0, 1, 0, 1, 0, 0, 1, 44, 0, 4, 127, 0, 0, 1].as_slice());
    }
    assert(resp@ =~= local_reply(req@, qtype, end as int));
    resp
}

/// Answers a query so that the name it asks for leads to this machine.
pub fn build_local_response(req: &[u8]) -> (r: Option<Vec<u8>>)
    ensures
        match question(req@) {
            Some((_, qtype, end)) => r matches Some(resp) && resp@ == local_reply(req@, qtype, end),
            None => r is None,
        },
{
    proof {
        if let Some((labels, end)) = walk(req@, 12) {
            lemma_walk_end(req@, 12);
        }
    }
    match parse_question(req) {
        Some((_name, qtype, end)) => Some(reply_to(req, qtype, end)),
        None => None,
    }
}

proof fn lemma_walk_end(msg: Seq<u8>, off: int)
    requires
        walk(msg, off) is Some,
    ensures
        walk(msg, off).unwrap().1 > off,
    decreases msg.len() - off,
{
    let len = msg[off] as int;
    if 0 < len < 0x40 {
        lemma_walk_end(msg, off + 1 + len);
    }
}

/// What the name at `off` is rests on no byte but its own.
proof fn lemma_walk_same(a: Seq<u8>, b: Seq<u8>, off: int)
    requires
        walk(a, off) is Some,
        walk(a, off).unwrap().1 <= a.len(),
        walk(a, off).unwrap().1 <= b.len(),
        forall|i: int| off <= i < walk(a, off).unwrap().1 ==> a[i] == b[i],
    ensures
        walk(b, off) == walk(a, off),
    decreases a.len() - off,
{
    lemma_walk_end(a, off);
    let len = a[off] as int;
    assert(b[off] == a[off]);
    if 0 < len < 0x40 {
        lemma_walk_end(a, off + 1 + len);
        lemma_walk_same(a, b, off + 1 + len);
        assert(a.subrange(off + 1, off + 1 + len) =~= b.subrange(off + 1, off + 1 + len));
    }
}

/// A local reply carries the identifier of the query and asks back what the query asked.
pub proof fn law_reply_repeats_question(req: Seq<u8>)
    requires
        question(req) is Some,
    ensures
        ({
            let (name, qtype, end) = question(req).unwrap();
            let reply = local_reply(req, qtype, end);
            &&& question(reply) == question(req)
            &&& reply[0] == req[0]
            &&& reply[1] == req[1]
            &&& reply.subrange(12, end) == req.subrange(12, end)
        }),
{
    let (name, qtype, end) = question(req).unwrap();
    let reply = local_reply(req, qtype, end);
    lemma_walk_end(req, 12);
    assert(reply.subrange(12, end) =~= req.subrange(12, end));
    assert forall|i: int| 12 <= i < end implies reply[i] == req[i] by {
        assert(reply.subrange(12, end)[i - 12] == req.subrange(12, end)[i - 12]);
    }
    lemma_walk_same(req, reply, 12);
}

/// A local reply says that it is one, and holds the address 127.0.0.1 where, and only where, an
/// address was asked for.
pub proof fn law_reply_points_here(req: Seq<u8>)
    requires
        question(req) is Some,
    ensures
        ({
            let (name, qtype, end) = question(req).unwrap();
            let reply = local_reply(req, qtype, end);
            &&& reply[2] >= 0x80
            &&& reply[7] == (if wants_address(qtype) {
                1u8
            } else {
                0u8
            })
            &&& reply.skip(end) == (if wants_address(qtype) {
                local_record()
            } else {
                Seq::empty()
            })
            &&& wants_address(qtype) ==> reply.skip(reply.len() - 4) == seq![127u8, 0, 0, 1]
        }),
{
    let (name, qtype, end) = question(req).unwrap();
    let reply = local_reply(req, qtype, end);
    lemma_walk_end(req, 12);
    assert(reply.skip(end) =~= if wants_address(qtype) {
        local_record()
    } else {
        Seq::empty()
    });
    if wants_address(qtype) {
        assert(reply.skip(reply.len() - 4) =~= seq![127u8, 0, 0, 1]);
    }
}

proof fn lemma_expansion_keeps(
    ips: Map<Seq<char>, Seq<char>>,
    cnames: Map<Seq<char>, Seq<char>>,
    name: Seq<char>,
)
    requires
        cnames.dom().finite(),
        ips.contains_key(name),
    ensures
        expanded(ips, cnames).contains_key(name),
    decreases cnames.dom().difference(ips.dom()).len(),
{
    let next = step(ips, cnames);
    assert(next.contains_key(name));
    if next.dom() != ips.dom() {
        lemma_step_grows(ips, cnames);
        lemma_expansion_keeps(next, cnames, name);
    }
}

/// The expansion covers what the rules give an address and what is an alias of a covered name,
/// and nothing else; it makes no address up, and leaves a name that is no alias the address
/// that it had.
pub proof fn law_expansion_closed(
    ips: Map<Seq<char>, Seq<char>>,
    cnames: Map<Seq<char>, Seq<char>>,
    name: Seq<char>,
)
    requires
        cnames.dom().finite(),
    ensures
        expanded(ips, cnames).contains_key(name) <==> ips.contains_key(name) || leads_on(
            expanded(ips, cnames),
            cnames,
            name,
        ),
        expanded(ips, cnames).contains_key(name) ==> ips.values().contains(
            expanded(ips, cnames)[name],
        ),
        ips.contains_key(name) && !cnames.contains_key(name) ==> expanded(ips, cnames)[name]
            == ips[name],
    decreases cnames.dom().difference(ips.dom()).len(),
{
    let next = step(ips, cnames);
    let e = expanded(ips, cnames);
    if next.dom() == ips.dom() {
        assert(next.dom().contains(name) == ips.dom().contains(name));
        if cnames.contains_key(name) {
            assert(next.dom().contains(cnames[name]) == ips.dom().contains(cnames[name]));
        }
        if e.contains_key(name) {
            lemma_step_values(ips, cnames, name);
        }
    } else {
        lemma_step_grows(ips, cnames);
        law_expansion_closed(next, cnames, name);
        if ips.contains_key(name) {
            lemma_expansion_keeps(ips, cnames, name);
        }
        if leads_on(ips, cnames, name) {
            lemma_expansion_keeps(ips, cnames, cnames[name]);
        }
        if e.contains_key(name) {
            let m = choose|m: Seq<char>| #[trigger] next.dom().contains(m) && next[m] == e[name];
            lemma_step_values(ips, cnames, m);
        }
    }
}

proof fn lemma_step_values(
    ips: Map<Seq<char>, Seq<char>>,
    cnames: Map<Seq<char>, Seq<char>>,
    name: Seq<char>,
)
    requires
        step(ips, cnames).contains_key(name),
    ensures
        ips.values().contains(step(ips, cnames)[name]),
{
    if leads_on(ips, cnames, name) {
        assert(ips.dom().contains(cnames[name]));
    } else {
        assert(ips.dom().contains(name));
    }
}

proof fn lemma_aliases_finite(
    es: Seq<(Seq<char>, Seq<char>)>,
    addresses: Seq<Option<Seq<char>>>,
)
    ensures
        aliases(es, addresses).dom().finite(),
    decreases es.len(),
{
    if es.len() > 0 {
        lemma_aliases_finite(es.drop_last(), addresses);
    }
}

proof fn lemma_addressed(
    es: Seq<(Seq<char>, Seq<char>)>,
    addresses: Seq<Option<Seq<char>>>,
    i: int,
)
    requires
        0 <= i < es.len(),
        addresses[i] is Some,
    ensures
        addressed(es, addresses).contains_key(normal(es[i].1)),
    decreases es.len(),
{
    if i < es.len() - 1 {
        lemma_addressed(es.drop_last(), addresses, i);
    }
}

/// A rule with an address covers the name it is for.
pub proof fn law_rule_covers(body: Seq<char>, addresses: Seq<Option<Seq<char>>>, i: int)
    requires
        0 <= i < entries(lines(body)).len(),
        addresses[i] is Some,
    ensures
        covered(parsed(body, addresses), entries(lines(body))[i].1),
{
    let es = entries(lines(body));
    lemma_aliases_finite(es, addresses);
    lemma_addressed(es, addresses, i);
    lemma_expansion_keeps(addressed(es, addresses), aliases(es, addresses), normal(es[i].1));
}

/// Whether a text holds no white space.
pub open spec fn one_word(s: Seq<char>) -> bool {
    forall|j: int| 0 <= j < s.len() ==> !is_white(#[trigger] s[j])
}

proof fn lemma_words(s: Seq<char>)
    ensures
        forall|i: int| 0 <= i < words(s).len() ==> one_word(#[trigger] words(s)[i]),
    decreases s.len(),
{
    let t = trim_start(s);
    if t.len() > 0 {
        lemma_trim_start(s);
        lemma_word_len(t);
        let n = word_len(t) as int;
        let rest = words(t.skip(n));
        lemma_words(t.skip(n));
        assert forall|i: int| 0 <= i < words(s).len() implies one_word(#[trigger] words(s)[i]) by {
            if i == 0 {
                assert(words(s)[0] == t.take(n));
            } else {
                assert(words(s)[i] == rest[i - 1]);
            }
        }
    }
}

proof fn lemma_entries_words(ls: Seq<Seq<char>>)
    ensures
        forall|i: int|
            0 <= i < entries(ls).len() ==> one_word((#[trigger] entries(ls)[i]).0) && one_word(
                entries(ls)[i].1,
            ),
    decreases ls.len(),
{
    if ls.len() > 0 {
        lemma_entries_words(ls.drop_last());
        lemma_words(trim(ls.last()));
        let front = entries(ls.drop_last());
        assert forall|i: int| 0 <= i < entries(ls).len() implies one_word(
            (#[trigger] entries(ls)[i]).0,
        ) && one_word(entries(ls)[i].1) by {
            if i < front.len() {
                assert(entries(ls)[i] == front[i]);
            }
        }
    }
}

proof fn lemma_normal_word(s: Seq<char>)
    requires
        one_word(s),
    ensures
        one_word(normal(s)),
    decreases s.len(),
{
    if s.len() > 0 && s.last() == '.' {
        lemma_normal_word(s.drop_last());
    } else {
        assert forall|j: int| 0 <= j < normal(s).len() implies !is_white(#[trigger] normal(s)[j]) by {
            assert(normal(s)[j] == lower_char(s[j]));
            assert(!is_white(s[j]));
        }
    }
}

proof fn lemma_keys_words(
    es: Seq<(Seq<char>, Seq<char>)>,
    addresses: Seq<Option<Seq<char>>>,
    name: Seq<char>,
)
    requires
        forall|i: int| 0 <= i < es.len() ==> one_word((#[trigger] es[i]).0) && one_word(es[i].1),
        addressed(es, addresses).contains_key(name) || aliases(es, addresses).contains_key(name),
    ensures
        one_word(name),
        normal(name) == name,
    decreases es.len(),
{
    if es.len() > 0 {
        let front = es.drop_last();
        law_normal(es.last().0);
        law_normal(es.last().1);
        assert(forall|i: int| 0 <= i < front.len() ==> #[trigger] front[i] == es[i]);
        assert(one_word(es[es.len() - 1].0));
        lemma_normal_word(es.last().0);
        lemma_normal_word(es.last().1);
        if addressed(front, addresses).contains_key(name) || aliases(
            front,
            addresses,
        ).contains_key(name) {
            lemma_keys_words(front, addresses, name);
        }
    }
}

/// The name of every rule is one word: it can stand in a line of a hosts file. It is in the form
/// in which names are looked up.
pub proof fn law_names_are_words(
    body: Seq<char>,
    addresses: Seq<Option<Seq<char>>>,
    name: Seq<char>,
)
    requires
        parsed(body, addresses).contains_key(name),
    ensures
        one_word(name),
        normal(name) == name,
        !name.contains('\n'),
        !name.contains('\r'),
{
    let es = entries(lines(body));
    lemma_aliases_finite(es, addresses);
    law_expansion_closed(addressed(es, addresses), aliases(es, addresses), name);
    lemma_entries_words(lines(body));
    lemma_keys_words(es, addresses, name);
}

proof fn lemma_given(
    es: Seq<(Seq<char>, Seq<char>)>,
    addresses: Seq<Option<Seq<char>>>,
    ip: Seq<char>,
)
    requires
        addressed(es, addresses).values().contains(ip),
    ensures
        exists|i: int| 0 <= i < es.len() && #[trigger] addresses[i] == Some(ip),
    decreases es.len(),
{
    let all = addressed(es, addresses);
    let name = choose|name: Seq<char>| #[trigger] all.contains_key(name) && all[name] == ip;
    if es.len() > 0 {
        let less = addressed(es.drop_last(), addresses);
        if addresses[es.len() - 1] != Some(ip) {
            assert(less.contains_key(name) && less[name] == ip);
            assert(less.dom().contains(name));
            lemma_given(es.drop_last(), addresses, ip);
        }
    }
}

/// The address of every name is one that was given for a rule.
pub proof fn law_addresses_are_given(
    body: Seq<char>,
    addresses: Seq<Option<Seq<char>>>,
    name: Seq<char>,
)
    requires
        parsed(body, addresses).contains_key(name),
    ensures
        exists|i: int|
            0 <= i < entries(lines(body)).len() && #[trigger] addresses[i] == Some(
                parsed(body, addresses)[name],
            ),
{
    let es = entries(lines(body));
    lemma_aliases_finite(es, addresses);
    law_expansion_closed(addressed(es, addresses), aliases(es, addresses), name);
    lemma_given(es, addresses, parsed(body, addresses)[name]);
}

/// The rule that gives a name an address.
pub open spec fn rule_line(name: Seq<char>, ip: Seq<char>) -> Seq<char> {
    ip.push(' ') + name
}

/// The names and their addresses written out as rules, in the given order.
pub open spec fn rules_text(hosts: Map<Seq<char>, Seq<char>>, names: Seq<Seq<char>>) -> Seq<char> {
    unlines(Seq::new(names.len(), |i: int| rule_line(names[i], hosts[names[i]])))
}

/// A word is its own first word.
proof fn lemma_one_word(s: Seq<char>)
    requires
        one_word(s),
    ensures
        word_len(s) == s.len(),
        trim_start(s) == s,
{
    lemma_word_len(s);
    if word_len(s) < s.len() {
        assert(!is_white(s[word_len(s) as int]));
    }
    if s.len() > 0 {
        assert(!is_white(s[0]));
    }
}

/// A rule is read as what it was written from.
#[verifier::spinoff_prover]
proof fn lemma_rule_line(name: Seq<char>, ip: Seq<char>)
    requires
        name.len() > 0,
        one_word(name),
        ip.len() > 0,
        one_word(ip),
        ip[0] != '#',
    ensures
        fields(rule_line(name, ip)) == Some((ip, name)),
        !rule_line(name, ip).contains('\n'),
        drop_cr(rule_line(name, ip)) == rule_line(name, ip),
{
    let l = rule_line(name, ip);
    let n = ip.len() as int;
    assert(forall|i: int| 0 <= i < n ==> #[trigger] l[i] == ip[i]);
    assert(forall|i: int| 0 <= i < name.len() ==> #[trigger] name[i] == l[n + 1 + i]);
    assert(l[n] == ' ');
    assert(l[0] == ip[0] && !is_white(ip[0]));
    assert(l.last() == name[name.len() - 1] && !is_white(name[name.len() - 1]));
    assert(trim_start(l) == l);
    assert(trim_end(l) == l);
    assert(!l.contains('\n')) by {
        if l.contains('\n') {
            let j = choose|j: int| 0 <= j < l.len() && l[j] == '\n';
            if j < n {
                assert(!is_white(ip[j]));
            } else if j > n {
                assert(!is_white(name[j - n - 1]));
            }
        }
    }
    lemma_word_len(l);
    let w = word_len(l) as int;
    assert(w == n) by {
        if w < n {
            assert(!is_white(ip[w]));
        } else if w > n {
            assert(is_white(l[n]));
        }
    }
    let rest = l.skip(n);
    assert(l.take(n) =~= ip);
    assert(rest.drop_first() =~= name);
    lemma_one_word(name);
    assert(trim_start(rest) == name);
    assert(name.take(name.len() as int) =~= name);
    let none = name.skip(name.len() as int);
    assert(none.len() == 0);
    assert(trim_start(none).len() == 0);
    assert(words(none) =~= Seq::empty());
    assert(words(rest) =~= seq![name]);
    assert(words(l) =~= seq![ip, name]);
}

/// Lines that are all rules have their fields for entries.
proof fn lemma_entries_all(ls: Seq<Seq<char>>, es: Seq<(Seq<char>, Seq<char>)>)
    requires
        ls.len() == es.len(),
        forall|i: int| 0 <= i < ls.len() ==> fields(#[trigger] ls[i]) == Some(es[i]),
    ensures
        entries(ls) == es,
    decreases ls.len(),
{
    if ls.len() > 0 {
        assert(fields(ls[ls.len() - 1]) == Some(es.last()));
        lemma_entries_all(ls.drop_last(), es.drop_last());
    }
    assert(entries(ls) =~= es);
}

/// Rules that each give a name its address make up the table.
proof fn lemma_addressed_all(
    hosts: Map<Seq<char>, Seq<char>>,
    es: Seq<(Seq<char>, Seq<char>)>,
    addresses: Seq<Option<Seq<char>>>,
)
    requires
        es.len() <= addresses.len(),
        forall|i: int|
            0 <= i < es.len() ==> (#[trigger] es[i]).0 == hosts[es[i].1] && normal(es[i].1) == es[i].1
                && addresses[i] == Some(es[i].0),
    ensures
        forall|k: Seq<char>| #[trigger]
            addressed(es, addresses).contains_key(k) <==> exists|i: int|
                0 <= i < es.len() && (#[trigger] es[i]).1 == k,
        forall|k: Seq<char>| #[trigger]
            addressed(es, addresses).contains_key(k) ==> addressed(es, addresses)[k] == hosts[k],
        aliases(es, addresses) == Map::<Seq<char>, Seq<char>>::empty(),
    decreases es.len(),
{
    if es.len() > 0 {
        let front = es.drop_last();
        let n = es.len() - 1;
        assert(forall|i: int| 0 <= i < front.len() ==> #[trigger] front[i] == es[i]);
        lemma_addressed_all(hosts, front, addresses);
        let less = addressed(front, addresses);
        let all = addressed(es, addresses);
        assert(es.last() == es[n]);
        assert(all == less.insert(es[n].1, es[n].0));
        assert forall|k: Seq<char>| #[trigger] all.contains_key(k) <==> exists|i: int|
            0 <= i < es.len() && (#[trigger] es[i]).1 == k by {
            if less.contains_key(k) {
                let i = choose|i: int| 0 <= i < front.len() && (#[trigger] front[i]).1 == k;
                assert(es[i].1 == k);
            }
            if exists|i: int| 0 <= i < es.len() && (#[trigger] es[i]).1 == k {
                let i = choose|i: int| 0 <= i < es.len() && (#[trigger] es[i]).1 == k;
                if i < n {
                    assert(front[i].1 == k);
                    assert(less.contains_key(k));
                }
            }
        }
        assert forall|k: Seq<char>| #[trigger] all.contains_key(k) implies all[k] == hosts[k] by {
            if k != es[n].1 {
                assert(less.contains_key(k));
            }
        }
    }
}

/// A table written out as rules is read back as it was, in whatever order: where its names are
/// words in the form in which they are looked up, and its addresses are words that begin no
/// comment.
pub proof fn law_rules_read_back(hosts: Map<Seq<char>, Seq<char>>, names: Seq<Seq<char>>)
    requires
        forall|k: Seq<char>| #[trigger] hosts.contains_key(k) <==> names.contains(k),
        forall|k: Seq<char>| #[trigger]
            hosts.contains_key(k) ==> k.len() > 0 && one_word(k) && normal(k) == k,
        forall|k: Seq<char>| #[trigger]
            hosts.contains_key(k) ==> hosts[k].len() > 0 && one_word(hosts[k]) && hosts[k][0] != '#',
    ensures
        entries(lines(rules_text(hosts, names))) == Seq::new(
            names.len(),
            |i: int| (hosts[names[i]], names[i]),
        ),
        parsed(
            rules_text(hosts, names),
            Seq::new(names.len(), |i: int| Some(hosts[names[i]])),
        ) == hosts,
{
    let ls = Seq::new(names.len(), |i: int| rule_line(names[i], hosts[names[i]]));
    let es = Seq::new(names.len(), |i: int| (hosts[names[i]], names[i]));
    let addresses = Seq::new(names.len(), |i: int| Some(hosts[names[i]]));
    assert forall|i: int| 0 <= i < ls.len() implies fields(#[trigger] ls[i]) == Some(es[i])
        && !ls[i].contains('\n') && drop_cr(ls[i]) == ls[i] by {
        assert(names.contains(names[i]));
        assert(hosts.contains_key(names[i]));
        lemma_rule_line(names[i], hosts[names[i]]);
    }
    lemma_lines_unlines(ls);
    lemma_entries_all(ls, es);
    assert forall|i: int| 0 <= i < es.len() implies (#[trigger] es[i]).0 == hosts[es[i].1] && normal(
        es[i].1,
    ) == es[i].1 && addresses[i] == Some(es[i].0) by {
        assert(names.contains(names[i]));
        assert(hosts.contains_key(names[i]));
    }
    lemma_addressed_all(hosts, es, addresses);
    let ips = addressed(es, addresses);
    let none = aliases(es, addresses);
    assert forall|k: Seq<char>| #[trigger] ips.contains_key(k) <==> hosts.contains_key(k) by {
        if hosts.contains_key(k) {
            let i = choose|i: int| 0 <= i < names.len() && names[i] == k;
            assert(es[i].1 == k);
        }
        if ips.contains_key(k) {
            let i = choose|i: int| 0 <= i < es.len() && (#[trigger] es[i]).1 == k;
            assert(names[i] == k);
        }
    }
    assert(ips =~= hosts);
    lemma_aliases_finite(es, addresses);
    assert(step(ips, none) =~= ips);
    assert(expanded(ips, none) == ips);
}

/// The rules that were read, written out again, are read back as they were: where no name came
/// out empty, and every address that was given is a word that begins no comment.
pub proof fn law_parsed_read_back(
    body: Seq<char>,
    addresses: Seq<Option<Seq<char>>>,
    names: Seq<Seq<char>>,
)
    requires
        addresses.len() == entries(lines(body)).len(),
        forall|i: int|
            0 <= i < addresses.len() ==> (#[trigger] addresses[i] matches Some(ip) ==> ip.len() > 0
                && one_word(ip) && ip[0] != '#'),
        !parsed(body, addresses).contains_key(Seq::empty()),
        forall|k: Seq<char>| #[trigger]
            parsed(body, addresses).contains_key(k) <==> names.contains(k),
    ensures
        parsed(
            rules_text(parsed(body, addresses), names),
            Seq::new(names.len(), |i: int| Some(parsed(body, addresses)[names[i]])),
        ) == parsed(body, addresses),
{
    let hosts = parsed(body, addresses);
    assert forall|k: Seq<char>| #[trigger] hosts.contains_key(k) implies k.len() > 0 && one_word(k)
        && normal(k) == k && hosts[k].len() > 0 && one_word(hosts[k]) && hosts[k][0] != '#' by {
        law_names_are_words(body, addresses, k);
        law_addresses_are_given(body, addresses, k);
        if k.len() == 0 {
            assert(k =~= Seq::empty());
        }
    }
    law_rules_read_back(hosts, names);
}

/// What the first words of rules spell, by what each word spells.
pub open spec fn spelled(
    es: Seq<(Seq<char>, Seq<char>)>,
    spells: spec_fn(Seq<char>) -> Option<Seq<char>>,
) -> Seq<Option<Seq<char>>> {
    Seq::new(es.len(), |i: int| spells(es[i].0))
}

/// Whether a reading of addresses is in order: an address comes out as a word that begins no
/// comment, and is read as itself.
pub open spec fn settled(spells: spec_fn(Seq<char>) -> Option<Seq<char>>) -> bool {
    forall|w: Seq<char>| #[trigger] spells(w) matches Some(ip) ==> ip.len() > 0 && one_word(ip) && ip[0]
        != '#' && spells(ip) == Some(ip)
}

/// The rules that were read, written out again, are read back as they were, whatever reading of
/// addresses is used, so long as it is in order; and every address in them is read as itself.
pub proof fn law_rules_reread(
    body: Seq<char>,
    names: Seq<Seq<char>>,
    spells: spec_fn(Seq<char>) -> Option<Seq<char>>,
)
    requires
        settled(spells),
        ({
            let hosts = parsed(body, spelled(entries(lines(body)), spells));
            &&& !hosts.contains_key(Seq::empty())
            &&& forall|k: Seq<char>| #[trigger] hosts.contains_key(k) <==> names.contains(k)
        }),
    ensures
        ({
            let hosts = parsed(body, spelled(entries(lines(body)), spells));
            let text = rules_text(hosts, names);
            &&& parsed(text, spelled(entries(lines(text)), spells)) == hosts
            &&& forall|k: Seq<char>| #[trigger] hosts.contains_key(k) ==> normal(k) == k && spells(
                hosts[k],
            ) == Some(hosts[k])
        }),
{
    let es = entries(lines(body));
    let addresses = spelled(es, spells);
    let hosts = parsed(body, addresses);
    assert forall|k: Seq<char>| #[trigger] hosts.contains_key(k) implies k.len() > 0 && one_word(k)
        && normal(k) == k && hosts[k].len() > 0 && one_word(hosts[k]) && hosts[k][0] != '#' && spells(
        hosts[k],
    ) == Some(hosts[k]) by {
        law_names_are_words(body, addresses, k);
        law_addresses_are_given(body, addresses, k);
        let i = choose|i: int| 0 <= i < es.len() && #[trigger] addresses[i] == Some(hosts[k]);
        assert(spells(es[i].0) == Some(hosts[k]));
        if k.len() == 0 {
            assert(k =~= Seq::empty());
        }
    }
    law_rules_read_back(hosts, names);
    let again = entries(lines(rules_text(hosts, names)));
    assert forall|i: int| 0 <= i < names.len() implies spells(hosts[#[trigger] names[i]]) == Some(
        hosts[names[i]],
    ) by {
        assert(names.contains(names[i]));
        assert(hosts.contains_key(names[i]));
    }
    assert(spelled(again, spells) =~= Seq::new(names.len(), |i: int| Some(hosts[names[i]])));
}

/// Whether every alias that has an address has that of the name it stands for.
pub open spec fn agrees(
    ips: Map<Seq<char>, Seq<char>>,
    cnames: Map<Seq<char>, Seq<char>>,
) -> bool {
    forall|n: Seq<char>| #[trigger]
        ips.contains_key(n) && cnames.contains_key(n) ==> ips.contains_key(cnames[n]) && ips[n]
            == ips[cnames[n]]
}

proof fn lemma_step_agrees(ips: Map<Seq<char>, Seq<char>>, cnames: Map<Seq<char>, Seq<char>>)
    requires
        cnames.dom().finite(),
        agrees(ips, cnames),
    ensures
        agrees(expanded(ips, cnames), cnames),
    decreases cnames.dom().difference(ips.dom()).len(),
{
    let next = step(ips, cnames);
    assert forall|n: Seq<char>| #[trigger] next.contains_key(n) && cnames.contains_key(n) implies next.contains_key(
        cnames[n],
    ) && next[n] == next[cnames[n]] by {
        let m = cnames[n];
        if ips.contains_key(n) {
            assert(leads_on(ips, cnames, n));
        }
        assert(ips.contains_key(m));
        assert(next.contains_key(m));
    }
    if next.dom() != ips.dom() {
        lemma_step_grows(ips, cnames);
        lemma_step_agrees(next, cnames);
    }
}

/// Where no rule gives an alias an address of its own, every alias has in the end the address
/// of the name it stands for, however long the chain.
pub proof fn law_alias_follows_name(
    ips: Map<Seq<char>, Seq<char>>,
    cnames: Map<Seq<char>, Seq<char>>,
    alias: Seq<char>,
)
    requires
        cnames.dom().finite(),
        ips.dom().disjoint(cnames.dom()),
        cnames.contains_key(alias),
        expanded(ips, cnames).contains_key(cnames[alias]),
    ensures
        expanded(ips, cnames).contains_key(alias),
        expanded(ips, cnames)[alias] == expanded(ips, cnames)[cnames[alias]],
{
    assert(agrees(ips, cnames)) by {
        assert forall|n: Seq<char>| #[trigger] ips.contains_key(n) && cnames.contains_key(n) implies false by {
            assert(ips.dom().contains(n) && cnames.dom().contains(n));
        }
    }
    law_expansion_closed(ips, cnames, alias);
    lemma_step_agrees(ips, cnames);
    assert(leads_on(expanded(ips, cnames), cnames, alias));
}

/// The address of a name is that of the nearest of itself and the names above it that has one.
#[verifier::spinoff_prover]
pub proof fn law_lookup_nearest(hosts: Map<Seq<char>, Seq<char>>, name: Seq<char>, k: int)
    requires
        label_start(name, k),
        hosts.contains_key(name.skip(k)),
        forall|j: int|
            0 <= j < k && #[trigger] label_start(name, j) ==> !hosts.contains_key(name.skip(j)),
    ensures
        lookup(hosts, name) == Some(hosts[name.skip(k)]),
    decreases name.len(),
{
    assert(name.skip(0) =~= name);
    if k > 0 {
        assert(label_start(name, 0));
        name.index_of_first_ensures('.');
        assert(name[k - 1] == '.');
        let i = name.index_of_first('.').unwrap();
        let rest = name.skip(i + 1);
        assert(label_start(name, i + 1));
        assert(rest.skip(k - i - 1) =~= name.skip(k));
        assert(label_start(rest, k - i - 1)) by {
            if k - i - 1 > 0 {
                assert(rest[k - i - 2] == name[k - 1]);
            }
        }
        assert forall|j: int|
            0 <= j < k - i - 1 && #[trigger] label_start(rest, j) implies !hosts.contains_key(
            rest.skip(j),
        ) by {
            if j > 0 {
                assert(rest[j - 1] == name[j + i]);
            }
            assert(label_start(name, j + i + 1));
            assert(rest.skip(j) =~= name.skip(j + i + 1));
        }
        law_lookup_nearest(hosts, rest, k - i - 1);
    }
}

/// A name has no address where neither it nor a name above it has one.
#[verifier::spinoff_prover]
pub proof fn law_lookup_none(hosts: Map<Seq<char>, Seq<char>>, name: Seq<char>)
    requires
        forall|j: int| #[trigger] label_start(name, j) ==> !hosts.contains_key(name.skip(j)),
    ensures
        lookup(hosts, name) is None,
    decreases name.len(),
{
    assert(name.skip(0) =~= name);
    assert(label_start(name, 0));
    name.index_of_first_ensures('.');
    if let Some(i) = name.index_of_first('.') {
        let rest = name.skip(i + 1);
        assert forall|j: int| #[trigger] label_start(rest, j) implies !hosts.contains_key(
            rest.skip(j),
        ) by {
            if j > 0 {
                assert(rest[j - 1] == name[j + i]);
            }
            assert(label_start(name, j + i + 1));
            assert(rest.skip(j) =~= name.skip(j + i + 1));
        }
        law_lookup_none(hosts, rest);
    }
}

/// Whatever stands below a covered name is covered too.
proof fn lemma_lookup_below(hosts: Map<Seq<char>, Seq<char>>, sub: Seq<char>, name: Seq<char>)
    requires
        lookup(hosts, name) is Some,
    ensures
        lookup(hosts, sub.push('.') + name) is Some,
    decreases sub.len(),
{
    let all = sub.push('.') + name;
    if !hosts.contains_key(all) {
        all.index_of_first_ensures('.');
        assert(all[sub.len() as int] == '.');
        let i = all.index_of_first('.').unwrap();
        if i < sub.len() {
            let less = sub.skip(i + 1);
            assert(all.skip(i + 1) =~= less.push('.') + name);
            lemma_lookup_below(hosts, less, name);
        } else {
            assert(all.skip(i + 1) =~= name);
        }
    }
}

proof fn lemma_trim_end_char_add(a: Seq<char>, b: Seq<char>, c: char)
    requires
        trim_end_char(b, c).len() > 0,
    ensures
        trim_end_char(a + b, c) == a + trim_end_char(b, c),
    decreases b.len(),
{
    assert((a + b).last() == b.last());
    if b.last() == c {
        assert((a + b).drop_last() =~= a + b.drop_last());
        lemma_trim_end_char_add(a, b.drop_last(), c);
    }
}

/// A host below a covered host is covered.
pub proof fn law_subdomain_covered(
    hosts: Map<Seq<char>, Seq<char>>,
    sub: Seq<char>,
    host: Seq<char>,
)
    requires
        covered(hosts, host),
        normal(host).len() > 0,
    ensures
        covered(hosts, sub.push('.') + host),
{
    lemma_trim_end_char_add(sub.push('.'), host, '.');
    assert(normal(sub.push('.') + host) =~= lower(sub).push('.') + normal(host));
    lemma_lookup_below(hosts, lower(sub), normal(host));
}

proof fn lemma_trim_end_char_done(s: Seq<char>, c: char)
    ensures
        trim_end_char(s, c).len() > 0 ==> trim_end_char(s, c).last() != c,
    decreases s.len(),
{
    if s.len() > 0 && s.last() == c {
        lemma_trim_end_char_done(s.drop_last(), c);
    }
}

/// Neither a dot at its end nor its capital letters change what a host is; what is normal
/// stays as it is.
pub proof fn law_normal(host: Seq<char>)
    ensures
        normal(host.push('.')) == normal(host),
        normal(lower(host)) == normal(host),
        normal(normal(host)) == normal(host),
    decreases host.len(),
{
    assert(host.push('.').drop_last() =~= host);
    lemma_lower_trim(host);
    let t = trim_end_char(host, '.');
    lemma_trim_end_char_done(host, '.');
    assert(lower(lower(t)) =~= lower(t));
    assert(trim_end_char(lower(t), '.') == lower(t)) by {
        if t.len() > 0 {
            assert(lower(t).last() == lower_char(t.last()));
        }
    }
}

proof fn lemma_lower_trim(host: Seq<char>)
    ensures
        lower(trim_end_char(lower(host), '.')) == lower(trim_end_char(host, '.')),
    decreases host.len(),
{
    if host.len() > 0 && host.last() == '.' {
        assert(lower(host).last() == '.');
        assert(lower(host).drop_last() =~= lower(host.drop_last()));
        lemma_lower_trim(host.drop_last());
    } else if host.len() > 0 {
        assert(lower(host).last() == lower_char(host.last()));
        assert(lower(host).last() != '.');
        assert(lower(lower(host)) =~= lower(host));
    } else {
        assert(lower(lower(host)) =~= lower(host));
    }
}

/// A host is looked up without its dots at the end, in small letters, and otherwise as it is.
pub proof fn law_normal_text(host: Seq<char>, dots: Seq<char>)
    requires
        host.len() > 0 ==> host.last() != '.',
        forall|i: int| 0 <= i < dots.len() ==> #[trigger] dots[i] == '.',
    ensures
        normal(host + dots) == lower(host),
{
    law_trim_end_char(host, dots, '.');
}

/// A line whose first two words are `a` and `b`, and whose first character that is not white
/// space is no `#`, is a rule of these two, whatever stands behind them.
pub proof fn law_rule_read(
    front: Seq<char>,
    a: Seq<char>,
    gap: Seq<char>,
    b: Seq<char>,
    behind: Seq<char>,
)
    requires
        forall|i: int| 0 <= i < front.len() ==> is_white(#[trigger] front[i]),
        a.len() > 0 && a[0] != '#',
        forall|i: int| 0 <= i < a.len() ==> !is_white(#[trigger] a[i]),
        gap.len() > 0,
        forall|i: int| 0 <= i < gap.len() ==> is_white(#[trigger] gap[i]),
        b.len() > 0,
        forall|i: int| 0 <= i < b.len() ==> !is_white(#[trigger] b[i]),
        behind.len() > 0 ==> is_white(behind[0]),
    ensures
        fields(front + a + gap + b + behind) == Some((a, b)),
{
    let line = front + a + gap + b + behind;
    let core = a + (gap + b);
    let t = trim(line);
    lemma_trim_cut(front, core, behind);
    assert(front + core + behind =~= line);
    let rest = t.skip(core.len() as int);
    assert(t =~= core + rest);
    assert(rest.len() > 0 ==> rest[0] == behind[0]);
    let none: Seq<char> = Seq::empty();
    law_first_word(none, a, gap + b + rest);
    assert(none + a + (gap + b + rest) =~= t);
    law_first_word(gap, b, rest);
    assert(words(t)[0] == a);
    assert(words(t)[1] == b);
    assert(t[0] == a[0]);
}

/// A line whose first character that is not white space is a `#` is no rule.
pub proof fn law_comment_skipped(front: Seq<char>, rest: Seq<char>)
    requires
        forall|i: int| 0 <= i < front.len() ==> is_white(#[trigger] front[i]),
    ensures
        fields(front + seq!['#'] + rest) is None,
{
    lemma_trim_cut(front, seq!['#'], rest);
}

/// A line with one word or none is no rule.
pub proof fn law_short_line_skipped(front: Seq<char>, word: Seq<char>, behind: Seq<char>)
    requires
        forall|i: int| 0 <= i < front.len() ==> is_white(#[trigger] front[i]),
        forall|i: int| 0 <= i < word.len() ==> !is_white(#[trigger] word[i]),
        forall|i: int| 0 <= i < behind.len() ==> is_white(#[trigger] behind[i]),
    ensures
        fields(front + word + behind) is None,
{
    law_trim(front, word, behind);
    let none: Seq<char> = Seq::empty();
    law_no_word(none);
    if word.len() > 0 {
        law_first_word(none, word, none);
        assert(none + word + none =~= word);
        assert(words(word) =~= seq![word]);
    } else {
        assert(word =~= none);
    }
}

/// The rules of a text are those of its lines, in order: each line that is a rule gives one.
pub proof fn law_entries(a: Seq<Seq<char>>, line: Seq<char>, b: Seq<Seq<char>>)
    ensures
        entries(a + seq![line] + b) == entries(a) + (match fields(line) {
            Some(e) => seq![e],
            None => Seq::empty(),
        }) + entries(b),
        entries(Seq::<Seq<char>>::empty()).len() == 0,
    decreases b.len(),
{
    let all = a + seq![line] + b;
    if b.len() == 0 {
        assert(all.drop_last() =~= a);
        assert(all.last() == line);
        assert(entries(b) =~= Seq::empty());
    } else {
        assert(all.drop_last() =~= a + seq![line] + b.drop_last());
        assert(all.last() == b.last());
        law_entries(a, line, b.drop_last());
    }
    assert(entries(all) =~= entries(a) + (match fields(line) {
        Some(e) => seq![e],
        None => Seq::empty(),
    }) + entries(b));
}

proof fn lemma_last_address(
    es: Seq<(Seq<char>, Seq<char>)>,
    addresses: Seq<Option<Seq<char>>>,
    i: int,
)
    requires
        0 <= i < es.len(),
        addresses[i] is Some,
        forall|j: int|
            i < j < es.len() && #[trigger] addresses[j] is Some ==> normal(es[j].1) != normal(es[i].1),
    ensures
        addressed(es, addresses).contains_key(normal(es[i].1)),
        addressed(es, addresses)[normal(es[i].1)] == addresses[i].unwrap(),
    decreases es.len(),
{
    let front = es.drop_last();
    if i < es.len() - 1 {
        assert(forall|j: int| 0 <= j < front.len() ==> #[trigger] front[j] == es[j]);
        lemma_last_address(front, addresses, i);
        assert(addresses[es.len() - 1] is Some ==> normal(es.last().1) != normal(es[i].1));
    }
}

proof fn lemma_last_alias(
    es: Seq<(Seq<char>, Seq<char>)>,
    addresses: Seq<Option<Seq<char>>>,
    i: int,
)
    requires
        0 <= i < es.len(),
        addresses[i] is None,
        forall|j: int|
            i < j < es.len() && #[trigger] addresses[j] is None ==> normal(es[j].0) != normal(es[i].0),
    ensures
        aliases(es, addresses).contains_key(normal(es[i].0)),
        aliases(es, addresses)[normal(es[i].0)] == normal(es[i].1),
    decreases es.len(),
{
    let front = es.drop_last();
    if i < es.len() - 1 {
        assert(forall|j: int| 0 <= j < front.len() ==> #[trigger] front[j] == es[j]);
        lemma_last_alias(front, addresses, i);
        assert(addresses[es.len() - 1] is None ==> normal(es.last().0) != normal(es[i].0));
    }
}

/// A name that the rules give an address, or make an alias, has a rule that does so.
proof fn lemma_has_rule(
    es: Seq<(Seq<char>, Seq<char>)>,
    addresses: Seq<Option<Seq<char>>>,
    name: Seq<char>,
)
    ensures
        addressed(es, addresses).contains_key(name) ==> exists|i: int|
            0 <= i < es.len() && (#[trigger] addresses[i]) is Some && normal(es[i].1) == name,
        aliases(es, addresses).contains_key(name) ==> exists|i: int|
            0 <= i < es.len() && (#[trigger] addresses[i]) is None && normal(es[i].0) == name
                && normal(es[i].1) == aliases(es, addresses)[name],
    decreases es.len(),
{
    if es.len() > 0 {
        let front = es.drop_last();
        let n = es.len() - 1;
        lemma_has_rule(front, addresses, name);
        assert(es.last() == es[n]);
        if addressed(es, addresses).contains_key(name) {
            if addresses[n] is Some && normal(es[n].1) == name {
            } else {
                assert(addressed(front, addresses).contains_key(name));
                let i = choose|i: int|
                    0 <= i < front.len() && (#[trigger] addresses[i]) is Some && normal(front[i].1)
                        == name;
                assert(front[i] == es[i]);
            }
        }
        if aliases(es, addresses).contains_key(name) {
            if addresses[n] is None && normal(es[n].0) == name {
            } else {
                assert(aliases(front, addresses).contains_key(name));
                let i = choose|i: int|
                    0 <= i < front.len() && (#[trigger] addresses[i]) is None && normal(front[i].0)
                        == name && normal(front[i].1) == aliases(front, addresses)[name];
                assert(front[i] == es[i]);
            }
        }
    }
}

/// A name has the address of the last rule that gives it one, where no rule makes it an alias.
pub proof fn law_last_rule_counts(body: Seq<char>, addresses: Seq<Option<Seq<char>>>, i: int)
    requires
        0 <= i < entries(lines(body)).len(),
        addresses[i] is Some,
        forall|j: int|
            i < j < entries(lines(body)).len() && #[trigger] addresses[j] is Some ==> normal(
                entries(lines(body))[j].1,
            ) != normal(entries(lines(body))[i].1),
        forall|j: int|
            0 <= j < entries(lines(body)).len() && #[trigger] addresses[j] is None ==> normal(
                entries(lines(body))[j].0,
            ) != normal(entries(lines(body))[i].1),
    ensures
        parsed(body, addresses).contains_key(normal(entries(lines(body))[i].1)),
        Some(parsed(body, addresses)[normal(entries(lines(body))[i].1)]) == addresses[i],
{
    let es = entries(lines(body));
    let name = normal(es[i].1);
    lemma_aliases_finite(es, addresses);
    lemma_last_address(es, addresses, i);
    lemma_has_rule(es, addresses, name);
    law_expansion_closed(addressed(es, addresses), aliases(es, addresses), name);
}

/// A rule with no address makes its first name an alias of its second: where the second is
/// covered, so is the first, and where no name is both an alias and given an address, it has the
/// address of the second.
pub proof fn law_alias_rule_counts(body: Seq<char>, addresses: Seq<Option<Seq<char>>>, i: int)
    requires
        0 <= i < entries(lines(body)).len(),
        addresses[i] is None,
        forall|j: int|
            i < j < entries(lines(body)).len() && #[trigger] addresses[j] is None ==> normal(
                entries(lines(body))[j].0,
            ) != normal(entries(lines(body))[i].0),
        parsed(body, addresses).contains_key(normal(entries(lines(body))[i].1)),
    ensures
        parsed(body, addresses).contains_key(normal(entries(lines(body))[i].0)),
        (forall|j: int, m: int|
            #![trigger addresses[j], addresses[m]]
            0 <= j < entries(lines(body)).len() && 0 <= m < entries(lines(body)).len()
                && addresses[j] is Some && addresses[m] is None ==> normal(
                entries(lines(body))[j].1,
            ) != normal(entries(lines(body))[m].0)) ==> parsed(body, addresses)[normal(
            entries(lines(body))[i].0,
        )] == parsed(body, addresses)[normal(entries(lines(body))[i].1)],
{
    let es = entries(lines(body));
    let ips = addressed(es, addresses);
    let cnames = aliases(es, addresses);
    let alias = normal(es[i].0);
    lemma_aliases_finite(es, addresses);
    lemma_last_alias(es, addresses, i);
    law_expansion_closed(ips, cnames, alias);
    if forall|j: int, m: int|
        #![trigger addresses[j], addresses[m]]
        0 <= j < es.len() && 0 <= m < es.len() && addresses[j] is Some && addresses[m] is None
            ==> normal(es[j].1) != normal(es[m].0) {
        assert(ips.dom().disjoint(cnames.dom())) by {
            assert forall|n: Seq<char>| ips.dom().contains(n) implies !cnames.dom().contains(n) by {
                lemma_has_rule(es, addresses, n);
                if cnames.contains_key(n) {
                    let j = choose|j: int|
                        0 <= j < es.len() && (#[trigger] addresses[j]) is Some && normal(es[j].1) == n;
                    let m = choose|m: int|
                        0 <= m < es.len() && (#[trigger] addresses[m]) is None && normal(es[m].0) == n
                            && normal(es[m].1) == cnames[n];
                    assert(normal(es[j].1) != normal(es[m].0));
                }
            }
        }
        law_alias_follows_name(ips, cnames, alias);
    }
}

/// Whether a chain of aliases leads from its first name to a name with an address.
pub open spec fn leads_to_address(
    ips: Map<Seq<char>, Seq<char>>,
    cnames: Map<Seq<char>, Seq<char>>,
    chain: Seq<Seq<char>>,
) -> bool {
    &&& chain.len() > 0
    &&& ips.contains_key(chain.last())
    &&& forall|i: int|
        0 <= i < chain.len() - 1 ==> cnames.contains_key(#[trigger] chain[i]) && cnames[chain[i]]
            == chain[i + 1]
}

/// A name is covered only where aliases lead from it to a name that a rule gives an address: a
/// circle of aliases covers nothing.
pub proof fn law_covered_through_chain(
    ips: Map<Seq<char>, Seq<char>>,
    cnames: Map<Seq<char>, Seq<char>>,
    name: Seq<char>,
)
    requires
        cnames.dom().finite(),
        expanded(ips, cnames).contains_key(name),
    ensures
        exists|chain: Seq<Seq<char>>| #[trigger]
            leads_to_address(ips, cnames, chain) && chain[0] == name,
    decreases cnames.dom().difference(ips.dom()).len(),
{
    let next = step(ips, cnames);
    if next.dom() == ips.dom() {
        assert(ips.dom().contains(name));
        assert(leads_to_address(ips, cnames, seq![name]));
    } else {
        lemma_step_grows(ips, cnames);
        law_covered_through_chain(next, cnames, name);
        let chain = choose|chain: Seq<Seq<char>>| #[trigger]
            leads_to_address(next, cnames, chain) && chain[0] == name;
        let end = chain.last();
        if ips.contains_key(end) {
            assert(leads_to_address(ips, cnames, chain));
        } else {
            assert(leads_on(ips, cnames, end));
            let longer = chain.push(cnames[end]);
            assert forall|i: int| 0 <= i < longer.len() - 1 implies cnames.contains_key(
                #[trigger] longer[i],
            ) && cnames[longer[i]] == longer[i + 1] by {
                if i < chain.len() - 1 {
                    assert(longer[i] == chain[i]);
                    assert(longer[i + 1] == chain[i + 1]);
                } else {
                    assert(longer[i] == end);
                }
            }
            assert(leads_to_address(ips, cnames, longer));
        }
    }
}

/// An alias of a name that has an address and is no alias itself has that address, even where a
/// rule gives it one of its own.
pub proof fn law_alias_takes_over(
    ips: Map<Seq<char>, Seq<char>>,
    cnames: Map<Seq<char>, Seq<char>>,
    alias: Seq<char>,
)
    requires
        cnames.dom().finite(),
        cnames.contains_key(alias),
        ips.contains_key(cnames[alias]),
        !cnames.contains_key(cnames[alias]),
    ensures
        expanded(ips, cnames).contains_key(alias),
        expanded(ips, cnames)[alias] == ips[cnames[alias]],
    decreases cnames.dom().difference(ips.dom()).len(),
{
    let next = step(ips, cnames);
    assert(leads_on(ips, cnames, alias));
    assert(next.contains_key(alias) && next[alias] == ips[cnames[alias]]);
    assert(next.contains_key(cnames[alias]) && next[cnames[alias]] == ips[cnames[alias]]);
    if next.dom() != ips.dom() {
        lemma_step_grows(ips, cnames);
        law_alias_takes_over(next, cnames, alias);
    }
}

/// A name that the rules have an address for is looked up at that; any other where the name one
/// label shorter is, and nowhere where there is no dot left.
pub proof fn law_lookup_step(
    hosts: Map<Seq<char>, Seq<char>>,
    label: Seq<char>,
    above: Seq<char>,
)
    requires
        !label.contains('.'),
    ensures
        ({
            let name = label.push('.') + above;
            lookup(hosts, name) == if hosts.contains_key(name) {
                Some(hosts[name])
            } else {
                lookup(hosts, above)
            }
        }),
        lookup(hosts, label) == if hosts.contains_key(label) {
            Some(hosts[label])
        } else {
            None
        },
{
    let name = label.push('.') + above;
    name.index_of_first_ensures('.');
    label.index_of_first_ensures('.');
    assert(name[label.len() as int] == '.');
    let i = name.index_of_first('.').unwrap();
    assert(i == label.len()) by {
        if i < label.len() {
            assert(label[i] == '.');
        }
    }
    assert(name.skip(i + 1) =~= above);
}

/// A host is covered where, and only where, there is an address to look it up at, with its dots
/// at the end and its capital letters left out of account.
pub proof fn law_covered(hosts: Map<Seq<char>, Seq<char>>, host: Seq<char>, dots: Seq<char>)
    requires
        host.len() > 0 ==> host.last() != '.',
        forall|i: int| 0 <= i < dots.len() ==> #[trigger] dots[i] == '.',
    ensures
        covered(hosts, host + dots) <==> lookup(hosts, lower(host)) is Some,
{
    law_normal_text(host, dots);
}

/// An endpoint is the address and the port of HTTPS, with a colon between them.
pub proof fn law_endpoint_port(ip: Seq<char>)
    ensures
        https_endpoint(ip) == ip.push(':') + seq!['4', '4', '3'],
{
    reveal_strlit(":443");
    assert(https_endpoint(ip) =~= ip.push(':') + seq!['4', '4', '3']);
}

/// Labels as they stand in a DNS message: the length of each, and itself.
pub open spec fn wire_labels(labels: Seq<Seq<u8>>) -> Seq<u8>
    decreases labels.len(),
{
    if labels.len() == 0 {
        Seq::empty()
    } else {
        seq![labels[0].len() as u8] + labels[0] + wire_labels(labels.drop_first())
    }
}

proof fn lemma_walk_labels(front: Seq<u8>, labels: Seq<Seq<u8>>, behind: Seq<u8>)
    requires
        forall|i: int| 0 <= i < labels.len() ==> 0 < (#[trigger] labels[i]).len() < 0x40,
    ensures
        ({
            let msg = front + wire_labels(labels) + behind;
            let at = front.len() + wire_labels(labels).len();
            walk(msg, front.len() as int) == match walk(msg, at as int) {
                Some((more, end)) => Some((labels + more, end)),
                None => None,
            }
        }),
    decreases labels.len(),
{
    let msg = front + wire_labels(labels) + behind;
    let off = front.len() as int;
    if labels.len() == 0 {
        assert(msg =~= front + behind);
        if let Some((more, end)) = walk(msg, off) {
            assert(labels + more =~= more);
        }
    } else {
        let l = labels[0];
        let rest = labels.drop_first();
        let longer = front + (seq![l.len() as u8] + l);
        assert(forall|i: int| 0 <= i < rest.len() ==> #[trigger] rest[i] == labels[i + 1]);
        lemma_walk_labels(longer, rest, behind);
        assert(longer + wire_labels(rest) + behind =~= msg);
        assert(msg[off] == l.len() as u8);
        assert(msg.subrange(off + 1, off + 1 + l.len()) =~= l);
        if let Some((more, end)) = walk(msg, (longer.len() + wire_labels(rest).len()) as int) {
            assert(seq![l] + (rest + more) =~= labels + more);
        }
    }
}

/// The question of a message in the form of DNS is read: the labels of the name joined by dots,
/// the type, and where the question ends. That holds of a name that ends with an empty label and
/// of one that ends with a pointer, which is passed over; a name of more than 253 bytes is not
/// read.
pub proof fn law_question_read(
    header: Seq<u8>,
    texts: Seq<Seq<char>>,
    end: Seq<u8>,
    qtype: u16,
    behind: Seq<u8>,
)
    requires
        header.len() == 12,
        forall|i: int| 0 <= i < texts.len() ==> 0 < encode_utf8(#[trigger] texts[i]).len() < 64,
        end == seq![0u8] || (end.len() == 2 && end[0] >= 64),
        behind.len() >= 2,
    ensures
        ({
            let labels = Seq::new(texts.len(), |i: int| encode_utf8(texts[i]));
            let msg = header + wire_labels(labels) + end + seq![
                (qtype / 256) as u8,
                (qtype % 256) as u8,
            ] + behind;
            question(msg) == if encode_utf8(join(texts, '.')).len() <= 253 {
                Some((join(texts, '.'), qtype, 12int + wire_labels(labels).len() + end.len() + 4))
            } else {
                None
            }
        }),
{
    let labels = Seq::new(texts.len(), |i: int| encode_utf8(texts[i]));
    let w = wire_labels(labels);
    let kind = seq![(qtype / 256) as u8, (qtype % 256) as u8];
    let msg = header + w + end + kind + behind;
    let tail = end + kind + behind;
    assert(header + w + tail =~= msg);
    lemma_walk_labels(header, labels, tail);
    let at = 12 + w.len();
    assert(msg[at as int] == end[0]);
    let none: Seq<Seq<u8>> = Seq::empty();
    assert(walk(msg, at as int) == Some((none, (at + end.len()) as int)));
    assert(labels + none =~= labels);
    assert(label_texts(labels) =~= texts) by {
        assert forall|i: int| 0 <= i < texts.len() implies label_texts(labels)[i] == texts[i] by {
            law_text_of(texts[i]);
        }
    }
    assert(msg[(at + end.len()) as int] == kind[0]);
    assert(msg[(at + end.len() + 1) as int] == kind[1]);
    assert((kind[0] * 256 + kind[1]) as u16 == qtype);
}

/// The question of a message rests on nothing behind it, and is not read before it is all there.
pub proof fn law_question_settled(msg: Seq<u8>, more: Seq<u8>, n: int)
    requires
        question(msg) is Some,
    ensures
        question(msg + more) == question(msg),
        0 <= n < question(msg).unwrap().2 ==> question(msg.take(n)) is None,
{
    let long = msg + more;
    let (labels, end) = walk(msg, 12).unwrap();
    lemma_walk_end(msg, 12);
    lemma_walk_same(msg, long, 12);
    let short = msg.take(n);
    if 12 <= n < end + 4 {
        if let Some((ls, e)) = walk(short, 12) {
            if e <= n {
                lemma_walk_end(short, 12);
                lemma_walk_same(short, msg, 12);
            }
        }
    }
}

/// The reply to a query is a DNS message with the query's identifier, which says that it is a
/// reply without an error, of a server that looks further where asked; it holds one question, the
/// query's, and nothing but the answers behind it. There is one answer where a record A or any
/// record was asked for, and else none: it points the name of the question, for 300 seconds, at
/// 127.0.0.1.
pub proof fn law_reply_message(req: Seq<u8>, qtype: u16, end: int)
    requires
        12 <= end <= req.len(),
    ensures
        ({
            let reply = local_reply(req, qtype, end);
            let count: int = if qtype == 1 || qtype == 255 {
                1
            } else {
                0
            };
            &&& reply.len() == end + 16 * count
            &&& reply[0] == req[0] && reply[1] == req[1]
            &&& reply[2] == 0x81 && reply[3] == 0x80
            &&& reply[4] * 256 + reply[5] == 1
            &&& reply[6] * 256 + reply[7] == count
            &&& reply[8] == 0 && reply[9] == 0 && reply[10] == 0 && reply[11] == 0
            &&& forall|i: int| 12 <= i < end ==> reply[i] == req[i]
            &&& count == 1 ==> {
                &&& reply[end] == 0xC0 && reply[end + 1] == 12
                &&& reply[end + 2] * 256 + reply[end + 3] == 1
                &&& reply[end + 4] * 256 + reply[end + 5] == 1
                &&& reply[end + 6] == 0 && reply[end + 7] == 0 && reply[end + 8] * 256 + reply[end + 9]
                    == 300
                &&& reply[end + 10] * 256 + reply[end + 11] == 4
                &&& reply[end + 12] == 127 && reply[end + 13] == 0 && reply[end + 14] == 0 && reply[end
                    + 15] == 1
            }
        }),
{
    let reply = local_reply(req, qtype, end);
    let q = req.subrange(12, end);
    assert forall|i: int| 12 <= i < end implies reply[i] == req[i] by {
        assert(reply[i] == q[i - 12]);
    }
}

} // verus!
