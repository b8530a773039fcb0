//! A look into a certificate in DER, for what cannot be written again: some of what may stand in
//! the certificate of an authority is read without complaint, and ends the program when a
//! certificate is written that repeats it.
use vstd::prelude::*;
use vstd::slice::slice_subrange;
use crate::text::push_bytes;

verus! {

/// A number in bytes, the highest first.
pub open spec fn big_endian(s: Seq<u8>) -> nat
    decreases s.len(),
{
    if s.len() == 0 {
        0
    } else {
        big_endian(s.drop_last()) * 256 + s.last() as nat
    }
}

/// Where the content of the element in front begins, and how long it is. Tags of more than one
/// byte are not read, nor lengths of more than eight.
pub open spec fn header(s: Seq<u8>) -> Option<(int, nat)> {
    if s.len() < 2 || s[0] % 32 == 31 {
        None
    } else if s[1] < 0x80 {
        Some((2, s[1] as nat))
    } else {
        let k = s[1] - 0x80;
        if k == 0 || k > 8 || s.len() < 2 + k {
            None
        } else {
            Some((2 + k, big_endian(s.subrange(2, 2 + k))))
        }
    }
}

/// The element in front, its tag and its content, and what stands behind it.
pub open spec fn element(s: Seq<u8>) -> Option<((u8, Seq<u8>), Seq<u8>)> {
    match header(s) {
        None => None,
        Some((h, n)) => if h + n > s.len() {
            None
        } else {
            Some(((s[0], s.subrange(h, h + n)), s.skip(h + n)))
        },
    }
}

/// The elements that the bytes are made up of.
pub open spec fn elements(s: Seq<u8>) -> Option<Seq<(u8, Seq<u8>)>>
    decreases s.len(),
{
    if s.len() == 0 {
        Some(Seq::empty())
    } else {
        match element(s) {
            None => None,
            Some((e, rest)) => match elements(rest) {
                None => None,
                Some(es) => Some(seq![e] + es),
            },
        }
    }
}

/// The number of a tag, whatever its class.
pub open spec fn tag_number(tag: u8) -> u8 {
    tag % 32
}

/// An element: its tag and its content.
pub struct Element {
    pub tag: u8,
    pub content: Vec<u8>,
}

impl View for Element {
    type V = (u8, Seq<u8>);

    open spec fn view(&self) -> (u8, Seq<u8>) {
        (self.tag, self.content@)
    }
}

/// What the elements hold.
pub open spec fn element_views(v: Seq<Element>) -> Seq<(u8, Seq<u8>)> {
    Seq::new(v.len(), |i: int| v[i]@)
}

/// Reads the element in front.
fn element_of(s: &[u8]) -> (r: Option<(Element, &[u8])>)
    ensures
        match r {
            Some((e, rest)) => element(s@) == Some((e@, rest@)) && rest@.len() < s@.len(),
            None => element(s@) is None,
        },
{
    if s.len() < 2 || s[0] % 32 == 31 {
        return None;
    }
    let mut h: usize = 2;
    let mut n: u64 = s[1] as u64;
    if s[1] >= 0x80 {
        let k: usize = (s[1] - 0x80) as usize;
        if k == 0 || k > 8 || s.len() < 2 + k {
            return None;
        }
        n = 0;
        let mut i: usize = 0;
        assert(s@.subrange(2, 2) =~= Seq::empty());
        while i < k
            invariant
                i <= k <= 8,
                2 + k <= s@.len(),
                n == big_endian(s@.subrange(2, 2 + i)),
                i == 0 ==> n == 0,
                i <= 1 ==> n < 0x100,
                i <= 2 ==> n < 0x1_0000,
                i <= 3 ==> n < 0x100_0000,
                i <= 4 ==> n < 0x1_0000_0000,
                i <= 5 ==> n < 0x100_0000_0000,
                i <= 6 ==> n < 0x1_0000_0000_0000,
                i <= 7 ==> n < 0x100_0000_0000_0000,
            decreases k - i,
        {
            assert(s@.subrange(2, 2 + i + 1).drop_last() =~= s@.subrange(2, 2 + i));
            n = n * 256 + s[2 + i] as u64;
            i = i + 1;
        }
        h = 2 + k;
    }
    if n > (s.len() - h) as u64 {
        return None;
    }
    let end: usize = h + n as usize;
    let mut content: Vec<u8> = Vec::new();
    push_bytes(&mut content, slice_subrange(s, h, end));
    assert(content@ =~= s@.subrange(h as int, end as int));
    let rest: &[u8] = slice_subrange(s, end, s.len());
    assert(rest@ =~= s@.skip(end as int));
    Some((Element { tag: s[0], content: content }, rest))
}

/// Reads the elements that the bytes are made up of.
fn elements_of(s: &[u8]) -> (r: Option<Vec<Element>>)
    ensures
        match r {
            Some(es) => elements(s@) == Some(element_views(es@)),
            None => elements(s@) is None,
        },
{
    let mut es: Vec<Element> = Vec::new();
    let mut rest: &[u8] = s;
    assert(element_views(es@) =~= Seq::empty());
    proof {
        if let Some(more) = elements(rest@) {
            assert(element_views(es@) + more =~= more);
        }
    }
    while rest.len() > 0
        invariant
            match elements(rest@) {
                Some(more) => elements(s@) == Some(element_views(es@) + more),
                None => elements(s@) is None,
            },
        decreases rest@.len(),
    {
        match element_of(rest) {
            None => {
                return None;
            },
            Some((e, behind)) => {
                let ghost had = es@;
                let ghost one = e@;
                es.push(e);
                proof {
                    assert(element_views(es@) =~= element_views(had).push(one));
                    if let Some(more) = elements(behind@) {
                        assert(element_views(had) + (seq![one] + more) =~= element_views(es@) + more);
                    }
                }
                rest = behind;
            },
        }
    }
    assert(element_views(es@) + Seq::empty() =~= element_views(es@));
    Some(es)
}

/// Whether an identifier can be written: it has two parts at least, and the first is below
/// three.
pub open spec fn good_oid(oid: Seq<u8>) -> bool {
    oid.len() > 0 && oid[0] < 120 && !(oid.len() == 1 && oid[0] == 0)
}

fn oid_ok(oid: &Vec<u8>) -> (r: bool)
    ensures
        r == good_oid(oid@),
{
    oid.len() > 0 && oid[0] < 120 && !(oid.len() == 1 && oid[0] == 0)
}

/// Whether an attribute of a name can be written: its identifier can, and no question mark
/// stands in its text where that is a PrintableString.
pub open spec fn good_attribute(content: Seq<u8>) -> bool {
    elements(content) matches Some(es) && es.len() >= 2 && good_oid(es[0].1) && (tag_number(es[1].0)
        == 19 ==> !es[1].1.contains(63u8))
}

fn attribute_ok(content: &Vec<u8>) -> (r: bool)
    ensures
        r == good_attribute(content@),
{
    match elements_of(content.as_slice()) {
        None => false,
        Some(es) => {
            if es.len() < 2 || !oid_ok(&es[0].content) {
                return false;
            }
            assert(element_views(es@)[0] == es@[0]@ && element_views(es@)[1] == es@[1]@);
            es[1].tag % 32 != 19 || !holds(&es[1].content, 63)
        },
    }
}

/// Whether a byte stands among others.
fn holds(s: &Vec<u8>, b: u8) -> (r: bool)
    ensures
        r == s@.contains(b),
{
    let mut i: usize = 0;
    while i < s.len()
        invariant
            i <= s@.len(),
            forall|j: int| 0 <= j < i ==> s@[j] != b,
        decreases s@.len() - i,
    {
        if s[i] == b {
            return true;
        }
        i = i + 1;
    }
    false
}

/// Whether a part of a name can be written: every attribute in it can.
pub open spec fn good_part(content: Seq<u8>) -> bool {
    elements(content) matches Some(es) && forall|i: int|
        0 <= i < es.len() ==> good_attribute((#[trigger] es[i]).1)
}

fn part_ok(content: &Vec<u8>) -> (r: bool)
    ensures
        r == good_part(content@),
{
    match elements_of(content.as_slice()) {
        None => false,
        Some(es) => {
            let mut i: usize = 0;
            while i < es.len()
                invariant
                    i <= es@.len(),
                    elements(content@) == Some(element_views(es@)),
                    forall|j: int| 0 <= j < i ==> good_attribute((#[trigger] element_views(es@)[j]).1),
                decreases es@.len() - i,
            {
                assert(element_views(es@)[i as int] == es@[i as int]@);
                if !attribute_ok(&es[i].content) {
                    assert(!good_attribute(elements(content@).unwrap()[i as int].1));
                    return false;
                }
                i = i + 1;
            }
            true
        },
    }
}

/// The identifier of the attribute in a part of a name, where the part is a set of one attribute
/// and that is well formed.
pub open spec fn sole_type(part: (u8, Seq<u8>)) -> Option<Seq<u8>> {
    match elements(part.1) {
        None => None,
        Some(es) => if tag_number(part.0) != 17 || es.len() != 1 || tag_number(es[0].0) != 16 {
            None
        } else {
            match elements(es[0].1) {
                None => None,
                Some(fields) => if fields.len() < 2 || fields[0].0 % 64 != 6 {
                    None
                } else {
                    Some(fields[0].1)
                },
            }
        },
    }
}

/// Whether a later part of a name takes the place of one: it has an attribute of the same type,
/// and all up to it are well formed.
pub open spec fn replaced(parts: Seq<(u8, Seq<u8>)>, i: int) -> bool {
    sole_type(parts[i]) is Some && exists|j: int|
        i < j < parts.len() && #[trigger] sole_type(parts[j]) == sole_type(parts[i]) && forall|m: int|
            i < m <= j ==> (#[trigger] sole_type(parts[m])) is Some
}

fn sole_type_of(part: &Element) -> (r: Option<Vec<u8>>)
    ensures
        match r {
            Some(oid) => sole_type(part@) == Some(oid@),
            None => sole_type(part@) is None,
        },
{
    let es: Vec<Element> = match elements_of(part.content.as_slice()) {
        None => {
            return None;
        },
        Some(v) => v,
    };
    if part.tag % 32 != 17 || es.len() != 1 || es[0].tag % 32 != 16 {
        return None;
    }
    assert(element_views(es@)[0] == es@[0]@);
    let fields: Vec<Element> = match elements_of(es[0].content.as_slice()) {
        None => {
            return None;
        },
        Some(v) => v,
    };
    if fields.len() < 2 || fields[0].tag % 64 != 6 {
        return None;
    }
    assert(element_views(fields@)[0] == fields@[0]@);
    let mut oid: Vec<u8> = Vec::new();
    push_bytes(&mut oid, fields[0].content.as_slice());
    assert(oid@ =~= fields@[0].content@);
    Some(oid)
}

fn is_replaced(parts: &Vec<Element>, i: usize) -> (r: bool)
    requires
        i < parts@.len(),
    ensures
        r == replaced(element_views(parts@), i as int),
{
    let ghost vs = element_views(parts@);
    assert(forall|m: int| 0 <= m < vs.len() ==> #[trigger] vs[m] == parts@[m]@);
    let kind: Vec<u8> = match sole_type_of(&parts[i]) {
        None => {
            return false;
        },
        Some(oid) => oid,
    };
    let n: usize = parts.len();
    let mut j: usize = i + 1;
    while j < n
        invariant
            i < j <= n,
            n == parts@.len(),
            vs == element_views(parts@),
            sole_type(vs[i as int]) == Some(kind@),
            forall|m: int|
                i < m < j ==> (#[trigger] sole_type(vs[m])) is Some && sole_type(vs[m])
                    != sole_type(vs[i as int]),
        decreases parts@.len() - j,
    {
        assert(vs[j as int] == parts@[j as int]@);
        match sole_type_of(&parts[j]) {
            None => {
                assert(sole_type(vs[j as int]) is None);
                return false;
            },
            Some(oid) => {
                if same_bytes(&oid, &kind) {
                    assert(sole_type(vs[j as int]) == sole_type(vs[i as int]));
                    return true;
                }
            },
        }
        j = j + 1;
    }
    false
}

/// Whether bytes are the same.
fn same_bytes(a: &Vec<u8>, b: &Vec<u8>) -> (r: bool)
    ensures
        r == (a@ == b@),
{
    if a.len() != b.len() {
        return false;
    }
    let mut i: usize = 0;
    while i < a.len()
        invariant
            i <= a@.len(),
            a@.len() == b@.len(),
            forall|j: int| 0 <= j < i ==> a@[j] == b@[j],
        decreases a@.len() - i,
    {
        if a[i] != b[i] {
            return false;
        }
        i = i + 1;
    }
    assert(a@ =~= b@);
    true
}

/// Whether a name can be written: every part of it can that no later one takes the place of.
pub open spec fn good_name(content: Seq<u8>) -> bool {
    elements(content) matches Some(es) && forall|i: int|
        0 <= i < es.len() ==> good_part((#[trigger] es[i]).1) || replaced(es, i)
}

fn name_ok(content: &Vec<u8>) -> (r: bool)
    ensures
        r == good_name(content@),
{
    match elements_of(content.as_slice()) {
        None => false,
        Some(es) => {
            let mut i: usize = 0;
            while i < es.len()
                invariant
                    i <= es@.len(),
                    elements(content@) == Some(element_views(es@)),
                    forall|j: int|
                        0 <= j < i ==> good_part((#[trigger] element_views(es@)[j]).1) || replaced(
                            element_views(es@),
                            j,
                        ),
                decreases es@.len() - i,
            {
                assert(element_views(es@)[i as int] == es@[i as int]@);
                if !part_ok(&es[i].content) && !is_replaced(&es, i) {
                    assert(!good_part(elements(content@).unwrap()[i as int].1));
                    return false;
                }
                i = i + 1;
            }
            true
        },
    }
}

/// The number that two digits spell.
pub open spec fn two_digits(s: Seq<u8>, i: int) -> int {
    (s[i] - 48) * 10 + (s[i + 1] - 48)
}

/// The number that two digits spell.
fn two_digits_of(s: &Vec<u8>, i: usize) -> (r: i64)
    requires
        i < 16,
        i + 1 < s@.len(),
    ensures
        r == two_digits(s@, i as int),
        -528 <= r <= 2277,
{
    (s[i] as i64 - 48) * 10 + (s[i + 1] as i64 - 48)
}

/// How far local time is ahead of universal time, in minutes, as it is read at the end of a
/// UTCTime: a minus sign counts only with an hour.
pub open spec fn offset(s: Seq<u8>) -> int {
    let minutes = two_digits(s, 13) * 60 + two_digits(s, 15);
    if s[12] == 45 && two_digits(s, 13) > 0 {
        -minutes
    } else {
        minutes
    }
}

/// Whether a time can be written: a UTCTime with an offset from universal time is in the years
/// 1950 to 2049 by universal time too.
pub open spec fn good_time(tag: u8, s: Seq<u8>) -> bool {
    if tag_number(tag) != 23 || s.len() != 17 {
        true
    } else {
        let day = two_digits(s, 4);
        let minute = two_digits(s, 6) * 60 + two_digits(s, 8);
        let first_day = two_digits(s, 0) == 50 && two_digits(s, 2) == 1;
        let last_day = two_digits(s, 0) == 49 && two_digits(s, 2) == 12;
        &&& first_day ==> (day - 1) * 1440 + minute - offset(s) >= 0
        &&& last_day ==> (day - 31) * 1440 + minute - offset(s) < 1440
    }
}

fn time_ok(e: &Element) -> (r: bool)
    ensures
        r == good_time(e@.0, e@.1),
{
    let s: &Vec<u8> = &e.content;
    if e.tag % 32 != 23 || s.len() != 17 {
        return true;
    }
    let day: i64 = two_digits_of(s, 4);
    let minute: i64 = two_digits_of(s, 6) * 60 + two_digits_of(s, 8);
    let hours: i64 = two_digits_of(s, 13);
    let minutes: i64 = hours * 60 + two_digits_of(s, 15);
    let ahead: i64 = if s[12] == 45 && hours > 0 {
        -minutes
    } else {
        minutes
    };
    let year: i64 = two_digits_of(s, 0);
    let month: i64 = two_digits_of(s, 2);
    if year == 50 && month == 1 && (day - 1) * 1440 + minute - ahead < 0 {
        return false;
    }
    !(year == 49 && month == 12 && (day - 31) * 1440 + minute - ahead >= 1440)
}

/// Whether the two limits in time can be written.
pub open spec fn good_validity(content: Seq<u8>) -> bool {
    elements(content) matches Some(es) && es.len() >= 2 && good_time(es[0].0, es[0].1) && good_time(
        es[1].0,
        es[1].1,
    )
}

fn validity_ok(content: &Vec<u8>) -> (r: bool)
    ensures
        r == good_validity(content@),
{
    match elements_of(content.as_slice()) {
        None => false,
        Some(es) => {
            if es.len() < 2 {
                return false;
            }
            assert(element_views(es@)[0] == es@[0]@ && element_views(es@)[1] == es@[1]@);
            time_ok(&es[0]) && time_ok(&es[1])
        },
    }
}

/// Whether an alternative name can be written: one of a kind of its own has an identifier that
/// can.
pub open spec fn good_alternative(tag: u8, content: Seq<u8>) -> bool {
    tag_number(tag) == 0 ==> (element(content) matches Some((oid, _)) && good_oid(oid.1))
}

fn alternative_ok(e: &Element) -> (r: bool)
    ensures
        r == good_alternative(e@.0, e@.1),
{
    if e.tag % 32 != 0 {
        return true;
    }
    match element_of(e.content.as_slice()) {
        None => false,
        Some((oid, _rest)) => oid_ok(&oid.content),
    }
}

/// Whether alternative names can be written.
pub open spec fn good_alternatives(value: Seq<u8>) -> bool {
    element(value) matches Some((names, _)) && elements(names.1) matches Some(es) && forall|i: int|
        0 <= i < es.len() ==> good_alternative((#[trigger] es[i]).0, es[i].1)
}

fn alternatives_ok(value: &Vec<u8>) -> (r: bool)
    ensures
        r == good_alternatives(value@),
{
    let names: Element = match element_of(value.as_slice()) {
        None => {
            return false;
        },
        Some((e, _rest)) => e,
    };
    match elements_of(names.content.as_slice()) {
        None => false,
        Some(es) => {
            let mut i: usize = 0;
            while i < es.len()
                invariant
                    i <= es@.len(),
                    element(value@) matches Some((e, _)) && e == names@,
                    elements(names@.1) == Some(element_views(es@)),
                    forall|j: int|
                        0 <= j < i ==> good_alternative(
                            (#[trigger] element_views(es@)[j]).0,
                            element_views(es@)[j].1,
                        ),
                decreases es@.len() - i,
            {
                assert(element_views(es@)[i as int] == es@[i as int]@);
                if !alternative_ok(&es[i]) {
                    assert(!good_alternative(
                        elements(names@.1).unwrap()[i as int].0,
                        elements(names@.1).unwrap()[i as int].1,
                    ));
                    return false;
                }
                i = i + 1;
            }
            true
        },
    }
}

/// Whether bytes are all ASCII.
pub open spec fn is_ascii(s: Seq<u8>) -> bool {
    forall|i: int| 0 <= i < s.len() ==> #[trigger] s[i] < 0x80
}

fn ascii(s: &Vec<u8>) -> (r: bool)
    ensures
        r == is_ascii(s@),
{
    let mut i: usize = 0;
    while i < s.len()
        invariant
            i <= s@.len(),
            forall|j: int| 0 <= j < i ==> #[trigger] s@[j] < 0x80,
        decreases s@.len() - i,
    {
        if s[i] >= 0x80 {
            return false;
        }
        i = i + 1;
    }
    true
}

/// Whether a name that others are held to can be written: a mail address or a host is in ASCII,
/// and the name of a directory can be written.
pub open spec fn good_base(tag: u8, content: Seq<u8>) -> bool {
    &&& tag_number(tag) == 1 || tag_number(tag) == 2 ==> is_ascii(content)
    &&& tag_number(tag) == 4 ==> (element(content) matches Some((name, _)) && good_name(name.1))
}

/// Whether one of the names that others are held to can be written.
pub open spec fn good_subtree(content: Seq<u8>) -> bool {
    element(content) matches Some((base, _)) && good_base(base.0, base.1)
}

fn subtree_ok(content: &Vec<u8>) -> (r: bool)
    ensures
        r == good_subtree(content@),
{
    match element_of(content.as_slice()) {
        None => false,
        Some((base, _rest)) => {
            let n: u8 = base.tag % 32;
            if n == 1 || n == 2 {
                ascii(&base.content)
            } else if n == 4 {
                match element_of(base.content.as_slice()) {
                    None => false,
                    Some((name, _more)) => name_ok(&name.content),
                }
            } else {
                true
            }
        },
    }
}

/// Whether names that others are held to can be written.
pub open spec fn good_subtrees(content: Seq<u8>) -> bool {
    elements(content) matches Some(es) && forall|i: int|
        0 <= i < es.len() ==> good_subtree((#[trigger] es[i]).1)
}

fn subtrees_ok(content: &Vec<u8>) -> (r: bool)
    ensures
        r == good_subtrees(content@),
{
    match elements_of(content.as_slice()) {
        None => false,
        Some(es) => {
            let mut i: usize = 0;
            while i < es.len()
                invariant
                    i <= es@.len(),
                    elements(content@) == Some(element_views(es@)),
                    forall|j: int| 0 <= j < i ==> good_subtree((#[trigger] element_views(es@)[j]).1),
                decreases es@.len() - i,
            {
                assert(element_views(es@)[i as int] == es@[i as int]@);
                if !subtree_ok(&es[i].content) {
                    assert(!good_subtree(elements(content@).unwrap()[i as int].1));
                    return false;
                }
                i = i + 1;
            }
            true
        },
    }
}

/// Whether the names that others are held to can be written, those that are allowed and those
/// that are not.
pub open spec fn good_constraints(value: Seq<u8>) -> bool {
    element(value) matches Some((both, _)) && elements(both.1) matches Some(es) && forall|i: int|
        0 <= i < es.len() ==> good_subtrees((#[trigger] es[i]).1)
}

fn constraints_ok(value: &Vec<u8>) -> (r: bool)
    ensures
        r == good_constraints(value@),
{
    let both: Element = match element_of(value.as_slice()) {
        None => {
            return false;
        },
        Some((e, _rest)) => e,
    };
    match elements_of(both.content.as_slice()) {
        None => false,
        Some(es) => {
            let mut i: usize = 0;
            while i < es.len()
                invariant
                    i <= es@.len(),
                    element(value@) matches Some((e, _)) && e == both@,
                    elements(both@.1) == Some(element_views(es@)),
                    forall|j: int| 0 <= j < i ==> good_subtrees((#[trigger] element_views(es@)[j]).1),
                decreases es@.len() - i,
            {
                assert(element_views(es@)[i as int] == es@[i as int]@);
                if !subtrees_ok(&es[i].content) {
                    assert(!good_subtrees(elements(both@.1).unwrap()[i as int].1));
                    return false;
                }
                i = i + 1;
            }
            true
        },
    }
}

/// Whether the value of an extension can be written again, by its identifier: alternative names
/// (2.5.29.17) and constraints on names (2.5.29.30) are; others are not repeated as they are.
pub open spec fn good_value(oid: Seq<u8>, value: Seq<u8>) -> bool {
    &&& oid == seq![0x55u8, 0x1d, 0x11] ==> good_alternatives(value)
    &&& oid == seq![0x55u8, 0x1d, 0x1e] ==> good_constraints(value)
}

fn value_ok(oid: &Vec<u8>, value: &Vec<u8>) -> (r: bool)
    ensures
        r == good_value(oid@, value@),
{
    if oid.len() != 3 || oid[0] != 0x55 || oid[1] != 0x1d {
        return true;
    }
    assert(oid@ =~= seq![0x55u8, 0x1d, oid@[2]]);
    if oid[2] == 0x11 {
        assert(oid@[2] != seq![0x55u8, 0x1d, 0x1e][2]);
        alternatives_ok(value)
    } else if oid[2] == 0x1e {
        assert(oid@[2] != seq![0x55u8, 0x1d, 0x11][2]);
        constraints_ok(value)
    } else {
        assert(oid@[2] != seq![0x55u8, 0x1d, 0x1e][2]);
        assert(oid@[2] != seq![0x55u8, 0x1d, 0x11][2]);
        true
    }
}

/// Whether an extension can be written: every value in it can.
pub open spec fn good_extension(content: Seq<u8>) -> bool {
    elements(content) matches Some(es) && es.len() > 0 && forall|i: int|
        1 <= i < es.len() && tag_number((#[trigger] es[i]).0) == 4 ==> good_value(es[0].1, es[i].1)
}

fn extension_ok(content: &Vec<u8>) -> (r: bool)
    ensures
        r == good_extension(content@),
{
    match elements_of(content.as_slice()) {
        None => false,
        Some(es) => {
            if es.len() == 0 {
                return false;
            }
            assert(element_views(es@)[0] == es@[0]@);
            let mut i: usize = 1;
            while i < es.len()
                invariant
                    1 <= i <= es@.len(),
                    elements(content@) == Some(element_views(es@)),
                    element_views(es@)[0] == es@[0]@,
                    forall|j: int|
                        1 <= j < i && tag_number((#[trigger] element_views(es@)[j]).0) == 4
                            ==> good_value(es@[0]@.1, element_views(es@)[j].1),
                decreases es@.len() - i,
            {
                assert(element_views(es@)[i as int] == es@[i as int]@);
                if es[i].tag % 32 == 4 && !value_ok(&es[0].content, &es[i].content) {
                    return false;
                }
                i = i + 1;
            }
            true
        },
    }
}

/// Whether extensions can be written: they stand in one element, and each of them can.
pub open spec fn good_extensions(content: Seq<u8>) -> bool {
    elements(content) matches Some(all) && all.len() == 1 && (elements(all[0].1) matches Some(es)
        && forall|i: int| 0 <= i < es.len() ==> good_extension((#[trigger] es[i]).1))
}

fn extensions_ok(content: &Vec<u8>) -> (r: bool)
    ensures
        r == good_extensions(content@),
{
    let all: Vec<Element> = match elements_of(content.as_slice()) {
        None => {
            return false;
        },
        Some(v) => v,
    };
    if all.len() != 1 {
        return false;
    }
    assert(element_views(all@)[0] == all@[0]@);
    match elements_of(all[0].content.as_slice()) {
        None => false,
        Some(es) => {
            let mut i: usize = 0;
            while i < es.len()
                invariant
                    i <= es@.len(),
                    elements(content@) == Some(element_views(all@)),
                    all@.len() == 1,
                    elements(element_views(all@)[0].1) == Some(element_views(es@)),
                    forall|j: int| 0 <= j < i ==> good_extension((#[trigger] element_views(es@)[j]).1),
                decreases es@.len() - i,
            {
                assert(element_views(es@)[i as int] == es@[i as int]@);
                if !extension_ok(&es[i].content) {
                    assert(!good_extension(elements(element_views(all@)[0].1).unwrap()[i as int].1));
                    return false;
                }
                i = i + 1;
            }
            true
        },
    }
}

/// How many fields stand in front of the serial number: the version, where it is given.
pub open spec fn version_fields(fields: Seq<(u8, Seq<u8>)>) -> int {
    if fields.len() > 0 && fields[0].0 / 64 == 2 && tag_number(fields[0].0) == 0 {
        1
    } else {
        0
    }
}

/// Whether the fields of a certificate can be written: the limits in time, the name of whom it
/// is for, and the extensions, which stand last. Of the fields between, none is repeated.
pub open spec fn good_fields(fields: Seq<(u8, Seq<u8>)>) -> bool {
    let k = version_fields(fields);
    &&& fields.len() >= k + 6
    &&& good_validity(fields[k + 3].1)
    &&& good_name(fields[k + 4].1)
    &&& forall|i: int|
        k + 6 <= i < fields.len() && tag_number((#[trigger] fields[i]).0) == 3 ==> i == fields.len()
            - 1 && good_extensions(fields[i].1)
}

/// Whether all that is repeated of a certificate when it signs can be written.
pub open spec fn writable_authority(cert: Seq<u8>) -> bool {
    element(cert) matches Some((whole, _)) && elements(whole.1) matches Some(parts) && parts.len() > 0
        && (elements(parts[0].1) matches Some(fields) && good_fields(fields))
}

fn fields_ok(fields: &Vec<Element>) -> (r: bool)
    ensures
        r == good_fields(element_views(fields@)),
{
    let ghost vs = element_views(fields@);
    assert(forall|i: int| 0 <= i < vs.len() ==> #[trigger] vs[i] == fields@[i]@);
    let k: usize = if fields.len() > 0 && fields[0].tag / 64 == 2 && fields[0].tag % 32 == 0 {
        1
    } else {
        0
    };
    assert(k == version_fields(vs)) by {
        if vs.len() > 0 {
            assert(vs[0] == fields@[0]@);
        }
    }
    if fields.len() < k + 6 {
        return false;
    }
    assert(vs[k + 3] == fields@[k + 3]@ && vs[k + 4] == fields@[k + 4]@);
    if !validity_ok(&fields[k + 3].content) || !name_ok(&fields[k + 4].content) {
        return false;
    }
    let mut i: usize = k + 6;
    while i < fields.len()
        invariant
            k <= 1,
            k + 6 <= i <= fields@.len(),
            vs == element_views(fields@),
            k == version_fields(vs),
            good_validity(vs[k + 3].1),
            good_name(vs[k + 4].1),
            forall|j: int|
                k + 6 <= j < i && tag_number((#[trigger] vs[j]).0) == 3 ==> j == vs.len() - 1
                    && good_extensions(vs[j].1),
        decreases fields@.len() - i,
    {
        assert(vs[i as int] == fields@[i as int]@);
        if fields[i].tag % 32 == 3 && (i != fields.len() - 1 || !extensions_ok(&fields[i].content)) {
            return false;
        }
        i = i + 1;
    }
    true
}

/// Whether all that is repeated of a certificate when it signs can be written.
pub fn authority_is_writable(cert: &[u8]) -> (r: bool)
    ensures
        r == writable_authority(cert@),
{
    let whole: Element = match element_of(cert) {
        None => {
            return false;
        },
        Some((e, _rest)) => e,
    };
    let parts: Vec<Element> = match elements_of(whole.content.as_slice()) {
        None => {
            return false;
        },
        Some(v) => v,
    };
    if parts.len() == 0 {
        return false;
    }
    assert(element_views(parts@)[0] == parts@[0]@);
    match elements_of(parts[0].content.as_slice()) {
        None => false,
        Some(fields) => fields_ok(&fields),
    }
}

/// Elements one behind the other are read one after the other.
pub proof fn law_elements(s: Seq<u8>)
    ensures
        elements(Seq::<u8>::empty()) == Some(Seq::<(u8, Seq<u8>)>::empty()),
        s.len() > 0 ==> match element(s) {
            None => elements(s) is None,
            Some((e, rest)) => rest.len() < s.len() && (elements(rest) is None ==> elements(s) is None)
                && (elements(rest) matches Some(more) ==> elements(s) == Some(seq![e] + more)),
        },
{
}

/// An element is its tag, its length and its content: where it is read, these stand in front.
pub proof fn law_element_in_front(s: Seq<u8>)
    ensures
        element(s) matches Some((e, rest)) ==> s.len() >= 2 && e.0 == s[0] && s.skip(
            s.len() - rest.len(),
        ) == rest && s.subrange(
            s.len() - rest.len() - e.1.len(),
            s.len() - rest.len(),
        ) == e.1 && (s[1] < 0x80 ==> e.1.len() == s[1]),
{
    if let Some((e, rest)) = element(s) {
        let (h, n) = header(s).unwrap();
        assert(s.skip(s.len() - rest.len()) =~= rest);
        assert(s.subrange(s.len() - rest.len() - e.1.len(), s.len() - rest.len()) =~= e.1);
    }
}

/// A time in universal time, and any GeneralizedTime, can be written; so can a UTCTime with an
/// offset in any year but 1950 and 2049.
pub proof fn law_good_time(tag: u8, s: Seq<u8>)
    requires
        tag % 32 != 23 || s.len() != 17 || (s[0] != 53 || s[1] != 48) && (s[0] != 52 || s[1] != 57),
        tag % 32 == 23 && s.len() == 17 ==> 48 <= s[0] <= 57 && 48 <= s[1] <= 57,
    ensures
        good_time(tag, s),
{
}

/// A UTCTime on the first day of 1950 or the last of 2049 cannot be written where the offset takes
/// it out of these years, and can where it does not.
pub proof fn law_time_at_the_edge(s: Seq<u8>, hour: int, minute: int, hours: int, minutes: int)
    requires
        s.len() == 17,
        0 <= hour < 24,
        0 <= minute < 60,
        1 <= hours < 24,
        0 <= minutes < 60,
        two_digits(s, 6) == hour,
        two_digits(s, 8) == minute,
        two_digits(s, 13) == hours,
        two_digits(s, 15) == minutes,
    ensures
        two_digits(s, 0) == 50 && two_digits(s, 2) == 1 && two_digits(s, 4) == 1 && s[12] == 43
            ==> good_time(0x17, s) == (hour * 60 + minute >= hours * 60 + minutes),
        two_digits(s, 0) == 50 && two_digits(s, 2) == 1 && two_digits(s, 4) == 1 && s[12] == 45
            ==> good_time(0x17, s),
        two_digits(s, 0) == 49 && two_digits(s, 2) == 12 && two_digits(s, 4) == 31 && s[12] == 45
            ==> good_time(0x17, s) == (hour * 60 + minute + hours * 60 + minutes < 1440),
        two_digits(s, 0) == 49 && two_digits(s, 2) == 12 && two_digits(s, 4) == 31 && s[12] == 43
            ==> good_time(0x17, s),
{
}

/// An attribute of a name can be written where its identifier has two parts, the first below
/// three, and no question mark stands in a PrintableString; one with a question mark there cannot.
pub proof fn law_good_attribute(content: Seq<u8>, fields: Seq<(u8, Seq<u8>)>)
    requires
        elements(content) == Some(fields),
        fields.len() >= 2,
        fields[0].1.len() >= 2,
        fields[0].1[0] < 120,
    ensures
        good_attribute(content) <==> !(fields[1].0 % 32 == 19 && fields[1].1.contains(63)),
{
}

/// A certificate whose name, limits in time and extensions are all of the usual kind can sign: where
/// every attribute of its name can be written, neither time has an offset, and it has no extensions
/// or none of alternative names or of constraints on names.
pub proof fn law_usual_authority(
    cert: Seq<u8>,
    fields: Seq<(u8, Seq<u8>)>,
    k: int,
    times: Seq<(u8, Seq<u8>)>,
    parts: Seq<(u8, Seq<u8>)>,
)
    requires
        element(cert) matches Some((whole, _)) && (elements(whole.1) matches Some(ps) && ps.len() > 0
            && elements(ps[0].1) == Some(fields)),
        k == if fields.len() > 0 && fields[0].0 / 64 == 2 && fields[0].0 % 32 == 0 {
            1int
        } else {
            0int
        },
        fields.len() >= k + 6,
        elements(fields[k + 3].1) == Some(times),
        times.len() >= 2,
        times[0].0 % 32 != 23 || times[0].1.len() != 17,
        times[1].0 % 32 != 23 || times[1].1.len() != 17,
        elements(fields[k + 4].1) == Some(parts),
        forall|i: int|
            0 <= i < parts.len() ==> (elements((#[trigger] parts[i]).1) matches Some(attributes)
                && forall|j: int|
                0 <= j < attributes.len() ==> good_attribute((#[trigger] attributes[j]).1)),
        forall|i: int|
            k + 6 <= i < fields.len() ==> (#[trigger] fields[i]).0 % 32 != 3 || (i == fields.len() - 1
                && (elements(fields[i].1) matches Some(all) && all.len() == 1 && (elements(all[0].1)
                matches Some(extensions) && forall|j: int|
                0 <= j < extensions.len() ==> (elements((#[trigger] extensions[j]).1) matches Some(es)
                    && es.len() > 0 && es[0].1 != seq![0x55u8, 0x1d, 0x11] && es[0].1 != seq![
                    0x55u8,
                    0x1d,
                    0x1e,
                ])))),
    ensures
        writable_authority(cert),
{
    assert(good_time(times[0].0, times[0].1));
    assert(good_time(times[1].0, times[1].1));
    assert forall|i: int| 0 <= i < parts.len() implies good_part((#[trigger] parts[i]).1) by {}
    assert(good_name(fields[k + 4].1));
    assert forall|i: int|
        k + 6 <= i < fields.len() && tag_number((#[trigger] fields[i]).0) == 3 implies i
        == fields.len() - 1 && good_extensions(fields[i].1) by {
        let all = elements(fields[i].1).unwrap();
        let extensions = elements(all[0].1).unwrap();
        assert forall|j: int| 0 <= j < extensions.len() implies good_extension(
            (#[trigger] extensions[j]).1,
        ) by {
            let es = elements(extensions[j].1).unwrap();
            assert forall|m: int| 1 <= m < es.len() && tag_number((#[trigger] es[m]).0) == 4 implies good_value(
                es[0].1,
                es[m].1,
            ) by {}
        }
    }
    assert(good_fields(fields));
}

/// Alternative names that are hosts, addresses and the like can all be written; one of a kind of
/// its own can where its identifier can.
pub proof fn law_good_alternatives(value: Seq<u8>, names: Seq<(u8, Seq<u8>)>)
    requires
        element(value) matches Some((all, _)) && elements(all.1) == Some(names),
    ensures
        (forall|i: int| 0 <= i < names.len() ==> (#[trigger] names[i]).0 % 32 != 0)
            ==> good_alternatives(value),
        (forall|i: int|
            0 <= i < names.len() ==> (element((#[trigger] names[i]).1) matches Some((oid, _))
                && oid.1.len() >= 2 && oid.1[0] < 120)) ==> good_alternatives(value),
        (exists|i: int|
            0 <= i < names.len() && (#[trigger] names[i]).0 % 32 == 0 && (element(names[i].1) matches Some(
                (oid, _),
            ) && oid.1.len() > 0 && oid.1[0] >= 120)) ==> !good_alternatives(value),
{
    if exists|i: int|
        0 <= i < names.len() && (#[trigger] names[i]).0 % 32 == 0 && (element(names[i].1) matches Some(
            (oid, _),
        ) && oid.1.len() > 0 && oid.1[0] >= 120) {
        let i = choose|i: int|
            0 <= i < names.len() && (#[trigger] names[i]).0 % 32 == 0 && (element(names[i].1) matches Some(
                (oid, _),
            ) && oid.1.len() > 0 && oid.1[0] >= 120);
        let all = element(value).unwrap().0;
        assert(!good_alternative(elements(all.1).unwrap()[i].0, elements(all.1).unwrap()[i].1));
    }
}

/// A host or a mail address that others are held to can be written where it is in ASCII, and only
/// then; an address always can.
pub proof fn law_good_base(tag: u8, content: Seq<u8>)
    ensures
        tag % 32 == 1 || tag % 32 == 2 ==> good_base(tag, content) == (forall|i: int|
            0 <= i < content.len() ==> #[trigger] content[i] < 0x80),
        tag % 32 != 1 && tag % 32 != 2 && tag % 32 != 4 ==> good_base(tag, content),
{
}

/// The names that others are held to can be written where each of them can.
pub proof fn law_good_constraints(value: Seq<u8>, both: Seq<(u8, Seq<u8>)>)
    requires
        element(value) matches Some((all, _)) && elements(all.1) == Some(both),
        forall|i: int|
            0 <= i < both.len() ==> (elements((#[trigger] both[i]).1) matches Some(trees) && forall|j: int|
                0 <= j < trees.len() ==> (element((#[trigger] trees[j]).1) matches Some((base, _))
                    && good_base(base.0, base.1))),
    ensures
        good_constraints(value),
{
    assert forall|i: int| 0 <= i < both.len() implies good_subtrees((#[trigger] both[i]).1) by {
        let trees = elements(both[i].1).unwrap();
        assert forall|j: int| 0 <= j < trees.len() implies good_subtree((#[trigger] trees[j]).1) by {}
    }
}

/// A question mark in a PrintableString of the name is no hindrance where the next part of the name
/// has an attribute of the same type, and is one where no later part is of that type.
pub proof fn law_replaced(
    content: Seq<u8>,
    parts: Seq<(u8, Seq<u8>)>,
    i: int,
)
    requires
        elements(content) == Some(parts),
        0 <= i < parts.len(),
        sole_type(parts[i]) is Some,
        !good_part(parts[i].1),
    ensures
        i + 1 < parts.len() && sole_type(parts[i + 1]) == sole_type(parts[i]) ==> replaced(parts, i),
        (forall|j: int| i < j < parts.len() ==> #[trigger] sole_type(parts[j]) != sole_type(parts[i]))
            ==> !good_name(content),
{
    if i + 1 < parts.len() && sole_type(parts[i + 1]) == sole_type(parts[i]) {
        let j = i + 1;
        assert(sole_type(parts[j]) == sole_type(parts[i]));
        assert forall|m: int| i < m <= j implies (#[trigger] sole_type(parts[m])) is Some by {
            assert(m == j);
        }
    }
    if forall|j: int| i < j < parts.len() ==> #[trigger] sole_type(parts[j]) != sole_type(parts[i]) {
        assert(!replaced(parts, i));
        assert(!good_part(elements(content).unwrap()[i].1));
    }
}

} // verus!
