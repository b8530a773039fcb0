//! Characters, words and lines, and the bytes of texts.
use vstd::prelude::*;
use vstd::slice::slice_subrange;
use vstd::utf8::{
    char_is_scalar, char_u32_cast, decode_utf8, encode_scalar, encode_utf8,
    encode_utf8_decode_utf8, encode_utf8_valid_utf8, valid_utf8,
};

verus! {

/// `String::push` appends one character to the end of the string.
pub assume_specification[ String::push ](s: &mut String, c: char)
    ensures
        final(s)@ == old(s)@.push(c),
;

/// The characters of a string, in order.
pub fn chars_of(s: &str) -> (r: Vec<char>)
    ensures
        r@ == s@,
{
    let mut v: Vec<char> = Vec::new();
    for c in it: s.chars()
        invariant
            v@ == it.seq().take(it.index() as int),
            it.seq() == s@,
    {
        v.push(c);
    }
    v
}

/// The string that holds the given characters.
pub fn string_of(s: &[char]) -> (r: String)
    ensures
        r@ == s@,
{
    let mut out: String = String::new();
    let mut i: usize = 0;
    while i < s.len()
        invariant
            i <= s@.len(),
            out@ == s@.take(i as int),
        decreases s@.len() - i,
    {
        out.push(s[i]);
        i = i + 1;
    }
    out
}

/// Whether a text has no character.
pub fn is_empty(s: &str) -> (r: bool)
    ensures
        r == (s@.len() == 0),
{
    s.unicode_len() == 0
}

/// The texts of the strings.
pub open spec fn views(v: Seq<String>) -> Seq<Seq<char>> {
    Seq::new(v.len(), |i: int| v[i]@)
}

/// The text of an optional string.
pub open spec fn option_text(o: Option<String>) -> Option<Seq<char>> {
    match o {
        Some(s) => Some(s@),
        None => None,
    }
}

/// Whether two texts are the same.
pub fn same(a: &[char], b: &[char]) -> (r: bool)
    ensures
        r == (a@ == b@),
{
    if a.len() != b.len() {
        return false;
    }
    let mut i: usize = 0;
    while i < a.len()
        invariant
            i <= a@.len(),
            a@.len() == b@.len(),
            forall|j: int| 0 <= j < i ==> a@[j] == b@[j],
        decreases a@.len() - i,
    {
        if a[i] != b[i] {
            return false;
        }
        i = i + 1;
    }
    assert(a@ =~= b@);
    true
}

/// Whether the characters are those of a string.
pub fn is_text(t: &[char], s: &str) -> (r: bool)
    ensures
        r == (t@ == s@),
{
    let c: Vec<char> = chars_of(s);
    same(t, c.as_slice())
}

/// The characters, in a vector of their own.
pub fn copy_of(s: &[char]) -> (r: Vec<char>)
    ensures
        r@ == s@,
{
    let mut v: Vec<char> = Vec::new();
    let mut i: usize = 0;
    while i < s.len()
        invariant
            i <= s@.len(),
            v@ == s@.take(i as int),
        decreases s@.len() - i,
    {
        v.push(s[i]);
        i = i + 1;
    }
    v
}

/// What stands behind a prefix, where the text has it.
pub fn strip_prefix<'a>(s: &'a [char], prefix: &[char]) -> (r: Option<&'a [char]>)
    ensures
        r is Some <==> prefix@.is_prefix_of(s@),
        r matches Some(rest) ==> rest@ == s@.skip(prefix@.len() as int),
{
    if s.len() < prefix.len() {
        return None;
    }
    let front: &[char] = slice_subrange(s, 0, prefix.len());
    if same(front, prefix) {
        let rest: &'a [char] = slice_subrange(s, prefix.len(), s.len());
        assert(rest@ =~= s@.skip(prefix@.len() as int));
        Some(rest)
    } else {
        None
    }
}

/// Appends the characters to the string.
pub fn push_chars(out: &mut String, s: &[char])
    ensures
        final(out)@ == old(out)@ + s@,
{
    let ghost before = out@;
    let mut i: usize = 0;
    assert(before + s@.take(0) =~= before);
    while i < s.len()
        invariant
            i <= s@.len(),
            out@ == before + s@.take(i as int),
        decreases s@.len() - i,
    {
        out.push(s[i]);
        assert(before + s@.take(i + 1) =~= (before + s@.take(i as int)).push(s@[i as int]));
        i = i + 1;
    }
    assert(s@.take(s@.len() as int) =~= s@);
}

/// Appends the line and a line feed to the string.
pub fn push_line(out: &mut String, line: &[char])
    ensures
        final(out)@ == old(out)@ + line@.push('\n'),
{
    let ghost before = out@;
    push_chars(out, line);
    out.push('\n');
    assert((before + line@).push('\n') =~= before + line@.push('\n'));
}

/// The place of the first `c` in `s`.
pub fn find_char(s: &[char], c: char) -> (r: Option<usize>)
    ensures
        match r {
            Some(i) => s@.index_of_first(c) == Some(i as int),
            None => s@.index_of_first(c) is None,
        },
        r matches Some(i) ==> i < s@.len() && s@[i as int] == c,
{
    let mut i: usize = 0;
    while i < s.len()
        invariant
            i <= s@.len(),
            forall|j: int| 0 <= j < i ==> s@[j] != c,
        decreases s@.len() - i,
    {
        if s[i] == c {
            proof {
                s@.index_of_first_ensures(c);
            }
            return Some(i);
        }
        i = i + 1;
    }
    proof {
        s@.index_of_first_ensures(c);
    }
    None
}


/// The characters with the Unicode property White_Space.
pub open spec fn is_white(c: char) -> bool {
    ||| '\u{9}' <= c <= '\u{d}'
    ||| c == ' '
    ||| c == '\u{85}'
    ||| c == '\u{a0}'
    ||| c == '\u{1680}'
    ||| '\u{2000}' <= c <= '\u{200a}'
    ||| c == '\u{2028}'
    ||| c == '\u{2029}'
    ||| c == '\u{202f}'
    ||| c == '\u{205f}'
    ||| c == '\u{3000}'
}

/// Whether `c` is white space.
pub fn is_whitespace(c: char) -> (r: bool)
    ensures
        r == is_white(c),
{
    ('\u{9}' <= c && c <= '\u{d}') || c == ' ' || c == '\u{85}' || c == '\u{a0}' || c == '\u{1680}'
        || ('\u{2000}' <= c && c <= '\u{200a}') || c == '\u{2028}' || c == '\u{2029}' || c
        == '\u{202f}' || c == '\u{205f}' || c == '\u{3000}'
}

/// `s` without the white space in front.
pub open spec fn trim_start(s: Seq<char>) -> Seq<char>
    decreases s.len(),
{
    if s.len() > 0 && is_white(s[0]) {
        trim_start(s.drop_first())
    } else {
        s
    }
}

/// `s` without the white space behind.
pub open spec fn trim_end(s: Seq<char>) -> Seq<char>
    decreases s.len(),
{
    if s.len() > 0 && is_white(s.last()) {
        trim_end(s.drop_last())
    } else {
        s
    }
}

/// `s` without the white space on either side.
pub open spec fn trim(s: Seq<char>) -> Seq<char> {
    trim_end(trim_start(s))
}

/// `s` without the run of `c` in front.
pub open spec fn trim_start_char(s: Seq<char>, c: char) -> Seq<char>
    decreases s.len(),
{
    if s.len() > 0 && s[0] == c {
        trim_start_char(s.drop_first(), c)
    } else {
        s
    }
}

/// `s` without the run of `c` behind.
pub open spec fn trim_end_char(s: Seq<char>, c: char) -> Seq<char>
    decreases s.len(),
{
    if s.len() > 0 && s.last() == c {
        trim_end_char(s.drop_last(), c)
    } else {
        s
    }
}

/// How many characters stand in front of the first white space.
pub open spec fn word_len(s: Seq<char>) -> nat
    decreases s.len(),
{
    if s.len() > 0 && !is_white(s[0]) {
        1 + word_len(s.drop_first())
    } else {
        0
    }
}

pub proof fn lemma_word_len(s: Seq<char>)
    ensures
        word_len(s) <= s.len(),
        s.len() > 0 && !is_white(s[0]) ==> word_len(s) > 0,
        forall|i: int| 0 <= i < word_len(s) ==> !is_white(s[i]),
        word_len(s) < s.len() ==> is_white(s[word_len(s) as int]),
    decreases s.len(),
{
    if s.len() > 0 && !is_white(s[0]) {
        lemma_word_len(s.drop_first());
        assert forall|i: int| 0 <= i < word_len(s) implies !is_white(s[i]) by {
            if i > 0 {
                assert(s.drop_first()[i - 1] == s[i]);
            }
        }
    }
}

pub proof fn lemma_trim_start(s: Seq<char>)
    ensures
        trim_start(s).len() <= s.len(),
        trim_start(s) == s.skip(s.len() - trim_start(s).len()),
        trim_start(s).len() > 0 ==> !is_white(trim_start(s)[0]),
        forall|i: int| 0 <= i < s.len() - trim_start(s).len() ==> is_white(s[i]),
    decreases s.len(),
{
    if s.len() > 0 && is_white(s[0]) {
        lemma_trim_start(s.drop_first());
        let t = trim_start(s);
        assert(t =~= s.skip(s.len() - t.len()));
        assert forall|i: int| 0 <= i < s.len() - t.len() implies is_white(s[i]) by {
            if i > 0 {
                assert(s.drop_first()[i - 1] == s[i]);
            }
        }
    } else {
        assert(s =~= s.skip(0));
    }
}

pub proof fn lemma_trim_end(s: Seq<char>)
    ensures
        trim_end(s).len() <= s.len(),
        trim_end(s) == s.take(trim_end(s).len() as int),
        trim_end(s).len() > 0 ==> !is_white(trim_end(s).last()),
        forall|i: int| trim_end(s).len() <= i < s.len() ==> is_white(s[i]),
    decreases s.len(),
{
    if s.len() > 0 && is_white(s.last()) {
        lemma_trim_end(s.drop_last());
        let t = trim_end(s);
        assert(t =~= s.take(t.len() as int));
        assert forall|i: int| t.len() <= i < s.len() implies is_white(s[i]) by {
            if i < s.len() - 1 {
                assert(s.drop_last()[i] == s[i]);
            }
        }
    } else {
        assert(s =~= s.take(s.len() as int));
    }
}

/// `s` without the white space in front.
pub fn trim_start_of(s: &[char]) -> (r: &[char])
    ensures
        r@ == trim_start(s@),
{
    let mut i: usize = 0;
    assert(s@.skip(0) =~= s@);
    while i < s.len() && is_whitespace(s[i])
        invariant
            i <= s@.len(),
            trim_start(s@.skip(i as int)) == trim_start(s@),
        decreases s@.len() - i,
    {
        assert(s@.skip(i as int).drop_first() =~= s@.skip(i + 1));
        i = i + 1;
    }
    let r: &[char] = slice_subrange(s, i, s.len());
    assert(r@ =~= s@.skip(i as int));
    r
}

/// `s` without the white space behind.
pub fn trim_end_of(s: &[char]) -> (r: &[char])
    ensures
        r@ == trim_end(s@),
{
    let mut n: usize = s.len();
    assert(s@.take(n as int) =~= s@);
    while n > 0 && is_whitespace(s[n - 1])
        invariant
            n <= s@.len(),
            trim_end(s@.take(n as int)) == trim_end(s@),
        decreases n,
    {
        assert(s@.take(n as int).drop_last() =~= s@.take(n - 1));
        n = n - 1;
    }
    let r: &[char] = slice_subrange(s, 0, n);
    assert(r@ =~= s@.take(n as int));
    r
}

/// `s` without the white space on either side.
pub fn trim_of(s: &[char]) -> (r: &[char])
    ensures
        r@ == trim(s@),
{
    trim_end_of(trim_start_of(s))
}

/// `s` without the run of `c` in front.
pub fn trim_start_char_of(s: &[char], c: char) -> (r: &[char])
    ensures
        r@ == trim_start_char(s@, c),
{
    let mut i: usize = 0;
    assert(s@.skip(0) =~= s@);
    while i < s.len() && s[i] == c
        invariant
            i <= s@.len(),
            trim_start_char(s@.skip(i as int), c) == trim_start_char(s@, c),
        decreases s@.len() - i,
    {
        assert(s@.skip(i as int).drop_first() =~= s@.skip(i + 1));
        i = i + 1;
    }
    let r: &[char] = slice_subrange(s, i, s.len());
    assert(r@ =~= s@.skip(i as int));
    r
}

/// `s` without the run of `c` behind.
pub fn trim_end_char_of(s: &[char], c: char) -> (r: &[char])
    ensures
        r@ == trim_end_char(s@, c),
{
    let mut n: usize = s.len();
    assert(s@.take(n as int) =~= s@);
    while n > 0 && s[n - 1] == c
        invariant
            n <= s@.len(),
            trim_end_char(s@.take(n as int), c) == trim_end_char(s@, c),
        decreases n,
    {
        assert(s@.take(n as int).drop_last() =~= s@.take(n - 1));
        n = n - 1;
    }
    let r: &[char] = slice_subrange(s, 0, n);
    assert(r@ =~= s@.take(n as int));
    r
}

/// The words of `s`: the longest runs of characters that are not white space.
pub open spec fn words(s: Seq<char>) -> Seq<Seq<char>>
    decreases s.len(),
{
    let t = trim_start(s);
    if t.len() == 0 {
        Seq::empty()
    } else {
        proof {
            lemma_trim_start(s);
            lemma_word_len(t);
        }
        seq![t.take(word_len(t) as int)] + words(t.skip(word_len(t) as int))
    }
}

/// The first word of `s` and what stands behind it.
pub fn next_word(s: &[char]) -> (r: Option<(&[char], &[char])>)
    ensures
        match r {
            Some((w, rest)) => words(s@) == seq![w@] + words(rest@) && w@.len() > 0 && rest@.len()
                < s@.len(),
            None => words(s@).len() == 0,
        },
{
    let t: &[char] = trim_start_of(s);
    proof {
        lemma_trim_start(s@);
        lemma_word_len(t@);
    }
    let mut n: usize = 0;
    assert(t@.skip(0) =~= t@);
    while n < t.len() && !is_whitespace(t[n])
        invariant
            n <= t@.len(),
            word_len(t@) == n + word_len(t@.skip(n as int)),
        decreases t@.len() - n,
    {
        assert(t@.skip(n as int).drop_first() =~= t@.skip(n + 1));
        n = n + 1;
    }
    if n == 0 {
        return None;
    }
    let w: &[char] = slice_subrange(t, 0, n);
    let rest: &[char] = slice_subrange(t, n, t.len());
    assert(w@ =~= t@.take(n as int));
    assert(rest@ =~= t@.skip(n as int));
    Some((w, rest))
}

/// An ASCII capital letter as a small one; any other character as it is.
pub open spec fn lower_char(c: char) -> char {
    if 'A' <= c <= 'Z' {
        (c as u8 + 32) as char
    } else {
        c
    }
}

/// The text with its ASCII capital letters as small ones.
pub open spec fn lower(s: Seq<char>) -> Seq<char> {
    Seq::new(s.len(), |i: int| lower_char(s[i]))
}

/// The text with its ASCII capital letters as small ones.
pub fn lower_of(s: &[char]) -> (r: Vec<char>)
    ensures
        r@ == lower(s@),
{
    let mut v: Vec<char> = Vec::new();
    let mut i: usize = 0;
    while i < s.len()
        invariant
            i <= s@.len(),
            v@ == lower(s@).take(i as int),
        decreases s@.len() - i,
    {
        let c: char = s[i];
        if 'A' <= c && c <= 'Z' {
            v.push((c as u8 + 32) as char);
        } else {
            v.push(c);
        }
        i = i + 1;
    }
    v
}

/// Whether two texts are the same but for the case of ASCII letters.
pub fn same_ignoring_case(a: &[char], b: &[char]) -> (r: bool)
    ensures
        r == (lower(a@) == lower(b@)),
{
    let la: Vec<char> = lower_of(a);
    let lb: Vec<char> = lower_of(b);
    same(la.as_slice(), lb.as_slice())
}

/// `s` without one carriage return at its end.
pub open spec fn drop_cr(s: Seq<char>) -> Seq<char> {
    if s.len() > 0 && s.last() == '\r' {
        s.drop_last()
    } else {
        s
    }
}

/// White space behind a text stays there when the front is trimmed.
proof fn lemma_trim_start_push(s: Seq<char>, c: char)
    requires
        is_white(c),
    ensures
        trim_start(s.push(c)) == if trim_start(s).len() == 0 {
            Seq::empty()
        } else {
            trim_start(s).push(c)
        },
    decreases s.len(),
{
    let t = s.push(c);
    if s.len() == 0 {
        assert(t.drop_first() =~= Seq::empty());
        assert(trim_start(t.drop_first()) =~= Seq::empty());
    } else {
        assert(t[0] == s[0]);
        assert(t.drop_first() =~= s.drop_first().push(c));
        lemma_trim_start_push(s.drop_first(), c);
    }
}

/// White space at its end makes no difference to a text that is trimmed.
pub proof fn lemma_trim_push(s: Seq<char>, c: char)
    requires
        is_white(c),
    ensures
        trim(s.push(c)) == trim(s),
{
    lemma_trim_start_push(s, c);
    let t = trim_start(s);
    if t.len() > 0 {
        assert(t.push(c).drop_last() =~= t);
    }
}

/// The lines of `s`: each ends in a line feed, or in a carriage return and a line feed, and
/// is given without them. The last line may lack its ending.
pub open spec fn lines(s: Seq<char>) -> Seq<Seq<char>>
    decreases s.len(),
{
    if s.len() == 0 {
        Seq::empty()
    } else {
        proof {
            s.index_of_first_ensures('\n');
        }
        match s.index_of_first('\n') {
            Some(n) => seq![drop_cr(s.take(n))] + lines(s.skip(n + 1)),
            None => seq![s],
        }
    }
}

/// The first line of `s` and what stands behind its ending.
pub fn next_line(s: &[char]) -> (r: Option<(&[char], &[char])>)
    ensures
        match r {
            Some((l, rest)) => lines(s@) == seq![l@] + lines(rest@) && rest@.len() < s@.len(),
            None => s@.len() == 0 && lines(s@).len() == 0,
        },
{
    if s.len() == 0 {
        return None;
    }
    match find_char(s, '\n') {
        Some(n) => {
            let raw: &[char] = slice_subrange(s, 0, n);
            assert(raw@ =~= s@.take(n as int));
            let rest: &[char] = slice_subrange(s, n + 1, s.len());
            assert(rest@ =~= s@.skip(n + 1));
            if n > 0 && raw[n - 1] == '\r' {
                let l: &[char] = slice_subrange(raw, 0, n - 1);
                assert(l@ =~= raw@.drop_last());
                Some((l, rest))
            } else {
                Some((raw, rest))
            }
        },
        None => {
            let rest: &[char] = slice_subrange(s, s.len(), s.len());
            assert(rest@ =~= Seq::empty());
            assert(lines(s@) =~= seq![s@] + lines(rest@));
            Some((s, rest))
        },
    }
}

/// The lines of `ls`, each with a line feed behind it.
pub open spec fn unlines(ls: Seq<Seq<char>>) -> Seq<char>
    decreases ls.len(),
{
    if ls.len() == 0 {
        Seq::empty()
    } else {
        unlines(ls.drop_last()) + ls.last().push('\n')
    }
}

/// A text that ends in a line feed keeps its lines whatever follows.
pub proof fn lemma_lines_add(a: Seq<char>, b: Seq<char>)
    requires
        a.len() > 0 ==> a.last() == '\n',
    ensures
        lines(a + b) == lines(a) + lines(b),
    decreases a.len(),
{
    if a.len() == 0 {
        assert(a + b =~= b);
        assert(lines(a) + lines(b) =~= lines(b));
    } else {
        let s = a + b;
        a.index_of_first_ensures('\n');
        s.index_of_first_ensures('\n');
        assert(a[a.len() - 1] == '\n');
        assert(s[a.len() - 1] == '\n');
        let n = a.index_of_first('\n').unwrap();
        let m = s.index_of_first('\n').unwrap();
        assert(s[n] == '\n');
        assert(m == n) by {
            if m < n {
                assert(a[m] == s[m]);
            }
        }
        assert(s.take(n) =~= a.take(n));
        assert(s.skip(n + 1) =~= a.skip(n + 1) + b);
        lemma_lines_add(a.skip(n + 1), b);
        assert(lines(s) =~= lines(a) + lines(b));
    }
}

/// One line with its line feed has itself for its only line.
pub proof fn lemma_lines_one(l: Seq<char>)
    requires
        !l.contains('\n'),
    ensures
        lines(l.push('\n')) == seq![drop_cr(l)],
{
    let s = l.push('\n');
    s.index_of_first_ensures('\n');
    assert(s[l.len() as int] == '\n');
    let n = s.index_of_first('\n').unwrap();
    assert(n == l.len()) by {
        if n < l.len() {
            assert(l[n] == '\n');
        }
    }
    assert(s.take(n) =~= l);
    assert(s.skip(n + 1) =~= Seq::empty());
    assert(lines(s.skip(n + 1)) =~= Seq::empty());
    assert(lines(s) =~= seq![drop_cr(l)]);
}

/// What `unlines` wrote, `lines` reads back.
pub proof fn lemma_lines_unlines(ls: Seq<Seq<char>>)
    requires
        forall|i: int| 0 <= i < ls.len() ==> !(#[trigger] ls[i]).contains('\n'),
        forall|i: int| 0 <= i < ls.len() ==> drop_cr(#[trigger] ls[i]) == ls[i],
    ensures
        lines(unlines(ls)) == ls,
        unlines(ls).len() > 0 ==> unlines(ls).last() == '\n',
    decreases ls.len(),
{
    if ls.len() > 0 {
        let front = ls.drop_last();
        let l = ls.last();
        assert(forall|i: int| 0 <= i < front.len() ==> #[trigger] front[i] == ls[i]);
        lemma_lines_unlines(front);
        assert(ls[ls.len() - 1] == l);
        lemma_lines_one(l);
        lemma_lines_add(unlines(front), l.push('\n'));
    }
    assert(lines(unlines(ls)) =~= ls);
}

/// The lines of `s` as they stand, each with its ending. The last may lack it.
pub open spec fn pieces(s: Seq<char>) -> Seq<Seq<char>>
    decreases s.len(),
{
    if s.len() == 0 {
        Seq::empty()
    } else {
        proof {
            s.index_of_first_ensures('\n');
        }
        match s.index_of_first('\n') {
            Some(n) => seq![s.take(n + 1)] + pieces(s.skip(n + 1)),
            None => seq![s],
        }
    }
}

/// The first line of `s` with its ending, and what stands behind it.
pub fn next_piece(s: &[char]) -> (r: Option<(&[char], &[char])>)
    ensures
        match r {
            Some((l, rest)) => pieces(s@) == seq![l@] + pieces(rest@) && s@ == l@ + rest@ && l@.len()
                > 0 && (rest@.len() > 0 ==> l@.last() == '\n'),
            None => s@.len() == 0 && pieces(s@).len() == 0,
        },
{
    if s.len() == 0 {
        return None;
    }
    match find_char(s, '\n') {
        Some(n) => {
            let l: &[char] = slice_subrange(s, 0, n + 1);
            assert(l@ =~= s@.take(n + 1));
            let rest: &[char] = slice_subrange(s, n + 1, s.len());
            assert(rest@ =~= s@.skip(n + 1));
            assert(s@ =~= l@ + rest@);
            Some((l, rest))
        },
        None => {
            let rest: &[char] = slice_subrange(s, s.len(), s.len());
            assert(rest@ =~= Seq::empty());
            assert(pieces(s@) =~= seq![s@] + pieces(rest@));
            assert(s@ =~= s@ + rest@);
            Some((s, rest))
        },
    }
}

/// The texts of `ls`, one behind the other.
pub open spec fn concat(ls: Seq<Seq<char>>) -> Seq<char>
    decreases ls.len(),
{
    if ls.len() == 0 {
        Seq::empty()
    } else {
        concat(ls.drop_last()) + ls.last()
    }
}

/// What two runs of texts hold, one behind the other.
pub proof fn lemma_concat_add(a: Seq<Seq<char>>, b: Seq<Seq<char>>)
    ensures
        concat(a + b) == concat(a) + concat(b),
    decreases b.len(),
{
    if b.len() == 0 {
        assert(a + b =~= a);
        assert(concat(a + b) =~= concat(a) + concat(b));
    } else {
        assert((a + b).drop_last() =~= a + b.drop_last());
        lemma_concat_add(a, b.drop_last());
        assert(concat(a + b) =~= concat(a) + concat(b));
    }
}

/// What one text holds.
pub proof fn lemma_concat_one(l: Seq<char>)
    ensures
        concat(seq![l]) == l,
{
    assert(seq![l].drop_last() =~= Seq::empty());
    assert(concat(seq![l].drop_last()) =~= Seq::empty());
    assert(concat(seq![l]) =~= l);
}

/// Whether a text is one line with its ending.
pub open spec fn is_closed(l: Seq<char>) -> bool {
    l.len() > 0 && l.last() == '\n' && !l.drop_last().contains('\n')
}

/// A text is its lines put together again. Each but the last is closed, and the last is closed
/// where the text ends in a line feed.
pub proof fn lemma_pieces(s: Seq<char>)
    ensures
        concat(pieces(s)) == s,
        forall|i: int| 0 <= i < pieces(s).len() - 1 ==> is_closed(#[trigger] pieces(s)[i]),
        s.len() > 0 <==> pieces(s).len() > 0,
        s.len() > 0 ==> pieces(s).last().len() > 0 && pieces(s).last().last() == s.last(),
        s.len() > 0 && s.last() == '\n' ==> is_closed(pieces(s).last()),
        s.len() > 0 && s.last() != '\n' ==> !pieces(s).last().contains('\n'),
    decreases s.len(),
{
    if s.len() == 0 {
        assert(concat(pieces(s)) =~= s);
    } else {
        s.index_of_first_ensures('\n');
        match s.index_of_first('\n') {
            Some(n) => {
                let l = s.take(n + 1);
                let rest = s.skip(n + 1);
                assert(is_closed(l)) by {
                    assert(l.last() == s[n]);
                    let d = l.drop_last();
                    if d.contains('\n') {
                        let j = choose|j: int| 0 <= j < d.len() && d[j] == '\n';
                        assert(s[j] == '\n');
                    }
                }
                lemma_pieces(rest);
                lemma_concat_one(l);
                lemma_concat_add(seq![l], pieces(rest));
                assert(s =~= l + rest);
                assert forall|i: int| 0 <= i < pieces(s).len() - 1 implies is_closed(
                    #[trigger] pieces(s)[i],
                ) by {
                    if i > 0 {
                        assert(pieces(s)[i] == pieces(rest)[i - 1]);
                    }
                }
                if rest.len() > 0 {
                    assert(pieces(s).last() == pieces(rest).last());
                    assert(rest.last() == s.last());
                } else {
                    assert(pieces(s).last() == l);
                    assert(s =~= l);
                }
            },
            None => {
                lemma_concat_one(s);
                assert(pieces(s).last() == s);
                assert(s.last() == s[s.len() - 1]);
                assert(!s.contains('\n'));
            },
        }
    }
}

/// A text that ends in a line feed keeps its lines as they stand whatever follows.
pub proof fn lemma_pieces_add(a: Seq<char>, b: Seq<char>)
    requires
        a.len() > 0 ==> a.last() == '\n',
    ensures
        pieces(a + b) == pieces(a) + pieces(b),
    decreases a.len(),
{
    if a.len() == 0 {
        assert(a + b =~= b);
        assert(pieces(a) + pieces(b) =~= pieces(b));
    } else {
        let s = a + b;
        a.index_of_first_ensures('\n');
        s.index_of_first_ensures('\n');
        assert(a[a.len() - 1] == '\n');
        assert(s[a.len() - 1] == '\n');
        let n = a.index_of_first('\n').unwrap();
        let m = s.index_of_first('\n').unwrap();
        assert(s[n] == '\n');
        assert(m == n) by {
            if m < n {
                assert(a[m] == s[m]);
            }
        }
        assert(s.take(n + 1) =~= a.take(n + 1));
        assert(s.skip(n + 1) =~= a.skip(n + 1) + b);
        lemma_pieces_add(a.skip(n + 1), b);
        assert(pieces(s) =~= pieces(a) + pieces(b));
    }
}

/// A text that is one line as it stands.
pub proof fn lemma_pieces_one(l: Seq<char>)
    requires
        is_closed(l) || (l.len() > 0 && !l.contains('\n')),
    ensures
        pieces(l) == seq![l],
{
    l.index_of_first_ensures('\n');
    if is_closed(l) {
        let d = l.drop_last();
        assert(l[d.len() as int] == '\n');
        let n = l.index_of_first('\n').unwrap();
        assert(n == d.len()) by {
            if n < d.len() {
                assert(d[n] == '\n');
            }
        }
        assert(l.take(n + 1) =~= l);
        assert(l.skip(n + 1) =~= Seq::empty());
        assert(pieces(l.skip(n + 1)) =~= Seq::empty());
        assert(pieces(l) =~= seq![l]);
    }
}

/// Lines as they stand, put together, are read back.
pub proof fn lemma_pieces_concat(ls: Seq<Seq<char>>)
    requires
        forall|i: int| 0 <= i < ls.len() - 1 ==> is_closed(#[trigger] ls[i]),
        ls.len() > 0 ==> is_closed(ls.last()) || (ls.last().len() > 0 && !ls.last().contains('\n')),
    ensures
        pieces(concat(ls)) == ls,
    decreases ls.len(),
{
    if ls.len() > 0 {
        let front = ls.drop_last();
        assert(forall|i: int| 0 <= i < front.len() ==> #[trigger] front[i] == ls[i]);
        if front.len() > 0 {
            assert(is_closed(ls[front.len() - 1]));
        }
        lemma_pieces_concat(front);
        lemma_pieces(concat(front));
        lemma_pieces_one(ls.last());
        lemma_pieces_add(concat(front), ls.last());
        assert(pieces(concat(ls)) =~= ls);
    } else {
        assert(pieces(concat(ls)) =~= ls);
    }
}

/// The lines that `unlines` wrote, as they stand.
pub proof fn lemma_pieces_unlines(ls: Seq<Seq<char>>)
    requires
        forall|i: int| 0 <= i < ls.len() ==> !(#[trigger] ls[i]).contains('\n'),
    ensures
        pieces(unlines(ls)) == Seq::new(ls.len(), |i: int| ls[i].push('\n')),
        unlines(ls).len() > 0 ==> unlines(ls).last() == '\n',
    decreases ls.len(),
{
    let want = Seq::new(ls.len(), |i: int| ls[i].push('\n'));
    if ls.len() > 0 {
        let front = ls.drop_last();
        let l = ls.last();
        assert(forall|i: int| 0 <= i < front.len() ==> #[trigger] front[i] == ls[i]);
        lemma_pieces_unlines(front);
        assert(ls[ls.len() - 1] == l);
        assert(l.push('\n').drop_last() =~= l);
        lemma_pieces_one(l.push('\n'));
        lemma_pieces_add(unlines(front), l.push('\n'));
    }
    assert(pieces(unlines(ls)) =~= want);
}

/// The texts of `ls` with `sep` between one and the next.
pub open spec fn join(ls: Seq<Seq<char>>, sep: char) -> Seq<char>
    decreases ls.len(),
{
    if ls.len() == 0 {
        Seq::empty()
    } else if ls.len() == 1 {
        ls[0]
    } else {
        join(ls.drop_last(), sep).push(sep) + ls.last()
    }
}

/// The bytes of a text are those of its parts.
pub proof fn lemma_encode_add(a: Seq<char>, b: Seq<char>)
    ensures
        encode_utf8(a + b) == encode_utf8(a) + encode_utf8(b),
    decreases a.len(),
{
    if a.len() == 0 {
        assert(a + b =~= b);
        assert(encode_utf8(a) + encode_utf8(b) =~= encode_utf8(b));
    } else {
        assert((a + b).drop_first() =~= a.drop_first() + b);
        lemma_encode_add(a.drop_first(), b);
        assert(encode_utf8(a + b) =~= encode_utf8(a) + encode_utf8(b));
    }
}

/// The bytes of a character of ASCII are itself; those of another are none of ASCII.
proof fn lemma_scalar_bytes(c: char)
    ensures
        (c as u32) < 0x80 ==> encode_scalar(c as u32) == seq![c as u8] && c as u8 == c as u32,
        (c as u32) >= 0x80 ==> forall|i: int|
            0 <= i < encode_scalar(c as u32).len() ==> #[trigger] encode_scalar(c as u32)[i] >= 0x80,
        encode_scalar(c as u32).len() >= 1,
{
    let v = c as u32;
    char_is_scalar(c);
    assert(forall|x: u8| #[trigger] (0xC0u8 | x) >= 0x80) by (bit_vector);
    assert(forall|x: u8| #[trigger] (0xE0u8 | x) >= 0x80) by (bit_vector);
    assert(forall|x: u8| #[trigger] (0xF0u8 | x) >= 0x80) by (bit_vector);
    assert(forall|x: u8| #[trigger] (0x80u8 | x) >= 0x80) by (bit_vector);
    if v < 0x80 {
        assert(v & 0x7F == v) by (bit_vector)
            requires
                v < 0x80,
        ;
        assert(encode_scalar(v) =~= seq![c as u8]);
    }
}

/// A text without line feeds has no byte that is one, and no fewer bytes than characters.
pub proof fn lemma_no_feed_byte(s: Seq<char>)
    requires
        !s.contains('\n'),
    ensures
        forall|i: int| 0 <= i < encode_utf8(s).len() ==> #[trigger] encode_utf8(s)[i] != 10,
        encode_utf8(s).len() >= s.len(),
    decreases s.len(),
{
    if s.len() > 0 {
        let rest = s.drop_first();
        assert(!rest.contains('\n')) by {
            if rest.contains('\n') {
                let i = choose|i: int| 0 <= i < rest.len() && rest[i] == '\n';
                assert(s[i + 1] == '\n');
            }
        }
        lemma_no_feed_byte(rest);
        lemma_scalar_bytes(s[0]);
        assert(s.contains(s[0]));
        let first = encode_scalar(s[0] as u32);
        char_u32_cast(s[0], s[0] as u32);
        assert(10u32 as char == '\n');
        assert forall|i: int| 0 <= i < encode_utf8(s).len() implies #[trigger] encode_utf8(s)[i] != 10 by {
            if i < first.len() {
                assert(encode_utf8(s)[i] == first[i]);
            } else {
                assert(encode_utf8(s)[i] == encode_utf8(rest)[i - first.len()]);
            }
        }
    }
}

/// The text that `String::from_utf8_lossy` makes of bytes.
pub uninterp spec fn utf8_lossy(bytes: Seq<u8>) -> Seq<char>;

/// Calls `String::from_utf8_lossy`: bytes that are UTF-8 give the text they encode, and bytes
/// that begin with those of a text give a text that begins with it; beyond that only this is
/// claimed, that the text depends on nothing but the bytes.
#[verifier::external_body]
pub(crate) fn lossy(bytes: &[u8]) -> (r: String)
    ensures
        r@ == utf8_lossy(bytes@),
        valid_utf8(bytes@) ==> r@ == decode_utf8(bytes@),
        forall|front: Seq<char>, rest: Seq<u8>|
            bytes@ == #[trigger] (encode_utf8(front) + rest) ==> front.is_prefix_of(r@),
{
    String::from_utf8_lossy(bytes).into_owned()
}

/// The text of bytes: what they encode where they are UTF-8, else what is made of them with
/// the rest replaced.
pub open spec fn text_of(bytes: Seq<u8>) -> Seq<char> {
    if valid_utf8(bytes) {
        decode_utf8(bytes)
    } else {
        utf8_lossy(bytes)
    }
}

/// Appends the bytes to the vector.
pub fn push_bytes(out: &mut Vec<u8>, s: &[u8])
    ensures
        final(out)@ == old(out)@ + s@,
{
    let ghost before = out@;
    let mut i: usize = 0;
    assert(before + s@.take(0) =~= before);
    while i < s.len()
        invariant
            i <= s@.len(),
            out@ == before + s@.take(i as int),
        decreases s@.len() - i,
    {
        out.push(s[i]);
        assert(before + s@.take(i + 1) =~= (before + s@.take(i as int)).push(s@[i as int]));
        i = i + 1;
    }
    assert(s@.take(s@.len() as int) =~= s@);
}

/// No character beyond the first plane is white space.
pub proof fn law_white_is_low(c: char)
    requires
        c as u32 > 0xffff,
    ensures
        !is_white(c),
{
}

/// The first word is what stands between white space and the next white space, or the end; the
/// other words are those of what stands behind it.
pub proof fn law_first_word(front: Seq<char>, word: Seq<char>, behind: Seq<char>)
    requires
        forall|i: int| 0 <= i < front.len() ==> is_white(#[trigger] front[i]),
        word.len() > 0,
        forall|i: int| 0 <= i < word.len() ==> !is_white(#[trigger] word[i]),
        behind.len() > 0 ==> is_white(behind[0]),
    ensures
        words(front + word + behind) == seq![word] + words(behind),
{
    let s = front + word + behind;
    let t = word + behind;
    lemma_trim_front(front, t);
    assert(s =~= front + t);
    assert(t[0] == word[0]);
    lemma_word_len(t);
    let n = word.len() as int;
    let w = word_len(t) as int;
    assert(w == n) by {
        if w < n {
            assert(t[w] == word[w]);
        } else if w > n {
            assert(t[n] == behind[0]);
        }
    }
    assert(t.take(n) =~= word);
    assert(t.skip(n) =~= behind);
}

/// White space holds no word.
pub proof fn law_no_word(s: Seq<char>)
    requires
        forall|i: int| 0 <= i < s.len() ==> is_white(#[trigger] s[i]),
    ensures
        words(s) == Seq::<Seq<char>>::empty(),
{
    let none: Seq<char> = Seq::empty();
    lemma_trim_front(s, none);
    assert(s + none =~= s);
}

proof fn lemma_trim_front(front: Seq<char>, mid: Seq<char>)
    requires
        forall|i: int| 0 <= i < front.len() ==> is_white(#[trigger] front[i]),
        mid.len() > 0 ==> !is_white(mid[0]),
    ensures
        trim_start(front + mid) == mid,
    decreases front.len(),
{
    let s = front + mid;
    if front.len() == 0 {
        assert(s =~= mid);
    } else {
        assert(s[0] == front[0]);
        assert(s.drop_first() =~= front.drop_first() + mid);
        assert(forall|i: int|
            0 <= i < front.drop_first().len() ==> #[trigger] front.drop_first()[i] == front[i + 1]);
        lemma_trim_front(front.drop_first(), mid);
    }
}

proof fn lemma_trim_behind(mid: Seq<char>, behind: Seq<char>)
    requires
        forall|i: int| 0 <= i < behind.len() ==> is_white(#[trigger] behind[i]),
        mid.len() > 0 ==> !is_white(mid.last()),
    ensures
        trim_end(mid + behind) == mid,
    decreases behind.len(),
{
    let s = mid + behind;
    if behind.len() == 0 {
        assert(s =~= mid);
    } else {
        assert(s.last() == behind[behind.len() - 1]);
        assert(s.drop_last() =~= mid + behind.drop_last());
        assert(forall|i: int|
            0 <= i < behind.drop_last().len() ==> #[trigger] behind.drop_last()[i] == behind[i]);
        lemma_trim_behind(mid, behind.drop_last());
    }
}

/// A text is trimmed to what stands between the white space on its two sides, and keeps all of
/// that.
pub proof fn law_trim(front: Seq<char>, mid: Seq<char>, behind: Seq<char>)
    requires
        forall|i: int| 0 <= i < front.len() ==> is_white(#[trigger] front[i]),
        mid.len() > 0 ==> !is_white(mid[0]) && !is_white(mid.last()),
        forall|i: int| 0 <= i < behind.len() ==> is_white(#[trigger] behind[i]),
    ensures
        trim(front + mid + behind) == mid,
{
    if mid.len() == 0 {
        let all = front + behind;
        let none: Seq<char> = Seq::empty();
        assert(front + mid + behind =~= all + none);
        assert forall|i: int| 0 <= i < all.len() implies is_white(#[trigger] all[i]) by {
            if i < front.len() {
                assert(all[i] == front[i]);
            } else {
                assert(all[i] == behind[i - front.len()]);
            }
        }
        lemma_trim_front(all, none);
        assert(trim(front + mid + behind) =~= mid);
    } else {
        let t = mid + behind;
        assert(front + mid + behind =~= front + t);
        assert(t[0] == mid[0]);
        lemma_trim_front(front, t);
        lemma_trim_behind(mid, behind);
    }
}

/// A run of one character is taken off the front of a text, and no more.
pub proof fn law_trim_start_char(run: Seq<char>, mid: Seq<char>, c: char)
    requires
        forall|i: int| 0 <= i < run.len() ==> #[trigger] run[i] == c,
        mid.len() > 0 ==> mid[0] != c,
    ensures
        trim_start_char(run + mid, c) == mid,
    decreases run.len(),
{
    let s = run + mid;
    if run.len() == 0 {
        assert(s =~= mid);
    } else {
        assert(s[0] == run[0]);
        assert(s.drop_first() =~= run.drop_first() + mid);
        assert(forall|i: int|
            0 <= i < run.drop_first().len() ==> #[trigger] run.drop_first()[i] == run[i + 1]);
        law_trim_start_char(run.drop_first(), mid, c);
    }
}

/// A run of one character is taken off the end of a text, and no more.
pub proof fn law_trim_end_char(mid: Seq<char>, run: Seq<char>, c: char)
    requires
        forall|i: int| 0 <= i < run.len() ==> #[trigger] run[i] == c,
        mid.len() > 0 ==> mid.last() != c,
    ensures
        trim_end_char(mid + run, c) == mid,
    decreases run.len(),
{
    let s = mid + run;
    if run.len() == 0 {
        assert(s =~= mid);
    } else {
        assert(s.last() == run[run.len() - 1]);
        assert(s.drop_last() =~= mid + run.drop_last());
        assert(forall|i: int|
            0 <= i < run.drop_last().len() ==> #[trigger] run.drop_last()[i] == run[i]);
        law_trim_end_char(mid, run.drop_last(), c);
    }
}

/// The letters of ASCII become small ones, each in its place, and nothing else changes.
pub proof fn law_lower(s: Seq<char>)
    ensures
        lower(s).len() == s.len(),
        forall|i: int|
            0 <= i < s.len() ==> (if 65 <= s[i] as u32 <= 90 {
                (#[trigger] lower(s)[i]) as u32 == s[i] as u32 + 32
            } else {
                lower(s)[i] == s[i]
            }),
{
}

/// A line with its ending is read without it, and the lines behind it are those of the rest.
pub proof fn law_first_line(line: Seq<char>, rest: Seq<char>)
    requires
        !line.contains('\n'),
    ensures
        lines(line.push('\r').push('\n') + rest) == seq![line] + lines(rest),
        !(line.len() > 0 && line.last() == '\r') ==> lines(line.push('\n') + rest) == seq![line]
            + lines(rest),
{
    let long = line.push('\r');
    assert(!long.contains('\n')) by {
        if long.contains('\n') {
            let i = choose|i: int| 0 <= i < long.len() && long[i] == '\n';
            assert(line[i] == '\n');
        }
    }
    lemma_lines_one(long);
    lemma_lines_add(long.push('\n'), rest);
    assert(drop_cr(long) =~= line);
    lemma_lines_one(line);
    lemma_lines_add(line.push('\n'), rest);
}

/// What has no line feed is one line, with all that it holds; nothing is none.
pub proof fn law_last_line(line: Seq<char>)
    requires
        !line.contains('\n'),
    ensures
        line.len() > 0 ==> lines(line) == seq![line],
        line.len() == 0 ==> lines(line) == Seq::<Seq<char>>::empty(),
{
    line.index_of_first_ensures('\n');
}

/// A text is its lines as they stand, put together; a line feed stands at the end of each of them
/// but the last, and nowhere else in them.
pub proof fn law_pieces(s: Seq<char>)
    ensures
        concat(pieces(s)) == s,
        forall|i: int|
            0 <= i < pieces(s).len() ==> (#[trigger] pieces(s)[i]).len() > 0
                && !pieces(s)[i].drop_last().contains('\n'),
        forall|i: int|
            0 <= i < pieces(s).len() - 1 ==> (#[trigger] pieces(s)[i]).last() == '\n',
{
    lemma_pieces(s);
    assert forall|i: int| 0 <= i < pieces(s).len() implies (#[trigger] pieces(s)[i]).len() > 0
        && !pieces(s)[i].drop_last().contains('\n') by {
        let p = pieces(s)[i];
        if i == pieces(s).len() - 1 {
            assert(p == pieces(s).last());
            if p.drop_last().contains('\n') {
                let j = choose|j: int| 0 <= j < p.drop_last().len() && p.drop_last()[j] == '\n';
                assert(p[j] == '\n');
            }
        }
    }
}

/// Texts put together hold their characters, one text behind the other.
pub proof fn law_concat(a: Seq<Seq<char>>, l: Seq<char>, b: Seq<Seq<char>>)
    ensures
        concat(a + seq![l] + b) == concat(a) + l + concat(b),
        concat(Seq::<Seq<char>>::empty()) == Seq::<char>::empty(),
{
    lemma_concat_add(a + seq![l], b);
    lemma_concat_add(a, seq![l]);
    lemma_concat_one(l);
}

/// The bytes of a text are read as that text.
pub proof fn law_text_of(s: Seq<char>)
    ensures
        text_of(encode_utf8(s)) == s,
{
    encode_utf8_valid_utf8(s);
    encode_utf8_decode_utf8(s);
}

/// The texts of strings are theirs, each in its place.
pub proof fn law_views(v: Seq<String>, i: int)
    ensures
        views(v).len() == v.len(),
        0 <= i < v.len() ==> views(v)[i] == v[i]@,
{
}

/// Texts are joined in order, with one separator between one and the next.
pub proof fn law_join(ls: Seq<Seq<char>>, l: Seq<char>, sep: char)
    ensures
        join(Seq::<Seq<char>>::empty(), sep).len() == 0,
        join(seq![l], sep) == l,
        ls.len() > 0 ==> join(ls.push(l), sep) == join(ls, sep).push(sep) + l,
{
    assert(ls.push(l).drop_last() =~= ls);
}

/// Trimming a line keeps what stands between two characters that are not white.
pub proof fn lemma_trim_cut(front: Seq<char>, core: Seq<char>, behind: Seq<char>)
    requires
        forall|i: int| 0 <= i < front.len() ==> is_white(#[trigger] front[i]),
        core.len() > 0,
        !is_white(core[0]),
        !is_white(core.last()),
    ensures
        core.len() <= trim(front + core + behind).len() <= core.len() + behind.len(),
        trim(front + core + behind) == (core + behind).take(
            trim(front + core + behind).len() as int,
        ),
{
    let x = core + behind;
    let s = front + core + behind;
    lemma_trim_start(s);
    let k = s.len() - trim_start(s).len();
    assert(s =~= front + x);
    assert(k == front.len()) by {
        if k < front.len() {
            assert(trim_start(s)[0] == s[k]);
            assert(s[k] == front[k]);
        } else if k > front.len() {
            assert(s[front.len() as int] == core[0]);
        }
    }
    assert(trim_start(s) =~= x);
    lemma_trim_end(x);
    let m = trim_end(x).len();
    assert(m >= core.len()) by {
        if m < core.len() {
            assert(x[core.len() - 1] == core.last());
        }
    }
}

} // verus!
