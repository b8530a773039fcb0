//! The marked block that the proxy keeps in the system's hosts file.
use vstd::prelude::*;
use crate::dns::{fields, law_names_are_words, law_rule_read, parsed};
use crate::text::{
    chars_of, concat, is_closed, is_white, law_first_word, law_no_word, law_trim, lemma_concat_add,
    lemma_pieces, lemma_pieces_add, lemma_pieces_concat, lemma_pieces_one, lemma_pieces_unlines,
    lemma_trim_end, lemma_trim_push, next_piece, option_text, pieces, push_chars, push_line, same,
    string_of, strip_prefix, trim, trim_end, trim_of, trim_start, unlines, views, words,
};

verus! {

/// The mark in the line that opens the block.
pub const BEGIN_MARK: &'static str = "# === gfwsni begin ===";

/// The mark in the line that closes the block.
pub const END_MARK: &'static str = "# === gfwsni end ===";

/// The hosts file of the system, where the system does not say which directory is its own.
pub const SYS_HOSTS: &'static str = "C:\\Windows\\System32\\drivers\\etc\\hosts";

/// The parts of the path of the system's hosts file: the directory of the system, where it says
/// which that is, and what is below it.
pub open spec fn hosts_path_parts(root: Option<Seq<char>>) -> Seq<Seq<char>> {
    match root {
        Some(r) => seq![r, "System32\\drivers\\etc\\hosts"@],
        None => seq![SYS_HOSTS@],
    }
}

/// The parts of the path of the system's hosts file.
pub fn sys_hosts_path(root: Option<String>) -> (r: Vec<String>)
    ensures
        views(r@) == hosts_path_parts(option_text(root)),
{
    let ghost given = option_text(root);
    let mut parts: Vec<String> = Vec::new();
    match root {
        Some(dir) => {
            parts.push(dir);
            parts.push("System32\\drivers\\etc\\hosts".to_string());
        },
        None => {
            parts.push(SYS_HOSTS.to_string());
        },
    }
    assert(views(parts@) =~= hosts_path_parts(given));
    parts
}

/// Whether a line opens the block; the white space around it does not count.
pub open spec fn is_begin(l: Seq<char>) -> bool {
    trim(l) == BEGIN_MARK@
}

/// Whether a line closes the block; the white space around it does not count.
pub open spec fn is_end(l: Seq<char>) -> bool {
    trim(l) == END_MARK@
}

/// The line that opens the block. A tab behind the mark says that the line feed in front of the
/// block came with it.
pub open spec fn begin_line(joined: bool) -> Seq<char> {
    if joined {
        BEGIN_MARK@.push('\t')
    } else {
        BEGIN_MARK@
    }
}

/// Whether a line that opens the block says that the line feed in front of it came with it.
pub open spec fn is_joined(l: Seq<char>) -> bool {
    is_begin(l) && begin_line(true).is_prefix_of(l)
}

/// Whether a block stands open behind the lines: one of them opens it and none behind that
/// one closes it.
pub open spec fn stands_open(ls: Seq<Seq<char>>) -> bool {
    exists|j: int|
        0 <= j < ls.len() && is_begin(#[trigger] ls[j]) && forall|k: int|
            j < k < ls.len() ==> !is_end(#[trigger] ls[k])
}

/// The lines that are no marks and stand in no block, in order.
pub open spec fn kept(ls: Seq<Seq<char>>) -> Seq<Seq<char>>
    decreases ls.len(),
{
    if ls.len() == 0 {
        Seq::empty()
    } else {
        let front = ls.drop_last();
        let l = ls.last();
        if is_begin(l) || is_end(l) || stands_open(front) {
            kept(front)
        } else {
            kept(front).push(l)
        }
    }
}

/// Whether the line feed behind the last line that is kept came with a block.
pub open spec fn feed_added(ls: Seq<Seq<char>>) -> bool
    decreases ls.len(),
{
    if ls.len() == 0 {
        false
    } else {
        let front = ls.drop_last();
        let l = ls.last();
        if is_begin(l) || is_end(l) || stands_open(front) {
            is_joined(l) || feed_added(front)
        } else {
            false
        }
    }
}

/// `s` without one line feed at its end.
pub open spec fn drop_feed(s: Seq<char>) -> Seq<char> {
    if s.len() > 0 && s.last() == '\n' {
        s.drop_last()
    } else {
        s
    }
}

/// The text without its blocks: the lines that are kept, as they stand, and without the line
/// feed that came with a block.
pub open spec fn stripped(content: Seq<char>) -> Seq<char> {
    let ls = pieces(content);
    if feed_added(ls) {
        drop_feed(concat(kept(ls)))
    } else {
        concat(kept(ls))
    }
}

proof fn lemma_stands_open_push(ls: Seq<Seq<char>>, l: Seq<char>)
    ensures
        stands_open(ls.push(l)) == (is_begin(l) || (stands_open(ls) && !is_end(l))),
{
    let all = ls.push(l);
    assert(all[ls.len() as int] == l);
    if is_begin(l) {
        assert(stands_open(all));
    }
    if stands_open(ls) && !is_end(l) {
        let j = choose|j: int|
            0 <= j < ls.len() && is_begin(#[trigger] ls[j]) && forall|k: int|
                j < k < ls.len() ==> !is_end(#[trigger] ls[k]);
        assert(all[j] == ls[j]);
        assert forall|k: int| j < k < all.len() implies !is_end(#[trigger] all[k]) by {
            if k < ls.len() {
                assert(all[k] == ls[k]);
            }
        }
    }
    if stands_open(all) && !is_begin(l) {
        let j = choose|j: int|
            0 <= j < all.len() && is_begin(#[trigger] all[j]) && forall|k: int|
                j < k < all.len() ==> !is_end(#[trigger] all[k]);
        assert(all[j] == ls[j]);
        assert forall|k: int| j < k < ls.len() implies !is_end(#[trigger] ls[k]) by {
            assert(all[k] == ls[k]);
        }
    }
}

proof fn lemma_marks_differ()
    ensures
        BEGIN_MARK@ != END_MARK@,
{
    reveal_strlit("# === gfwsni begin ===");
    reveal_strlit("# === gfwsni end ===");
    assert(BEGIN_MARK@.len() == 22);
    assert(END_MARK@.len() == 20);
}

/// Removes the lines of the block and its marks, and the line feed that came with them, and
/// keeps every other line as it stands.
pub fn strip_block(content: &str) -> (r: String)
    ensures
        r@ == stripped(content@),
{
    let all: Vec<char> = chars_of(content);
    let begin: Vec<char> = chars_of(BEGIN_MARK);
    let end: Vec<char> = chars_of(END_MARK);
    let joined: Vec<char> = begin_line_of(true);
    let mut rest: &[char] = all.as_slice();
    let mut out: Vec<char> = Vec::new();
    let mut in_block: bool = false;
    let mut added: bool = false;
    let ghost mut done: Seq<Seq<char>> = Seq::empty();
    assert(done + pieces(rest@) =~= pieces(content@));
    loop
        invariant
            begin@ == BEGIN_MARK@,
            end@ == END_MARK@,
            joined@ == begin_line(true),
            pieces(content@) == done + pieces(rest@),
            out@ == concat(kept(done)),
            in_block == stands_open(done),
            added == feed_added(done),
        ensures
            pieces(content@) == done,
            out@ == concat(kept(done)),
            added == feed_added(done),
        decreases rest@.len(),
    {
        match next_piece(rest) {
            None => {
                assert(done + pieces(rest@) =~= done);
                break;
            },
            Some((line, tail)) => {
                let t: &[char] = trim_of(line);
                proof {
                    lemma_marks_differ();
                    lemma_stands_open_push(done, line@);
                    assert(done.push(line@).drop_last() =~= done);
                    assert(done + pieces(rest@) =~= done.push(line@) + pieces(tail@));
                    assert(kept(done).push(line@).drop_last() =~= kept(done));
                }
                if same(t, begin.as_slice()) {
                    in_block = true;
                    added = added || strip_prefix(line, joined.as_slice()).is_some();
                } else if same(t, end.as_slice()) {
                    in_block = false;
                } else if !in_block {
                    push_all(&mut out, line);
                    added = false;
                }
                proof {
                    done = done.push(line@);
                }
                rest = tail;
            },
        }
    }
    if added && out.len() > 0 && out[out.len() - 1] == '\n' {
        let ghost whole = out@;
        let _ = out.pop();
        assert(out@ =~= whole.drop_last());
    }
    string_of(out.as_slice())
}

/// The line that opens the block.
fn begin_line_of(joined: bool) -> (r: Vec<char>)
    ensures
        r@ == begin_line(joined),
{
    let mut line: Vec<char> = chars_of(BEGIN_MARK);
    if joined {
        line.push('\t');
    }
    line
}

/// Appends the characters to the vector.
fn push_all(out: &mut Vec<char>, s: &[char])
    ensures
        final(out)@ == old(out)@ + s@,
{
    let ghost before = out@;
    let mut i: usize = 0;
    assert(before + s@.take(0) =~= before);
    while i < s.len()
        invariant
            i <= s@.len(),
            out@ == before + s@.take(i as int),
        decreases s@.len() - i,
    {
        out.push(s[i]);
        assert(before + s@.take(i + 1) =~= (before + s@.take(i as int)).push(s@[i as int]));
        i = i + 1;
    }
    assert(s@.take(s@.len() as int) =~= s@);
}

/// The line that points a name at this machine.
pub open spec fn entry(name: Seq<char>) -> Seq<char> {
    "127.0.0.1 "@ + name
}

/// Whether a text needs a line feed before a line can stand behind it.
pub open spec fn lacks_feed(s: Seq<char>) -> bool {
    s.len() > 0 && s.last() != '\n'
}

/// The lines of the block for the given names, and for a line feed that comes with it or none.
pub open spec fn block_lines(joined: bool, names: Seq<Seq<char>>) -> Seq<Seq<char>> {
    seq![begin_line(joined)] + Seq::new(names.len(), |i: int| entry(names[i])) + seq![END_MARK@]
}

/// The hosts file with a block for the names behind what it holds outside its blocks.
pub open spec fn applied(content: Seq<char>, names: Seq<Seq<char>>) -> Seq<char> {
    let base = stripped(content);
    if lacks_feed(base) {
        base.push('\n') + unlines(block_lines(true, names))
    } else {
        base + unlines(block_lines(false, names))
    }
}

/// What the hosts file is to hold so that every name leads to this machine; nothing is to be
/// written where there is no name.
pub fn apply(content: &str, domains: &Vec<String>) -> (r: Option<String>)
    ensures
        r is Some <==> domains@.len() > 0,
        r matches Some(new) ==> new@ == applied(content@, views(domains@)),
{
    if domains.len() == 0 {
        return None;
    }
    let base: String = strip_block(content);
    let base_chars: Vec<char> = chars_of(base.as_str());
    let joined: bool = base_chars.len() > 0 && base_chars[base_chars.len() - 1] != '\n';
    let begin: Vec<char> = begin_line_of(joined);
    let end: Vec<char> = chars_of(END_MARK);
    let prefix: Vec<char> = chars_of("127.0.0.1 ");
    let mut out: String = base;
    if joined {
        out.push('\n');
    }
    let ghost head = out@;
    let ghost names = views(domains@);
    let ghost all = block_lines(joined, names);
    push_line(&mut out, begin.as_slice());
    proof {
        assert(all.take(1).drop_last() =~= Seq::empty());
        assert(unlines(all.take(1).drop_last()) =~= Seq::empty());
        assert(unlines(all.take(1)) =~= begin_line(joined).push('\n'));
    }
    let mut i: usize = 0;
    while i < domains.len()
        invariant
            i <= domains@.len(),
            prefix@ == "127.0.0.1 "@,
            names == views(domains@),
            all == block_lines(joined, names),
            out@ == head + unlines(all.take(1 + i)),
        decreases domains@.len() - i,
    {
        let name: Vec<char> = chars_of(domains[i].as_str());
        let ghost before = out@;
        push_chars(&mut out, prefix.as_slice());
        push_line(&mut out, name.as_slice());
        proof {
            assert(names[i as int] == name@);
            assert(all[1 + i] == entry(name@));
            assert(all.take(1 + i + 1).drop_last() =~= all.take(1 + i));
            assert(all.take(1 + i + 1).last() == entry(name@));
            assert(out@ =~= before + entry(name@).push('\n'));
            assert(out@ =~= head + unlines(all.take(1 + i + 1)));
        }
        i = i + 1;
    }
    push_line(&mut out, end.as_slice());
    proof {
        assert(all.drop_last() =~= all.take(1 + i));
        assert(out@ =~= head + unlines(all));
    }
    Some(out)
}

/// What the hosts file is to hold once the block is gone; nothing is to be written where that
/// is what it holds already.
pub fn restore(content: &str) -> (r: Option<String>)
    ensures
        r is Some <==> stripped(content@) != content@,
        r matches Some(new) ==> new@ == stripped(content@),
{
    let cleaned: String = strip_block(content);
    let a: Vec<char> = chars_of(cleaned.as_str());
    let b: Vec<char> = chars_of(content);
    if same(a.as_slice(), b.as_slice()) {
        None
    } else {
        Some(cleaned)
    }
}

/// What the hosts file is to hold at start-up, so that no block of an earlier run is left.
pub fn cleanup_stale(content: &str) -> (r: Option<String>)
    ensures
        r is Some <==> stripped(content@) != content@,
        r matches Some(new) ==> new@ == stripped(content@),
{
    restore(content)
}

/// Whether none of the lines opens or closes a block.
pub open spec fn no_marks(ls: Seq<Seq<char>>) -> bool {
    forall|i: int| 0 <= i < ls.len() ==> !is_begin(#[trigger] ls[i]) && !is_end(ls[i])
}

/// What is kept is no mark, and each line of it is closed but the one that was the last of all.
proof fn lemma_kept(ls: Seq<Seq<char>>)
    requires
        forall|i: int| 0 <= i < ls.len() - 1 ==> is_closed(#[trigger] ls[i]),
    ensures
        no_marks(kept(ls)),
        forall|i: int|
            0 <= i < kept(ls).len() ==> is_closed(#[trigger] kept(ls)[i]) || (i == kept(ls).len() - 1
                && kept(ls)[i] == ls.last()),
    decreases ls.len(),
{
    if ls.len() > 0 {
        let front = ls.drop_last();
        assert(forall|i: int| 0 <= i < front.len() ==> #[trigger] front[i] == ls[i]);
        lemma_kept(front);
        assert(front.len() > 0 ==> front.last() == ls[front.len() - 1]);
        assert(forall|i: int|
            0 <= i < kept(ls).len() ==> #[trigger] kept(ls)[i] == if i < kept(front).len() {
                kept(front)[i]
            } else {
                ls.last()
            });
    }
}

/// Where no line is a mark, every line is kept.
proof fn lemma_kept_all(ls: Seq<Seq<char>>)
    requires
        no_marks(ls),
    ensures
        kept(ls) == ls,
        !stands_open(ls),
        !feed_added(ls),
    decreases ls.len(),
{
    if ls.len() > 0 {
        let front = ls.drop_last();
        assert forall|i: int| 0 <= i < front.len() implies !is_begin(#[trigger] front[i]) && !is_end(
            front[i],
        ) by {
            assert(front[i] == ls[i]);
        }
        lemma_kept_all(front);
        assert(ls[ls.len() - 1] == ls.last());
        assert(kept(ls) =~= ls);
    }
}

/// Nothing of an open block is kept, and nothing in it tells of a line feed.
proof fn lemma_kept_block(front: Seq<Seq<char>>, mid: Seq<Seq<char>>)
    requires
        stands_open(front),
        no_marks(mid),
    ensures
        kept(front + mid) == kept(front),
        feed_added(front + mid) == feed_added(front),
        stands_open(front + mid),
    decreases mid.len(),
{
    let all = front + mid;
    if mid.len() == 0 {
        assert(all =~= front);
    } else {
        let less = mid.drop_last();
        assert(forall|i: int| 0 <= i < less.len() ==> #[trigger] less[i] == mid[i]);
        lemma_kept_block(front, less);
        assert(all.drop_last() =~= front + less);
        assert(mid[mid.len() - 1] == all.last());
        assert(all =~= (front + less).push(all.last()));
        lemma_stands_open_push(front + less, all.last());
    }
}

proof fn lemma_entry(name: Seq<char>)
    ensures
        !is_begin(entry(name).push('\n')),
        !is_end(entry(name).push('\n')),
{
    reveal_strlit("127.0.0.1 ");
    reveal_strlit("# === gfwsni begin ===");
    reveal_strlit("# === gfwsni end ===");
    let e = entry(name).push('\n');
    assert(e[0] == '1');
    lemma_trim_end(e);
    assert(trim_start(e) == e);
    assert(BEGIN_MARK@[0] == '#' && END_MARK@[0] == '#');
    assert(trim(e).len() > 0 ==> trim(e)[0] == '1');
}

proof fn lemma_mark_lines(joined: bool)
    ensures
        is_begin(begin_line(joined).push('\n')),
        is_joined(begin_line(joined).push('\n')) == joined,
        is_end(END_MARK@.push('\n')),
        !begin_line(joined).contains('\n'),
        !END_MARK@.contains('\n'),
{
    reveal_strlit("# === gfwsni begin ===");
    reveal_strlit("# === gfwsni end ===");
    let b = BEGIN_MARK@;
    let e = END_MARK@;
    let l = begin_line(joined);
    assert(b.last() == '=' && e.last() == '=');
    assert(b[0] == '#' && e[0] == '#');
    assert(trim_start(b) == b && trim_end(b) == b);
    assert(trim_start(e) == e && trim_end(e) == e);
    lemma_trim_push(b, '\t');
    lemma_trim_push(l, '\n');
    lemma_trim_push(e, '\n');
    assert(l.push('\n')[22] == if joined {
        '\t'
    } else {
        '\n'
    });
    assert(begin_line(true)[22] == '\t');
}

/// The lines of the block as they stand.
spec fn block_pieces(joined: bool, names: Seq<Seq<char>>) -> Seq<Seq<char>> {
    Seq::new(block_lines(joined, names).len(), |i: int| block_lines(joined, names)[i].push('\n'))
}

proof fn lemma_block_text(joined: bool, names: Seq<Seq<char>>)
    requires
        forall|i: int| 0 <= i < names.len() ==> !(#[trigger] names[i]).contains('\n'),
    ensures
        pieces(unlines(block_lines(joined, names))) == block_pieces(joined, names),
{
    lemma_mark_lines(joined);
    let ls = block_lines(joined, names);
    assert forall|i: int| 0 <= i < ls.len() implies !(#[trigger] ls[i]).contains('\n') by {
        if 1 <= i < 1 + names.len() {
            let n = names[i - 1];
            assert(ls[i] == entry(n));
            reveal_strlit("127.0.0.1 ");
            assert(!n.contains('\n'));
            if entry(n).contains('\n') {
                let k = choose|k: int| 0 <= k < entry(n).len() && entry(n)[k] == '\n';
                assert(k >= 10);
                assert(n[k - 10] == '\n');
            }
        }
    }
    lemma_pieces_unlines(ls);
}

/// Behind lines without marks, nothing of the block is kept, and it tells whether it brought a
/// line feed.
proof fn lemma_block(front: Seq<Seq<char>>, joined: bool, names: Seq<Seq<char>>)
    requires
        no_marks(front),
    ensures
        kept(front + block_pieces(joined, names)) == front,
        feed_added(front + block_pieces(joined, names)) == joined,
{
    lemma_marks_differ();
    lemma_mark_lines(joined);
    lemma_kept_all(front);
    let b = begin_line(joined).push('\n');
    let e = END_MARK@.push('\n');
    let mid = Seq::new(names.len(), |i: int| entry(names[i]).push('\n'));
    let one = front.push(b);
    assert(one.drop_last() =~= front);
    assert(kept(one) == front);
    assert(feed_added(one) == joined);
    lemma_stands_open_push(front, b);
    assert forall|i: int| 0 <= i < mid.len() implies !is_begin(#[trigger] mid[i]) && !is_end(mid[i]) by {
        lemma_entry(names[i]);
    }
    lemma_kept_block(one, mid);
    let all = front + block_pieces(joined, names);
    assert(all =~= (one + mid).push(e));
    assert(all.drop_last() =~= one + mid);
    assert(all.last() == e);
    assert(kept(all) == kept(one + mid));
}

/// A line feed behind the last line makes or hides no mark.
proof fn lemma_no_marks_push(s: Seq<char>)
    ensures
        no_marks(pieces(s)) <==> no_marks(pieces(s.push('\n'))),
{
    s.index_of_last_ensures('\n');
    let n: int = match s.index_of_last('\n') {
        Some(i) => i + 1,
        None => 0,
    };
    let a = s.take(n);
    let x = s.skip(n);
    assert(n > 0 ==> a.last() == s[n - 1]);
    assert(s =~= a + x);
    assert(s.push('\n') =~= a + x.push('\n'));
    assert(!x.contains('\n')) by {
        if x.contains('\n') {
            let k = choose|k: int| 0 <= k < x.len() && x[k] == '\n';
            assert(s[n + k] == '\n');
        }
    }
    lemma_pieces_add(a, x);
    lemma_pieces_add(a, x.push('\n'));
    assert(x.push('\n').drop_last() =~= x);
    lemma_pieces_one(x.push('\n'));
    lemma_trim_push(x, '\n');
    let p = pieces(a);
    let longer = pieces(s.push('\n'));
    assert(longer == p.push(x.push('\n')));
    assert(longer[p.len() as int] == x.push('\n'));
    if x.len() > 0 {
        lemma_pieces_one(x);
        assert(pieces(s) == p.push(x));
        assert(pieces(s)[p.len() as int] == x);
        assert(forall|i: int| 0 <= i < p.len() ==> #[trigger] pieces(s)[i] == longer[i]);
        assert(forall|i: int| 0 <= i < p.len() ==> #[trigger] longer[i] == pieces(s)[i]);
    } else {
        assert(pieces(s) =~= p);
        assert(x =~= Seq::empty());
        assert(trim(x).len() == 0);
        reveal_strlit("# === gfwsni begin ===");
        reveal_strlit("# === gfwsni end ===");
        assert(forall|i: int| 0 <= i < p.len() ==> #[trigger] p[i] == longer[i]);
        assert(forall|i: int| 0 <= i < p.len() ==> #[trigger] longer[i] == p[i]);
    }
}

/// No mark is left where the blocks were removed.
pub proof fn law_strip_leaves_no_mark(content: Seq<char>)
    ensures
        no_marks(pieces(stripped(content))),
{
    let ls = pieces(content);
    lemma_pieces(content);
    lemma_kept(ls);
    let k = kept(ls);
    assert(k.len() > 0 ==> k.last() == k[k.len() - 1]);
    lemma_pieces_concat(k);
    let whole = concat(k);
    if feed_added(ls) && whole.len() > 0 && whole.last() == '\n' {
        assert(whole =~= whole.drop_last().push('\n'));
        lemma_no_marks_push(whole.drop_last());
    }
}

/// A hosts file without marks is left as it is.
pub proof fn law_strip_unchanged(content: Seq<char>)
    requires
        no_marks(pieces(content)),
    ensures
        stripped(content) == content,
{
    lemma_kept_all(pieces(content));
    lemma_pieces(content);
}

/// Stripping what was stripped changes nothing.
pub proof fn law_strip_idempotent(content: Seq<char>)
    ensures
        stripped(stripped(content)) == stripped(content),
{
    law_strip_leaves_no_mark(content);
    law_strip_unchanged(stripped(content));
}

/// Restoring after applying gives exactly what the file held outside its blocks.
pub proof fn law_restore_after_apply(content: Seq<char>, names: Seq<Seq<char>>)
    requires
        forall|i: int| 0 <= i < names.len() ==> !(#[trigger] names[i]).contains('\n'),
    ensures
        stripped(applied(content, names)) == stripped(content),
{
    let base = stripped(content);
    let joined = lacks_feed(base);
    let front = if joined {
        base.push('\n')
    } else {
        base
    };
    law_strip_leaves_no_mark(content);
    lemma_no_marks_push(base);
    lemma_pieces(front);
    lemma_block_text(joined, names);
    lemma_pieces_add(front, unlines(block_lines(joined, names)));
    lemma_block(pieces(front), joined, names);
    assert(joined ==> front.drop_last() =~= base);
}

/// A hosts file without marks is exactly what it was once the block has been applied and removed
/// again.
pub proof fn law_restore_gives_back(content: Seq<char>, names: Seq<Seq<char>>)
    requires
        no_marks(pieces(content)),
        forall|i: int| 0 <= i < names.len() ==> !(#[trigger] names[i]).contains('\n'),
    ensures
        stripped(applied(content, names)) == content,
{
    law_restore_after_apply(content, names);
    law_strip_unchanged(content);
}

/// The names of rules can be applied, whatever the rules are: a hosts file without marks gets a
/// line for each of them, and is exactly what it was once they are removed again.
pub proof fn law_rules_come_and_go(
    content: Seq<char>,
    rules: Seq<char>,
    addresses: Seq<Option<Seq<char>>>,
    names: Seq<Seq<char>>,
)
    requires
        no_marks(pieces(content)),
        forall|i: int|
            0 <= i < names.len() ==> parsed(rules, addresses).contains_key(#[trigger] names[i]),
    ensures
        forall|i: int|
            0 <= i < names.len() ==> pieces(applied(content, names)).contains(
                entry(#[trigger] names[i]).push('\n'),
            ),
        stripped(applied(content, names)) == content,
{
    assert forall|i: int| 0 <= i < names.len() implies !(#[trigger] names[i]).contains('\n') by {
        law_names_are_words(rules, addresses, names[i]);
    }
    assert forall|i: int| 0 <= i < names.len() implies pieces(applied(content, names)).contains(
        entry(#[trigger] names[i]).push('\n'),
    ) by {
        law_names_lead_here(content, names, i);
    }
    law_restore_gives_back(content, names);
}

/// Applying once more, for the same names or for others, is the same as applying only that.
pub proof fn law_apply_again(content: Seq<char>, names: Seq<Seq<char>>, others: Seq<Seq<char>>)
    requires
        forall|i: int| 0 <= i < names.len() ==> !(#[trigger] names[i]).contains('\n'),
    ensures
        applied(applied(content, names), others) == applied(content, others),
{
    law_restore_after_apply(content, names);
}

/// The file that was applied holds one block, at its end: in front of it stands what the file
/// held outside its blocks, without a mark and with a line feed behind it; then come the line that
/// opens the block, the lines of the names and nothing else, and the line that closes it.
pub proof fn law_block_holds_names(content: Seq<char>, names: Seq<Seq<char>>)
    requires
        forall|i: int| 0 <= i < names.len() ==> !(#[trigger] names[i]).contains('\n'),
    ensures
        ({
            let base = stripped(content);
            let front = pieces(
                if lacks_feed(base) {
                    base.push('\n')
                } else {
                    base
                },
            );
            let entries = Seq::new(names.len(), |i: int| entry(names[i]).push('\n'));
            let begin = begin_line(lacks_feed(base)).push('\n');
            let end = END_MARK@.push('\n');
            &&& pieces(applied(content, names)) == front + seq![begin] + entries + seq![end]
            &&& no_marks(front)
            &&& is_begin(begin) && !is_end(begin)
            &&& no_marks(entries)
            &&& is_end(end) && !is_begin(end)
        }),
{
    let base = stripped(content);
    let joined = lacks_feed(base);
    let front = if joined {
        base.push('\n')
    } else {
        base
    };
    law_strip_leaves_no_mark(content);
    lemma_no_marks_push(base);
    lemma_marks_differ();
    lemma_mark_lines(joined);
    lemma_block_text(joined, names);
    lemma_pieces_add(front, unlines(block_lines(joined, names)));
    let begin = begin_line(joined).push('\n');
    let end = END_MARK@.push('\n');
    let entries = Seq::new(names.len(), |i: int| entry(names[i]).push('\n'));
    assert forall|i: int| 0 <= i < entries.len() implies !is_begin(#[trigger] entries[i]) && !is_end(
        entries[i],
    ) by {
        lemma_entry(names[i]);
    }
    assert(pieces(front) + block_pieces(joined, names) =~= pieces(front) + seq![begin] + entries
        + seq![end]);
}

/// Every name has its line in the file that was applied.
pub proof fn law_names_lead_here(content: Seq<char>, names: Seq<Seq<char>>, i: int)
    requires
        0 <= i < names.len(),
        forall|j: int| 0 <= j < names.len() ==> !(#[trigger] names[j]).contains('\n'),
    ensures
        pieces(applied(content, names)).contains(entry(names[i]).push('\n')),
{
    law_block_holds_names(content, names);
    let all = pieces(applied(content, names));
    assert(all[all.len() - 1 - names.len() + i] == entry(names[i]).push('\n'));
}

/// The line of a name, read as a line of a hosts file, has the address 127.0.0.1 and that very
/// name; and nothing stands in it but these and the blank between them.
pub proof fn law_entry_read(name: Seq<char>)
    requires
        name.len() > 0,
        forall|i: int| 0 <= i < name.len() ==> !is_white(#[trigger] name[i]),
    ensures
        words(entry(name)) == seq!["127.0.0.1"@, name],
        fields(entry(name)) == Some(("127.0.0.1"@, name)),
        entry(name).len() == name.len() + 10,
{
    reveal_strlit("127.0.0.1 ");
    reveal_strlit("127.0.0.1");
    let ip = "127.0.0.1"@;
    let none: Seq<char> = Seq::empty();
    let gap = seq![' '];
    assert(entry(name) =~= none + ip + gap + name + none);
    law_rule_read(none, ip, gap, name, none);
    law_first_word(none, ip, gap + name);
    assert(entry(name) =~= none + ip + (gap + name));
    law_first_word(gap, name, none);
    assert(gap + name + none =~= gap + name);
    law_no_word(none);
    assert(words(entry(name)) =~= seq![ip, name]);
}

/// The marks: a line opens or closes a block where, but for the white space around it, it is the
/// mark and nothing else.
pub proof fn law_marks(front: Seq<char>, text: Seq<char>, behind: Seq<char>)
    requires
        forall|i: int| 0 <= i < front.len() ==> is_white(#[trigger] front[i]),
        text.len() > 0 ==> !is_white(text[0]) && !is_white(text.last()),
        forall|i: int| 0 <= i < behind.len() ==> is_white(#[trigger] behind[i]),
    ensures
        is_begin(front + text + behind) <==> text == "# === gfwsni begin ==="@,
        is_end(front + text + behind) <==> text == "# === gfwsni end ==="@,
{
    law_trim(front, text, behind);
}

/// Behind a block that is closed, lines without marks are kept, and end what it said of a line
/// feed.
proof fn lemma_kept_behind(front: Seq<Seq<char>>, back: Seq<Seq<char>>)
    requires
        !stands_open(front),
        no_marks(back),
    ensures
        kept(front + back) == kept(front) + back,
        feed_added(front + back) == (back.len() == 0 && feed_added(front)),
        !stands_open(front + back),
    decreases back.len(),
{
    let all = front + back;
    if back.len() == 0 {
        assert(all =~= front);
        assert(kept(front) + back =~= kept(front));
    } else {
        let less = back.drop_last();
        assert(forall|i: int| 0 <= i < less.len() ==> #[trigger] less[i] == back[i]);
        lemma_kept_behind(front, less);
        assert(all.drop_last() =~= front + less);
        assert(back[back.len() - 1] == all.last());
        assert(all =~= (front + less).push(all.last()));
        lemma_stands_open_push(front + less, all.last());
        assert(kept(all) =~= kept(front) + back);
    }
}

/// A block is taken out whole, with its marks, and what stands in front of it and behind it stays
/// to the character. Only where nothing stands behind it, and a tab behind its first mark says so,
/// the line feed in front of it goes too.
pub proof fn law_strip_takes_block(
    front: Seq<char>,
    begin: Seq<char>,
    mid: Seq<char>,
    end: Seq<char>,
    back: Seq<char>,
)
    requires
        front.len() > 0 ==> front.last() == '\n',
        no_marks(pieces(front)),
        is_begin(begin) && begin.len() > 0 && begin.last() == '\n' && !begin.drop_last().contains('\n'),
        mid.len() > 0 ==> mid.last() == '\n',
        no_marks(pieces(mid)),
        is_end(end) && end.len() > 0 && end.last() == '\n' && !end.drop_last().contains('\n'),
        no_marks(pieces(back)),
    ensures
        stripped(front + begin + mid + end + back) == if back.len() == 0 && front.len() > 0
            && "# === gfwsni begin ===\t"@.is_prefix_of(begin) {
            front.drop_last()
        } else {
            front + back
        },
        stripped(front + begin + mid) == if front.len() > 0
            && "# === gfwsni begin ===\t"@.is_prefix_of(begin) {
            front.drop_last()
        } else {
            front
        },
        stripped(front + end + back) == front + back,
{
    reveal_strlit("# === gfwsni begin ===");
    reveal_strlit("# === gfwsni begin ===\t");
    assert(begin_line(true) =~= "# === gfwsni begin ===\t"@);
    lemma_marks_differ();
    let pf = pieces(front);
    let pm = pieces(mid);
    let pb = pieces(back);
    lemma_pieces_one(begin);
    lemma_pieces_one(end);
    lemma_pieces(front);
    lemma_pieces(mid);
    lemma_pieces(back);
    lemma_kept_all(pf);
    let one = pf.push(begin);
    assert(one.drop_last() =~= pf);
    lemma_stands_open_push(pf, begin);
    assert(kept(one) == pf);
    assert(feed_added(one) == is_joined(begin));
    lemma_kept_block(one, pm);
    let two = (one + pm).push(end);
    assert(two.drop_last() =~= one + pm);
    lemma_stands_open_push(one + pm, end);
    assert(kept(two) == pf);
    assert(feed_added(two) == is_joined(begin)) by {
        assert(!is_joined(end));
    }
    lemma_kept_behind(two, pb);
    lemma_pieces_add(front, begin);
    lemma_pieces_add(front + begin, mid);
    assert(pieces(front + begin + mid) =~= one + pm);
    lemma_pieces_add(front + begin + mid, end);
    assert((front + begin + mid + end).last() == '\n');
    lemma_pieces_add(front + begin + mid + end, back);
    assert(pieces(front + begin + mid + end + back) =~= two + pb);
    lemma_concat_add(pf, pb);
    assert(back.len() == 0 ==> front + back =~= front);
    assert(back.len() == 0 ==> pb.len() == 0);
    let three = pf.push(end);
    assert(three.drop_last() =~= pf);
    lemma_stands_open_push(pf, end);
    assert(kept(three) == pf);
    assert(!feed_added(three));
    lemma_kept_behind(three, pb);
    lemma_pieces_add(front, end);
    assert((front + end).last() == '\n');
    lemma_pieces_add(front + end, back);
    assert(pieces(front + end + back) =~= three + pb);
}

/// The hosts file of the system stands below the directory that the system says is its own, or at
/// the usual place where it does not say.
pub proof fn law_hosts_path(root: Seq<char>)
    ensures
        hosts_path_parts(Some(root)) == seq![root, "System32\\drivers\\etc\\hosts"@],
        hosts_path_parts(None) == seq!["C:\\Windows\\System32\\drivers\\etc\\hosts"@],
{
}

/// The line that opens a block is the mark, with a tab behind it where a line feed came with the
/// block; the line that closes it is the mark.
pub proof fn law_block_lines(joined: bool, names: Seq<Seq<char>>, i: int)
    ensures
        block_lines(joined, names).len() == names.len() + 2,
        block_lines(joined, names)[0] == if joined {
            "# === gfwsni begin ===\t"@
        } else {
            "# === gfwsni begin ==="@
        },
        0 <= i < names.len() ==> block_lines(joined, names)[i + 1] == "127.0.0.1 "@ + names[i],
        block_lines(joined, names).last() == "# === gfwsni end ==="@,
{
    reveal_strlit("# === gfwsni begin ===");
    reveal_strlit("# === gfwsni begin ===\t");
    assert(BEGIN_MARK@.push('\t') =~= "# === gfwsni begin ===\t"@);
}

/// The file that is written is what the file held outside its blocks, a line feed where that needs
/// one, and the lines of the block, each with a line feed.
pub proof fn law_applied_text(content: Seq<char>, names: Seq<Seq<char>>)
    ensures
        ({
            let base = stripped(content);
            let needs = base.len() > 0 && base.last() != '\n';
            applied(content, names) == base + (if needs {
                seq!['\n']
            } else {
                Seq::empty()
            }) + unlines(block_lines(needs, names))
        }),
{
    let base = stripped(content);
    let none: Seq<char> = Seq::empty();
    assert(base + none =~= base);
    assert(base.push('\n') =~= base + seq!['\n']);
}

} // verus!
