//! The settings of the program: what they are, and how one is changed in the file.
use vstd::prelude::*;
use vstd::slice::slice_subrange;
use crate::http::{decimal, law_decimal, law_number_read, number, parse_number};
use crate::table::Table;
use crate::text::{
    chars_of, concat, find_char, is_closed, is_text, is_white, law_trim, lemma_concat_add,
    lemma_concat_one, lemma_pieces, lemma_pieces_add, lemma_pieces_concat, lemma_pieces_one,
    lemma_trim_cut, lemma_trim_end, lemma_trim_push, lemma_trim_start, lower, lower_of, next_piece,
    pieces, push_chars, push_line, same, trim, trim_end, trim_of, trim_start,
};

verus! {

/// Where the settings stand, below the directory of the program.
pub const CONFIG_FILE: &'static str = "data/app.conf";

/// Where the rules are had from, where no setting says otherwise.
pub const DEFAULT_HOSTS_URL: &'static str = "https://gh-proxy.com/https://github.com/svier0/gfwsni/releases/download/0/hosts";

/// The settings that are written where there are none. ASCII only.
pub const DEFAULT_CONFIG: &'static str = "\
# gfwsni config (UTF-8, ASCII only). Put this file at: <exe dir>/data/app.conf

# hosts download URL
HOSTS_URL=https://gh-proxy.com/https://github.com/svier0/gfwsni/releases/download/0/hosts

# listen address (localhost or concrete IP)
ADDRESS=localhost

# target connection timeout (seconds)
DIAL_TIMEOUT_SECS=5

# certificate validity (seconds)
CERT_EXPIRE_SECS=7200000

# autostart via startup-folder shortcut (no registry writes)
AUTOSTART=false

# auto-run the proxy when the app starts
AUTO_RUN=false

# silent launch: do not create the main window, tray only (default false)
SILENT_LAUNCH=false
";

/// What loading the settings comes to.
#[derive(Clone, Copy, Debug, PartialEq, Eq, Structural)]
pub enum LoadStep {
    /// There is no file: one with the default settings is written, and none is read.
    WriteDefault,
    /// The file is read into the environment.
    Read,
}

/// Decides how the settings are loaded.
pub fn load(file_exists: bool) -> (r: LoadStep)
    ensures
        r == if file_exists {
            LoadStep::Read
        } else {
            LoadStep::WriteDefault
        },
{
    if file_exists {
        LoadStep::Read
    } else {
        LoadStep::WriteDefault
    }
}

/// Where the settings stand, below the directory of the program.
pub fn config_path() -> (r: &'static str)
    ensures
        r@ == CONFIG_FILE@,
{
    CONFIG_FILE
}

/// The text of a setting in the environment, or the default.
pub open spec fn text_setting(
    env: Map<Seq<char>, Seq<char>>,
    key: Seq<char>,
    default: Seq<char>,
) -> Seq<char> {
    if env.contains_key(key) {
        env[key]
    } else {
        default
    }
}

/// What a text says of a switch, where it says anything.
pub open spec fn switch(v: Seq<char>) -> Option<bool> {
    let t = lower(trim(v));
    if t == "1"@ || t == "true"@ || t == "yes"@ || t == "on"@ {
        Some(true)
    } else if t == "0"@ || t == "false"@ || t == "no"@ || t == "off"@ {
        Some(false)
    } else {
        None
    }
}

/// The position of a switch in the environment, or the default.
pub open spec fn switch_setting(
    env: Map<Seq<char>, Seq<char>>,
    key: Seq<char>,
    default: bool,
) -> bool {
    if env.contains_key(key) {
        match switch(env[key]) {
            Some(b) => b,
            None => default,
        }
    } else {
        default
    }
}

/// The number of a setting in the environment, or the default.
pub open spec fn number_setting(
    env: Map<Seq<char>, Seq<char>>,
    key: Seq<char>,
    default: nat,
) -> nat {
    if env.contains_key(key) {
        match number(trim(env[key]), u64::MAX as nat) {
            Some(n) => n,
            None => default,
        }
    } else {
        default
    }
}

/// The text of a setting in the environment, or the default.
pub fn get_str(env: &Table, key: &str, default: &str) -> (r: String)
    requires
        env.wf(),
    ensures
        r@ == text_setting(env@, key@, default@),
{
    match env.get(key) {
        Some(v) => v.clone(),
        None => default.to_string(),
    }
}

/// The position of a switch in the environment, or the default.
pub fn get_bool(env: &Table, key: &str, default: bool) -> (r: bool)
    requires
        env.wf(),
    ensures
        r == switch_setting(env@, key@, default),
{
    match env.get(key) {
        Some(v) => {
            let all: Vec<char> = chars_of(v.as_str());
            let low: Vec<char> = lower_of(trim_of(all.as_slice()));
            let t: &[char] = low.as_slice();
            if is_text(t, "1") || is_text(t, "true") || is_text(t, "yes") || is_text(t, "on") {
                true
            } else if is_text(t, "0") || is_text(t, "false") || is_text(t, "no") || is_text(
                t,
                "off",
            ) {
                false
            } else {
                default
            }
        },
        None => default,
    }
}

/// The number of a setting in the environment, or the default.
pub fn get_u64(env: &Table, key: &str, default: u64) -> (r: u64)
    requires
        env.wf(),
    ensures
        r == number_setting(env@, key@, default as nat),
{
    match env.get(key) {
        Some(v) => {
            let all: Vec<char> = chars_of(v.as_str());
            match parse_number(trim_of(all.as_slice()), u64::MAX) {
                Some(n) => n,
                None => default,
            }
        },
        None => default,
    }
}

/// Where the rules are had from.
pub fn hosts_url(env: &Table) -> (r: String)
    requires
        env.wf(),
    ensures
        r@ == text_setting(env@, "HOSTS_URL"@, DEFAULT_HOSTS_URL@),
{
    get_str(env, "HOSTS_URL", DEFAULT_HOSTS_URL)
}

/// The address to listen at.
pub fn address(env: &Table) -> (r: String)
    requires
        env.wf(),
    ensures
        r@ == text_setting(env@, "ADDRESS"@, "localhost"@),
{
    get_str(env, "ADDRESS", "localhost")
}

/// How long a connection to a target may take, in seconds.
pub fn dial_timeout_secs(env: &Table) -> (r: u64)
    requires
        env.wf(),
    ensures
        r == number_setting(env@, "DIAL_TIMEOUT_SECS"@, 5),
{
    get_u64(env, "DIAL_TIMEOUT_SECS", 5)
}

/// How long a certificate is valid, in seconds.
pub fn cert_expire_secs(env: &Table) -> (r: u64)
    requires
        env.wf(),
    ensures
        r == number_setting(env@, "CERT_EXPIRE_SECS"@, 7200000),
{
    get_u64(env, "CERT_EXPIRE_SECS", 7200000)
}

/// Whether the proxy starts with the program.
pub fn auto_run(env: &Table) -> (r: bool)
    requires
        env.wf(),
    ensures
        r == switch_setting(env@, "AUTO_RUN"@, false),
{
    get_bool(env, "AUTO_RUN", false)
}

/// Whether the program starts without its window.
pub fn silent_launch(env: &Table) -> (r: bool)
    requires
        env.wf(),
    ensures
        r == switch_setting(env@, "SILENT_LAUNCH"@, false),
{
    get_bool(env, "SILENT_LAUNCH", false)
}

/// Whether the program starts with the system.
pub fn autostart(env: &Table) -> (r: bool)
    requires
        env.wf(),
    ensures
        r == switch_setting(env@, "AUTOSTART"@, false),
{
    get_bool(env, "AUTOSTART", false)
}

/// The settings that the window shows.
#[derive(Clone, Copy, Debug, PartialEq, Eq, Structural)]
pub struct AppConfig {
    pub autostart: bool,
    pub auto_run: bool,
    pub silent_launch: bool,
}

/// The settings that the window shows.
pub fn all(env: &Table) -> (r: AppConfig)
    requires
        env.wf(),
    ensures
        r.autostart == switch_setting(env@, "AUTOSTART"@, false),
        r.auto_run == switch_setting(env@, "AUTO_RUN"@, false),
        r.silent_launch == switch_setting(env@, "SILENT_LAUNCH"@, false),
{
    AppConfig {
        autostart: autostart(env),
        auto_run: auto_run(env),
        silent_launch: silent_launch(env),
    }
}

/// Whether a line is no comment and gives the key a value.
pub open spec fn sets(line: Seq<char>, key: Seq<char>) -> bool {
    let t = trim(line);
    !(t.len() > 0 && t[0] == '#') && match t.index_of_first('=') {
        Some(i) => trim(t.take(i)) == key,
        None => false,
    }
}

/// The word for the position of a switch.
pub open spec fn switch_word(value: bool) -> Seq<char> {
    if value {
        "true"@
    } else {
        "false"@
    }
}

/// The line that gives a key its value.
pub open spec fn setting_line(key: Seq<char>, value: bool) -> Seq<char> {
    key.push('=') + switch_word(value)
}

/// The place of the first of the lines that gives the key a value.
pub open spec fn first_to_set(ls: Seq<Seq<char>>, key: Seq<char>) -> Option<int>
    decreases ls.len(),
{
    if ls.len() == 0 {
        None
    } else if sets(ls[0], key) {
        Some(0)
    } else {
        match first_to_set(ls.drop_first(), key) {
            Some(i) => Some(i + 1),
            None => None,
        }
    }
}

/// The ending of a line: a line feed, a carriage return and a line feed, or nothing.
pub open spec fn ending(l: Seq<char>) -> Seq<char> {
    if l.len() == 0 || l.last() != '\n' {
        Seq::empty()
    } else if l.len() > 1 && l[l.len() - 2] == '\r' {
        seq!['\r', '\n']
    } else {
        seq!['\n']
    }
}

/// The text that ends in a line feed wherever it holds anything.
pub open spec fn with_feed(s: Seq<char>) -> Seq<char> {
    if s.len() > 0 && s.last() != '\n' {
        s.push('\n')
    } else {
        s
    }
}

/// The file after a switch was given a position: the first line that gives it one is changed,
/// all but its ending, or a line is added where there is none; the rest stays as it stands.
pub open spec fn after_set(content: Seq<char>, key: Seq<char>, value: bool) -> Seq<char> {
    let ls = pieces(content);
    match first_to_set(ls, key) {
        Some(i) => concat(ls.update(i, setting_line(key, value) + ending(ls[i]))),
        None => with_feed(content) + setting_line(key, value).push('\n'),
    }
}

/// Whether a line is no comment and gives the key a value.
fn line_sets(line: &[char], key: &[char]) -> (r: bool)
    ensures
        r == sets(line@, key@),
{
    let t: &[char] = trim_of(line);
    if t.len() > 0 && t[0] == '#' {
        return false;
    }
    match find_char(t, '=') {
        Some(i) => {
            let front: &[char] = slice_subrange(t, 0, i);
            assert(front@ =~= t@.take(i as int));
            same(trim_of(front), key)
        },
        None => false,
    }
}

/// The place of the first of the lines that gives the key a value, from behind others that give
/// it none.
proof fn lemma_first_behind(a: Seq<Seq<char>>, b: Seq<Seq<char>>, key: Seq<char>)
    requires
        forall|i: int| 0 <= i < a.len() ==> !sets(#[trigger] a[i], key),
    ensures
        first_to_set(a + b, key) == match first_to_set(b, key) {
            Some(i) => Some(i + a.len()),
            None => None,
        },
    decreases a.len(),
{
    let all = a + b;
    if a.len() == 0 {
        assert(all =~= b);
    } else {
        assert(all[0] == a[0]);
        let rest = a.drop_first();
        assert(forall|i: int| 0 <= i < rest.len() ==> #[trigger] rest[i] == a[i + 1]);
        assert(all.drop_first() =~= rest + b);
        lemma_first_behind(rest, b, key);
    }
}

/// None of the lines in front of the first that gives the key a value gives it one.
proof fn lemma_first(ls: Seq<Seq<char>>, key: Seq<char>)
    ensures
        match first_to_set(ls, key) {
            Some(i) => 0 <= i < ls.len() && sets(ls[i], key) && forall|j: int|
                0 <= j < i ==> !sets(#[trigger] ls[j], key),
            None => forall|j: int| 0 <= j < ls.len() ==> !sets(#[trigger] ls[j], key),
        },
    decreases ls.len(),
{
    if ls.len() > 0 && !sets(ls[0], key) {
        let rest = ls.drop_first();
        lemma_first(rest, key);
        match first_to_set(rest, key) {
            Some(i) => {
                assert(rest[i] == ls[i + 1]);
                assert forall|j: int| 0 <= j < i + 1 implies !sets(#[trigger] ls[j], key) by {
                    if j > 0 {
                        assert(rest[j - 1] == ls[j]);
                    }
                }
            },
            None => {
                assert forall|j: int| 0 <= j < ls.len() implies !sets(#[trigger] ls[j], key) by {
                    if j > 0 {
                        assert(rest[j - 1] == ls[j]);
                    }
                }
            },
        }
    }
}

/// The text of lines of which one was changed.
proof fn lemma_changed(a: Seq<Seq<char>>, l: Seq<char>, b: Seq<Seq<char>>, new: Seq<char>)
    ensures
        concat((a + (seq![l] + b)).update(a.len() as int, new)) == concat(a) + (new + concat(b)),
{
    let all = a + (seq![l] + b);
    assert(all.update(a.len() as int, new) =~= a + (seq![new] + b));
    lemma_concat_add(a, seq![new] + b);
    lemma_concat_add(seq![new], b);
    lemma_concat_one(new);
}

/// The file once the line in its place is changed.
proof fn lemma_set_here(
    content: Seq<char>,
    done: Seq<Seq<char>>,
    line: Seq<char>,
    tail: Seq<char>,
    key: Seq<char>,
    value: bool,
)
    requires
        pieces(content) == done + (seq![line] + pieces(tail)),
        forall|i: int| 0 <= i < done.len() ==> !sets(#[trigger] done[i], key),
        sets(line, key),
    ensures
        after_set(content, key, value) == concat(done) + ((setting_line(key, value) + ending(line))
            + tail),
{
    let ls = seq![line] + pieces(tail);
    assert(ls[0] == line);
    assert(first_to_set(ls, key) == Some(0int));
    lemma_first_behind(done, ls, key);
    lemma_changed(done, line, pieces(tail), setting_line(key, value) + ending(line));
    lemma_pieces(tail);
    assert(pieces(content)[done.len() as int] == line);
}

/// What the file is to hold so that a switch has the given position: the line that gives it
/// one is changed, or one is added, and the rest stays as it stands.
pub fn set_bool(content: &str, key: &str, value: bool) -> (r: String)
    ensures
        r@ == after_set(content@, key@, value),
{
    let all: Vec<char> = chars_of(content);
    let k: Vec<char> = chars_of(key);
    let mut new: String = String::new();
    new.append(key);
    new.push('=');
    new.append(if value {
        "true"
    } else {
        "false"
    });
    assert(new@ =~= setting_line(key@, value));
    let n: Vec<char> = chars_of(new.as_str());
    let mut out: String = String::new();
    let mut rest: &[char] = all.as_slice();
    let ghost mut done: Seq<Seq<char>> = Seq::empty();
    assert(done + pieces(rest@) =~= pieces(content@));
    assert(out@ + rest@ =~= content@);
    loop
        invariant
            k@ == key@,
            all@ == content@,
            n@ == setting_line(key@, value),
            pieces(content@) == done + pieces(rest@),
            content@ == out@ + rest@,
            out@ == concat(done),
            forall|i: int| 0 <= i < done.len() ==> !sets(#[trigger] done[i], key@),
        decreases rest@.len(),
    {
        match next_piece(rest) {
            None => {
                proof {
                    assert(pieces(content@) =~= done);
                    lemma_first(pieces(content@), key@);
                    assert(content@ =~= out@);
                }
                if all.len() > 0 && all[all.len() - 1] != '\n' {
                    out.push('\n');
                }
                assert(out@ == with_feed(content@));
                push_line(&mut out, n.as_slice());
                return out;
            },
            Some((line, tail)) => {
                if line_sets(line, k.as_slice()) {
                    let ghost before = out@;
                    proof {
                        lemma_set_here(content@, done, line@, tail@, key@, value);
                    }
                    push_chars(&mut out, n.as_slice());
                    let end: usize = line.len();
                    if line[end - 1] == '\n' {
                        if end > 1 && line[end - 2] == '\r' {
                            out.push('\r');
                        }
                        out.push('\n');
                    }
                    assert(out@ =~= before + (n@ + ending(line@)));
                    push_chars(&mut out, tail);
                    assert(out@ =~= before + ((n@ + ending(line@)) + tail@));
                    return out;
                }
                let ghost before = out@;
                push_chars(&mut out, line);
                proof {
                    lemma_concat_add(done, seq![line@]);
                    lemma_concat_one(line@);
                    assert(done.push(line@) =~= done + seq![line@]);
                    assert(done + (seq![line@] + pieces(tail@)) =~= done.push(line@) + pieces(tail@));
                    assert(before + (line@ + tail@) =~= out@ + tail@);
                    done = done.push(line@);
                }
                rest = tail;
            },
        }
    }
}

/// Only the first line that gives the key a value is changed, and of it all but its ending. What
/// stands in front of it and what stands behind it stays, to the character.
pub proof fn law_only_one_line(
    front: Seq<char>,
    line: Seq<char>,
    end: Seq<char>,
    back: Seq<char>,
    key: Seq<char>,
    value: bool,
)
    requires
        front.len() > 0 ==> front.last() == '\n',
        forall|i: int| 0 <= i < pieces(front).len() ==> !sets(#[trigger] pieces(front)[i], key),
        !line.contains('\n'),
        sets(line, key),
        (end == seq!['\n'] && line.last() != '\r') || end == seq!['\r', '\n'] || (end.len() == 0
            && back.len() == 0),
    ensures
        after_set(front + line + end + back, key, value) == front + setting_line(key, value) + end
            + back,
{
    lemma_read_back(front, line, end, back, key);
    let content = front + line + end + back;
    let l = line + end;
    let new = setting_line(key, value) + end;
    lemma_changed(pieces(front), l, pieces(back), new);
    lemma_pieces(front);
    lemma_pieces(back);
    assert(front + (new + back) =~= front + setting_line(key, value) + end + back);
}

/// The line in its place: it is the first that gives the key a value, and has the ending that
/// was put behind it.
proof fn lemma_read_back(
    front: Seq<char>,
    line: Seq<char>,
    end: Seq<char>,
    back: Seq<char>,
    key: Seq<char>,
)
    requires
        front.len() > 0 ==> front.last() == '\n',
        forall|i: int| 0 <= i < pieces(front).len() ==> !sets(#[trigger] pieces(front)[i], key),
        !line.contains('\n'),
        sets(line, key),
        (end == seq!['\n'] && line.last() != '\r') || end == seq!['\r', '\n'] || (end.len() == 0
            && back.len() == 0),
    ensures
        ({
            let ls = pieces(front + line + end + back);
            &&& ls == pieces(front) + (seq![line + end] + pieces(back))
            &&& first_to_set(ls, key) == Some(pieces(front).len() as int)
            &&& ls[pieces(front).len() as int] == line + end
            &&& ending(line + end) == end
        }),
{
    lemma_sets_something(line, key);
    let l = line + end;
    let content = front + line + end + back;
    if end.len() == 0 {
        assert(l =~= line);
    } else if end.len() == 1 {
        assert(l =~= line.push('\n'));
        lemma_trim_push(line, '\n');
        assert(l.drop_last() =~= line);
    } else {
        assert(l =~= line.push('\r').push('\n'));
        lemma_trim_push(line, '\r');
        lemma_trim_push(line.push('\r'), '\n');
        assert(l.drop_last() =~= line.push('\r'));
        assert(!line.push('\r').contains('\n')) by {
            if line.push('\r').contains('\n') {
                let j = choose|j: int| 0 <= j < line.len() + 1 && line.push('\r')[j] == '\n';
                assert(line[j] == '\n');
            }
        }
    }
    assert(ending(l) =~= end) by {
        if end.len() == 0 {
            assert(line.contains(line.last()));
        }
    }
    lemma_pieces_one(l);
    if end.len() > 0 {
        lemma_pieces_add(l, back);
    } else {
        assert(l + back =~= l);
        assert(pieces(back) =~= Seq::empty());
        assert(pieces(l + back) =~= seq![l] + pieces(back));
    }
    lemma_pieces_add(front, l + back);
    assert(content =~= front + (l + back));
    let ls = pieces(content);
    assert(ls == pieces(front) + (seq![l] + pieces(back)));
    assert((seq![l] + pieces(back))[0] == l);
    assert(first_to_set(seq![l] + pieces(back), key) == Some(0int));
    lemma_first_behind(pieces(front), seq![l] + pieces(back), key);
    let i = pieces(front).len() as int;
    assert(ls[i] == l);
}

proof fn lemma_sets_something(line: Seq<char>, key: Seq<char>)
    requires
        sets(line, key),
    ensures
        line.len() > 0,
{
    if line.len() == 0 {
        assert(trim(line) =~= Seq::empty());
        trim(line).index_of_first_ensures('=');
    }
}

/// Where no line gives the key a value, all that the file holds stays in front of the line that
/// is added.
pub proof fn law_added_line(content: Seq<char>, key: Seq<char>, value: bool)
    requires
        forall|i: int| 0 <= i < pieces(content).len() ==> !sets(#[trigger] pieces(content)[i], key),
    ensures
        content.len() == 0 || content.last() == '\n' ==> after_set(content, key, value) == content
            + setting_line(key, value).push('\n'),
        content.len() > 0 && content.last() != '\n' ==> after_set(content, key, value)
            == content.push('\n') + setting_line(key, value).push('\n'),
{
    lemma_first(pieces(content), key);
}

/// Whether a key can be read back from a line that gives it a value.
pub open spec fn plain_key(key: Seq<char>) -> bool {
    &&& trim(key) == key
    &&& !key.contains('=')
    &&& !key.contains('\n')
    &&& key.len() > 0 ==> key[0] != '#'
}

proof fn lemma_setting_line(key: Seq<char>, value: bool)
    requires
        plain_key(key),
    ensures
        sets(setting_line(key, value), key),
        !setting_line(key, value).contains('\n'),
        setting_line(key, value).len() > 0,
        setting_line(key, value).last() == 'e',
{
    let l = setting_line(key, value);
    let n = key.len() as int;
    assert(l.len() > n + 3 && l[n] == '=' && l.last() == 'e' && l[n + 1] != '\n' && l[n + 2] != '\n'
        && l[n + 3] != '\n' && (l.len() > n + 5 ==> l[n + 4] != '\n') && l.len() <= n + 6) by {
        reveal_strlit("true");
        reveal_strlit("false");
    }
    assert(forall|i: int| 0 <= i < n ==> #[trigger] l[i] == key[i]);
    assert(trim_start(l) == l) by {
        lemma_trim_start(key);
        lemma_trim_end(trim_start(key));
    }
    assert(trim_end(l) == l);
    l.index_of_first_ensures('=');
    let i = l.index_of_first('=').unwrap();
    assert(i == n) by {
        if i < n {
            assert(key[i] == '=');
        }
    }
    assert(l.take(n) =~= key);
    assert(!l.contains('\n')) by {
        if l.contains('\n') {
            let j = choose|j: int| 0 <= j < l.len() && l[j] == '\n';
            if j < n {
                assert(key[j] == '\n');
            }
        }
    }
}

/// A file in three parts: the lines in front of the first that gives the key a value, that line,
/// and what stands behind it.
proof fn lemma_parts(content: Seq<char>, key: Seq<char>, i: int) -> (parts: (
    Seq<char>,
    Seq<char>,
    Seq<char>,
    Seq<char>,
))
    requires
        first_to_set(pieces(content), key) == Some(i),
    ensures
        ({
            let (front, line, end, back) = parts;
            &&& content == front + line + end + back
            &&& front.len() > 0 ==> front.last() == '\n'
            &&& pieces(front) == pieces(content).take(i)
            &&& forall|j: int| 0 <= j < pieces(front).len() ==> !sets(#[trigger] pieces(front)[j], key)
            &&& !line.contains('\n')
            &&& sets(line, key)
            &&& (end == seq!['\n'] && line.last() != '\r') || end == seq!['\r', '\n'] || (end.len()
                == 0 && back.len() == 0)
        }),
{
    let ls = pieces(content);
    lemma_first(ls, key);
    lemma_pieces(content);
    let a = ls.take(i);
    let b = ls.skip(i + 1);
    let l = ls[i];
    let front = concat(a);
    let back = concat(b);
    let end = ending(l);
    let line = l.take(l.len() - end.len());
    assert(ls =~= a + (seq![l] + b));
    lemma_concat_add(a, seq![l] + b);
    lemma_concat_add(seq![l], b);
    lemma_concat_one(l);
    assert(l =~= line + end);
    assert(content =~= front + line + end + back);
    assert(forall|j: int| 0 <= j < a.len() ==> #[trigger] a[j] == ls[j]);
    if i > 0 {
        assert(a.last() == ls[i - 1]);
        assert(is_closed(a.last()));
    }
    lemma_pieces_concat_closed(a);
    lemma_pieces(front);
    if i < ls.len() - 1 {
        assert(is_closed(ls[i]));
    } else {
        assert(b =~= Seq::empty());
        assert(l == ls.last());
    }
    assert(!line.contains('\n')) by {
        if line.contains('\n') {
            let j = choose|j: int| 0 <= j < line.len() && line[j] == '\n';
            assert(l[j] == '\n');
            if end.len() > 0 {
                assert(l.drop_last()[j] == '\n');
            } else {
                assert(l.contains('\n'));
            }
        }
    }
    if end.len() == 1 {
        assert(l =~= line.push('\n'));
        lemma_trim_push(line, '\n');
        if line.len() > 0 {
            assert(line.last() == l[l.len() - 2]);
        }
    } else if end.len() == 2 {
        assert(l =~= line.push('\r').push('\n'));
        lemma_trim_push(line, '\r');
        lemma_trim_push(line.push('\r'), '\n');
    } else {
        assert(l =~= line);
    }
    lemma_sets_something(line, key);
    (front, line, end, back)
}

/// Of two settings of one switch the later counts, as if the first had never been.
pub proof fn law_last_setting_counts(content: Seq<char>, key: Seq<char>, a: bool, b: bool)
    requires
        plain_key(key),
    ensures
        after_set(after_set(content, key, a), key, b) == after_set(content, key, b),
{
    let x = setting_line(key, a);
    lemma_setting_line(key, a);
    lemma_first(pieces(content), key);
    match first_to_set(pieces(content), key) {
        Some(i) => {
            let (front, line, end, back) = lemma_parts(content, key, i);
            law_only_one_line(front, line, end, back, key, a);
            law_only_one_line(front, line, end, back, key, b);
            law_only_one_line(front, x, end, back, key, b);
        },
        None => {
            let front = with_feed(content);
            lemma_added_behind(content, key);
            let none: Seq<char> = Seq::empty();
            law_only_one_line(front, x, seq!['\n'], none, key, b);
            assert(front + x + seq!['\n'] + none =~= front + x.push('\n'));
            let y = setting_line(key, b);
            assert(front + y + seq!['\n'] + none =~= front + y.push('\n'));
        },
    }
}

/// A line feed behind the last line makes no line give the key a value.
proof fn lemma_added_behind(content: Seq<char>, key: Seq<char>)
    requires
        first_to_set(pieces(content), key) is None,
    ensures
        forall|i: int|
            0 <= i < pieces(with_feed(content)).len() ==> !sets(
                #[trigger] pieces(with_feed(content))[i],
                key,
            ),
{
    let ls = pieces(content);
    lemma_first(ls, key);
    if content.len() > 0 && content.last() != '\n' {
        lemma_pieces(content);
        let a = ls.drop_last();
        let l = ls.last();
        assert(forall|j: int| 0 <= j < a.len() ==> #[trigger] a[j] == ls[j]);
        lemma_pieces_concat_closed(a);
        lemma_pieces(concat(a));
        if a.len() > 0 {
            assert(a.last() == ls[a.len() - 1]);
        }
        assert(l.push('\n').drop_last() =~= l);
        lemma_pieces_one(l.push('\n'));
        lemma_pieces_add(concat(a), l.push('\n'));
        assert(content.push('\n') =~= concat(a) + l.push('\n'));
        lemma_trim_push(l, '\n');
        assert(ls[ls.len() - 1] == l);
        assert(pieces(content.push('\n')) == a.push(l.push('\n')));
    }
}

proof fn lemma_pieces_concat_closed(ls: Seq<Seq<char>>)
    requires
        forall|i: int| 0 <= i < ls.len() ==> is_closed(#[trigger] ls[i]),
    ensures
        pieces(concat(ls)) == ls,
        ls.len() > 0 ==> concat(ls).len() > 0 && concat(ls).last() == '\n',
        ls.len() == 0 ==> concat(ls).len() == 0,
{
    lemma_pieces_concat(ls);
    if ls.len() > 0 {
        assert(is_closed(ls[ls.len() - 1]));
        assert(concat(ls).last() == ls.last().last());
    }
}

/// After a switch is set, the first line of the file that gives it a position gives it that one.
pub proof fn law_setting_read_back(content: Seq<char>, key: Seq<char>, value: bool)
    requires
        plain_key(key),
    ensures
        ({
            let after = pieces(after_set(content, key, value));
            first_to_set(after, key) matches Some(i) && after[i] == setting_line(key, value) + ending(
                after[i],
            )
        }),
{
    let x = setting_line(key, value);
    lemma_setting_line(key, value);
    lemma_first(pieces(content), key);
    match first_to_set(pieces(content), key) {
        Some(i) => {
            let (front, line, end, back) = lemma_parts(content, key, i);
            law_only_one_line(front, line, end, back, key, value);
            lemma_read_back(front, x, end, back, key);
        },
        None => {
            let front = with_feed(content);
            lemma_added_behind(content, key);
            let none: Seq<char> = Seq::empty();
            lemma_read_back(front, x, seq!['\n'], none, key);
            assert(front + x + seq!['\n'] + none =~= front + x.push('\n'));
        },
    }
}

/// The environment after a switch was set: it holds the new position where the file could be
/// written, and is what it was where not.
pub open spec fn env_after(
    env: Map<Seq<char>, Seq<char>>,
    key: Seq<char>,
    value: bool,
    written: bool,
) -> Map<Seq<char>, Seq<char>> {
    if written {
        env.insert(key, switch_word(value))
    } else {
        env
    }
}

/// The word that the environment is to hold for a switch once it was tried to write the file;
/// nothing is to be changed where that failed.
pub fn env_word(value: bool, written: bool) -> (r: Option<&'static str>)
    ensures
        match r {
            Some(word) => written && word@ == switch_word(value),
            None => !written,
        },
{
    if !written {
        None
    } else if value {
        Some("true")
    } else {
        Some("false")
    }
}

/// What a switch is set to is what it is read as, whatever the default; where it could not be
/// set, it is read as before.
pub proof fn law_switch_read_back(
    env: Map<Seq<char>, Seq<char>>,
    key: Seq<char>,
    value: bool,
    written: bool,
    default: bool,
)
    ensures
        switch_setting(env_after(env, key, value, written), key, default) == if written {
            value
        } else {
            switch_setting(env, key, default)
        },
        forall|other: Seq<char>|
            other != key ==> #[trigger] switch_setting(
                env_after(env, key, value, written),
                other,
                default,
            ) == switch_setting(env, other, default),
{
    reveal_strlit("1");
    reveal_strlit("yes");
    reveal_strlit("on");
    reveal_strlit("true");
    reveal_strlit("false");
    let w = switch_word(value);
    assert(trim_start(w) == w);
    assert(trim_end(w) == w);
    assert(lower(w) =~= w);
    if !value {
        assert("false"@.len() == 5 && "true"@.len() == 4 && "1"@.len() == 1 && "yes"@.len() == 3
            && "on"@.len() == 2);
    }
}

/// A line gives a value to the key in front of its first `=`, white space aside, and to no other.
pub proof fn law_sets(
    front: Seq<char>,
    key: Seq<char>,
    gap: Seq<char>,
    rest: Seq<char>,
    other: Seq<char>,
)
    requires
        forall|i: int| 0 <= i < front.len() ==> is_white(#[trigger] front[i]),
        key.len() > 0,
        key[0] != '#' && !is_white(key[0]) && !is_white(key.last()),
        !key.contains('='),
        forall|i: int| 0 <= i < gap.len() ==> is_white(#[trigger] gap[i]),
    ensures
        sets(front + key + gap + seq!['='] + rest, other) <==> other == key,
{
    let core = key + gap + seq!['='];
    let line = front + key + gap + seq!['='] + rest;
    assert(line =~= front + core + rest);
    assert(core[0] == key[0]);
    assert(core.last() == '=');
    lemma_trim_cut(front, core, rest);
    let t = trim(line);
    let n = key.len() + gap.len();
    assert(t[0] == key[0]);
    assert(t[n as int] == '=');
    t.index_of_first_ensures('=');
    let i = t.index_of_first('=').unwrap();
    assert(i == n) by {
        if i < n {
            assert(t[i] == core[i]);
            if i < key.len() {
                assert(key[i] == '=');
            } else {
                assert(is_white(gap[i - key.len()]));
            }
        }
    }
    assert(t.take(i) =~= key + gap);
    let none: Seq<char> = Seq::empty();
    law_trim(none, key, gap);
    assert(none + key + gap =~= key + gap);
}

/// A comment gives no key a value, and neither does a line without a `=`.
pub proof fn law_sets_nothing(front: Seq<char>, rest: Seq<char>, key: Seq<char>)
    requires
        forall|i: int| 0 <= i < front.len() ==> is_white(#[trigger] front[i]),
    ensures
        !sets(front + seq!['#'] + rest, key),
        !rest.contains('=') ==> !sets(rest, key),
{
    lemma_trim_cut(front, seq!['#'], rest);
    let t = trim(rest);
    lemma_trim_start(rest);
    lemma_trim_end(trim_start(rest));
    t.index_of_first_ensures('=');
    if let Some(i) = t.index_of_first('=') {
        assert(t[i] == trim_start(rest)[i]);
        assert(trim_start(rest)[i] == rest[rest.len() - trim_start(rest).len() + i]);
    }
}

/// The line that sets a switch is the key, a `=`, and `true` or `false`.
pub proof fn law_setting_line(key: Seq<char>)
    ensures
        setting_line(key, true) == key + "=true"@,
        setting_line(key, false) == key + "=false"@,
{
    reveal_strlit("true");
    reveal_strlit("false");
    reveal_strlit("=true");
    reveal_strlit("=false");
    assert(setting_line(key, true) =~= key + "=true"@);
    assert(setting_line(key, false) =~= key + "=false"@);
}

/// A switch is on or off by its word, in whatever letters and with whatever white space around it
/// that is written; any other word leaves it at the default, and so does none.
pub proof fn law_switch_words(
    env: Map<Seq<char>, Seq<char>>,
    key: Seq<char>,
    front: Seq<char>,
    word: Seq<char>,
    behind: Seq<char>,
    default: bool,
)
    requires
        forall|i: int| 0 <= i < front.len() ==> is_white(#[trigger] front[i]),
        word.len() > 0 ==> !is_white(word[0]) && !is_white(word.last()),
        forall|i: int| 0 <= i < behind.len() ==> is_white(#[trigger] behind[i]),
    ensures
        ({
            let w = lower(word);
            let on = w == "1"@ || w == "true"@ || w == "yes"@ || w == "on"@;
            let off = w == "0"@ || w == "false"@ || w == "no"@ || w == "off"@;
            switch_setting(env.insert(key, front + word + behind), key, default) == (on || (default
                && !off))
        }),
        switch_setting(env.remove(key), key, default) == default,
{
    law_trim(front, word, behind);
    reveal_strlit("1");
    reveal_strlit("true");
    reveal_strlit("yes");
    reveal_strlit("on");
    reveal_strlit("0");
    reveal_strlit("false");
    reveal_strlit("no");
    reveal_strlit("off");
    let w = lower(word);
    if w == "1"@ || w == "true"@ || w == "yes"@ || w == "on"@ {
        assert(w != "0"@) by {
            assert("0"@[0] == '0' && "1"@[0] == '1');
        }
        assert(w != "no"@) by {
            assert("no"@[0] == 'n' && "on"@[0] == 'o');
        }
        assert(w != "off"@) by {
            assert("off"@.len() == 3 && "1"@.len() == 1 && "true"@.len() == 4 && "on"@.len() == 2);
            assert("off"@[0] == 'o' && "yes"@[0] == 'y');
        }
        assert(w != "false"@) by {
            assert("false"@.len() == 5 && "1"@.len() == 1 && "true"@.len() == 4 && "on"@.len() == 2
                && "yes"@.len() == 3);
        }
    }
}

/// A number in the environment is read in decimal, with whatever white space around it and zeros in
/// front; what is no number below 2^64 leaves the default, and so does nothing.
pub proof fn law_number_setting(
    env: Map<Seq<char>, Seq<char>>,
    key: Seq<char>,
    front: Seq<char>,
    zeros: Seq<char>,
    n: nat,
    behind: Seq<char>,
    default: nat,
)
    requires
        forall|i: int| 0 <= i < front.len() ==> is_white(#[trigger] front[i]),
        forall|i: int| 0 <= i < zeros.len() ==> #[trigger] zeros[i] == '0',
        forall|i: int| 0 <= i < behind.len() ==> is_white(#[trigger] behind[i]),
    ensures
        number_setting(env.insert(key, front + (zeros + decimal(n)) + behind), key, default) == if n
            <= 0xffff_ffff_ffff_ffff {
            n
        } else {
            default
        },
        number_setting(env.remove(key), key, default) == default,
{
    let d = zeros + decimal(n);
    law_number_read(zeros, n, u64::MAX as nat);
    law_decimal(n, 0);
    law_decimal(n, decimal(n).len() - 1);
    assert(d.last() == decimal(n)[decimal(n).len() - 1]);
    assert(d[0] == if zeros.len() > 0 {
        zeros[0]
    } else {
        decimal(n)[0]
    });
    law_trim(front, d, behind);
}

/// A setting that is no number leaves the default.
pub proof fn law_no_number_setting(
    env: Map<Seq<char>, Seq<char>>,
    key: Seq<char>,
    text: Seq<char>,
    default: nat,
)
    requires
        number(trim(text), 0xffff_ffff_ffff_ffff) is None,
    ensures
        number_setting(env.insert(key, text), key, default) == default,
{
}

/// The text of a setting is what stands in the environment under its key, and the default where
/// nothing does; what stands under other keys makes no difference, to any setting.
pub proof fn law_text_setting(
    env: Map<Seq<char>, Seq<char>>,
    key: Seq<char>,
    text: Seq<char>,
    other: Seq<char>,
    default: Seq<char>,
    position: bool,
    n: nat,
)
    requires
        other != key,
    ensures
        text_setting(env.insert(key, text), key, default) == text,
        text_setting(env.remove(key), key, default) == default,
        text_setting(env.insert(other, text), key, default) == text_setting(env, key, default),
        switch_setting(env.insert(other, text), key, position) == switch_setting(env, key, position),
        number_setting(env.insert(other, text), key, n) == number_setting(env, key, n),
{
}

} // verus!
