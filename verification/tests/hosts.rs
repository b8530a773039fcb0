use gfwsni::hosts::{
    apply, cleanup_stale, restore, strip_block, sys_hosts_path, BEGIN_MARK, END_MARK,
};

#[test]
fn strip_removes_block_only() {
    let content = "127.0.0.1 localhost\n# === gfwsni begin ===\n127.0.0.1 example.com\n# === gfwsni end ===\n127.0.0.1 other.local\n";
    let cleaned = strip_block(content);
    assert!(!cleaned.contains("example.com"));
    assert!(!cleaned.contains("gfwsni"));
    assert!(cleaned.contains("127.0.0.1 localhost"));
    assert!(cleaned.contains("127.0.0.1 other.local"));
}

#[test]
fn strip_without_block_is_unchanged() {
    let content = "127.0.0.1 localhost\n";
    assert_eq!(strip_block(content), content);
}

#[test]
fn apply_restore_roundtrip() {
    let mut base = String::from("127.0.0.1 localhost\n");
    let mut block = String::new();
    block.push_str(BEGIN_MARK);
    block.push('\n');
    block.push_str("127.0.0.1 example.com\n127.0.0.1 foo.org\n");
    block.push_str(END_MARK);
    block.push('\n');
    base.push_str(&block);
    let restored = strip_block(&base);
    assert_eq!(restored, "127.0.0.1 localhost\n");
}

fn names(list: &[&str]) -> Vec<String> {
    list.iter().map(|s| s.to_string()).collect()
}

const BLOCK: &str = "# === gfwsni begin ===\n127.0.0.1 github.com\n127.0.0.1 pixiv.net\n# === gfwsni end ===\n";

#[test]
fn apply_writes_block_behind_what_is_there() {
    let ns = names(&["github.com", "pixiv.net"]);
    for content in ["127.0.0.1 localhost\n", "127.0.0.1 localhost\r\n\n \n", "  \n\n", ""] {
        assert_eq!(apply(content, &ns).unwrap(), format!("{content}{BLOCK}"));
    }
}

#[test]
fn apply_brings_a_line_feed_where_one_is_needed() {
    assert_eq!(
        apply("127.0.0.1 localhost", &names(&["a.b"])).unwrap(),
        "127.0.0.1 localhost\n# === gfwsni begin ===\t\n127.0.0.1 a.b\n# === gfwsni end ===\n"
    );
}

#[test]
fn apply_without_names_writes_nothing() {
    assert_eq!(apply("127.0.0.1 localhost\n", &Vec::new()), None);
}

#[test]
fn apply_replaces_old_block() {
    let once = apply("1.1.1.1 x\n", &names(&["old.example"])).unwrap();
    let twice = apply(&once, &names(&["new.example"])).unwrap();
    assert_eq!(
        twice,
        "1.1.1.1 x\n# === gfwsni begin ===\n127.0.0.1 new.example\n# === gfwsni end ===\n"
    );
}

#[test]
fn apply_twice_is_apply_once() {
    let ns = names(&["github.com"]);
    let once = apply("1.1.1.1 x\n", &ns).unwrap();
    assert_eq!(apply(&once, &ns).unwrap(), once);
}

#[test]
fn restore_gives_back_what_was_there() {
    let content = "127.0.0.1 localhost\n# comment\n";
    let applied = apply(content, &names(&["github.com"])).unwrap();
    assert_eq!(restore(&applied), Some(content.to_string()));
    assert_eq!(restore(content), None);
}

#[test]
fn restore_gives_back_every_character() {
    let ns = names(&["github.com"]);
    for content in ["", "\n", "a", "a\r", "a\r\nb", "a\r\r\nb \n \n\n", "  \n\n", "\u{3000}", "a\n\n\n"] {
        assert_eq!(restore(content), None);
        let applied = apply(content, &ns).unwrap();
        assert_eq!(restore(&applied), Some(content.to_string()));
        assert_eq!(apply(&applied, &ns), Some(applied.clone()));
    }
}

#[test]
fn line_behind_the_block_stays_a_line() {
    let mut applied = apply("a", &names(&["github.com"])).unwrap();
    applied.push_str("b\n");
    assert_eq!(restore(&applied), Some("a\nb\n".to_string()));
}

#[test]
fn block_without_end_is_removed_to_the_end() {
    assert_eq!(strip_block("a\n  # === gfwsni begin ===  \nb\nc\n"), "a\n");
}

#[test]
fn end_without_begin_is_removed_alone() {
    assert_eq!(strip_block("a\n# === gfwsni end ===\nb\n"), "a\nb\n");
}

#[test]
fn strip_twice_is_strip_once() {
    let content = "a\n# === gfwsni begin ===\nb\n# === gfwsni end ===\nc\n";
    let once = strip_block(content);
    assert_eq!(once, "a\nc\n");
    assert_eq!(strip_block(&once), once);
}

#[test]
fn stale_block_is_cleaned_up() {
    let content = "a\n# === gfwsni begin ===\n127.0.0.1 b\n";
    assert_eq!(cleanup_stale(content), Some("a\n".to_string()));
    assert_eq!(cleanup_stale("a\n"), None);
}

#[test]
fn hosts_file_below_the_system_directory() {
    assert_eq!(
        sys_hosts_path(Some("D:\\Win".to_string())),
        vec!["D:\\Win".to_string(), "System32\\drivers\\etc\\hosts".to_string()]
    );
    assert_eq!(sys_hosts_path(None), vec!["C:\\Windows\\System32\\drivers\\etc\\hosts".to_string()]);
}

#[test]
fn restore_after_apply_keeps_all_outside_the_blocks() {
    let ns = names(&["github.com"]);
    let content = "a\r\n# === gfwsni begin ===\nold\n# === gfwsni end ===\n b \n \n\n";
    let applied = apply(content, &ns).unwrap();
    assert_eq!(
        applied,
        "a\r\n b \n \n\n# === gfwsni begin ===\n127.0.0.1 github.com\n# === gfwsni end ===\n"
    );
    assert_eq!(restore(&applied), Some("a\r\n b \n \n\n".to_string()));
    assert_eq!(strip_block(content), "a\r\n b \n \n\n");
}

#[test]
fn block_holds_the_names_and_nothing_else() {
    let ns = names(&["github.com", "pixiv.net"]);
    for content in ["", "a", "a\n", "a\r\nb", "x\n# === gfwsni begin ===\nold\n# === gfwsni end ===\ny"] {
        let applied = apply(content, &ns).unwrap();
        let lines: Vec<&str> = applied.lines().collect();
        let n = lines.len();
        assert_eq!(lines[n - 4].trim(), BEGIN_MARK);
        assert_eq!(&lines[n - 3..], &["127.0.0.1 github.com", "127.0.0.1 pixiv.net", END_MARK]);
        assert!(lines[..n - 4].iter().all(|l| l.trim() != BEGIN_MARK && l.trim() != END_MARK));
    }
}

#[test]
fn other_white_space_tells_of_no_line_feed() {
    for begin in ["# === gfwsni begin ===  ", "\t# === gfwsni begin ===", "# === gfwsni begin === \t"] {
        assert_eq!(strip_block(&format!("a\n{begin}\n127.0.0.1 b\n# === gfwsni end ===\n")), "a\n");
    }
    assert_eq!(strip_block("a\n# === gfwsni begin ===\t\r\n127.0.0.1 b\r\n# === gfwsni end ===\r\n"), "a");
}

#[test]
fn every_name_has_its_line() {
    let applied = apply("a", &names(&["x.y", "z"])).unwrap();
    assert!(applied.lines().any(|l| l == "127.0.0.1 x.y"));
    assert!(applied.lines().any(|l| l == "127.0.0.1 z"));
}
