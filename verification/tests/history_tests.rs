use unforget::history::load_history;

fn strings(words: &[&str]) -> Vec<String> {
    words.iter().map(|w| w.to_string()).collect()
}

#[test]
fn load_plain_lines_reversed() {
    let h = load_history("a\nb\nc\n");
    assert_eq!(h, strings(&["c", "b", "a"]));
}

#[test]
fn load_without_trailing_newline() {
    let h = load_history("a\nb\nc");
    assert_eq!(h, strings(&["c", "b", "a"]));
}

#[test]
fn timestamp_prefix_stripped() {
    let h = load_history(":1610000000:0;ls -la\n");
    assert_eq!(h, strings(&["ls -la"]));
}

#[test]
fn timestamp_without_semicolon_kept_verbatim() {
    let h = load_history(":1610000000\n");
    assert_eq!(h, strings(&[":1610000000"]));
}

#[test]
fn semicolon_without_colon_prefix_kept_verbatim() {
    let h = load_history("echo a;echo b\n");
    assert_eq!(h, strings(&["echo a;echo b"]));
}

#[test]
fn dedup_keeps_most_recent_occurrence() {
    let h = load_history("ls\ncd /tmp\nls -la\nls\n");
    assert_eq!(h, strings(&["ls", "ls -la", "cd /tmp"]));
}

#[test]
fn blank_and_whitespace_lines_dropped() {
    let h = load_history("  \n\nls\n\t\n");
    assert_eq!(h, strings(&["ls"]));
}

#[test]
fn crlf_line_endings_handled() {
    let h = load_history("first\r\nsecond\r\n");
    assert_eq!(h, strings(&["second", "first"]));
}

#[test]
fn empty_content_gives_empty_history() {
    let h = load_history("");
    assert!(h.is_empty());
}

#[test]
fn mixed_timestamped_and_plain_lines() {
    let h = load_history(":1610000000:0;git status\nmake build\n:1610000001:0;git push\n");
    assert_eq!(h, strings(&["git push", "make build", "git status"]));
}
