use unforget::launcher::parse_command_string;

fn strings(words: &[&str]) -> Vec<String> {
    words.iter().map(|w| w.to_string()).collect()
}

#[test]
fn parse_simple_command() {
    let (program, args) = parse_command_string("ls -la /tmp");
    assert_eq!(program, "ls");
    assert_eq!(args, strings(&["-la", "/tmp"]));
}

#[test]
fn parse_quoted_argument() {
    let (program, args) = parse_command_string("git commit -m \"fix bug\"");
    assert_eq!(program, "git");
    assert_eq!(args, strings(&["commit", "-m", "fix bug"]));
}

#[test]
fn parse_empty_input() {
    let (program, args) = parse_command_string("");
    assert_eq!(program, "");
    assert!(args.is_empty());
}

#[test]
fn parse_only_spaces() {
    let (program, args) = parse_command_string("   ");
    assert_eq!(program, "");
    assert!(args.is_empty());
}

#[test]
fn parse_collapses_consecutive_spaces() {
    let (program, args) = parse_command_string("ls    -la");
    assert_eq!(program, "ls");
    assert_eq!(args, strings(&["-la"]));
}

#[test]
fn parse_unmatched_quote_runs_to_end() {
    let (program, args) = parse_command_string("echo \"a b");
    assert_eq!(program, "echo");
    assert_eq!(args, strings(&["a b"]));
}

#[test]
fn parse_quote_is_a_pure_toggle() {
    let (program, args) = parse_command_string("a\"b c\"d");
    assert_eq!(program, "ab cd");
    assert!(args.is_empty());
}

#[test]
fn parse_program_without_arguments() {
    let (program, args) = parse_command_string("htop");
    assert_eq!(program, "htop");
    assert!(args.is_empty());
}
