use shell_core::tokenize::separator;

fn words(line: &str, home: &str) -> Vec<String> {
    separator(line, home)
}

#[test]
fn splits_at_spaces() {
    assert_eq!(words("echo hello world", ""), vec!["echo", "hello", "world"]);
}

#[test]
fn drops_empty_words() {
    assert_eq!(words("  ls   -l  ", ""), vec!["ls", "-l"]);
    assert_eq!(words("", ""), Vec::<String>::new());
    assert_eq!(words("''", ""), Vec::<String>::new());
}

#[test]
fn single_quotes_are_literal() {
    assert_eq!(words("echo 'a  b\\c'", ""), vec!["echo", "a  b\\c"]);
    assert_eq!(words("echo 'it\"s'", ""), vec!["echo", "it\"s"]);
}

#[test]
fn double_quotes_keep_spaces_and_escape_some() {
    assert_eq!(words("echo \"a  b\"", ""), vec!["echo", "a  b"]);
    assert_eq!(words("echo \"x\\\"y\"", ""), vec!["echo", "x\"y"]);
    assert_eq!(words("echo \"x\\ny\"", ""), vec!["echo", "x\\ny"]);
    assert_eq!(words("echo \"\\$HOME\"", ""), vec!["echo", "$HOME"]);
}

#[test]
fn quotes_join_adjacent_text() {
    assert_eq!(words("echo a'b c'd", ""), vec!["echo", "ab cd"]);
}

#[test]
fn unquoted_backslash_escapes_next_byte() {
    assert_eq!(words("echo a\\ b", ""), vec!["echo", "a b"]);
    assert_eq!(words("echo a\\", ""), vec!["echo", "a"]);
    assert_eq!(words("echo \\'x", ""), vec!["echo", "'x"]);
}

#[test]
fn tilde_expands_to_home() {
    assert_eq!(words("cd ~/src", "/home/me"), vec!["cd", "/home/me/src"]);
    assert_eq!(words("echo '~'", "/home/me"), vec!["echo", "~"]);
    assert_eq!(words("~", ""), Vec::<String>::new());
}

#[test]
fn unterminated_quote_runs_to_end() {
    assert_eq!(words("echo 'a b", ""), vec!["echo", "a b"]);
}

#[test]
fn non_ascii_bytes_are_read_one_by_one() {
    // each byte of the UTF-8 encoding of 'é' becomes a character of its own
    assert_eq!(words("é", ""), vec!["\u{c3}\u{a9}"]);
}
