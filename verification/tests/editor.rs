use shell_core::completion::CompletionSignal;
use shell_core::line_editor::{
    apply_key, ends_escape_sequence, key_allowed, key_kind, redraw, Key, KeyKind, LineEditor, Step,
};
use shell_core::completion::{candidate_source, CandidateSource};
use shell_core::shell::{trim_line, Session};

fn editor(line: &str, cursor: usize) -> LineEditor {
    LineEditor { buffer: line.to_string(), cursor, multi_output: false }
}

fn escape(bytes: &[u8]) -> Key {
    let mut seq = vec![0u8; 64];
    seq[..bytes.len()].copy_from_slice(bytes);
    Key::Escape(seq)
}

#[test]
fn key_classes() {
    assert_eq!(key_kind(b'\n'), KeyKind::Enter);
    assert_eq!(key_kind(127), KeyKind::Backspace);
    assert_eq!(key_kind(b'\t'), KeyKind::Tab);
    assert_eq!(key_kind(27), KeyKind::Escape);
    assert_eq!(key_kind(b'a'), KeyKind::Byte);
}

#[test]
fn escape_sequence_end() {
    assert!(!ends_escape_sequence(b'['));
    assert!(ends_escape_sequence(b'D'));
    assert!(ends_escape_sequence(b'~'));
    assert!(!ends_escape_sequence(b'3'));
}

#[test]
fn typing_inserts_at_cursor() {
    let mut ed = editor("ac", 1);
    assert_eq!(apply_key(&mut ed, Key::Byte(b'b')), Step::Edited);
    assert_eq!(ed.buffer, "abc");
    assert_eq!(ed.cursor, 2);
}

#[test]
fn backspace_undoes_typing() {
    let mut ed = editor("ac", 1);
    apply_key(&mut ed, Key::Byte(b'b'));
    apply_key(&mut ed, Key::Backspace);
    assert_eq!(ed.buffer, "ac");
    assert_eq!(ed.cursor, 1);
}

#[test]
fn backspace_at_start_does_nothing() {
    let mut ed = editor("ab", 0);
    apply_key(&mut ed, Key::Backspace);
    assert_eq!(ed.buffer, "ab");
    assert_eq!(ed.cursor, 0);
}

#[test]
fn arrows_move_within_line() {
    let mut ed = editor("ab", 2);
    apply_key(&mut ed, escape(&[91, 68]));
    assert_eq!(ed.cursor, 1);
    apply_key(&mut ed, escape(&[91, 67]));
    assert_eq!(ed.cursor, 2);
    apply_key(&mut ed, escape(&[91, 67]));
    assert_eq!(ed.cursor, 2);
}

#[test]
fn delete_removes_char_at_cursor_except_last() {
    let mut ed = editor("abc", 1);
    apply_key(&mut ed, escape(&[91, 51, 126]));
    assert_eq!(ed.buffer, "ac");
    assert_eq!(ed.cursor, 1);
    let mut last = editor("ab", 1);
    apply_key(&mut last, escape(&[91, 51, 126]));
    assert_eq!(last.buffer, "ab");
}

#[test]
fn delete_on_empty_line_is_refused() {
    let ed = editor("", 0);
    assert!(!key_allowed(&ed, &escape(&[91, 51, 126])));
    assert!(key_allowed(&ed, &Key::Byte(b'x')));
}

#[test]
fn edits_disarm_listing() {
    let mut ed = editor("ab", 2);
    ed.multi_output = true;
    apply_key(&mut ed, Key::Byte(b'c'));
    assert!(!ed.multi_output);
}

#[test]
fn enter_finishes() {
    let mut ed = editor("ls", 2);
    assert_eq!(apply_key(&mut ed, Key::Enter), Step::Finished);
    assert_eq!(ed.buffer, "ls");
}

#[test]
fn tab_completes() {
    let mut ed = editor("ec", 2);
    let key = Key::Tab(vec!["echo ".to_string()]);
    assert!(key_allowed(&ed, &key));
    assert_eq!(apply_key(&mut ed, key), Step::Completed(CompletionSignal::Quiet));
    assert_eq!(ed.buffer, "echo ");
    assert_eq!(ed.cursor, 5);
}

#[test]
fn redraw_shows_line_and_drops_bell() {
    let mut ed = editor("ab", 1);
    let (line, back) = redraw(&mut ed);
    assert_eq!(line, "ab ");
    assert_eq!(back, 2);
    let mut bell = editor("a\u{7}", 2);
    let (shown, _) = redraw(&mut bell);
    assert_eq!(shown, "a\u{7} ");
    assert_eq!(bell.buffer, "a");
    assert_eq!(bell.cursor, 2);
}

#[test]
fn trimming_lines() {
    assert_eq!(trim_line("  ls -l \t\n"), "ls -l");
    assert_eq!(trim_line(""), "");
    assert_eq!(trim_line(" \u{a0} "), "");
    assert_eq!(trim_line("\u{3000}x\u{2003}"), "x");
    assert_eq!(trim_line("a b"), "a b");
}

#[test]
fn session_stops_after_exit_only() {
    let mut s = Session::new();
    assert!(s.wants_line());
    s.record(&Err("No Command".to_string()));
    assert!(s.wants_line());
    s.record(&Ok(1));
    assert!(s.wants_line());
    s.record(&Ok(0));
    assert!(s.wants_line());
    s.record(&Ok(-1));
    assert!(!s.wants_line());
}

#[test]
fn candidate_source_choice() {
    assert!(matches!(candidate_source("ec", true), CandidateSource::Commands));
    match candidate_source("src/ma", false) {
        CandidateSource::Files(q) => {
            assert_eq!(q.fpart, "src/");
            assert_eq!(q.stem, "ma");
        }
        CandidateSource::Commands => panic!("expected files"),
    }
}
