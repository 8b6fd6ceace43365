use shell_core::completion::{
    command_matches, completion_fits, completion_query, current_token_bounds, file_matches,
    longest_common_prefix, match_command, split_file_token, to_replace, CompletionSignal,
};

fn strings(ws: &[&str]) -> Vec<String> {
    ws.iter().map(|w| w.to_string()).collect()
}

fn bounds(line: &str, cursor: usize) -> (usize, usize, usize) {
    let mut s = line.to_string();
    let mut c = cursor;
    current_token_bounds(&mut s, &mut c)
}

#[test]
fn bounds_of_first_word() {
    assert_eq!(bounds("ech", 3), (0, 3, 0));
    assert_eq!(bounds("", 0), (0, 0, 0));
}

#[test]
fn bounds_of_later_words() {
    assert_eq!(bounds("cat fo", 6), (4, 6, 1));
    assert_eq!(bounds("cat foo bar", 5), (4, 7, 1));
    assert_eq!(bounds("cat foo bar", 9), (8, 11, 2));
}

#[test]
fn bounds_after_trailing_space() {
    assert_eq!(bounds("ls ", 3), (3, 3, 1));
}

#[test]
fn bounds_with_quoted_space() {
    assert_eq!(bounds("cat 'a b' c", 7), (4, 9, 1));
}

#[test]
fn bounds_with_leading_space() {
    assert_eq!(bounds(" ls", 3), (1, 3, 1));
}

#[test]
fn command_candidates_are_ordered_and_unique() {
    let names = strings(&["exit", "echo", "type", "pwd", "cd", "echo", "ed", "env"]);
    assert_eq!(command_matches("e", &names), strings(&["echo ", "ed ", "env ", "exit "]));
    assert_eq!(command_matches("ty", &names), strings(&["type "]));
    assert!(command_matches("zz", &names).is_empty());
}

#[test]
fn file_candidates_mark_directories() {
    let entries = vec![
        ("src".to_string(), true),
        ("setup.py".to_string(), false),
        ("README".to_string(), false),
    ];
    assert_eq!(file_matches("dir/", "s", &entries), strings(&["dir/setup.py ", "dir/src/"]));
}

#[test]
fn file_token_parts() {
    let q = split_file_token("a/b/ma");
    assert_eq!(q.parents, strings(&["a", "b"]));
    assert_eq!(q.fpart, "a/b/");
    assert_eq!(q.stem, "ma");
    let q = split_file_token("main");
    assert!(q.parents.is_empty());
    assert_eq!(q.fpart, "");
    assert_eq!(q.stem, "main");
}

#[test]
fn common_prefix_of_candidates() {
    assert_eq!(longest_common_prefix(&strings(&["echo ", "ed ", "env "])), (Some("e".to_string()), false));
    assert_eq!(longest_common_prefix(&strings(&["src/", "srv "])), (Some("sr".to_string()), false));
    assert_eq!(longest_common_prefix(&strings(&["abc", "xyz"])), (None, false));
    assert_eq!(longest_common_prefix(&strings(&["cd ", "echo "])), (None, false));
    assert_eq!(longest_common_prefix(&strings(&["ab", "abc"])), (Some("ab".to_string()), false));
    assert_eq!(longest_common_prefix(&Vec::new()), (None, true));
}

#[test]
fn match_command_protocol() {
    let ms = strings(&["echo ", "env "]);
    let mut word = "e".to_string();
    let mut multi = false;
    assert_eq!(match_command(&mut word, &mut multi, &ms), CompletionSignal::Bell);
    assert_eq!(word, "e");
    assert!(multi);
    assert_eq!(match_command(&mut word, &mut multi, &ms), CompletionSignal::ShowAll);
    assert!(!multi);

    let mut none = "q".to_string();
    assert_eq!(match_command(&mut none, &mut multi, &Vec::new()), CompletionSignal::Bell);
    assert_eq!(none, "q");

    let mut one = "ty".to_string();
    assert_eq!(match_command(&mut one, &mut multi, &strings(&["type "])), CompletionSignal::Quiet);
    assert_eq!(one, "type ");
}

#[test]
fn to_replace_completes_word_in_line() {
    let mut line = "ty".to_string();
    let mut cursor = 2;
    let mut multi = false;
    let ms = strings(&["type "]);
    assert!(completion_fits(&line, cursor, multi, &ms));
    let signal = to_replace(&mut line, &mut cursor, &mut multi, &ms);
    assert_eq!(signal, CompletionSignal::Quiet);
    assert_eq!(line, "type ");
    assert_eq!(cursor, 5);
}

#[test]
fn to_replace_keeps_rest_of_line() {
    let mut line = "cat sr x".to_string();
    let mut cursor = 6;
    let mut multi = false;
    let ms = strings(&["src/"]);
    to_replace(&mut line, &mut cursor, &mut multi, &ms);
    assert_eq!(line, "cat src/ x");
    assert_eq!(cursor, 8);
}

#[test]
fn to_replace_common_prefix() {
    let mut line = "cat s".to_string();
    let mut cursor = 5;
    let mut multi = false;
    let ms = strings(&["src/", "srv "]);
    assert_eq!(to_replace(&mut line, &mut cursor, &mut multi, &ms), CompletionSignal::Bell);
    assert_eq!(line, "cat sr");
    assert_eq!(cursor, 6);
    assert!(multi);
}

#[test]
fn completion_that_would_shorten_the_word_does_not_fit() {
    // cursor in the middle of "ls": the word part "l" has no candidate and the
    // replacement would be shorter than the word
    assert!(!completion_fits(&"ls".to_string(), 1, false, &Vec::new()));
    assert!(completion_fits(&"ls".to_string(), 2, false, &Vec::new()));
}

#[test]
fn query_reports_word_and_position() {
    assert_eq!(completion_query(&"ec".to_string(), 2), ("ec".to_string(), true));
    assert_eq!(completion_query(&"cat sr".to_string(), 6), ("sr".to_string(), false));
}
