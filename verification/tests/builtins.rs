use shell_core::builtins::{
    builtin_names, builtin_of, candidate_path, cd_target, change_working_directory, echo,
    exit_program, is_executable, not_found_message, path_finder, print_working_dir, split_path,
    type_function, Builtin,
};
use shell_core::shell::shell_continues;

fn strings(ws: &[&str]) -> Vec<String> {
    ws.iter().map(|w| w.to_string()).collect()
}

#[test]
fn echo_joins_with_spaces() {
    let reply = echo(&strings(&["echo", "a", "b c"]));
    assert_eq!(reply.messages.len(), 1);
    assert!(!reply.messages[0].to_stderr);
    assert_eq!(reply.messages[0].text, "a b c\n");
    assert_eq!(reply.status, Ok(0));
}

#[test]
fn echo_without_arguments_prints_newline() {
    let reply = echo(&strings(&["echo"]));
    assert_eq!(reply.messages[0].text, "\n");
}

#[test]
fn exit_stops_the_shell() {
    let reply = exit_program();
    assert_eq!(reply.status, Ok(-1));
    assert!(reply.messages.is_empty());
    assert!(!shell_continues(&reply.status));
    assert!(shell_continues(&Ok(0)));
    assert!(shell_continues(&Ok(1)));
    assert!(shell_continues(&Err("No Command".to_string())));
}

#[test]
fn pwd_prints_directory() {
    let reply = print_working_dir("/tmp");
    assert_eq!(reply.messages[0].text, "/tmp\n");
    assert_eq!(reply.status, Ok(1));
}

#[test]
fn cd_target_choice() {
    assert_eq!(cd_target(&strings(&["cd", "/x"]), Some("/h")), Ok("/x".to_string()));
    assert_eq!(cd_target(&strings(&["cd"]), Some("/h")), Ok("/h".to_string()));
    assert_eq!(cd_target(&strings(&["cd"]), None), Err("No directory".to_string()));
}

#[test]
fn cd_failure_message() {
    let reply = change_working_directory("/nope", false);
    assert!(reply.messages[0].to_stderr);
    assert_eq!(reply.messages[0].text, "/nope: No such file or directory\n");
    assert_eq!(reply.status, Err("directory doesn't exist".to_string()));
    let ok = change_working_directory("/", true);
    assert!(ok.messages.is_empty());
    assert_eq!(ok.status, Ok(0));
}

#[test]
fn builtin_lookup() {
    assert_eq!(builtin_of("echo"), Some(Builtin::Echo));
    assert_eq!(builtin_of("ls"), None);
    assert_eq!(builtin_names(), strings(&["exit", "echo", "type", "pwd", "cd"]));
}

#[test]
fn path_splitting() {
    assert_eq!(split_path("/bin:/usr/bin"), strings(&["/bin", "/usr/bin"]));
    assert_eq!(split_path(""), strings(&[""]));
    assert_eq!(split_path("a::b:"), strings(&["a", "", "b", ""]));
    assert_eq!(candidate_path("/bin", "ls"), "/bin/ls");
}

#[test]
fn executable_bits() {
    assert!(is_executable(0o755));
    assert!(is_executable(0o100));
    assert!(is_executable(0o001));
    assert!(!is_executable(0o644));
}

#[test]
fn path_finder_takes_first_executable() {
    let dirs = strings(&["/a", "/b", "/c"]);
    assert_eq!(path_finder(&dirs, &vec![None, Some(0o644), Some(0o755)]), Ok("/c".to_string()));
    assert_eq!(path_finder(&dirs, &vec![Some(0o700), Some(0o755), None]), Ok("/a".to_string()));
    assert_eq!(path_finder(&dirs, &vec![None, Some(0o600), None]), Err(false));
}

#[test]
fn type_reports_each_word_until_found() {
    let args = strings(&["type", "echo", "nosuch", "ls", "cat"]);
    let found = vec![None, None, None, Some("/bin".to_string()), Some("/bin".to_string())];
    let reply = type_function(&args, &found);
    let texts: Vec<(bool, String)> = reply.messages.iter().map(|m| (m.to_stderr, m.text.clone())).collect();
    assert_eq!(
        texts,
        vec![
            (false, "echo is a shell builtin\n".to_string()),
            (true, "nosuch: not found\n".to_string()),
            (false, "ls is /bin/ls\n".to_string()),
        ]
    );
    assert_eq!(reply.status, Ok(0));
}

#[test]
fn not_found_text() {
    let m = not_found_message("frob");
    assert!(m.to_stderr);
    assert_eq!(m.text, "frob: not found\n");
}
