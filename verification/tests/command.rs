use shell_core::builtins::Builtin;
use shell_core::command::{command_parse, redirect_of, Target};

#[test]
fn plain_command_has_no_redirection() {
    let plan = command_parse("ls -l /tmp", "");
    assert_eq!(plan.name.as_deref(), Some("ls"));
    assert_eq!(plan.args, vec!["ls", "-l", "/tmp"]);
    assert!(plan.redirects.is_empty());
    assert_eq!(plan.target, Target::External);
}

#[test]
fn redirections_are_taken_off_in_order() {
    let plan = command_parse("echo hi > out.txt 2>> err.txt", "");
    assert_eq!(plan.args, vec!["echo", "hi"]);
    assert_eq!(plan.redirects.len(), 2);
    assert!(!plan.redirects[0].to_stderr && !plan.redirects[0].append);
    assert_eq!(plan.redirects[0].path, "out.txt");
    assert!(plan.redirects[1].to_stderr && plan.redirects[1].append);
    assert_eq!(plan.redirects[1].path, "err.txt");
    assert_eq!(plan.target, Target::Builtin(Builtin::Echo));
}

#[test]
fn operator_at_the_end_is_an_argument() {
    let plan = command_parse("echo a >", "");
    assert_eq!(plan.args, vec!["echo", "a", ">"]);
    assert!(plan.redirects.is_empty());
}

#[test]
fn every_operator_kind() {
    assert_eq!(redirect_of(">"), Some((false, false)));
    assert_eq!(redirect_of("1>"), Some((false, false)));
    assert_eq!(redirect_of("2>"), Some((true, false)));
    assert_eq!(redirect_of(">>"), Some((false, true)));
    assert_eq!(redirect_of("1>>"), Some((false, true)));
    assert_eq!(redirect_of("2>>"), Some((true, true)));
    assert_eq!(redirect_of("3>"), None);
}

#[test]
fn redirection_target_can_look_like_an_operator() {
    let plan = command_parse("cat x > > y", "");
    assert_eq!(plan.args, vec!["cat", "x"]);
    assert_eq!(plan.redirects.len(), 2);
    assert_eq!(plan.redirects[0].path, ">");
    assert_eq!(plan.redirects[1].path, "y");
}

#[test]
fn line_starting_with_operator_keeps_its_name() {
    let plan = command_parse("> f", "");
    assert_eq!(plan.name.as_deref(), Some(">"));
    assert!(plan.args.is_empty());
    assert_eq!(plan.target, Target::External);
}

#[test]
fn empty_line_has_no_command() {
    let plan = command_parse("   ", "");
    assert_eq!(plan.name, None);
    assert_eq!(plan.target, Target::Missing);
}

#[test]
fn builtins_are_recognised() {
    assert_eq!(command_parse("exit", "").target, Target::Builtin(Builtin::Exit));
    assert_eq!(command_parse("type ls", "").target, Target::Builtin(Builtin::Type));
    assert_eq!(command_parse("pwd", "").target, Target::Builtin(Builtin::Pwd));
    assert_eq!(command_parse("cd /", "").target, Target::Builtin(Builtin::Cd));
}
