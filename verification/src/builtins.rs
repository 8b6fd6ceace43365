//! The shell's own commands: what each writes and returns, given what it needs
//! from the system.
use vstd::prelude::*;
use crate::text::{str_eq, concat, push_char, split_on, split_str, lemma_split_on_extend, lemma_split_on_sep};

verus! {

/// The commands that the shell runs itself.
#[derive(Debug, Clone, Copy, PartialEq, Eq, Structural)]
pub enum Builtin {
    Exit,
    Echo,
    Type,
    Pwd,
    Cd,
}

/// The built-in command a word names, if any.
pub open spec fn builtin_named(name: Seq<char>) -> Option<Builtin> {
    if name == "exit"@ {
        Some(Builtin::Exit)
    } else if name == "echo"@ {
        Some(Builtin::Echo)
    } else if name == "type"@ {
        Some(Builtin::Type)
    } else if name == "pwd"@ {
        Some(Builtin::Pwd)
    } else if name == "cd"@ {
        Some(Builtin::Cd)
    } else {
        None
    }
}

/// The names of the built-in commands.
pub open spec fn builtin_name_list() -> Seq<Seq<char>> {
    seq!["exit"@, "echo"@, "type"@, "pwd"@, "cd"@]
}

/// Looks a word up among the built-in commands.
pub fn builtin_of(name: &str) -> (b: Option<Builtin>)
    ensures
        b == builtin_named(name@),
{
    if str_eq(name, "exit") {
        Some(Builtin::Exit)
    } else if str_eq(name, "echo") {
        Some(Builtin::Echo)
    } else if str_eq(name, "type") {
        Some(Builtin::Type)
    } else if str_eq(name, "pwd") {
        Some(Builtin::Pwd)
    } else if str_eq(name, "cd") {
        Some(Builtin::Cd)
    } else {
        None
    }
}

/// The names of the built-in commands, as completion offers them.
pub fn builtin_names() -> (names: Vec<String>)
    ensures
        names.deep_view() == builtin_name_list(),
{
    let mut names: Vec<String> = Vec::new();
    names.push("exit".to_owned());
    names.push("echo".to_owned());
    names.push("type".to_owned());
    names.push("pwd".to_owned());
    names.push("cd".to_owned());
    assert(names.deep_view() =~= builtin_name_list());
    names
}

/// A piece of text that a command writes, to standard output or standard error.
pub struct Message {
    pub to_stderr: bool,
    pub text: String,
}

impl View for Message {
    type V = (bool, Seq<char>);

    open spec fn view(&self) -> (bool, Seq<char>) {
        (self.to_stderr, self.text@)
    }
}

/// What a command wrote, in order, and the status it returned.
pub struct Reply {
    pub messages: Vec<Message>,
    pub status: Result<i32, String>,
}

/// The views of a list of messages.
pub open spec fn message_views(ms: Seq<Message>) -> Seq<(bool, Seq<char>)> {
    ms.map_values(|m: Message| m@)
}

/// A status with the error text as characters.
pub open spec fn status_view(r: Result<i32, String>) -> Result<i32, Seq<char>> {
    match r {
        Ok(code) => Ok(code),
        Err(e) => Err(e@),
    }
}

/// The words joined with single spaces.
pub open spec fn join_words(ws: Seq<Seq<char>>) -> Seq<char>
    decreases ws.len(),
{
    if ws.len() == 0 {
        seq![]
    } else if ws.len() == 1 {
        ws[0]
    } else {
        join_words(ws.drop_last()) + seq![' '] + ws.last()
    }
}

/// Words without spaces, joined, split back at the spaces into the same words: each
/// pair of neighbouring words is separated by exactly one space.
pub proof fn law_join_then_split(ws: Seq<Seq<char>>)
    requires
        ws.len() > 0,
        forall|i: int, k: int| 0 <= i < ws.len() && 0 <= k < ws[i].len() ==> #[trigger] ws[i][k] != ' ',
    ensures
        split_on(join_words(ws), ' ') == ws,
    decreases ws.len(),
{
    let w = ws.last();
    assert forall|k: int| 0 <= k < w.len() implies w[k] != ' ' by {
        assert(ws[ws.len() - 1][k] != ' ');
    }
    if ws.len() == 1 {
        lemma_split_on_extend(seq![], w, ' ');
        assert(Seq::<char>::empty() + w =~= w);
        assert(split_on(Seq::<char>::empty(), ' ') == seq![Seq::<char>::empty()]);
        assert(seq![Seq::<char>::empty()].update(0, Seq::<char>::empty() + w) =~= ws);
    } else {
        let init = ws.drop_last();
        assert forall|i: int, k: int| 0 <= i < init.len() && 0 <= k < init[i].len() implies #[trigger] init[i][k] != ' ' by {
            assert(init[i] == ws[i]);
        }
        law_join_then_split(init);
        let head = join_words(init) + seq![' '];
        lemma_split_on_sep(join_words(init), ' ');
        lemma_split_on_extend(head, w, ' ');
        assert(join_words(ws) == head + w);
        let r = init.push(Seq::<char>::empty());
        assert(r.update(r.len() - 1, r.last() + w) =~= ws);
    }
}

/// The number of characters in all the words together.
pub open spec fn total_len(ws: Seq<Seq<char>>) -> int
    decreases ws.len(),
{
    if ws.len() == 0 {
        0
    } else {
        total_len(ws.drop_last()) + ws.last().len()
    }
}

/// Joining puts exactly one space between each two words, whatever they hold: adding a
/// word to a non-empty list adds a space and the word, and the joined text is as long
/// as the words together plus one space fewer than there are words.
pub proof fn law_join_words(ws: Seq<Seq<char>>, w: Seq<char>)
    ensures
        ws.len() > 0 ==> join_words(ws.push(w)) == join_words(ws) + seq![' '] + w,
        ws.len() > 0 ==> join_words(ws).len() == total_len(ws) + ws.len() - 1,
    decreases ws.len(),
{
    assert(ws.push(w).drop_last() =~= ws);
    if ws.len() > 1 {
        law_join_words(ws.drop_last(), ws.last());
    } else if ws.len() == 1 {
        assert(ws.drop_last() =~= Seq::<Seq<char>>::empty());
    }
}

/// What `echo` prints for the words `args` (the first being `echo` itself).
pub open spec fn echo_text(args: Seq<Seq<char>>) -> Seq<char> {
    join_words(if args.len() == 0 { seq![] } else { args.skip(1) }) + seq!['\n']
}

/// `echo` writes its arguments (words without spaces) with one space between each two
/// and a newline after the last: split at the spaces, the text before the newline gives
/// back the arguments. With no argument it writes only the newline.
pub proof fn law_echo_text(args: Seq<Seq<char>>)
    requires
        args.len() >= 1,
        forall|i: int, k: int| 1 <= i < args.len() && 0 <= k < args[i].len() ==> #[trigger] args[i][k] != ' ',
    ensures
        echo_text(args).len() > 0,
        echo_text(args).last() == '\n',
        args.len() == 1 ==> echo_text(args) == seq!['\n'],
        args.len() >= 2 ==> split_on(echo_text(args).drop_last(), ' ') == args.skip(1),
{
    let rest = args.skip(1);
    let t = join_words(rest);
    assert(echo_text(args) == t + seq!['\n']);
    assert((t + seq!['\n']).drop_last() =~= t);
    if args.len() == 1 {
        assert(rest =~= Seq::<Seq<char>>::empty());
        assert(t + seq!['\n'] =~= seq!['\n']);
    } else {
        assert forall|i: int, k: int| 0 <= i < rest.len() && 0 <= k < rest[i].len() implies #[trigger] rest[i][k] != ' ' by {
            assert(rest[i] == args[i + 1]);
        }
        law_join_then_split(rest);
    }
}

/// `echo`: writes its arguments separated by spaces and a newline; status 0.
pub fn echo(arg_array: &Vec<String>) -> (reply: Reply)
    ensures
        message_views(reply.messages@) == seq![(false, echo_text(arg_array.deep_view()))],
        status_view(reply.status) == Ok::<i32, Seq<char>>(0),
{
    let ghost args = arg_array.deep_view();
    let mut text = String::new();
    let mut i: usize = 1;
    if arg_array.len() > 0 {
        assert(args.skip(1).take(0) =~= Seq::<Seq<char>>::empty());
    }
    while i < arg_array.len()
        invariant
            args == arg_array.deep_view(),
            1 <= i,
            i <= arg_array@.len() || arg_array@.len() == 0,
            arg_array@.len() > 0 ==> text@ == join_words(args.skip(1).take(i - 1)),
            arg_array@.len() == 0 ==> text@ == Seq::<char>::empty(),
        decreases arg_array@.len() - i,
    {
        let ghost before = args.skip(1).take(i - 1);
        if i > 1 {
            push_char(&mut text, ' ');
        }
        text.append(arg_array[i].as_str());
        i += 1;
        proof {
            let now = args.skip(1).take(i - 1);
            assert(now.drop_last() =~= before);
            assert(now.last() == args[i - 1]);
            if i - 1 == 1 {
                assert(before =~= Seq::<Seq<char>>::empty());
            }
        }
    }
    proof {
        if arg_array@.len() > 0 {
            assert(args.skip(1).take(arg_array@.len() - 1) =~= args.skip(1));
        }
    }
    push_char(&mut text, '\n');
    let ghost shown = text@;
    assert(shown == echo_text(args));
    let mut messages: Vec<Message> = Vec::new();
    messages.push(Message { to_stderr: false, text });
    assert(messages@[0]@ == (false, shown));
    assert(message_views(messages@) =~= seq![(false, echo_text(args))]);
    Reply { messages, status: Ok(0) }
}

/// `exit`: writes nothing and returns the status -1 that ends the shell.
pub fn exit_program() -> (reply: Reply)
    ensures
        reply.messages@.len() == 0,
        status_view(reply.status) == Ok::<i32, Seq<char>>(-1i32),
{
    Reply { messages: Vec::new(), status: Ok(-1) }
}

/// `pwd`: writes the working directory `cwd` and a newline; status 1.
pub fn print_working_dir(cwd: &str) -> (reply: Reply)
    ensures
        message_views(reply.messages@) == seq![(false, cwd@ + seq!['\n'])],
        status_view(reply.status) == Ok::<i32, Seq<char>>(1),
{
    let mut text = cwd.to_owned();
    push_char(&mut text, '\n');
    let ghost shown = text@;
    assert(shown =~= cwd@ + seq!['\n']);
    let mut messages: Vec<Message> = Vec::new();
    messages.push(Message { to_stderr: false, text });
    assert(messages@[0]@ == (false, shown));
    assert(message_views(messages@) =~= seq![(false, cwd@ + seq!['\n'])]);
    Reply { messages, status: Ok(1) }
}

/// The directory `cd` changes to: its argument, else the home directory; with
/// neither, the error `No directory`.
pub fn cd_target(arg_array: &Vec<String>, home: Option<&str>) -> (target: Result<String, String>)
    ensures
        status_of_target(target) == (if arg_array@.len() > 1 {
            Ok::<Seq<char>, Seq<char>>(arg_array@[1]@)
        } else {
            match home {
                Some(h) => Ok(h@),
                None => Err("No directory"@),
            }
        }),
{
    if arg_array.len() > 1 {
        Ok(arg_array[1].clone())
    } else {
        match home {
            Some(h) => Ok(h.to_owned()),
            None => Err("No directory".to_owned()),
        }
    }
}

/// A target with its text as characters.
pub open spec fn status_of_target(t: Result<String, String>) -> Result<Seq<char>, Seq<char>> {
    match t {
        Ok(d) => Ok(d@),
        Err(e) => Err(e@),
    }
}

/// `cd` after the attempt to enter `newdir`: status 0 if it succeeded; otherwise it
/// writes `<newdir>: No such file or directory` to standard error and fails with
/// `directory doesn't exist`.
pub fn change_working_directory(newdir: &str, changed: bool) -> (reply: Reply)
    ensures
        changed ==> reply.messages@.len() == 0 && status_view(reply.status) == Ok::<i32, Seq<char>>(0),
        !changed ==> message_views(reply.messages@) == seq![(true, newdir@ + ": No such file or directory\n"@)]
            && status_view(reply.status) == Err::<i32, Seq<char>>("directory doesn't exist"@),
{
    if changed {
        Reply { messages: Vec::new(), status: Ok(0) }
    } else {
        let text = concat(newdir, ": No such file or directory\n");
        let mut messages: Vec<Message> = Vec::new();
        messages.push(Message { to_stderr: true, text });
        assert(message_views(messages@) =~= seq![(true, newdir@ + ": No such file or directory\n"@)]);
        Reply { messages, status: Err("directory doesn't exist".to_owned()) }
    }
}

/// The directories listed in a `PATH` value, split at every `:`.
pub fn split_path(path_var: &str) -> (dirs: Vec<String>)
    ensures
        dirs.deep_view() == split_on(path_var@, ':'),
{
    split_str(path_var, ':')
}

/// The file that `dir` would hold for the command `name`: `<dir>/<name>`.
pub fn candidate_path(dir: &str, name: &str) -> (path: String)
    ensures
        path@ == dir@ + "/"@ + name@,
{
    let front = concat(dir, "/");
    concat(front.as_str(), name)
}

/// Whether a file with these permission bits may be run by someone (an `x` bit is set).
pub fn is_executable(mode: u32) -> (runnable: bool)
    ensures
        runnable == (mode & 0o111 != 0),
{
    mode & 0o111 != 0
}

/// The first directory, from `i` on, whose file for the command exists and is executable.
pub open spec fn first_executable(modes: Seq<Option<u32>>, i: int) -> Option<int>
    decreases modes.len() - i,
{
    if i < 0 || i >= modes.len() {
        None
    } else if modes[i] matches Some(m) && m & 0o111 != 0 {
        Some(i)
    } else {
        first_executable(modes, i + 1)
    }
}

/// Finds the directory that holds the command: `dirs` are the `PATH` directories and
/// `modes[i]` the permission bits of `<dirs[i]>/<name>` if that file exists. Returns
/// the first directory whose file is executable, or `Err(false)`.
pub fn path_finder(dirs: &Vec<String>, modes: &Vec<Option<u32>>) -> (found: Result<String, bool>)
    requires
        dirs@.len() == modes@.len(),
    ensures
        match first_executable(modes@, 0) {
            Some(i) => found matches Ok(d) && d@ == dirs@[i]@,
            None => found == Err::<String, bool>(false),
        },
{
    let mut i: usize = 0;
    while i < modes.len()
        invariant
            dirs@.len() == modes@.len(),
            i <= modes@.len(),
            first_executable(modes@, 0) == first_executable(modes@, i as int),
        decreases modes@.len() - i,
    {
        match modes[i] {
            Some(m) => {
                if is_executable(m) {
                    return Ok(dirs[i].clone());
                }
            },
            None => {},
        }
        i += 1;
    }
    Err(false)
}

/// The text `type` writes for each word from `i` on, given where each was found in
/// `PATH`; it stops after the first word found there.
pub open spec fn type_lines(args: Seq<Seq<char>>, found: Seq<Option<Seq<char>>>, i: int) -> Seq<(bool, Seq<char>)>
    decreases args.len() - i,
{
    if i < 1 || i >= args.len() {
        seq![]
    } else if builtin_named(args[i]) is Some {
        seq![(false, args[i] + " is a shell builtin\n"@)] + type_lines(args, found, i + 1)
    } else {
        match found[i] {
            Some(dir) => seq![(false, args[i] + " is "@ + dir + "/"@ + args[i] + "\n"@)],
            None => seq![(true, args[i] + ": not found\n"@)] + type_lines(args, found, i + 1),
        }
    }
}

/// The directories in which each word was found, as characters.
pub open spec fn found_views(found: Seq<Option<String>>) -> Seq<Option<Seq<char>>> {
    found.map_values(|f: Option<String>| match f {
        Some(d) => Some(d@),
        None => None,
    })
}

/// `type`: for each argument says whether it is a built-in command, where `PATH` holds
/// it (and then stops), or that it is not found. `found_in[i]` is where `PATH` holds
/// `arg_array[i]`, as `path_finder` says. Status 0.
pub fn type_function(arg_array: &Vec<String>, found_in: &Vec<Option<String>>) -> (reply: Reply)
    requires
        found_in@.len() == arg_array@.len(),
    ensures
        message_views(reply.messages@) == type_lines(arg_array.deep_view(), found_views(found_in@), 1),
        status_view(reply.status) == Ok::<i32, Seq<char>>(0),
{
    let ghost args = arg_array.deep_view();
    let ghost found = found_views(found_in@);
    let mut messages: Vec<Message> = Vec::new();
    let mut i: usize = 1;
    while i < arg_array.len()
        invariant
            args == arg_array.deep_view(),
            found == found_views(found_in@),
            found_in@.len() == arg_array@.len(),
            1 <= i,
            message_views(messages@) + type_lines(args, found, i as int) == type_lines(args, found, 1),
        decreases arg_array@.len() - i,
    {
        let ghost before = message_views(messages@);
        let name = arg_array[i].as_str();
        if builtin_of(name).is_some() {
            let text = concat(name, " is a shell builtin\n");
            messages.push(Message { to_stderr: false, text });
            assert(message_views(messages@) =~= before.push((false, args[i as int] + " is a shell builtin\n"@)));
        } else {
            match &found_in[i] {
                Some(dir) => {
                    let a = concat(name, " is ");
                    let b = concat(a.as_str(), dir.as_str());
                    let c = concat(b.as_str(), "/");
                    let d = concat(c.as_str(), name);
                    let text = concat(d.as_str(), "\n");
                    messages.push(Message { to_stderr: false, text });
                    assert(message_views(messages@) =~= before.push(
                        (false, args[i as int] + " is "@ + dir@ + "/"@ + args[i as int] + "\n"@)));
                    assert(message_views(messages@) == type_lines(args, found, 1));
                    return Reply { messages, status: Ok(0) };
                },
                None => {
                    let text = concat(name, ": not found\n");
                    messages.push(Message { to_stderr: true, text });
                    assert(message_views(messages@) =~= before.push((true, args[i as int] + ": not found\n"@)));
                },
            }
        }
        i += 1;
    }
    Reply { messages, status: Ok(0) }
}

/// What the shell writes when a command can be neither found nor started.
pub fn not_found_message(name: &str) -> (message: Message)
    ensures
        message@ == (true, name@ + ": not found\n"@),
{
    Message { to_stderr: true, text: concat(name, ": not found\n") }
}

} // verus!
