//! A command line taken apart: its words, its output redirections and what runs it.
use vstd::prelude::*;
use vstd::utf8::encode_utf8;
use crate::text::str_eq;
use crate::tokenize::{separator, tokens_of};
use crate::builtins::{Builtin, builtin_named, builtin_of};

verus! {

/// The redirection an operator word asks for: (to standard error?, append?).
pub open spec fn redirect_kind(word: Seq<char>) -> Option<(bool, bool)> {
    if word == ">"@ || word == "1>"@ {
        Some((false, false))
    } else if word == "2>"@ {
        Some((true, false))
    } else if word == ">>"@ || word == "1>>"@ {
        Some((false, true))
    } else if word == "2>>"@ {
        Some((true, true))
    } else {
        None
    }
}

/// Reads an operator word: `>`/`1>` and `2>` truncate standard output and standard
/// error, `>>`/`1>>` and `2>>` append to them.
pub fn redirect_of(word: &str) -> (kind: Option<(bool, bool)>)
    ensures
        kind == redirect_kind(word@),
{
    if str_eq(word, ">") || str_eq(word, "1>") {
        Some((false, false))
    } else if str_eq(word, "2>") {
        Some((true, false))
    } else if str_eq(word, ">>") || str_eq(word, "1>>") {
        Some((false, true))
    } else if str_eq(word, "2>>") {
        Some((true, true))
    } else {
        None
    }
}

/// An output redirection: which stream, whether to append, and to which file.
pub struct Redirect {
    pub to_stderr: bool,
    pub append: bool,
    pub path: String,
}

impl View for Redirect {
    type V = (bool, bool, Seq<char>);

    open spec fn view(&self) -> (bool, bool, Seq<char>) {
        (self.to_stderr, self.append, self.path@)
    }
}

/// The redirections among `words[i..]`, in order: every operator word that has a word
/// after it, with that word as the file.
pub open spec fn redirects_from(words: Seq<Seq<char>>, i: int) -> Seq<(bool, bool, Seq<char>)>
    decreases words.len() - i,
{
    if i < 0 || i + 1 >= words.len() {
        seq![]
    } else {
        match redirect_kind(words[i]) {
            Some((e, a)) => seq![(e, a, words[i + 1])] + redirects_from(words, i + 1),
            None => redirects_from(words, i + 1),
        }
    }
}

/// The position of the first operator word, from `i` on, that has a word after it, or
/// the number of words: the words before it are the command and its arguments.
pub open spec fn command_end_from(words: Seq<Seq<char>>, i: int) -> int
    decreases words.len() - i,
{
    if i < 0 || i + 1 >= words.len() {
        words.len() as int
    } else if redirect_kind(words[i]) is Some {
        i
    } else {
        command_end_from(words, i + 1)
    }
}

/// The command's words end at or before the end of the line, and no word among them
/// is a redirection operator followed by another word.
pub proof fn law_arguments_precede_redirections(words: Seq<Seq<char>>, i: int)
    requires
        0 <= i <= words.len(),
    ensures
        i <= command_end_from(words, i) <= words.len(),
        forall|k: int| i <= k < command_end_from(words, i) && k + 1 < words.len()
            ==> redirect_kind(#[trigger] words[k]) is None,
        command_end_from(words, i) < words.len() ==> redirect_kind(words[command_end_from(words, i)]) is Some,
    decreases words.len() - i,
{
    if i + 1 < words.len() && redirect_kind(words[i]) is None {
        law_arguments_precede_redirections(words, i + 1);
    }
}

/// A line without redirection operators keeps all its words as the command's, and has
/// no redirection.
pub proof fn law_no_operator_no_redirection(words: Seq<Seq<char>>, i: int)
    requires
        0 <= i <= words.len(),
        forall|k: int| 0 <= k < words.len() ==> redirect_kind(#[trigger] words[k]) is None,
    ensures
        command_end_from(words, i) == words.len(),
        redirects_from(words, i) == Seq::<(bool, bool, Seq<char>)>::empty(),
    decreases words.len() - i,
{
    if i + 1 < words.len() {
        assert(redirect_kind(words[i]) is None);
        law_no_operator_no_redirection(words, i + 1);
    }
}

/// What an operator word asks for follows from its spelling: it goes to standard error
/// exactly when it starts with `2`, and it appends exactly when it ends with `>>`;
/// the six operator words are `>`, `1>`, `2>`, `>>`, `1>>` and `2>>`.
pub proof fn law_operator_meaning(w: Seq<char>)
    ensures
        redirect_kind(w) is Some <==> (w == seq!['>'] || w == seq!['1', '>'] || w == seq!['2', '>']
            || w == seq!['>', '>'] || w == seq!['1', '>', '>'] || w == seq!['2', '>', '>']),
        redirect_kind(w) matches Some((to_stderr, append)) ==> (to_stderr == (w[0] == '2')
            && append == (w.len() >= 2 && w[w.len() - 2] == '>')),
{
    reveal_strlit(">");
    reveal_strlit("1>");
    reveal_strlit("2>");
    reveal_strlit(">>");
    reveal_strlit("1>>");
    reveal_strlit("2>>");
    assert(">"@ =~= seq!['>']);
    assert("1>"@ =~= seq!['1', '>']);
    assert("2>"@ =~= seq!['2', '>']);
    assert(">>"@ =~= seq!['>', '>']);
    assert("1>>"@ =~= seq!['1', '>', '>']);
    assert("2>>"@ =~= seq!['2', '>', '>']);
}

/// An operator and its file at the end of a line whose other words are no operators
/// give one redirection, of the stream and mode that the operator names, to that file,
/// and the command is all the words before the operator.
pub proof fn law_last_redirection(w: Seq<Seq<char>>, op: Seq<char>, f: Seq<char>)
    requires
        forall|k: int| 0 <= k < w.len() ==> redirect_kind(#[trigger] w[k]) is None,
        redirect_kind(op) is Some,
    ensures
        ({
            let k = redirect_kind(op).unwrap();
            redirects_from(w + seq![op, f], 0) == seq![(k.0, k.1, f)]
        }),
        command_end_from(w + seq![op, f], 0) == w.len(),
{
    let words = w + seq![op, f];
    lemma_operator_free_prefix(w, op, f, 0);
    assert(words[w.len() as int] == op);
    assert(words[w.len() as int + 1] == f);
    assert(redirects_from(words, w.len() as int + 1) =~= Seq::<(bool, bool, Seq<char>)>::empty());
    let k = redirect_kind(op).unwrap();
    assert(seq![(k.0, k.1, f)] + Seq::<(bool, bool, Seq<char>)>::empty() =~= seq![(k.0, k.1, f)]);
}

/// Every redirection taken off a line is an operator word followed by another word,
/// with the stream and mode that the operator names and that word as the file; and
/// every operator word followed by another word gives one.
pub proof fn law_redirections_are_operator_pairs(words: Seq<Seq<char>>, i: int)
    requires
        0 <= i <= words.len(),
    ensures
        forall|r: (bool, bool, Seq<char>)| redirects_from(words, i).contains(r) <==> exists|p: int|
            i <= p && p + 1 < words.len() && redirect_kind(#[trigger] words[p]) == Some((r.0, r.1))
                && r.2 == words[p + 1],
    decreases words.len() - i,
{
    if i + 1 < words.len() {
        law_redirections_are_operator_pairs(words, i + 1);
        let rest = redirects_from(words, i + 1);
        assert forall|r: (bool, bool, Seq<char>)| redirects_from(words, i).contains(r) <==> exists|p: int|
            i <= p && p + 1 < words.len() && redirect_kind(#[trigger] words[p]) == Some((r.0, r.1))
                && r.2 == words[p + 1] by {
            match redirect_kind(words[i]) {
                Some((e, a)) => {
                    let head = seq![(e, a, words[i + 1])];
                    assert(redirects_from(words, i) == head + rest);
                    if redirects_from(words, i).contains(r) {
                        let q = choose|q: int| 0 <= q < (head + rest).len() && (head + rest)[q] == r;
                        if q == 0 {
                            assert(r == (e, a, words[i + 1]));
                        } else {
                            assert(rest[q - 1] == r);
                            assert(rest.contains(r));
                        }
                    }
                    if exists|p: int| i <= p && p + 1 < words.len() && redirect_kind(#[trigger] words[p]) == Some((r.0, r.1))
                        && r.2 == words[p + 1] {
                        let p = choose|p: int| i <= p && p + 1 < words.len() && redirect_kind(#[trigger] words[p]) == Some((r.0, r.1))
                            && r.2 == words[p + 1];
                        if p == i {
                            assert((head + rest)[0] == r);
                        } else {
                            assert(rest.contains(r));
                            let q = choose|q: int| 0 <= q < rest.len() && rest[q] == r;
                            assert((head + rest)[q + 1] == r);
                        }
                    }
                },
                None => {
                    assert(redirects_from(words, i) == rest);
                },
            }
        }
    } else {
        assert(redirects_from(words, i) =~= Seq::<(bool, bool, Seq<char>)>::empty());
    }
}

/// Before the operator, words that are no operators add no redirection and do not end
/// the command.
proof fn lemma_operator_free_prefix(w: Seq<Seq<char>>, op: Seq<char>, f: Seq<char>, i: int)
    requires
        forall|k: int| 0 <= k < w.len() ==> redirect_kind(#[trigger] w[k]) is None,
        0 <= i <= w.len(),
    ensures
        redirects_from(w + seq![op, f], i) == redirects_from(w + seq![op, f], w.len() as int),
        command_end_from(w + seq![op, f], i) == command_end_from(w + seq![op, f], w.len() as int),
    decreases w.len() - i,
{
    if i < w.len() {
        assert((w + seq![op, f])[i] == w[i]);
        lemma_operator_free_prefix(w, op, f, i + 1);
    }
}

/// What runs a command line.
#[derive(Debug, Clone, Copy, PartialEq, Eq, Structural)]
pub enum Target {
    /// The line holds no word: the error `No Command`.
    Missing,
    /// A command of the shell's own.
    Builtin(Builtin),
    /// A program, started by its name.
    External,
}

/// A parsed command line.
pub struct CommandPlan {
    /// The first word, which names the command, before redirections are taken off.
    pub name: Option<String>,
    /// The words before the first redirection.
    pub args: Vec<String>,
    /// The redirections, in the order in which the files are opened.
    pub redirects: Vec<Redirect>,
    /// What runs the command.
    pub target: Target,
}

/// The views of a list of redirections.
pub open spec fn redirect_views(rs: Seq<Redirect>) -> Seq<(bool, bool, Seq<char>)> {
    rs.map_values(|r: Redirect| r@)
}

/// Splits the words of a command line into the command with its arguments and its
/// redirections.
pub fn split_redirections(arguments: &Vec<String>) -> (parts: (Vec<String>, Vec<Redirect>))
    ensures
        parts.0.deep_view() == arguments.deep_view().take(command_end_from(arguments.deep_view(), 0)),
        redirect_views(parts.1@) == redirects_from(arguments.deep_view(), 0),
{
    let ghost words = arguments.deep_view();
    let n = arguments.len();
    let mut redirects: Vec<Redirect> = Vec::new();
    let mut f_ind: usize = n;
    let mut i: usize = 0;
    while i < n
        invariant
            n == arguments@.len(),
            words == arguments.deep_view(),
            i <= n,
            redirect_views(redirects@) + redirects_from(words, i as int) == redirects_from(words, 0),
            f_ind == n ==> command_end_from(words, 0) == command_end_from(words, i as int),
            f_ind < n ==> f_ind as int == command_end_from(words, 0),
            f_ind <= n,
            f_ind < n ==> f_ind < i,
        decreases n - i,
    {
        let ghost before = redirect_views(redirects@);
        assert(words[i as int] == arguments@[i as int]@);
        if i < n - 1 {
            match redirect_of(arguments[i].as_str()) {
                Some((to_stderr, append)) => {
                    redirects.push(Redirect { to_stderr, append, path: arguments[i + 1].clone() });
                    assert(redirect_views(redirects@) =~= before + seq![(to_stderr, append, words[i + 1])]);
                    if i < f_ind {
                        f_ind = i;
                    }
                },
                None => {},
            }
        }
        i += 1;
    }
    let mut args: Vec<String> = Vec::new();
    let mut k: usize = 0;
    while k < f_ind
        invariant
            n == arguments@.len(),
            words == arguments.deep_view(),
            f_ind <= n,
            k <= f_ind,
            args.deep_view() == words.take(k as int),
        decreases f_ind - k,
    {
        assert(words[k as int] == arguments@[k as int]@);
        let ghost before = args.deep_view();
        let item = arguments[k].clone();
        args.push(item);
        assert(args.deep_view() == before.push(words[k as int]));
        k += 1;
        assert(args.deep_view() =~= words.take(k as int));
    }
    (args, redirects)
}

/// The plan for a command line: its words (with `~` standing for `home_dir`), the
/// first word as the command's name, the words before the first redirection as its
/// arguments, the redirections, and whether the command is missing, built in or a
/// program.
pub fn command_parse(command_input: &str, home_dir: &str) -> (plan: CommandPlan)
    ensures
        ({
            let words = tokens_of(encode_utf8(command_input@), home_dir@);
            &&& (match plan.name {
                Some(n) => words.len() > 0 && n@ == words[0],
                None => words.len() == 0,
            })
            &&& plan.args.deep_view() == words.take(command_end_from(words, 0))
            &&& redirect_views(plan.redirects@) == redirects_from(words, 0)
            &&& plan.target == (if words.len() == 0 {
                Target::Missing
            } else {
                match builtin_named(words[0]) {
                    Some(b) => Target::Builtin(b),
                    None => Target::External,
                }
            })
        }),
{
    let arguments = separator(command_input, home_dir);
    let ghost words = arguments.deep_view();
    let name = if arguments.len() > 0 {
        Some(arguments[0].clone())
    } else {
        None
    };
    let (args, redirects) = split_redirections(&arguments);
    let target = match &name {
        None => Target::Missing,
        Some(n) => match builtin_of(n.as_str()) {
            Some(b) => Target::Builtin(b),
            None => Target::External,
        },
    };
    CommandPlan { name, args, redirects, target }
}

} // verus!
