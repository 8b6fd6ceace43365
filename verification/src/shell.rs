//! The read-and-run loop's own decisions: cleaning up a line and when to stop.
use vstd::prelude::*;
use crate::text::{chars_of, string_from_char_range};

verus! {

/// Unicode white space, as `char::is_whitespace` classifies characters.
pub open spec fn is_white(c: char) -> bool {
    let u = c as u32;
    ||| 0x09 <= u <= 0x0D
    ||| u == 0x20
    ||| u == 0x85
    ||| u == 0xA0
    ||| u == 0x1680
    ||| 0x2000 <= u <= 0x200A
    ||| u == 0x2028
    ||| u == 0x2029
    ||| u == 0x202F
    ||| u == 0x205F
    ||| u == 0x3000
}

/// Whether a character is white space.
pub fn is_white_char(c: char) -> (white: bool)
    ensures
        white == is_white(c),
{
    let u = c as u32;
    (0x09 <= u && u <= 0x0D) || u == 0x20 || u == 0x85 || u == 0xA0 || u == 0x1680
        || (0x2000 <= u && u <= 0x200A) || u == 0x2028 || u == 0x2029 || u == 0x202F
        || u == 0x205F || u == 0x3000
}

/// `cs` without its leading white space.
pub open spec fn trim_start(cs: Seq<char>) -> Seq<char>
    decreases cs.len(),
{
    if cs.len() > 0 && is_white(cs[0]) {
        trim_start(cs.drop_first())
    } else {
        cs
    }
}

/// `cs` without its trailing white space.
pub open spec fn trim_end(cs: Seq<char>) -> Seq<char>
    decreases cs.len(),
{
    if cs.len() > 0 && is_white(cs.last()) {
        trim_end(cs.drop_last())
    } else {
        cs
    }
}

/// `cs` without white space at either end.
pub open spec fn trimmed(cs: Seq<char>) -> Seq<char> {
    trim_end(trim_start(cs))
}

/// Dropping the first `k` characters, all white, does not change what `trim_start` gives.
proof fn lemma_trim_start_skip(cs: Seq<char>, k: int)
    requires
        0 <= k <= cs.len(),
        forall|i: int| 0 <= i < k ==> is_white(cs[i]),
    ensures
        trim_start(cs) == trim_start(cs.skip(k)),
    decreases k,
{
    if k > 0 {
        assert(cs.drop_first().skip(k - 1) =~= cs.skip(k));
        lemma_trim_start_skip(cs.drop_first(), k - 1);
    } else {
        assert(cs.skip(0) =~= cs);
    }
}

/// Dropping the last characters from `k` on, all white, does not change what `trim_end` gives.
proof fn lemma_trim_end_take(cs: Seq<char>, k: int)
    requires
        0 <= k <= cs.len(),
        forall|i: int| k <= i < cs.len() ==> is_white(cs[i]),
    ensures
        trim_end(cs) == trim_end(cs.take(k)),
    decreases cs.len() - k,
{
    if k < cs.len() {
        assert(cs.drop_last().take(k) =~= cs.take(k));
        lemma_trim_end_take(cs.drop_last(), k);
    } else {
        assert(cs.take(k) =~= cs);
    }
}

/// `trim_start` removes exactly the leading white space.
proof fn lemma_trim_start(cs: Seq<char>)
    ensures
        cs.len() >= trim_start(cs).len(),
        trim_start(cs) == cs.skip(cs.len() - trim_start(cs).len()),
        trim_start(cs).len() > 0 ==> !is_white(trim_start(cs)[0]),
        forall|i: int| 0 <= i < cs.len() - trim_start(cs).len() ==> is_white(#[trigger] cs[i]),
    decreases cs.len(),
{
    if cs.len() > 0 && is_white(cs[0]) {
        lemma_trim_start(cs.drop_first());
        assert(cs.drop_first().skip(cs.drop_first().len() - trim_start(cs).len())
            =~= cs.skip(cs.len() - trim_start(cs).len()));
        assert forall|i: int| 0 <= i < cs.len() - trim_start(cs).len() implies is_white(#[trigger] cs[i]) by {
            if i > 0 {
                assert(cs[i] == cs.drop_first()[i - 1]);
            }
        }
    } else {
        assert(cs.skip(0) =~= cs);
    }
}

/// `trim_end` removes exactly the trailing white space.
proof fn lemma_trim_end(cs: Seq<char>)
    ensures
        cs.len() >= trim_end(cs).len(),
        trim_end(cs) == cs.take(trim_end(cs).len() as int),
        trim_end(cs).len() > 0 ==> !is_white(trim_end(cs).last()),
        forall|i: int| trim_end(cs).len() <= i < cs.len() ==> is_white(#[trigger] cs[i]),
    decreases cs.len(),
{
    if cs.len() > 0 && is_white(cs.last()) {
        lemma_trim_end(cs.drop_last());
        assert(cs.drop_last().take(trim_end(cs).len() as int) =~= cs.take(trim_end(cs).len() as int));
        assert forall|i: int| trim_end(cs).len() <= i < cs.len() implies is_white(#[trigger] cs[i]) by {
            if i < cs.len() - 1 {
                assert(cs[i] == cs.drop_last()[i]);
            }
        }
    } else {
        assert(cs.take(cs.len() as int) =~= cs);
    }
}

/// A trimmed line neither starts nor ends with white space, is a contiguous part of
/// the line, and trimming it again changes nothing.
pub proof fn law_trim(cs: Seq<char>)
    ensures
        trimmed(cs).len() > 0 ==> !is_white(trimmed(cs)[0]) && !is_white(trimmed(cs).last()),
        exists|a: int| 0 <= a && a + trimmed(cs).len() <= cs.len()
            && #[trigger] cs.subrange(a, a + trimmed(cs).len()) == trimmed(cs),
        trimmed(trimmed(cs)) == trimmed(cs),
{
    let s = trim_start(cs);
    let t = trim_end(s);
    lemma_trim_start(cs);
    lemma_trim_end(s);
    let a = cs.len() - s.len();
    assert(cs.subrange(a, a + t.len()) =~= t);
    if t.len() > 0 {
        assert(t[0] == s[0]);
    }
    // trimming again
    lemma_trim_start(t);
    if t.len() > 0 {
        assert(trim_start(t) == t);
        lemma_trim_end(t);
        assert(trim_end(t) == t);
    } else {
        assert(trim_start(t) == t);
    }
}

/// The line without white space at either end (`str::trim`).
pub fn trim_line(line: &str) -> (t: String)
    ensures
        t@ == trimmed(line@),
{
    let cs = chars_of(line);
    let n = cs.len();
    let mut a: usize = 0;
    while a < n && is_white_char(cs[a])
        invariant
            cs@ == line@,
            n == cs@.len(),
            a <= n,
            forall|i: int| 0 <= i < a ==> is_white(cs@[i]),
        decreases n - a,
    {
        a += 1;
    }
    proof {
        lemma_trim_start_skip(cs@, a as int);
    }
    let ghost rest = cs@.skip(a as int);
    let mut b: usize = n;
    while b > a && is_white_char(cs[b - 1])
        invariant
            cs@ == line@,
            n == cs@.len(),
            a <= b <= n,
            rest == cs@.skip(a as int),
            forall|i: int| b <= i < n ==> is_white(cs@[i]),
        decreases b - a,
    {
        b -= 1;
    }
    proof {
        lemma_trim_end_take(rest, b - a);
        assert(rest.take(b - a) =~= cs@.subrange(a as int, b as int));
        assert(trim_start(cs@) == rest);
        if rest.len() > 0 {
            assert(!is_white(rest[0]));
        }
        if b > a {
            assert(!is_white(rest.take(b - a).last()));
        } else {
            assert(rest.take(0) =~= Seq::<char>::empty());
        }
    }
    string_from_char_range(cs.as_slice(), a, b)
}

/// Whether the shell keeps reading commands after a command returned `status`.
pub open spec fn continues_after(status: Result<i32, Seq<char>>) -> bool {
    !(status matches Ok(code) && code == -1)
}

/// The shell keeps reading after every status but the -1 of `exit`: after an error,
/// after the status 0 of the other commands and after the status 1 of `pwd`.
pub proof fn law_only_exit_stops(e: Seq<char>)
    ensures
        !continues_after(Ok(-1i32)),
        continues_after(Ok(0i32)),
        continues_after(Ok(1i32)),
        continues_after(Err(e)),
{
}

/// Whether the shell keeps reading commands after one returned `result`: it stops only
/// on the status -1 of `exit`.
pub fn shell_continues(result: &Result<i32, String>) -> (keep_going: bool)
    ensures
        keep_going == continues_after(crate::builtins::status_view(*result)),
{
    match result {
        Ok(code) => *code != -1,
        Err(_) => true,
    }
}

/// The read loop's state after a command returned `status`: how many lines have been
/// run and whether the loop has stopped. A stopped loop runs no further line.
pub open spec fn session_step(s: (nat, bool), status: Result<i32, Seq<char>>) -> (nat, bool) {
    if s.1 {
        s
    } else {
        (s.0 + 1, !continues_after(status))
    }
}

/// The read loop's state after the commands returned `statuses`, in order.
pub open spec fn session_after(statuses: Seq<Result<i32, Seq<char>>>) -> (nat, bool)
    decreases statuses.len(),
{
    if statuses.len() == 0 {
        (0, false)
    } else {
        session_step(session_after(statuses.drop_last()), statuses.last())
    }
}

/// The position of the first status, from `i` on, that stops the loop.
pub open spec fn first_stop_from(statuses: Seq<Result<i32, Seq<char>>>, i: int) -> Option<int>
    decreases statuses.len() - i,
{
    if i < 0 || i >= statuses.len() {
        None
    } else if !continues_after(statuses[i]) {
        Some(i)
    } else {
        first_stop_from(statuses, i + 1)
    }
}

/// `first_stop_from` over a prefix, read from its end.
proof fn lemma_first_stop_prefix(statuses: Seq<Result<i32, Seq<char>>>, i: int)
    requires
        0 <= i <= statuses.len(),
    ensures
        match first_stop_from(statuses, i) {
            Some(k) => i <= k < statuses.len() && !continues_after(statuses[k])
                && forall|m: int| i <= m < k ==> continues_after(#[trigger] statuses[m]),
            None => forall|m: int| i <= m < statuses.len() ==> continues_after(#[trigger] statuses[m]),
        },
    decreases statuses.len() - i,
{
    if i < statuses.len() && continues_after(statuses[i]) {
        lemma_first_stop_prefix(statuses, i + 1);
    }
}

/// The read loop runs the lines one after the other until a command returns the
/// status of `exit`: if the `k`-th command does so first, exactly `k + 1` lines are run
/// and the loop stops, reading no later line; errors and every other status let it go
/// on, and without `exit` it runs every line and keeps going.
pub proof fn law_loop_stops_at_exit(statuses: Seq<Result<i32, Seq<char>>>)
    ensures
        match first_stop_from(statuses, 0) {
            Some(k) => session_after(statuses) == ((k + 1) as nat, true) && statuses[k] == Ok::<i32, Seq<char>>(-1i32),
            None => session_after(statuses) == (statuses.len(), false),
        },
    decreases statuses.len(),
{
    lemma_first_stop_prefix(statuses, 0);
    if statuses.len() > 0 {
        let init = statuses.drop_last();
        law_loop_stops_at_exit(init);
        lemma_first_stop_prefix(init, 0);
        match first_stop_from(init, 0) {
            Some(k) => {
                assert(init[k] == statuses[k]);
                assert forall|m: int| 0 <= m < k implies continues_after(#[trigger] statuses[m]) by {
                    assert(init[m] == statuses[m]);
                }
                assert(first_stop_from(statuses, 0) == Some(k)) by {
                    lemma_first_stop_unique(statuses, 0, k);
                }
            },
            None => {
                assert forall|m: int| 0 <= m < init.len() implies continues_after(#[trigger] statuses[m]) by {
                    assert(init[m] == statuses[m]);
                }
                if continues_after(statuses.last()) {
                    assert(first_stop_from(statuses, 0) is None) by {
                        lemma_first_stop_none(statuses, 0);
                    }
                } else {
                    assert(first_stop_from(statuses, 0) == Some(init.len() as int)) by {
                        lemma_first_stop_unique(statuses, 0, init.len() as int);
                    }
                }
            },
        }
    }
}

/// The first stopping status is the one before which every status continues.
proof fn lemma_first_stop_unique(statuses: Seq<Result<i32, Seq<char>>>, i: int, k: int)
    requires
        0 <= i <= k < statuses.len(),
        !continues_after(statuses[k]),
        forall|m: int| i <= m < k ==> continues_after(#[trigger] statuses[m]),
    ensures
        first_stop_from(statuses, i) == Some(k),
    decreases k - i,
{
    if i < k {
        lemma_first_stop_unique(statuses, i + 1, k);
    }
}

/// With every status continuing from `i` on, no stop is found.
proof fn lemma_first_stop_none(statuses: Seq<Result<i32, Seq<char>>>, i: int)
    requires
        0 <= i <= statuses.len(),
        forall|m: int| i <= m < statuses.len() ==> continues_after(#[trigger] statuses[m]),
    ensures
        first_stop_from(statuses, i) is None,
    decreases statuses.len() - i,
{
    if i < statuses.len() {
        lemma_first_stop_none(statuses, i + 1);
    }
}

/// The read loop's decisions: whether another line is to be read, and how many have run.
pub struct Session {
    stopped: bool,
    lines: Ghost<nat>,
}

impl Session {
    /// How many lines have been run.
    pub closed spec fn lines_run(&self) -> nat {
        self.lines@
    }

    /// Whether the loop has stopped.
    pub closed spec fn is_stopped(&self) -> bool {
        self.stopped
    }

    /// A loop that has run no line yet.
    pub fn new() -> (s: Session)
        ensures
            (s.lines_run(), s.is_stopped()) == session_after(seq![]),
    {
        Session { stopped: false, lines: Ghost(0) }
    }

    /// Whether another line is to be read and run.
    pub fn wants_line(&self) -> (more: bool)
        ensures
            more == !self.is_stopped(),
    {
        !self.stopped
    }

    /// Notes that a line was run and returned `result`.
    pub fn record(&mut self, result: &Result<i32, String>)
        requires
            !old(self).is_stopped(),
        ensures
            (final(self).lines_run(), final(self).is_stopped())
                == session_step((old(self).lines_run(), old(self).is_stopped()), crate::builtins::status_view(*result)),
    {
        let keep_going = shell_continues(result);
        self.stopped = !keep_going;
        self.lines = Ghost(self.lines@ + 1);
    }
}

} // verus!
