use vstd::prelude::*;
use crate::text::{latin1, push_char};
use vstd::utf8::encode_utf8;

verus! {

/// True for the characters that a backslash escapes inside double quotes.
pub open spec fn escapable_in_double_quotes(c: char) -> bool {
    c == '"' || c == '\\' || c == '$' || c == '`' || c == '\n'
}

/// The tokens of `cs[j..]`, given the quoting state and the token being built at `j`.
pub open spec fn lex(cs: Seq<char>, home: Seq<char>, j: int, sq: bool, dq: bool, cur: Seq<char>) -> Seq<Seq<char>>
    decreases cs.len() - j,
{
    if j < 0 || j >= cs.len() {
        if cur.len() > 0 { seq![cur] } else { seq![] }
    } else {
        let c = cs[j];
        if c == '\'' && !dq {
            lex(cs, home, j + 1, !sq, dq, cur)
        } else if c == '"' && !sq {
            lex(cs, home, j + 1, sq, !dq, cur)
        } else if sq {
            lex(cs, home, j + 1, sq, dq, cur.push(c))
        } else if dq {
            if c == '\\' && j + 1 < cs.len() && escapable_in_double_quotes(cs[j + 1]) {
                lex(cs, home, j + 2, sq, dq, cur.push(cs[j + 1]))
            } else {
                lex(cs, home, j + 1, sq, dq, cur.push(c))
            }
        } else if c == ' ' {
            (if cur.len() > 0 { seq![cur] } else { seq![] }) + lex(cs, home, j + 1, sq, dq, seq![])
        } else if c == '~' {
            lex(cs, home, j + 1, sq, dq, cur + home)
        } else if c == '\\' {
            if j + 1 < cs.len() {
                lex(cs, home, j + 2, sq, dq, cur.push(cs[j + 1]))
            } else {
                lex(cs, home, j + 1, sq, dq, cur)
            }
        } else {
            lex(cs, home, j + 1, sq, dq, cur.push(c))
        }
    }
}

/// The words of a command line of characters `cs`, with `~` standing for `home`.
pub open spec fn words(cs: Seq<char>, home: Seq<char>) -> Seq<Seq<char>> {
    lex(cs, home, 0, false, false, seq![])
}

/// The words of a command line whose bytes are `bytes`, each byte read as one character.
pub open spec fn tokens_of(bytes: Seq<u8>, home: Seq<char>) -> Seq<Seq<char>> {
    words(latin1(bytes), home)
}

/// The word being built, as a list of no or one word.
pub open spec fn flush(cur: Seq<char>) -> Seq<Seq<char>> {
    if cur.len() > 0 { seq![cur] } else { seq![] }
}

/// A character that the tokenizer treats specially outside quotes, apart from the space.
pub open spec fn is_special(c: char) -> bool {
    c == '\'' || c == '"' || c == '\\' || c == '~'
}

/// A line without quotes, backslashes or tildes.
pub open spec fn is_plain(cs: Seq<char>) -> bool {
    forall|i: int| 0 <= i < cs.len() ==> !is_special(#[trigger] cs[i])
}

/// A line without quotes or backslashes (it may hold `~`).
pub open spec fn is_unquoted(cs: Seq<char>) -> bool {
    forall|i: int| 0 <= i < cs.len() ==> #[trigger] cs[i] != '\'' && cs[i] != '"' && cs[i] != '\\'
}

/// Lexing does not depend on what lies before the position it starts from.
pub proof fn lemma_lex_shift(p: Seq<char>, q: Seq<char>, home: Seq<char>, j: int, sq: bool, dq: bool, cur: Seq<char>)
    requires
        0 <= j <= q.len(),
    ensures
        lex(p + q, home, p.len() + j, sq, dq, cur) == lex(q, home, j, sq, dq, cur),
    decreases q.len() - j,
{
    let full = p + q;
    let k = p.len() + j;
    if j < q.len() {
        assert(full[k] == q[j]);
        if j + 1 < q.len() {
            assert(full[k + 1] == q[j + 1]);
        }
        let c = q[j];
        if c == '\'' && !dq {
            lemma_lex_shift(p, q, home, j + 1, !sq, dq, cur);
        } else if c == '"' && !sq {
            lemma_lex_shift(p, q, home, j + 1, sq, !dq, cur);
        } else if sq {
            lemma_lex_shift(p, q, home, j + 1, sq, dq, cur.push(c));
        } else if dq {
            if c == '\\' && j + 1 < q.len() && escapable_in_double_quotes(q[j + 1]) {
                lemma_lex_shift(p, q, home, j + 2, sq, dq, cur.push(q[j + 1]));
            } else {
                lemma_lex_shift(p, q, home, j + 1, sq, dq, cur.push(c));
            }
        } else if c == ' ' {
            lemma_lex_shift(p, q, home, j + 1, sq, dq, seq![]);
        } else if c == '~' {
            lemma_lex_shift(p, q, home, j + 1, sq, dq, cur + home);
        } else if c == '\\' {
            if j + 1 < q.len() {
                lemma_lex_shift(p, q, home, j + 2, sq, dq, cur.push(q[j + 1]));
            } else {
                lemma_lex_shift(p, q, home, j + 1, sq, dq, cur);
            }
        } else {
            lemma_lex_shift(p, q, home, j + 1, sq, dq, cur.push(c));
        }
    }
}

/// From any state, lexing yields only non-empty words.
pub proof fn lemma_lex_nonempty(cs: Seq<char>, home: Seq<char>, j: int, sq: bool, dq: bool, cur: Seq<char>)
    ensures
        forall|i: int| 0 <= i < lex(cs, home, j, sq, dq, cur).len() ==> #[trigger] lex(cs, home, j, sq, dq, cur)[i].len() > 0,
    decreases cs.len() - j,
{
    if 0 <= j < cs.len() {
        let c = cs[j];
        if c == '\'' && !dq {
            let r = lex(cs, home, j + 1, !sq, dq, cur);
            lemma_lex_nonempty(cs, home, j + 1, !sq, dq, cur);
            assert(lex(cs, home, j, sq, dq, cur) == r);
        } else if c == '"' && !sq {
            let r = lex(cs, home, j + 1, sq, !dq, cur);
            lemma_lex_nonempty(cs, home, j + 1, sq, !dq, cur);
            assert(lex(cs, home, j, sq, dq, cur) == r);
        } else if sq {
            let r = lex(cs, home, j + 1, sq, dq, cur.push(c));
            lemma_lex_nonempty(cs, home, j + 1, sq, dq, cur.push(c));
            assert(lex(cs, home, j, sq, dq, cur) == r);
        } else if dq {
            if c == '\\' && j + 1 < cs.len() && escapable_in_double_quotes(cs[j + 1]) {
                let r = lex(cs, home, j + 2, sq, dq, cur.push(cs[j + 1]));
                lemma_lex_nonempty(cs, home, j + 2, sq, dq, cur.push(cs[j + 1]));
                assert(lex(cs, home, j, sq, dq, cur) == r);
            } else {
                let r = lex(cs, home, j + 1, sq, dq, cur.push(c));
                lemma_lex_nonempty(cs, home, j + 1, sq, dq, cur.push(c));
                assert(lex(cs, home, j, sq, dq, cur) == r);
            }
        } else if c == ' ' {
            lemma_lex_nonempty(cs, home, j + 1, sq, dq, seq![]);
            let rest = lex(cs, home, j + 1, sq, dq, seq![]);
            assert(lex(cs, home, j, sq, dq, cur) == flush(cur) + rest);
            assert forall|i: int| 0 <= i < (flush(cur) + rest).len() implies #[trigger] (flush(cur) + rest)[i].len() > 0 by {
                if i >= flush(cur).len() {
                    assert((flush(cur) + rest)[i] == rest[i - flush(cur).len()]);
                }
            }
        } else if c == '~' {
            let r = lex(cs, home, j + 1, sq, dq, cur + home);
            lemma_lex_nonempty(cs, home, j + 1, sq, dq, cur + home);
            assert(lex(cs, home, j, sq, dq, cur) == r);
        } else if c == '\\' {
            if j + 1 < cs.len() {
                let r = lex(cs, home, j + 2, sq, dq, cur.push(cs[j + 1]));
                lemma_lex_nonempty(cs, home, j + 2, sq, dq, cur.push(cs[j + 1]));
                assert(lex(cs, home, j, sq, dq, cur) == r);
            } else {
                let r = lex(cs, home, j + 1, sq, dq, cur);
                lemma_lex_nonempty(cs, home, j + 1, sq, dq, cur);
                assert(lex(cs, home, j, sq, dq, cur) == r);
            }
        } else {
            let r = lex(cs, home, j + 1, sq, dq, cur.push(c));
            lemma_lex_nonempty(cs, home, j + 1, sq, dq, cur.push(c));
            assert(lex(cs, home, j, sq, dq, cur) == r);
        }
    } else {
        assert(lex(cs, home, j, sq, dq, cur) == flush(cur));
        if cur.len() > 0 {
            assert(flush(cur)[0] == cur);
        }
    }
}

/// The tokenizer never yields an empty word.
pub proof fn law_words_nonempty(cs: Seq<char>, home: Seq<char>)
    ensures
        forall|i: int| 0 <= i < words(cs, home).len() ==> #[trigger] words(cs, home)[i].len() > 0,
{
    lemma_lex_nonempty(cs, home, 0, false, false, seq![]);
}

/// Lexing a plain part followed by a space and the rest of a line.
proof fn lemma_plain_then_space(a: Seq<char>, b: Seq<char>, home: Seq<char>, j: int, cur: Seq<char>)
    requires
        is_unquoted(a),
        0 <= j <= a.len(),
    ensures
        lex(a + seq![' '] + b, home, j, false, false, cur)
            == lex(a, home, j, false, false, cur) + words(b, home),
    decreases a.len() - j,
{
    let full = a + seq![' '] + b;
    if j == a.len() {
        assert(full[j] == ' ');
        assert(full =~= (a + seq![' ']) + b);
        lemma_lex_shift(a + seq![' '], b, home, 0, false, false, seq![]);
        assert(lex(a, home, j, false, false, cur) == flush(cur));
    } else {
        assert(full[j] == a[j]);
        assert(a[j] != '\'' && a[j] != '"' && a[j] != '\\');
        if a[j] == ' ' {
            lemma_plain_then_space(a, b, home, j + 1, seq![]);
            assert(flush(cur) + (lex(a, home, j + 1, false, false, seq![]) + words(b, home))
                =~= (flush(cur) + lex(a, home, j + 1, false, false, seq![])) + words(b, home));
        } else if a[j] == '~' {
            lemma_plain_then_space(a, b, home, j + 1, cur + home);
        } else {
            lemma_plain_then_space(a, b, home, j + 1, cur.push(a[j]));
        }
    }
}

/// Outside quotes, a space separates words: the words of a part without quotes or
/// backslashes, a space and the rest are the words of the part followed by the words
/// of the rest.
pub proof fn law_space_separates(a: Seq<char>, b: Seq<char>, home: Seq<char>)
    requires
        is_unquoted(a),
    ensures
        words(a + seq![' '] + b, home) == words(a, home) + words(b, home),
{
    lemma_plain_then_space(a, b, home, 0, seq![]);
}

/// Lexing a plain run without spaces just collects it.
proof fn lemma_plain_word(w: Seq<char>, home: Seq<char>, j: int, cur: Seq<char>)
    requires
        is_plain(w),
        forall|i: int| 0 <= i < w.len() ==> w[i] != ' ',
        0 <= j <= w.len(),
    ensures
        lex(w, home, j, false, false, cur) == flush(cur + w.skip(j)),
    decreases w.len() - j,
{
    if j < w.len() {
        assert(!is_special(w[j]));
        lemma_plain_word(w, home, j + 1, cur.push(w[j]));
        assert(cur.push(w[j]) + w.skip(j + 1) =~= cur + w.skip(j));
    } else {
        assert(cur + w.skip(j) =~= cur);
    }
}

/// A non-empty run of characters without spaces, quotes, backslashes or tildes is one word.
pub proof fn law_plain_word(w: Seq<char>, home: Seq<char>)
    requires
        w.len() > 0,
        is_plain(w),
        forall|i: int| 0 <= i < w.len() ==> w[i] != ' ',
    ensures
        words(w, home) == seq![w],
{
    lemma_plain_word(w, home, 0, seq![]);
    assert(Seq::<char>::empty() + w.skip(0) =~= w);
}

/// Inside single quotes every character but `'` is taken as it is.
proof fn lemma_quoted(t: Seq<char>, home: Seq<char>, j: int, cur: Seq<char>)
    requires
        forall|i: int| 0 <= i < t.len() ==> t[i] != '\'',
        0 <= j <= t.len(),
    ensures
        lex(seq!['\''] + t + seq!['\''], home, j + 1, true, false, cur) == flush(cur + t.skip(j)),
    decreases t.len() - j,
{
    let full = seq!['\''] + t + seq!['\''];
    if j < t.len() {
        assert(full[j + 1] == t[j]);
        lemma_quoted(t, home, j + 1, cur.push(t[j]));
        assert(cur.push(t[j]) + t.skip(j + 1) =~= cur + t.skip(j));
    } else {
        assert(full.len() == t.len() + 2);
        assert(full[j + 1] == '\'');
        assert(lex(full, home, j + 2, false, false, cur) == flush(cur));
        assert(lex(full, home, j + 1, true, false, cur) == lex(full, home, j + 2, false, false, cur));
        assert(cur + t.skip(j) =~= cur);
    }
}

/// A single-quoted text without `'` is one word, taken literally (if not empty).
pub proof fn law_single_quotes_literal(t: Seq<char>, home: Seq<char>)
    requires
        forall|i: int| 0 <= i < t.len() ==> t[i] != '\'',
    ensures
        words(seq!['\''] + t + seq!['\''], home) == flush(t),
{
    let full = seq!['\''] + t + seq!['\''];
    assert(full[0] == '\'');
    lemma_quoted(t, home, 0, seq![]);
    assert(Seq::<char>::empty() + t.skip(0) =~= t);
}

/// Inside double quotes every character but `"` and `\` is taken as it is.
proof fn lemma_double_quoted(t: Seq<char>, home: Seq<char>, j: int, cur: Seq<char>)
    requires
        forall|i: int| 0 <= i < t.len() ==> t[i] != '"' && t[i] != '\\',
        0 <= j <= t.len(),
    ensures
        lex(seq!['"'] + t + seq!['"'], home, j + 1, false, true, cur) == flush(cur + t.skip(j)),
    decreases t.len() - j,
{
    let full = seq!['"'] + t + seq!['"'];
    if j < t.len() {
        assert(full[j + 1] == t[j]);
        lemma_double_quoted(t, home, j + 1, cur.push(t[j]));
        assert(cur.push(t[j]) + t.skip(j + 1) =~= cur + t.skip(j));
    } else {
        assert(full.len() == t.len() + 2);
        assert(full[j + 1] == '"');
        assert(lex(full, home, j + 2, false, false, cur) == flush(cur));
        assert(lex(full, home, j + 1, false, true, cur) == lex(full, home, j + 2, false, false, cur));
        assert(cur + t.skip(j) =~= cur);
    }
}

/// A double-quoted text without `"` or `\` is one word, taken literally (if not empty):
/// spaces, single quotes and `~` lose their meaning inside it.
pub proof fn law_double_quotes_literal(t: Seq<char>, home: Seq<char>)
    requires
        forall|i: int| 0 <= i < t.len() ==> t[i] != '"' && t[i] != '\\',
    ensures
        words(seq!['"'] + t + seq!['"'], home) == flush(t),
{
    let full = seq!['"'] + t + seq!['"'];
    assert(full[0] == '"');
    lemma_double_quoted(t, home, 0, seq![]);
    assert(Seq::<char>::empty() + t.skip(0) =~= t);
}

/// Inside double quotes, a run of characters other than `"` and `\` is added to the
/// word as it is.
proof fn lemma_dq_run(cs: Seq<char>, home: Seq<char>, p: int, q: int, cur: Seq<char>)
    requires
        0 <= p <= q <= cs.len(),
        forall|k: int| p <= k < q ==> cs[k] != '"' && cs[k] != '\\',
    ensures
        lex(cs, home, p, false, true, cur) == lex(cs, home, q, false, true, cur + cs.subrange(p, q)),
    decreases q - p,
{
    if p < q {
        lemma_dq_run(cs, home, p + 1, q, cur.push(cs[p]));
        assert(cur.push(cs[p]) + cs.subrange(p + 1, q) =~= cur + cs.subrange(p, q));
    } else {
        assert(cur + cs.subrange(p, q) =~= cur);
    }
}

/// Inside double quotes, a backslash before `"`, `\`, `$`, `` ` `` or a newline stands
/// for that character alone: `"a\cb"` (with `a` and `b` free of quotes and
/// backslashes) is the one word `acb`.
pub proof fn law_double_quote_escape(a: Seq<char>, c: char, b: Seq<char>, home: Seq<char>)
    requires
        forall|i: int| 0 <= i < a.len() ==> a[i] != '"' && a[i] != '\\',
        forall|i: int| 0 <= i < b.len() ==> b[i] != '"' && b[i] != '\\',
        c == '"' || c == '\\' || c == '$' || c == '`' || c == '\n',
    ensures
        words(seq!['"'] + a + seq!['\\', c] + b + seq!['"'], home) == seq![a + seq![c] + b],
{
    let full = seq!['"'] + a + seq!['\\', c] + b + seq!['"'];
    assert(full.len() == a.len() + b.len() + 4);
    assert(full[0] == '"');
    assert(lex(full, home, 0, false, false, seq![]) == lex(full, home, 1, false, true, seq![]));
    let p1: int = 1 + a.len() as int;
    assert forall|k: int| 1 <= k < p1 implies full[k] != '"' && full[k] != '\\' by {
        assert(full[k] == a[k - 1]);
    }
    lemma_dq_run(full, home, 1, p1, seq![]);
    assert(full.subrange(1, p1) =~= a);
    assert(full[p1] == '\\');
    assert(full[p1 + 1] == c);
    assert(escapable_in_double_quotes(c));
    assert(lex(full, home, p1, false, true, seq![] + a) == lex(full, home, p1 + 2, false, true, (seq![] + a).push(c)));
    let p2: int = p1 + 2;
    let p3: int = p2 + b.len() as int;
    assert forall|k: int| p2 <= k < p3 implies full[k] != '"' && full[k] != '\\' by {
        assert(full[k] == b[k - p2]);
    }
    lemma_dq_run(full, home, p2, p3, (seq![] + a).push(c));
    assert(full.subrange(p2, p3) =~= b);
    assert(full[p3] == '"');
    assert(lex(full, home, p3 + 1, false, false, (seq![] + a).push(c) + b) == flush((seq![] + a).push(c) + b));
    assert((seq![] + a).push(c) + b =~= a + seq![c] + b);
}

/// Inside double quotes, a backslash before any other character is kept as it is:
/// `"a\cb"` (with `a` and `b` free of quotes and backslashes, and `c` none of `"`, `\`,
/// `$`, `` ` ``, newline) is the one word `a\cb`.
pub proof fn law_double_quote_backslash_kept(a: Seq<char>, c: char, b: Seq<char>, home: Seq<char>)
    requires
        forall|i: int| 0 <= i < a.len() ==> a[i] != '"' && a[i] != '\\',
        forall|i: int| 0 <= i < b.len() ==> b[i] != '"' && b[i] != '\\',
        c != '"' && c != '\\' && c != '$' && c != '`' && c != '\n',
    ensures
        words(seq!['"'] + a + seq!['\\', c] + b + seq!['"'], home) == seq![a + seq!['\\', c] + b],
{
    let full = seq!['"'] + a + seq!['\\', c] + b + seq!['"'];
    assert(full.len() == a.len() + b.len() + 4);
    assert(full[0] == '"');
    assert(lex(full, home, 0, false, false, seq![]) == lex(full, home, 1, false, true, seq![]));
    let p1: int = 1 + a.len() as int;
    assert forall|k: int| 1 <= k < p1 implies full[k] != '"' && full[k] != '\\' by {
        assert(full[k] == a[k - 1]);
    }
    lemma_dq_run(full, home, 1, p1, seq![]);
    assert(full.subrange(1, p1) =~= a);
    assert(full[p1] == '\\');
    assert(full[p1 + 1] == c);
    assert(!escapable_in_double_quotes(c));
    let w0 = (seq![] + a).push('\\');
    assert(lex(full, home, p1, false, true, seq![] + a) == lex(full, home, p1 + 1, false, true, w0));
    assert(lex(full, home, p1 + 1, false, true, w0) == lex(full, home, p1 + 2, false, true, w0.push(c)));
    let p2: int = p1 + 2;
    let p3: int = p2 + b.len() as int;
    assert forall|k: int| p2 <= k < p3 implies full[k] != '"' && full[k] != '\\' by {
        assert(full[k] == b[k - p2]);
    }
    lemma_dq_run(full, home, p2, p3, w0.push(c));
    assert(full.subrange(p2, p3) =~= b);
    assert(full[p3] == '"');
    assert(lex(full, home, p3 + 1, false, false, w0.push(c) + b) == flush(w0.push(c) + b));
    assert(w0.push(c) + b =~= a + seq!['\\', c] + b);
}

/// Outside quotes a backslash at the very end of the line escapes nothing and is
/// dropped: `a\` (with `a` a plain word) gives the words of `a` alone.
pub proof fn law_trailing_backslash_dropped(a: Seq<char>, home: Seq<char>)
    requires
        forall|i: int| 0 <= i < a.len() ==> !is_special(a[i]) && a[i] != ' ',
    ensures
        words(a + seq!['\\'], home) == flush(a),
{
    let full = a + seq!['\\'];
    let p1: int = a.len() as int;
    assert forall|k: int| 0 <= k < p1 implies !is_special(full[k]) && full[k] != ' ' by {
        assert(full[k] == a[k]);
    }
    lemma_plain_run(full, home, 0, p1, seq![]);
    assert(full.subrange(0, p1) =~= a);
    assert(full[p1] == '\\');
    assert(lex(full, home, p1, false, false, seq![] + a) == lex(full, home, p1 + 1, false, false, seq![] + a));
    assert(seq![] + a =~= a);
}

/// Outside quotes, a run of characters other than spaces, quotes, backslashes and `~`
/// is added to the word as it is.
proof fn lemma_plain_run(cs: Seq<char>, home: Seq<char>, p: int, q: int, cur: Seq<char>)
    requires
        0 <= p <= q <= cs.len(),
        forall|k: int| p <= k < q ==> !is_special(cs[k]) && cs[k] != ' ',
    ensures
        lex(cs, home, p, false, false, cur) == lex(cs, home, q, false, false, cur + cs.subrange(p, q)),
    decreases q - p,
{
    if p < q {
        assert(!is_special(cs[p]) && cs[p] != ' ');
        lemma_plain_run(cs, home, p + 1, q, cur.push(cs[p]));
        assert(cur.push(cs[p]) + cs.subrange(p + 1, q) =~= cur + cs.subrange(p, q));
    } else {
        assert(cur + cs.subrange(p, q) =~= cur);
    }
}

/// Outside quotes a backslash makes the next character an ordinary one: `a\cb` (with
/// `a` and `b` plain words) is the one word `acb`, whatever `c` is.
pub proof fn law_backslash_escapes(a: Seq<char>, c: char, b: Seq<char>, home: Seq<char>)
    requires
        forall|i: int| 0 <= i < a.len() ==> !is_special(a[i]) && a[i] != ' ',
        forall|i: int| 0 <= i < b.len() ==> !is_special(b[i]) && b[i] != ' ',
    ensures
        words(a + seq!['\\', c] + b, home) == seq![a + seq![c] + b],
{
    let full = a + seq!['\\', c] + b;
    let p1: int = a.len() as int;
    let p2: int = p1 + 2;
    let p3: int = p2 + b.len() as int;
    assert(full.len() == p3);
    assert forall|k: int| 0 <= k < p1 implies !is_special(full[k]) && full[k] != ' ' by {
        assert(full[k] == a[k]);
    }
    lemma_plain_run(full, home, 0, p1, seq![]);
    assert(full.subrange(0, p1) =~= a);
    assert(full[p1] == '\\');
    assert(full[p1 + 1] == c);
    assert(lex(full, home, p1, false, false, seq![] + a) == lex(full, home, p2, false, false, (seq![] + a).push(c)));
    assert forall|k: int| p2 <= k < p3 implies !is_special(full[k]) && full[k] != ' ' by {
        assert(full[k] == b[k - p2]);
    }
    lemma_plain_run(full, home, p2, p3, (seq![] + a).push(c));
    assert(full.subrange(p2, p3) =~= b);
    assert((seq![] + a).push(c) + b =~= a + seq![c] + b);
}

/// Outside quotes `~` stands for the home directory: `a~b` (with `a` and `b` plain
/// words) is the one word `a`, home, `b` (if that is not empty).
pub proof fn law_tilde_is_home(a: Seq<char>, b: Seq<char>, home: Seq<char>)
    requires
        forall|i: int| 0 <= i < a.len() ==> !is_special(a[i]) && a[i] != ' ',
        forall|i: int| 0 <= i < b.len() ==> !is_special(b[i]) && b[i] != ' ',
    ensures
        words(a + seq!['~'] + b, home) == flush(a + home + b),
{
    let full = a + seq!['~'] + b;
    let p1: int = a.len() as int;
    let p2: int = p1 + 1;
    let p3: int = p2 + b.len() as int;
    assert(full.len() == p3);
    assert forall|k: int| 0 <= k < p1 implies !is_special(full[k]) && full[k] != ' ' by {
        assert(full[k] == a[k]);
    }
    lemma_plain_run(full, home, 0, p1, seq![]);
    assert(full.subrange(0, p1) =~= a);
    assert(full[p1] == '~');
    assert(lex(full, home, p1, false, false, seq![] + a) == lex(full, home, p2, false, false, (seq![] + a) + home));
    assert forall|k: int| p2 <= k < p3 implies !is_special(full[k]) && full[k] != ' ' by {
        assert(full[k] == b[k - p2]);
    }
    lemma_plain_run(full, home, p2, p3, (seq![] + a) + home);
    assert(full.subrange(p2, p3) =~= b);
    assert((seq![] + a) + home + b =~= a + home + b);
}

/// Splits a command line into words: spaces separate words, single quotes keep
/// everything literally, double quotes keep everything but backslash escapes of
/// `"`, `\`, `$`, `` ` `` and newline, an unquoted backslash escapes the next byte,
/// and an unquoted `~` stands for `home_dir`. Empty words are dropped.
pub fn separator(command: &str, home_dir: &str) -> (tokens: Vec<String>)
    ensures
        tokens.deep_view() == tokens_of(encode_utf8(command@), home_dir@),
{
    let bytes = command.as_bytes();
    let n = bytes.len();
    let ghost cs = latin1(bytes@);
    let mut tokens: Vec<String> = Vec::new();
    let mut cur = String::new();
    let mut sq = false;
    let mut dq = false;
    let mut j: usize = 0;
    while j < n
        invariant
            n == bytes@.len(),
            cs == latin1(bytes@),
            bytes@ == encode_utf8(command@),
            j <= n,
            tokens.deep_view() + lex(cs, home_dir@, j as int, sq, dq, cur@)
                == tokens_of(encode_utf8(command@), home_dir@),
        decreases n - j,
    {
        let c = bytes[j] as char;
        assert(c == cs[j as int]);
        if c == '\'' && !dq {
            sq = !sq;
            j += 1;
        } else if c == '"' && !sq {
            dq = !dq;
            j += 1;
        } else if sq {
            push_char(&mut cur, c);
            j += 1;
        } else if dq {
            if c == '\\' && j + 1 < n {
                let d = bytes[j + 1] as char;
                assert(d == cs[j + 1]);
                if d == '"' || d == '\\' || d == '$' || d == '`' || d == '\n' {
                    push_char(&mut cur, d);
                    j += 2;
                } else {
                    push_char(&mut cur, c);
                    j += 1;
                }
            } else {
                push_char(&mut cur, c);
                j += 1;
            }
        } else if c == ' ' {
            let ghost before = tokens.deep_view();
            if !cur.as_str().is_empty() {
                tokens.push(cur);
                assert(tokens.deep_view() == before.push(cur@));
            }
            cur = String::new();
            j += 1;
        } else if c == '~' {
            cur.append(home_dir);
            j += 1;
        } else if c == '\\' {
            if j + 1 < n {
                let d = bytes[j + 1] as char;
                assert(d == cs[j + 1]);
                push_char(&mut cur, d);
                j += 2;
            } else {
                j += 1;
            }
        } else {
            push_char(&mut cur, c);
            j += 1;
        }
    }
    if !cur.as_str().is_empty() {
        tokens.push(cur);
    }
    tokens
}

} // verus!
