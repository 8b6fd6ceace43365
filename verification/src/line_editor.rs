//! The line editor: how each key changes the line being typed and the cursor
//! (a byte position in it), and what is shown after each key.
use vstd::prelude::*;
use vstd::utf8::{is_char_boundary, length_of_first_scalar, encode_utf8_first_scalar, encode_scalar};
use crate::text::{utf8, string_insert, string_remove, string_pop, push_char, concat, lemma_utf8_valid};
use crate::completion::{
    CompletionSignal, completion_defined, completion_outcome, token_bounds, byte_strings, to_replace,
    completion_fits,
};
use crate::ordered::views;

verus! {

/// The line being typed, the cursor (a byte position in it) and whether the next
/// completion request lists all candidates.
pub struct LineEditor {
    pub buffer: String,
    pub cursor: usize,
    pub multi_output: bool,
}

/// What a key read from the terminal stands for.
#[derive(Debug, Clone, Copy, PartialEq, Eq, Structural)]
pub enum KeyKind {
    Enter,
    Backspace,
    Tab,
    Escape,
    Byte,
}

/// Classifies a byte read from the terminal.
pub fn key_kind(b: u8) -> (kind: KeyKind)
    ensures
        kind == (if b == 10 {
            KeyKind::Enter
        } else if b == 127 {
            KeyKind::Backspace
        } else if b == 9 {
            KeyKind::Tab
        } else if b == 27 {
            KeyKind::Escape
        } else {
            KeyKind::Byte
        }),
{
    if b == 10 {
        KeyKind::Enter
    } else if b == 127 {
        KeyKind::Backspace
    } else if b == 9 {
        KeyKind::Tab
    } else if b == 27 {
        KeyKind::Escape
    } else {
        KeyKind::Byte
    }
}

/// Whether a byte ends an escape sequence: a final byte in `@`..`~` other than `[`.
pub fn ends_escape_sequence(b: u8) -> (ends: bool)
    ensures
        ends == (64 <= b <= 126 && b != 91),
{
    b <= 126 && b >= 64 && b != 91
}

/// A key, with what it carries: the bytes read after an escape (padded with zeros) or
/// the completion candidates for the word under the cursor.
pub enum Key {
    Enter,
    Backspace,
    Tab(Vec<String>),
    Escape(Vec<u8>),
    Byte(u8),
}

/// What a key did.
#[derive(Debug, Clone, Copy, PartialEq, Eq, Structural)]
pub enum Step {
    /// Enter: the line is complete.
    Finished,
    /// The line or the cursor may have changed.
    Edited,
    /// A completion request, with what it signals.
    Completed(CompletionSignal),
}

/// The escape sequence for the left arrow.
pub open spec fn is_left(seq: Seq<u8>) -> bool {
    seq[0] == 91 && seq[1] == 68
}

/// The escape sequence for the right arrow.
pub open spec fn is_right(seq: Seq<u8>) -> bool {
    seq[0] == 91 && seq[1] == 67
}

/// The escape sequence for the delete key.
pub open spec fn is_delete(seq: Seq<u8>) -> bool {
    seq[0] == 91 && seq[1] == 51 && seq[2] == 126
}

/// The edits (keys other than Tab) that can be applied to a line with bytes `bs`
/// and the cursor at byte `cursor` without failing: backspace and delete must remove
/// a whole character (delete also needs a non-empty line), a byte is inserted at a
/// character boundary inside the line, and an escape carries at least three bytes.
pub open spec fn edit_defined(bs: Seq<u8>, cursor: int, key: Key) -> bool {
    match key {
        Key::Enter => true,
        Key::Backspace => cursor > 0 ==> cursor - 1 < bs.len() && is_char_boundary(bs, cursor - 1),
        Key::Tab(_) => false,
        Key::Escape(seq) => seq.len() >= 3 && (
            !(is_left(seq@) && cursor > 0) && !(is_right(seq@) && cursor < bs.len()) && is_delete(seq@)
                ==> bs.len() > 0 && (cursor < bs.len() - 1 ==> is_char_boundary(bs, cursor))),
        Key::Byte(_) => cursor <= bs.len() && cursor < usize::MAX && is_char_boundary(bs, cursor),
    }
}

/// The line's bytes and the cursor after an edit (a key other than Tab).
pub open spec fn edit_effect(bs: Seq<u8>, c: int, key: Key) -> (Seq<u8>, int) {
    match key {
        Key::Backspace => if c > 0 { (after_remove(bs, c - 1), c - 1) } else { (bs, c) },
        Key::Escape(seq) => if is_left(seq@) && c > 0 {
            (bs, c - 1)
        } else if is_right(seq@) && c < bs.len() {
            (bs, c + 1)
        } else if is_delete(seq@) && c < bs.len() - 1 {
            (after_remove(bs, c), c)
        } else {
            (bs, c)
        },
        Key::Byte(b) => (after_insert(bs, c, b), c + 1),
        _ => (bs, c),
    }
}

/// The keys that the editor can apply to the state `(buffer, cursor, multi)` without
/// failing: an edit as `edit_defined` says, or a completion that `to_replace` can make.
pub open spec fn key_defined(buffer: Seq<char>, cursor: int, multi: bool, key: Key) -> bool {
    match key {
        Key::Tab(ms) => completion_defined(buffer, cursor, multi, byte_strings(views(ms@))),
        _ => edit_defined(utf8(buffer), cursor, key),
    }
}

/// Whether `apply_key` can apply the key to the editor's state.
pub fn key_allowed(ed: &LineEditor, key: &Key) -> (ok: bool)
    ensures
        ok == key_defined(ed.buffer@, ed.cursor as int, ed.multi_output, *key),
{
    let line = ed.buffer.as_str();
    let n = line.as_bytes().len();
    let c = ed.cursor;
    match key {
        Key::Enter => true,
        Key::Backspace => c == 0 || (c - 1 < n && line.is_char_boundary(c - 1)),
        Key::Tab(ms) => completion_fits(&ed.buffer, c, ed.multi_output, ms),
        Key::Escape(seq) => {
            if seq.len() < 3 {
                false
            } else if !(seq[0] == 91 && seq[1] == 68 && c > 0) && !(seq[0] == 91 && seq[1] == 67 && c < n)
                && (seq[0] == 91 && seq[1] == 51 && seq[2] == 126) {
                n > 0 && (c >= n - 1 || line.is_char_boundary(c))
            } else {
                true
            }
        },
        Key::Byte(_) => c <= n && c < usize::MAX && line.is_char_boundary(c),
    }
}

/// Applies one key to the editor: Enter completes the line; backspace removes the
/// character before the cursor; Tab completes the word under the cursor; the left and
/// right arrows move the cursor within the line; delete removes the character at the
/// cursor unless it is on the last byte; any other byte is inserted at the cursor as
/// the character with that code. Every key but Enter and Tab disarms the listing of
/// candidates.
pub fn apply_key(ed: &mut LineEditor, key: Key) -> (step: Step)
    requires
        key_defined(old(ed).buffer@, old(ed).cursor as int, old(ed).multi_output, key),
    ensures
        ({
            let bs = utf8(old(ed).buffer@);
            let c = old(ed).cursor as int;
            let nb = utf8(final(ed).buffer@);
            match key {
                Key::Enter => step == Step::Finished && *final(ed) == *old(ed),
                Key::Backspace => {
                    &&& step == Step::Edited
                    &&& !final(ed).multi_output
                    &&& (nb, final(ed).cursor as int) == edit_effect(bs, c, key)
                }
                Key::Tab(ms) => {
                    let t = token_bounds(bs, c);
                    let out = completion_outcome(bs.subrange(t.0, c), old(ed).multi_output, byte_strings(views(ms@)));
                    &&& nb == bs.subrange(0, t.0) + out.0 + bs.subrange(t.1, bs.len() as int)
                    &&& final(ed).cursor == c + out.0.len() - (t.1 - t.0)
                    &&& final(ed).multi_output == out.1
                    &&& step == Step::Completed(out.2)
                }
                Key::Escape(_) => {
                    &&& step == Step::Edited
                    &&& !final(ed).multi_output
                    &&& (nb, final(ed).cursor as int) == edit_effect(bs, c, key)
                }
                Key::Byte(_) => {
                    &&& step == Step::Edited
                    &&& !final(ed).multi_output
                    &&& (nb, final(ed).cursor as int) == edit_effect(bs, c, key)
                }
            }
        }),
{
    proof {
        lemma_utf8_valid(ed.buffer@);
    }
    match key {
        Key::Enter => Step::Finished,
        Key::Backspace => {
            if ed.cursor > 0 {
                let ghost before = utf8(ed.buffer@);
                let removed = string_remove(&mut ed.buffer, ed.cursor - 1);
                proof {
                    lemma_removed_width(before, ed.cursor - 1, removed);
                }
                ed.cursor = ed.cursor - 1;
            }
            ed.multi_output = false;
            Step::Edited
        },
        Key::Tab(matches) => {
            let signal = to_replace(&mut ed.buffer, &mut ed.cursor, &mut ed.multi_output, &matches);
            Step::Completed(signal)
        },
        Key::Escape(seq) => {
            let n = ed.buffer.as_str().as_bytes().len();
            if seq[0] == 91 && seq[1] == 68 && ed.cursor > 0 {
                ed.cursor = ed.cursor - 1;
            } else if seq[0] == 91 && seq[1] == 67 && ed.cursor < n {
                ed.cursor = ed.cursor + 1;
            } else if seq[0] == 91 && seq[1] == 51 && seq[2] == 126 && ed.cursor < n - 1 {
                let ghost before = utf8(ed.buffer@);
                let removed = string_remove(&mut ed.buffer, ed.cursor);
                proof {
                    lemma_removed_width(before, ed.cursor as int, removed);
                }
            }
            ed.multi_output = false;
            Step::Edited
        },
        Key::Byte(b) => {
            string_insert(&mut ed.buffer, ed.cursor, b as char);
            ed.cursor = ed.cursor + 1;
            ed.multi_output = false;
            Step::Edited
        },
    }
}

/// How many bytes the character that starts at byte `i` takes.
pub open spec fn char_width_at(bs: Seq<u8>, i: int) -> int {
    length_of_first_scalar(bs.subrange(i, bs.len() as int))
}

/// The line's bytes after inserting the byte `b`, read as a character, at byte `c`.
pub open spec fn after_insert(bs: Seq<u8>, c: int, b: u8) -> Seq<u8> {
    bs.take(c) + utf8(seq![b as char]) + bs.skip(c)
}

/// The line's bytes after removing the character that starts at byte `i`.
pub open spec fn after_remove(bs: Seq<u8>, i: int) -> Seq<u8> {
    bs.take(i) + bs.skip(i + char_width_at(bs, i))
}

/// Backspace right after typing an ASCII character gives back the line as it was:
/// removing the character at `c` after inserting one there restores the bytes.
pub proof fn law_backspace_undoes_typing(bs: Seq<u8>, c: int, b: u8)
    requires
        0 <= c <= bs.len(),
        b < 0x80,
    ensures
        after_remove(after_insert(bs, c, b), c) == bs,
{
    let ch = b as char;
    crate::text::lemma_utf8_ascii_char(ch);
    assert((ch as u32) as u8 == b);
    let nb = after_insert(bs, c, b);
    assert(nb == bs.take(c) + seq![b] + bs.skip(c));
    assert(nb.subrange(c, nb.len() as int)[0] == b);
    assert(char_width_at(nb, c) == 1);
    assert(nb.take(c) =~= bs.take(c));
    assert(nb.skip(c + 1) =~= bs.skip(c));
    assert(bs.take(c) + bs.skip(c) =~= bs);
}

/// A line of ASCII bytes only.
pub open spec fn is_ascii_line(bs: Seq<u8>) -> bool {
    forall|i: int| 0 <= i < bs.len() ==> #[trigger] bs[i] < 0x80
}

/// An ASCII line is valid UTF-8 and every position in it is a character boundary.
pub proof fn lemma_ascii_line(bs: Seq<u8>)
    requires
        is_ascii_line(bs),
    ensures
        vstd::utf8::valid_utf8(bs),
        forall|k: int| 0 <= k <= bs.len() ==> #[trigger] is_char_boundary(bs, k),
        forall|k: int| 0 <= k < bs.len() ==> #[trigger] char_width_at(bs, k) == 1,
    decreases bs.len(),
{
    if bs.len() > 0 {
        let rest = bs.subrange(1, bs.len() as int);
        assert(is_ascii_line(rest)) by {
            assert forall|i: int| 0 <= i < rest.len() implies #[trigger] rest[i] < 0x80 by {
                assert(rest[i] == bs[i + 1]);
            }
        }
        lemma_ascii_line(rest);
        assert(bs[0] < 0x80);
        assert(vstd::utf8::pop_first_scalar(bs) =~= rest);
        let b0 = bs[0];
        assert(vstd::utf8::codepoint_width_1(b0) == b0 as u32) by (bit_vector)
            requires
                b0 < 0x80,
        ;
    }
    vstd::utf8::is_char_boundary_start_end_of_seq(bs);
    assert forall|k: int| 0 <= k <= bs.len() implies #[trigger] is_char_boundary(bs, k) by {
        if k < bs.len() {
            vstd::utf8::is_char_boundary_iff_not_is_continuation_byte(bs, k);
        }
    }
    assert forall|k: int| 0 <= k < bs.len() implies #[trigger] char_width_at(bs, k) == 1 by {
        assert(bs.subrange(k, bs.len() as int)[0] == bs[k]);
    }
}

/// Editing a line of ASCII text with ASCII keys never fails and keeps the line ASCII
/// and the cursor inside it, except for the delete key on an empty line.
pub proof fn law_ascii_editing_stays_inside(bs: Seq<u8>, c: int, key: Key)
    requires
        is_ascii_line(bs),
        0 <= c <= bs.len(),
        c < usize::MAX,
        !(key is Tab),
        key matches Key::Byte(b) ==> b < 0x80,
        key matches Key::Escape(q) ==> q@.len() >= 3,
        !(key matches Key::Escape(q) && is_delete(q@) && bs.len() == 0),
    ensures
        edit_defined(bs, c, key),
        is_ascii_line(edit_effect(bs, c, key).0),
        0 <= edit_effect(bs, c, key).1 <= edit_effect(bs, c, key).0.len(),
{
    lemma_ascii_line(bs);
    let r = edit_effect(bs, c, key);
    match key {
        Key::Byte(b) => {
            crate::text::lemma_utf8_ascii_char(b as char);
            assert(((b as char) as u32) as u8 == b);
            assert(r.0 =~= bs.take(c) + seq![b] + bs.skip(c));
            assert forall|i: int| 0 <= i < r.0.len() implies #[trigger] r.0[i] < 0x80 by {
                if i < c {
                    assert(r.0[i] == bs[i]);
                } else if i > c {
                    assert(r.0[i] == bs[i - 1]);
                }
            }
        },
        Key::Backspace => {
            if c > 0 {
                assert(r.0 =~= bs.take(c - 1) + bs.skip(c));
                assert forall|i: int| 0 <= i < r.0.len() implies #[trigger] r.0[i] < 0x80 by {
                    if i < c - 1 {
                        assert(r.0[i] == bs[i]);
                    } else {
                        assert(r.0[i] == bs[i + 1]);
                    }
                }
            }
        },
        Key::Escape(q) => {
            if !(is_left(q@) && c > 0) && !(is_right(q@) && c < bs.len()) && is_delete(q@) && c < bs.len() - 1 {
                assert(r.0 =~= bs.take(c) + bs.skip(c + 1));
                assert forall|i: int| 0 <= i < r.0.len() implies #[trigger] r.0[i] < 0x80 by {
                    if i < c {
                        assert(r.0[i] == bs[i]);
                    } else {
                        assert(r.0[i] == bs[i + 1]);
                    }
                }
            }
        },
        _ => {},
    }
}

/// On an ASCII line every edit key does what its name says, byte by byte: backspace
/// with the cursor after the first byte removes the byte before the cursor (also at the
/// end of the line) and moves the cursor back one; at the start it does nothing; typing
/// an ASCII byte inserts it at the cursor and moves the cursor after it; Enter changes
/// nothing.
pub proof fn law_ascii_keys(bs: Seq<u8>, c: int, b: u8)
    requires
        is_ascii_line(bs),
        0 <= c <= bs.len(),
        b < 0x80,
    ensures
        c > 0 ==> edit_effect(bs, c, Key::Backspace) == (bs.take(c - 1) + bs.skip(c), c - 1),
        c == 0 ==> edit_effect(bs, c, Key::Backspace) == (bs, 0int),
        edit_effect(bs, c, Key::Byte(b)) == (bs.take(c) + seq![b] + bs.skip(c), c + 1),
        edit_effect(bs, c, Key::Enter) == (bs, c),
{
    lemma_ascii_line(bs);
    if c > 0 {
        assert(char_width_at(bs, c - 1) == 1);
    }
    crate::text::lemma_utf8_ascii_char(b as char);
    assert(((b as char) as u32) as u8 == b);
}

/// On an ASCII line the arrow and delete keys do what their names say: left (`ESC [ D`)
/// moves the cursor back one unless it is at the start, right (`ESC [ C`) forward one
/// unless it is at the end, and delete (`ESC [ 3 ~`) removes the byte at the cursor
/// unless the cursor is on the last byte or past it; other sequences change nothing.
pub proof fn law_ascii_escapes(bs: Seq<u8>, c: int, q: Vec<u8>)
    requires
        is_ascii_line(bs),
        0 <= c <= bs.len(),
        q@.len() >= 3,
    ensures
        ({
            let r = edit_effect(bs, c, Key::Escape(q));
            if q@[0] == 91 && q@[1] == 68 && c > 0 {
                r == (bs, c - 1)
            } else if q@[0] == 91 && q@[1] == 67 && c < bs.len() {
                r == (bs, c + 1)
            } else if q@[0] == 91 && q@[1] == 51 && q@[2] == 126 && c < bs.len() - 1 {
                r == (bs.take(c) + bs.skip(c + 1), c)
            } else {
                r == (bs, c)
            }
        }),
{
    lemma_ascii_line(bs);
    if 0 <= c < bs.len() {
        assert(char_width_at(bs, c) == 1);
    }
}

/// The bytes of a character found at byte `i` are as many as `char_width_at` says.
proof fn lemma_removed_width(bs: Seq<u8>, i: int, c: char)
    requires
        0 <= i,
        i + utf8(seq![c]).len() <= bs.len(),
        bs.subrange(i, i + utf8(seq![c]).len()) == utf8(seq![c]),
    ensures
        char_width_at(bs, i) == utf8(seq![c]).len(),
{
    encode_utf8_first_scalar(seq![c]);
    assert(seq![c].drop_first() =~= Seq::<char>::empty());
    assert(utf8(seq![c]) =~= encode_scalar(c as u32) + utf8(Seq::<char>::empty()));
    assert(utf8(seq![c]).len() > 0);
    assert(bs.subrange(i, bs.len() as int)[0] == utf8(seq![c])[0]);
}

/// The line as shown after a key (followed by a space that clears a removed character)
/// and how many columns the terminal cursor then moves back; afterwards a bell
/// character at the end of the line is dropped from it.
pub fn redraw(ed: &mut LineEditor) -> (shown: (String, usize))
    requires
        old(ed).cursor <= utf8(old(ed).buffer@).len() + 1,
        utf8(old(ed).buffer@).len() < usize::MAX,
    ensures
        shown.0@ == old(ed).buffer@ + seq![' '],
        shown.1 == utf8(old(ed).buffer@).len() + 1 - old(ed).cursor,
        final(ed).cursor == old(ed).cursor,
        final(ed).multi_output == old(ed).multi_output,
        final(ed).buffer@ == (if old(ed).buffer@.len() > 0 && old(ed).buffer@.last() == '\x07' {
            old(ed).buffer@.drop_last()
        } else {
            old(ed).buffer@
        }),
{
    let line = concat(ed.buffer.as_str(), " ");
    proof {
        reveal_strlit(" ");
    }
    let n = ed.buffer.as_str().as_bytes().len();
    let back = n + 1 - ed.cursor;
    match string_pop(&mut ed.buffer) {
        Some(c) => {
            if c != '\x07' {
                push_char(&mut ed.buffer, c);
                assert(ed.buffer@ =~= old(ed).buffer@);
            }
        },
        None => {},
    }
    (line, back)
}

} // verus!
