//! Tab completion on the line being edited: finding the word under the cursor,
//! collecting and ordering candidates, and splicing the completed word back in.
use vstd::prelude::*;
use vstd::utf8::{is_char_boundary, is_char_boundary_iff_not_is_continuation_byte};
use crate::text::{
    utf8, byte_range, concat, lemma_utf8_valid, lemma_utf8_concat, lemma_boundary_after_ascii,
    starts_with, split_on, split_str, chars_of, string_from_chars, lemma_split_on_nonempty,
};
use crate::ordered::{views, ordered, insert_ordered};

verus! {

/// Where the word that starts at byte `j` ends: the first space at or after `j`
/// that lies outside quotes (or the end), with the quoting state there.
pub open spec fn scan_end(bs: Seq<u8>, j: int, sq: bool, dq: bool) -> (int, bool, bool)
    decreases bs.len() - j,
{
    if j < 0 || j >= bs.len() {
        (j, sq, dq)
    } else if bs[j] == 0x27 && !dq {
        scan_end(bs, j + 1, !sq, dq)
    } else if bs[j] == 0x22 && !sq {
        scan_end(bs, j + 1, sq, !dq)
    } else if !sq && !dq && bs[j] == 0x20 {
        (j, sq, dq)
    } else {
        scan_end(bs, j + 1, sq, dq)
    }
}

/// `scan_end` never moves backwards and stops at a space or at the end.
pub proof fn lemma_scan_end(bs: Seq<u8>, j: int, sq: bool, dq: bool)
    requires
        0 <= j <= bs.len(),
    ensures
        j <= scan_end(bs, j, sq, dq).0 <= bs.len(),
        scan_end(bs, j, sq, dq).0 < bs.len() ==> bs[scan_end(bs, j, sq, dq).0] == 0x20,
    decreases bs.len() - j,
{
    if j < bs.len() {
        if bs[j] == 0x27 && !dq {
            lemma_scan_end(bs, j + 1, !sq, dq);
        } else if bs[j] == 0x22 && !sq {
            lemma_scan_end(bs, j + 1, sq, !dq);
        } else if !sq && !dq && bs[j] == 0x20 {
        } else {
            lemma_scan_end(bs, j + 1, sq, dq);
        }
    }
}

/// How many words the word after the space at `j` adds to the count of words before the cursor.
pub open spec fn index_step(bs: Seq<u8>, j: int) -> int {
    (if j + 1 < bs.len() && bs[j + 1] != 0x20 { 1int } else { 0int })
        + (if j == bs.len() - 1 && bs[j] == 0x20 { 1int } else { 0int })
}

/// The bounds of the word under `cursor` and its position among the words,
/// walking the words from byte `i` with the given quoting state and count.
pub open spec fn bounds_from(
    bs: Seq<u8>,
    cursor: int,
    i: int,
    sq: bool,
    dq: bool,
    index: int,
    last: (int, int),
) -> (int, int, int)
    decreases bs.len() + 1 - i,
{
    if i < 0 || i > bs.len() {
        (last.0, last.1, index)
    } else {
        let s = scan_end(bs, i, sq, dq);
        if s.0 >= cursor {
            (i, s.0, index)
        } else {
            proof {
                lemma_scan_end(bs, i, sq, dq);
            }
            bounds_from(bs, cursor, s.0 + 1, s.1, s.2, index + index_step(bs, s.0), (i, i))
        }
    }
}

/// The word under the cursor of a line with bytes `bs`: its first byte, the byte
/// after it, and how many words come before it.
pub open spec fn token_bounds(bs: Seq<u8>, cursor: int) -> (int, int, int) {
    bounds_from(bs, cursor, 0, false, false, 0, (0, 0))
}

/// The word found under a cursor inside the line contains the cursor, begins the line
/// or follows a space, and ends the line or is followed by a space.
pub proof fn law_word_under_cursor(bs: Seq<u8>, cursor: int)
    requires
        0 <= cursor <= bs.len(),
    ensures
        ({
            let t = token_bounds(bs, cursor);
            &&& 0 <= t.0 <= cursor <= t.1 <= bs.len()
            &&& (t.0 == 0 || bs[t.0 - 1] == 0x20)
            &&& (t.1 == bs.len() || bs[t.1] == 0x20)
        }),
{
    lemma_bounds_shape(bs, cursor, 0, false, false, 0, (0, 0));
}

/// On bytes without quotes, `scan_end` stops at the first space (or the end), and
/// the quoting state stays closed.
proof fn lemma_scan_end_unquoted(bs: Seq<u8>, j: int)
    requires
        0 <= j <= bs.len(),
        forall|k: int| 0 <= k < bs.len() ==> bs[k] != 0x27 && bs[k] != 0x22,
    ensures
        scan_end(bs, j, false, false).1 == false,
        scan_end(bs, j, false, false).2 == false,
        forall|k: int| j <= k < scan_end(bs, j, false, false).0 ==> bs[k] != 0x20,
    decreases bs.len() - j,
{
    lemma_scan_end(bs, j, false, false);
    if j < bs.len() && bs[j] != 0x20 {
        lemma_scan_end_unquoted(bs, j + 1);
    }
}

/// With the cursor inside the line, where the word is found does not depend on the
/// count of words or the bounds carried along.
proof fn lemma_bounds_ignore_count(
    bs: Seq<u8>,
    cursor: int,
    i: int,
    sq: bool,
    dq: bool,
    x: int,
    lx: (int, int),
    y: int,
    ly: (int, int),
)
    requires
        0 <= i <= cursor <= bs.len(),
    ensures
        bounds_from(bs, cursor, i, sq, dq, x, lx).0 == bounds_from(bs, cursor, i, sq, dq, y, ly).0,
        bounds_from(bs, cursor, i, sq, dq, x, lx).1 == bounds_from(bs, cursor, i, sq, dq, y, ly).1,
    decreases bs.len() + 1 - i,
{
    lemma_scan_end(bs, i, sq, dq);
    let s = scan_end(bs, i, sq, dq);
    if s.0 < cursor {
        lemma_bounds_ignore_count(bs, cursor, s.0 + 1, s.1, s.2, x + index_step(bs, s.0), (i, i),
            y + index_step(bs, s.0), (i, i));
    }
}

/// On a line without quotes, the word under the cursor runs from just after the last
/// space before the cursor to the first space at or after it (or the line's ends):
/// no space lies inside it.
pub proof fn law_word_without_quotes(bs: Seq<u8>, cursor: int)
    requires
        0 <= cursor <= bs.len(),
        forall|k: int| 0 <= k < bs.len() ==> bs[k] != 0x27 && bs[k] != 0x22,
    ensures
        ({
            let t = token_bounds(bs, cursor);
            &&& 0 <= t.0 <= cursor <= t.1 <= bs.len()
            &&& (t.0 == 0 || bs[t.0 - 1] == 0x20)
            &&& (t.1 == bs.len() || bs[t.1] == 0x20)
            &&& forall|k: int| t.0 <= k < t.1 ==> bs[k] != 0x20
        }),
{
    lemma_bounds_shape(bs, cursor, 0, false, false, 0, (0, 0));
    lemma_unquoted_bounds(bs, cursor, 0, 0, (0, 0));
}

/// The walk over the words of a line without quotes, from a word start `i`.
proof fn lemma_unquoted_bounds(bs: Seq<u8>, cursor: int, i: int, index: int, last: (int, int))
    requires
        0 <= i <= cursor <= bs.len(),
        forall|k: int| 0 <= k < bs.len() ==> bs[k] != 0x27 && bs[k] != 0x22,
    ensures
        ({
            let t = bounds_from(bs, cursor, i, false, false, index, last);
            forall|k: int| t.0 <= k < t.1 ==> bs[k] != 0x20
        }),
    decreases bs.len() + 1 - i,
{
    lemma_scan_end(bs, i, false, false);
    lemma_scan_end_unquoted(bs, i);
    let s = scan_end(bs, i, false, false);
    if s.0 < cursor {
        lemma_unquoted_bounds(bs, cursor, s.0 + 1, index + index_step(bs, s.0), (i, i));
    }
}

/// Spaces inside single quotes do not end a word: on a line `a '<x>'` whose first part
/// `a` holds no quotes and whose quoted part `x` holds no `'`, a cursor inside the
/// quoted part finds the word that starts at the opening quote and runs to the end.
pub proof fn law_quoted_word(a: Seq<u8>, x: Seq<u8>, cursor: int)
    requires
        forall|k: int| 0 <= k < a.len() ==> a[k] != 0x27 && a[k] != 0x22,
        forall|k: int| 0 <= k < x.len() ==> x[k] != 0x27,
        a.len() + 2 <= cursor <= a.len() + x.len() + 3,
    ensures
        ({
            let bs = a + seq![0x20u8, 0x27u8] + x + seq![0x27u8];
            let t = token_bounds(bs, cursor);
            t.0 == a.len() as int + 1 && t.1 == bs.len()
        }),
{
    let bs = a + seq![0x20u8, 0x27u8] + x + seq![0x27u8];
    let s: int = a.len() as int;
    assert(bs.len() == s + x.len() + 3);
    assert(bs[s] == 0x20);
    assert(bs.subrange(0, s) =~= a);
    lemma_skip_unquoted(bs, a, cursor, 0, 0, (0, 0));
    let (i2, l2) = choose|idx2: int, l: (int, int)| token_bounds(bs, cursor)
        == #[trigger] bounds_from(bs, cursor, s + 1, false, false, idx2, l);
    // from the opening quote
    let q: int = s + 1;
    assert(bs[q] == 0x27);
    lemma_scan_quoted(bs, q + 1, bs.len() - 1);
    assert(bs[bs.len() - 1] == 0x27);
    assert(scan_end(bs, q, false, false) == scan_end(bs, q + 1, true, false));
    assert(scan_end(bs, bs.len() - 1, true, false) == scan_end(bs, bs.len() as int, false, false));
    lemma_scan_end(bs, q, false, false);
    lemma_bounds_ignore_count(bs, cursor, q, false, false, i2, l2, 0, (0, 0));
}

/// Inside single quotes `scan_end` passes over everything up to the closing quote.
proof fn lemma_scan_quoted(bs: Seq<u8>, j: int, e: int)
    requires
        0 <= j <= e < bs.len(),
        forall|k: int| j <= k < e ==> bs[k] != 0x27,
    ensures
        scan_end(bs, j, true, false) == scan_end(bs, e, true, false),
    decreases e - j,
{
    if j < e {
        lemma_scan_quoted(bs, j + 1, e);
    }
}

/// Walking the words of a quote-free first part `a` followed by a space reaches the
/// word after that space with the quoting state closed.
proof fn lemma_skip_unquoted(bs: Seq<u8>, a: Seq<u8>, cursor: int, i: int, index: int, last: (int, int))
    requires
        bs.len() > a.len(),
        bs.subrange(0, a.len() as int) == a,
        bs[a.len() as int] == 0x20,
        forall|k: int| 0 <= k < a.len() ==> a[k] != 0x27 && a[k] != 0x22,
        0 <= i <= a.len(),
        a.len() as int + 1 < cursor <= bs.len(),
    ensures
        exists|idx: int, l: (int, int)| bounds_from(bs, cursor, i, false, false, index, last)
            == #[trigger] bounds_from(bs, cursor, a.len() as int + 1, false, false, idx, l),
    decreases a.len() as int + 1 - i,
{
    let s = scan_end(bs, i, false, false);
    lemma_scan_end(bs, i, false, false);
    lemma_scan_end_prefix(bs, a, i);
    let nxt = s.0 + 1;
    let idx = index + index_step(bs, s.0);
    if nxt <= a.len() {
        lemma_skip_unquoted(bs, a, cursor, nxt, idx, (i, i));
        let (i2, l2) = choose|idx2: int, l: (int, int)| bounds_from(bs, cursor, nxt, false, false, idx, (i, i))
            == #[trigger] bounds_from(bs, cursor, a.len() as int + 1, false, false, idx2, l);
        assert(bounds_from(bs, cursor, i, false, false, index, last)
            == bounds_from(bs, cursor, a.len() as int + 1, false, false, i2, l2));
    } else {
        assert(bounds_from(bs, cursor, i, false, false, index, last)
            == bounds_from(bs, cursor, a.len() as int + 1, false, false, idx, (i, i)));
    }
}

/// On the quote-free first part, `scan_end` stops at a space no later than the space
/// after that part, with the quoting state closed.
proof fn lemma_scan_end_prefix(bs: Seq<u8>, a: Seq<u8>, j: int)
    requires
        bs.len() > a.len(),
        bs.subrange(0, a.len() as int) == a,
        bs[a.len() as int] == 0x20,
        forall|k: int| 0 <= k < a.len() ==> a[k] != 0x27 && a[k] != 0x22,
        0 <= j <= a.len(),
    ensures
        scan_end(bs, j, false, false).0 <= a.len(),
        scan_end(bs, j, false, false).1 == false,
        scan_end(bs, j, false, false).2 == false,
    decreases a.len() - j,
{
    if j < a.len() {
        assert(bs[j] == a[j]);
        if bs[j] != 0x20 {
            lemma_scan_end_prefix(bs, a, j + 1);
        }
    }
}

/// With the cursor inside the line, the word found contains the cursor, starts at the
/// beginning or after a space, and ends at a space or at the end.
pub proof fn lemma_bounds_shape(
    bs: Seq<u8>,
    cursor: int,
    i: int,
    sq: bool,
    dq: bool,
    index: int,
    last: (int, int),
)
    requires
        0 <= cursor <= bs.len(),
        0 <= i <= cursor,
        i == 0 || bs[i - 1] == 0x20,
    ensures
        ({
            let r = bounds_from(bs, cursor, i, sq, dq, index, last);
            &&& i <= r.0 <= cursor <= r.1 <= bs.len()
            &&& (r.0 == 0 || bs[r.0 - 1] == 0x20)
            &&& (r.1 == bs.len() || bs[r.1] == 0x20)
        }),
    decreases bs.len() + 1 - i,
{
    let s = scan_end(bs, i, sq, dq);
    lemma_scan_end(bs, i, sq, dq);
    if s.0 < cursor {
        lemma_bounds_shape(bs, cursor, s.0 + 1, s.1, s.2, index + index_step(bs, s.0), (i, i));
    }
}

/// Finds the word under the cursor: returns the byte where it starts, the byte after
/// it ends, and how many words precede it (0 means the word names the command).
/// Words are separated by spaces outside quotes, as the tokenizer separates them.
pub fn current_token_bounds(command: &mut String, cursor_pos: &mut usize) -> (bounds: (usize, usize, usize))
    requires
        utf8(old(command)@).len() > 0 || *old(cursor_pos) == 0,
    ensures
        *final(command) == *old(command),
        *final(cursor_pos) == *old(cursor_pos),
        bounds.0 as int == token_bounds(utf8(old(command)@), *old(cursor_pos) as int).0,
        bounds.1 as int == token_bounds(utf8(old(command)@), *old(cursor_pos) as int).1,
        bounds.2 as int == token_bounds(utf8(old(command)@), *old(cursor_pos) as int).2,
{
    let cursor = *cursor_pos;
    let bs = command.as_str().as_bytes();
    let n = bs.len();
    let ghost target = token_bounds(bs@, cursor as int);
    let mut token_begin: usize = 0;
    let mut token_end: usize = 0;
    let mut token_index: usize = 0;
    let mut sq = false;
    let mut dq = false;
    let mut i: usize = 0;
    while i <= n
        invariant_except_break
            bounds_from(bs@, cursor as int, i as int, sq, dq, token_index as int,
                (token_begin as int, token_end as int)) == target,
        invariant
            n == bs@.len(),
            bs@ == utf8(command@),
            command == old(command),
            n > 0 || cursor == 0,
            token_index <= i,
            i <= n + 1,
            i <= cursor || i > n,
        ensures
            (token_begin as int, token_end as int, token_index as int) == target,
        decreases n + 1 - i,
    {
        let mut j: usize = i;
        let ghost sq0 = sq;
        let ghost dq0 = dq;
        token_begin = i;
        token_end = j;
        while j < n
            invariant
                n == bs@.len(),
                i <= j <= n,
                scan_end(bs@, j as int, sq, dq) == scan_end(bs@, i as int, sq0, dq0),
            ensures
                i <= j <= n,
                scan_end(bs@, i as int, sq0, dq0) == (j as int, sq, dq),
            decreases n - j,
        {
            let c = bs[j];
            if c == 0x27 && !dq {
                sq = !sq;
            } else if c == 0x22 && !sq {
                dq = !dq;
            } else if !sq && !dq && c == 0x20 {
                break;
            }
            j += 1;
        }
        proof {
            lemma_scan_end(bs@, i as int, sq0, dq0);
        }
        assert(scan_end(bs@, i as int, sq0, dq0) == (j as int, sq, dq));
        if j >= cursor {
            token_end = j;
            break;
        }
        let ghost prev = token_index;
        i = j + 1;
        if i < n && bs[i] != 0x20 {
            token_index += 1;
        }
        if j == n - 1 && bs[j] == 0x20 {
            token_index += 1;
        }
        assert(token_index == prev + index_step(bs@, j as int));
    }
    (token_begin, token_end, token_index)
}

/// The UTF-8 bytes of each string of a list.
pub open spec fn byte_strings(vs: Seq<Seq<char>>) -> Seq<Seq<u8>> {
    vs.map_values(|v: Seq<char>| utf8(v))
}

/// Whether byte `i` of `p` fails to be shared by some string of `ms` (it is missing or differs).
pub open spec fn differs_at(ms: Seq<Seq<u8>>, p: Seq<u8>, i: int) -> bool {
    exists|m: int| 0 <= m < ms.len() && (i >= ms[m].len() || ms[m][i] != p[i])
}

/// The first position at or after `i` where the strings of `ms` stop agreeing with `p`.
pub open spec fn shared_len_from(ms: Seq<Seq<u8>>, p: Seq<u8>, i: int) -> int
    decreases p.len() - i,
{
    if i < 0 || i >= p.len() {
        p.len() as int
    } else if differs_at(ms, p, i) {
        i
    } else {
        shared_len_from(ms, p, i + 1)
    }
}

/// How many leading bytes all strings of `ms` share with the first one.
pub open spec fn shared_len(ms: Seq<Seq<u8>>) -> int {
    shared_len_from(ms, ms[0], 0)
}

/// The longest common prefix of `ms`: none for no strings, or when the first string is
/// not empty and no byte is shared.
pub open spec fn common_prefix(ms: Seq<Seq<u8>>) -> Option<Seq<u8>> {
    if ms.len() == 0 {
        None
    } else if ms[0].len() > 0 && shared_len(ms) == 0 {
        None
    } else {
        Some(ms[0].take(shared_len(ms)))
    }
}

/// The inputs on which the prefix can be taken without failing: when the first string is
/// not empty none is empty, and the shared part ends on a character boundary.
pub open spec fn common_prefix_defined(ms: Seq<Seq<u8>>) -> bool {
    ms.len() > 0 && ms[0].len() > 0 ==> {
        &&& forall|m: int| 0 <= m < ms.len() ==> ms[m].len() > 0
        &&& is_char_boundary(ms[0], shared_len(ms))
    }
}

/// `shared_len_from` lies between `i` and the length of `p`, no position before it
/// differs, and it is the length of `p` or a differing position.
pub proof fn lemma_shared_len_from(ms: Seq<Seq<u8>>, p: Seq<u8>, i: int)
    requires
        0 <= i <= p.len(),
    ensures
        i <= shared_len_from(ms, p, i) <= p.len(),
        forall|k: int| i <= k < shared_len_from(ms, p, i) ==> !differs_at(ms, p, k),
        shared_len_from(ms, p, i) == p.len() || differs_at(ms, p, shared_len_from(ms, p, i)),
    decreases p.len() - i,
{
    if i < p.len() && !differs_at(ms, p, i) {
        lemma_shared_len_from(ms, p, i + 1);
    }
}

/// The common prefix is a prefix of every string, and no longer common prefix of the
/// first string exists.
pub proof fn law_common_prefix_is_longest(ms: Seq<Seq<u8>>)
    requires
        ms.len() > 0,
    ensures
        ({
            let k = shared_len(ms);
            &&& 0 <= k <= ms[0].len()
            &&& forall|m: int| 0 <= m < ms.len() ==> k <= ms[m].len() && ms[m].take(k) == ms[0].take(k)
            &&& k == ms[0].len() || exists|m: int| 0 <= m < ms.len() && (k >= ms[m].len() || ms[m][k] != ms[0][k])
        }),
{
    let p = ms[0];
    lemma_shared_len_from(ms, p, 0);
    let k = shared_len(ms);
    assert forall|m: int| 0 <= m < ms.len() implies k <= ms[m].len() && ms[m].take(k) == p.take(k) by {
        if k > 0 {
            assert(!differs_at(ms, p, k - 1));
            assert(k - 1 < ms[m].len());
        }
        assert forall|q: int| 0 <= q < k implies ms[m].take(k)[q] == p.take(k)[q] by {
            assert(!differs_at(ms, p, q));
        }
        assert(ms[m].take(k) =~= p.take(k));
    }
}

/// How many leading bytes all candidates share with the first one.
pub fn shared_prefix_len(matches: &Vec<String>) -> (k: usize)
    requires
        matches@.len() > 0,
    ensures
        k as int == shared_len(byte_strings(views(matches@))),
{
    let ghost ms = byte_strings(views(matches@));
    let pb = matches[0].as_str().as_bytes();
    let mut i: usize = 0;
    proof {
        lemma_shared_len_from(ms, ms[0], 0);
    }
    while i < pb.len()
        invariant
            ms == byte_strings(views(matches@)),
            ms.len() == matches@.len() > 0,
            pb@ == ms[0],
            i <= pb@.len(),
            shared_len_from(ms, ms[0], i as int) == shared_len(ms),
        decreases pb@.len() - i,
    {
        let mut q: usize = 0;
        while q < matches.len()
            invariant
                ms == byte_strings(views(matches@)),
                ms.len() == matches@.len() > 0,
                pb@ == ms[0],
                i < pb@.len(),
                shared_len_from(ms, ms[0], i as int) == shared_len(ms),
                q <= matches@.len(),
                forall|m: int| 0 <= m < q ==> !(i >= ms[m].len() || ms[m][i as int] != ms[0][i as int]),
            decreases matches@.len() - q,
        {
            let mb = matches[q].as_str().as_bytes();
            assert(mb@ == ms[q as int]);
            if i >= mb.len() || pb[i] != mb[i] {
                assert(differs_at(ms, ms[0], i as int));
                assert(shared_len_from(ms, ms[0], i as int) == i as int);
                return i;
            }
            q += 1;
        }
        assert(!differs_at(ms, ms[0], i as int));
        i += 1;
    }
    i
}

/// The longest prefix that all candidates share, as the first candidate spells it:
/// `None` when there is no candidate, or when the first is not empty and not even the
/// first byte is shared. The second result says whether the terminal bell is to ring,
/// which it does exactly when there is no candidate.
pub fn longest_common_prefix(matches: &Vec<String>) -> (prefix: (Option<String>, bool))
    requires
        common_prefix_defined(byte_strings(views(matches@))),
    ensures
        match prefix.0 {
            Some(s) => common_prefix(byte_strings(views(matches@))) == Some(utf8(s@)),
            None => common_prefix(byte_strings(views(matches@))) is None,
        },
        prefix.1 == (matches@.len() == 0),
{
    let ghost ms = byte_strings(views(matches@));
    if matches.len() == 0 {
        return (None, true);
    }
    let ptr = matches[0].as_str();
    let pb = ptr.as_bytes();
    assert(pb@ == ms[0]);
    let mut i: usize = 0;
    proof {
        lemma_shared_len_from(ms, ms[0], 0);
    }
    while i < pb.len()
        invariant
            ms == byte_strings(views(matches@)),
            ms.len() == matches@.len() > 0,
            pb@ == ms[0],
            ptr@ == matches@[0]@,
            common_prefix_defined(ms),
            i <= pb@.len(),
            shared_len_from(ms, ms[0], i as int) == shared_len(ms),
        decreases pb@.len() - i,
    {
        let mut flag = true;
        let mut q: usize = 0;
        while q < matches.len()
            invariant
                ms == byte_strings(views(matches@)),
                ms.len() == matches@.len() > 0,
                pb@ == ms[0],
                pb@.len() > 0,
                i < pb@.len(),
                common_prefix_defined(ms),
                q <= matches@.len(),
                flag == !(exists|m: int| 0 <= m < q && (i >= ms[m].len() || ms[m][i as int] != ms[0][i as int])),
            decreases matches@.len() - q,
        {
            let mb = matches[q].as_str().as_bytes();
            assert(mb@ == ms[q as int]);
            assert(ms[q as int].len() > 0);
            if i > mb.len() - 1 || pb[i] != mb[i] {
                flag = false;
            }
            q += 1;
        }
        if !flag {
            assert(differs_at(ms, ms[0], i as int));
            if i == 0 {
                return (None, false);
            } else {
                proof {
                    lemma_shared_len_from(ms, ms[0], 0);
                    lemma_utf8_valid(ptr@);
                }
                return (Some(byte_range(ptr, 0, i)), false);
            }
        }
        assert(!differs_at(ms, ms[0], i as int));
        i += 1;
    }
    proof {
        assert(ms[0].take(pb@.len() as int) =~= ms[0]);
    }
    (Some(ptr.to_owned()), false)
}

/// What a completion request signals on the terminal besides changing the word.
#[derive(Debug, Clone, Copy, PartialEq, Eq, Structural)]
pub enum CompletionSignal {
    /// Ring the bell: nothing matched, or several did for the first time.
    Bell,
    /// List all candidates: several matched on a repeated request.
    ShowAll,
    /// Nothing to signal: the only candidate replaced the word.
    Quiet,
}

/// The completed word, the new "list on next request" flag and the signal, for the
/// word `word` (bytes), the flag `multi` and the candidates `ms` (bytes).
pub open spec fn completion_outcome(word: Seq<u8>, multi: bool, ms: Seq<Seq<u8>>) -> (Seq<u8>, bool, CompletionSignal) {
    if ms.len() == 0 {
        (word, multi, CompletionSignal::Bell)
    } else if ms.len() == 1 {
        (ms[0], multi, CompletionSignal::Quiet)
    } else if multi {
        (word, false, CompletionSignal::ShowAll)
    } else {
        (
            match common_prefix(ms) {
                Some(w) => w,
                None => word,
            },
            true,
            CompletionSignal::Bell,
        )
    }
}

/// With several candidates, a first request rings the bell and arms the listing, and a
/// second request (with the same candidates) lists them and disarms it, leaving the
/// word as the first request made it.
pub proof fn law_second_request_lists(word: Seq<u8>, ms: Seq<Seq<u8>>)
    requires
        ms.len() >= 2,
    ensures
        ({
            let first = completion_outcome(word, false, ms);
            let second = completion_outcome(first.0, first.1, ms);
            &&& first.1 && first.2 == CompletionSignal::Bell
            &&& second == (first.0, false, CompletionSignal::ShowAll)
        }),
{
}

/// A first request with several candidates rings the bell, arms the listing, and leaves
/// the typed word alone when the candidates share no first byte; otherwise it puts in
/// the longest text that every candidate starts with.
pub proof fn law_first_request_several(word: Seq<u8>, ms: Seq<Seq<u8>>)
    requires
        ms.len() >= 2,
    ensures
        ({
            let r = completion_outcome(word, false, ms);
            let no_shared_byte = ms[0].len() > 0
                && exists|i: int| 0 <= i < ms.len() && (ms[i].len() == 0 || ms[i][0] != ms[0][0]);
            &&& r.1
            &&& r.2 == CompletionSignal::Bell
            &&& no_shared_byte ==> r.0 == word
            &&& !no_shared_byte ==> {
                &&& forall|i: int| 0 <= i < ms.len() ==> r.0.is_prefix_of(#[trigger] ms[i])
                &&& (r.0.len() == ms[0].len() || exists|i: int| 0 <= i < ms.len()
                    && (r.0.len() >= ms[i].len() || ms[i][r.0.len() as int] != ms[0][r.0.len() as int]))
            }
        }),
{
    law_common_prefix_is_longest(ms);
    lemma_shared_len_from(ms, ms[0], 0);
    let k = shared_len(ms);
    let no_shared_byte = ms[0].len() > 0
        && exists|i: int| 0 <= i < ms.len() && (ms[i].len() == 0 || ms[i][0] != ms[0][0]);
    if no_shared_byte {
        let i = choose|i: int| 0 <= i < ms.len() && (ms[i].len() == 0 || ms[i][0] != ms[0][0]);
        if k > 0 {
            assert(ms[i].take(k)[0] == ms[0].take(k)[0]);
        }
        assert(k == 0);
    } else {
        if ms[0].len() > 0 {
            assert(!differs_at(ms, ms[0], 0));
        }
        let r = ms[0].take(k);
        assert forall|i: int| 0 <= i < ms.len() implies r.is_prefix_of(#[trigger] ms[i]) by {
            assert(ms[i].take(k) == r);
            assert forall|q: int| 0 <= q < k implies r[q] == ms[i][q] by {
                assert(ms[i].take(k)[q] == ms[i][q]);
            }
        }
    }
}

/// With no candidate a request only rings the bell: the word and the listing flag stay
/// as they were, whatever they are.
pub proof fn law_no_candidate_rings_bell(word: Seq<u8>, multi: bool, ms: Seq<Seq<u8>>)
    requires
        ms.len() == 0,
    ensures
        completion_outcome(word, multi, ms) == (word, multi, CompletionSignal::Bell),
{
}

/// A single candidate replaces the word, and completing again changes nothing more.
pub proof fn law_single_candidate_is_stable(word: Seq<u8>, multi: bool, ms: Seq<Seq<u8>>)
    requires
        ms.len() == 1,
    ensures
        completion_outcome(word, multi, ms) == (ms[0], multi, CompletionSignal::Quiet),
        completion_outcome(completion_outcome(word, multi, ms).0, multi, ms) == completion_outcome(word, multi, ms),
{
}

/// Completes `cmd_buffer` from the candidates `matches`: one candidate replaces it;
/// with several, the first request rings the bell, replaces it by the candidates'
/// common prefix (if any) and arms `multi_output`, and the next request lists them
/// all and disarms it; with none the bell rings.
pub fn match_command(cmd_buffer: &mut String, multi_output: &mut bool, matches: &Vec<String>) -> (signal: CompletionSignal)
    requires
        matches@.len() >= 2 && !*old(multi_output) ==> common_prefix_defined(byte_strings(views(matches@))),
    ensures
        ({
            let out = completion_outcome(utf8(old(cmd_buffer)@), *old(multi_output), byte_strings(views(matches@)));
            &&& utf8(final(cmd_buffer)@) == out.0
            &&& *final(multi_output) == out.1
            &&& signal == out.2
        }),
{
    if matches.len() == 0 {
        CompletionSignal::Bell
    } else if matches.len() == 1 {
        *cmd_buffer = matches[0].clone();
        CompletionSignal::Quiet
    } else if *multi_output {
        *multi_output = false;
        CompletionSignal::ShowAll
    } else {
        *multi_output = true;
        match longest_common_prefix(matches).0 {
            Some(word) => {
                *cmd_buffer = word;
            },
            None => {},
        }
        CompletionSignal::Bell
    }
}

/// The word under the cursor (from its start up to the cursor) and whether it is the
/// first word of the line, the command name.
pub fn completion_query(buffer: &String, cursor: usize) -> (query: (String, bool))
    requires
        cursor <= utf8(buffer@).len(),
        is_char_boundary(utf8(buffer@), cursor as int),
    ensures
        ({
            let bs = utf8(buffer@);
            let t = token_bounds(bs, cursor as int);
            &&& utf8(query.0@) == bs.subrange(t.0, cursor as int)
            &&& query.1 == (t.2 == 0)
        }),
{
    let mut line = buffer.clone();
    let mut at = cursor;
    proof {
        lemma_utf8_valid(buffer@);
    }
    let (b, _e, index) = current_token_bounds(&mut line, &mut at);
    proof {
        word_start_is_boundary(utf8(buffer@), cursor as int);
    }
    (byte_range(buffer.as_str(), b, cursor), index == 0)
}

/// The word found under a cursor inside the line starts and ends on character boundaries.
proof fn word_start_is_boundary(bs: Seq<u8>, cursor: int)
    requires
        vstd::utf8::valid_utf8(bs),
        0 <= cursor <= bs.len(),
    ensures
        ({
            let t = token_bounds(bs, cursor);
            &&& 0 <= t.0 <= cursor <= t.1 <= bs.len()
            &&& is_char_boundary(bs, t.0)
            &&& is_char_boundary(bs, t.1)
        }),
{
    lemma_bounds_shape(bs, cursor, 0, false, false, 0, (0, 0));
    let t = token_bounds(bs, cursor);
    vstd::utf8::is_char_boundary_start_end_of_seq(bs);
    if t.0 > 0 {
        lemma_boundary_after_ascii(bs, t.0 - 1);
    }
    if t.1 < bs.len() {
        is_char_boundary_iff_not_is_continuation_byte(bs, t.1);
    }
}

/// The inputs on which completing the word under the cursor succeeds: the cursor is
/// a character boundary inside the line, the common prefix can be taken if it is
/// needed, and the completed word is not shorter than the word it replaces.
pub open spec fn completion_defined(buffer: Seq<char>, cursor: int, multi: bool, ms: Seq<Seq<u8>>) -> bool {
    let bs = utf8(buffer);
    let t = token_bounds(bs, cursor);
    let word = completion_outcome(bs.subrange(t.0, cursor), multi, ms).0;
    &&& 0 <= cursor <= bs.len()
    &&& is_char_boundary(bs, cursor)
    &&& (ms.len() >= 2 && !multi ==> common_prefix_defined(ms))
    &&& word.len() >= t.1 - t.0
    &&& cursor + word.len() - (t.1 - t.0) <= usize::MAX
}

/// Whether `to_replace` can complete the word under the cursor with these candidates.
pub fn completion_fits(buffer: &String, cursor: usize, multi_output: bool, matches: &Vec<String>) -> (fits: bool)
    ensures
        fits == completion_defined(buffer@, cursor as int, multi_output, byte_strings(views(matches@))),
{
    let ghost ms = byte_strings(views(matches@));
    let bytes = buffer.as_str().as_bytes();
    if cursor > bytes.len() || !buffer.as_str().is_char_boundary(cursor) {
        return false;
    }
    if matches.len() >= 2 && !multi_output {
        let first = matches[0].as_str().as_bytes();
        assert(first@ == ms[0]);
        if first.len() > 0 {
            let mut q: usize = 0;
            while q < matches.len()
                invariant
                    ms == byte_strings(views(matches@)),
                    ms.len() == matches@.len() >= 2,
                    ms[0].len() > 0,
                    !multi_output,
                    q <= matches@.len(),
                    forall|m: int| 0 <= m < q ==> ms[m].len() > 0,
                decreases matches@.len() - q,
            {
                if matches[q].as_str().as_bytes().len() == 0 {
                    assert(ms[q as int].len() == 0);
                    assert(!common_prefix_defined(ms));
                    return false;
                }
                q += 1;
            }
            let k = shared_prefix_len(matches);
            if !matches[0].as_str().is_char_boundary(k) {
                return false;
            }
        }
    }
    proof {
        lemma_utf8_valid(buffer@);
        word_start_is_boundary(utf8(buffer@), cursor as int);
    }
    let (mut word, _) = completion_query(buffer, cursor);
    let mut line = buffer.clone();
    let mut at = cursor;
    let (b, e, _) = current_token_bounds(&mut line, &mut at);
    let mut multi = multi_output;
    let _ = match_command(&mut word, &mut multi, matches);
    let wl = word.as_str().as_bytes().len();
    wl >= e - b && wl - (e - b) <= usize::MAX - cursor
}

/// Completes the word under the cursor: the part of the word before the cursor is
/// completed from `matches` as `match_command` does, the whole word is replaced by the
/// result, and the cursor moves by the change in length.
pub fn to_replace(cmd_buffer: &mut String, cursor_pos: &mut usize, multi_output: &mut bool, matches: &Vec<String>) -> (signal: CompletionSignal)
    requires
        completion_defined(old(cmd_buffer)@, *old(cursor_pos) as int, *old(multi_output), byte_strings(views(matches@))),
    ensures
        ({
            let bs = utf8(old(cmd_buffer)@);
            let t = token_bounds(bs, *old(cursor_pos) as int);
            let out = completion_outcome(bs.subrange(t.0, *old(cursor_pos) as int), *old(multi_output), byte_strings(views(matches@)));
            &&& utf8(final(cmd_buffer)@) == bs.subrange(0, t.0) + out.0 + bs.subrange(t.1, bs.len() as int)
            &&& *final(cursor_pos) == *old(cursor_pos) + out.0.len() - (t.1 - t.0)
            &&& *final(multi_output) == out.1
            &&& signal == out.2
        }),
{
    let ghost bs = utf8(cmd_buffer@);
    proof {
        lemma_utf8_valid(cmd_buffer@);
        word_start_is_boundary(bs, *cursor_pos as int);
    }
    let (token_begin, token_end, _token_index) = current_token_bounds(cmd_buffer, cursor_pos);
    let mut str_to_complete = byte_range(cmd_buffer.as_str(), token_begin, *cursor_pos);
    let signal = match_command(&mut str_to_complete, multi_output, matches);
    let n = cmd_buffer.as_str().as_bytes().len();
    let head = byte_range(cmd_buffer.as_str(), 0, token_begin);
    let tail = byte_range(cmd_buffer.as_str(), token_end, n);
    let front = concat(head.as_str(), str_to_complete.as_str());
    let joined = concat(front.as_str(), tail.as_str());
    proof {
        lemma_utf8_concat(head@, str_to_complete@);
        lemma_utf8_concat(front@, tail@);
    }
    let word_len = str_to_complete.as_str().as_bytes().len();
    *cursor_pos = *cursor_pos + (word_len - (token_end - token_begin));
    *cmd_buffer = joined;
    signal
}

/// The command-name candidates for `prefix`: every name that starts with it, followed
/// by a space, in byte order and without repeats.
pub fn command_matches(prefix: &str, names: &Vec<String>) -> (found: Vec<String>)
    ensures
        ordered(views(found@)),
        forall|x: Seq<char>| views(found@).contains(x) <==> exists|i: int|
            0 <= i < names@.len() && utf8(prefix@).is_prefix_of(utf8(#[trigger] names@[i]@))
                && x == names@[i]@ + seq![' '],
{
    let mut found: Vec<String> = Vec::new();
    let mut i: usize = 0;
    while i < names.len()
        invariant
            i <= names@.len(),
            ordered(views(found@)),
            forall|x: Seq<char>| views(found@).contains(x) <==> exists|k: int|
                0 <= k < i && utf8(prefix@).is_prefix_of(utf8(#[trigger] names@[k]@))
                    && x == names@[k]@ + seq![' '],
        decreases names@.len() - i,
    {
        let ghost pre = views(found@);
        let took = starts_with(names[i].as_str(), prefix);
        if took {
            let item = crate::text::concat(names[i].as_str(), " ");
            proof {
                reveal_strlit(" ");
            }
            insert_ordered(&mut found, item);
        }
        let ghost v = names@[i as int]@ + seq![' '];
        i += 1;
        assert forall|x: Seq<char>| views(found@).contains(x) <==> exists|k: int|
            0 <= k < i && utf8(prefix@).is_prefix_of(utf8(#[trigger] names@[k]@))
                && x == names@[k]@ + seq![' '] by {
            if views(found@).contains(x) {
                if !pre.contains(x) {
                    assert(took && x == v);
                    assert(utf8(prefix@).is_prefix_of(utf8(names@[i - 1]@)));
                }
            }
            if exists|k: int| 0 <= k < i && utf8(prefix@).is_prefix_of(utf8(#[trigger] names@[k]@))
                && x == names@[k]@ + seq![' '] {
                let k = choose|k: int| 0 <= k < i && utf8(prefix@).is_prefix_of(utf8(#[trigger] names@[k]@))
                    && x == names@[k]@ + seq![' '];
                if k < i - 1 {
                    assert(pre.contains(x));
                } else {
                    assert(took && x == v);
                }
            }
        }
    }
    found
}

/// The file-name candidates for `stem` in a directory listing: each entry (name and
/// whether it is a directory) whose name starts with `stem`, after `fpart` and followed
/// by `/` for a directory or a space otherwise, in byte order and without repeats.
pub fn file_matches(fpart: &str, stem: &str, entries: &Vec<(String, bool)>) -> (found: Vec<String>)
    ensures
        ordered(views(found@)),
        forall|x: Seq<char>| views(found@).contains(x) <==> exists|i: int|
            0 <= i < entries@.len() && utf8(stem@).is_prefix_of(utf8(#[trigger] entries@[i].0@))
                && x == fpart@ + entries@[i].0@ + (if entries@[i].1 { seq!['/'] } else { seq![' '] }),
{
    let mut found: Vec<String> = Vec::new();
    let mut i: usize = 0;
    while i < entries.len()
        invariant
            i <= entries@.len(),
            ordered(views(found@)),
            forall|x: Seq<char>| views(found@).contains(x) <==> exists|k: int|
                0 <= k < i && utf8(stem@).is_prefix_of(utf8(#[trigger] entries@[k].0@))
                    && x == fpart@ + entries@[k].0@ + (if entries@[k].1 { seq!['/'] } else { seq![' '] }),
        decreases entries@.len() - i,
    {
        let ghost pre = views(found@);
        let ghost v = fpart@ + entries@[i as int].0@ + (if entries@[i as int].1 { seq!['/'] } else { seq![' '] });
        let (name, is_dir) = &entries[i];
        assert(name@ == entries@[i as int].0@ && *is_dir == entries@[i as int].1);
        let took = starts_with(name.as_str(), stem);
        if took {
            let front = concat(fpart, name.as_str());
            let item = if *is_dir {
                concat(front.as_str(), "/")
            } else {
                concat(front.as_str(), " ")
            };
            proof {
                reveal_strlit("/");
                reveal_strlit(" ");
            }
            assert(item@ == v);
            insert_ordered(&mut found, item);
        }
        i += 1;
        assert forall|x: Seq<char>| views(found@).contains(x) <==> exists|k: int|
            0 <= k < i && utf8(stem@).is_prefix_of(utf8(#[trigger] entries@[k].0@))
                && x == fpart@ + entries@[k].0@ + (if entries@[k].1 { seq!['/'] } else { seq![' '] }) by {
            if views(found@).contains(x) {
                if !pre.contains(x) {
                    assert(took && x == v);
                    assert(utf8(stem@).is_prefix_of(utf8(entries@[i - 1].0@)));
                }
            }
            if exists|k: int| 0 <= k < i && utf8(stem@).is_prefix_of(utf8(#[trigger] entries@[k].0@))
                && x == fpart@ + entries@[k].0@ + (if entries@[k].1 { seq!['/'] } else { seq![' '] }) {
                let k = choose|k: int| 0 <= k < i && utf8(stem@).is_prefix_of(utf8(#[trigger] entries@[k].0@))
                    && x == fpart@ + entries@[k].0@ + (if entries@[k].1 { seq!['/'] } else { seq![' '] });
                if k < i - 1 {
                    assert(pre.contains(x));
                } else {
                    assert(took && x == v);
                }
            }
        }
    }
    found
}

/// The index of the last occurrence of `c` in `cs`, or -1.
pub open spec fn last_index_of(cs: Seq<char>, c: char) -> int
    decreases cs.len(),
{
    if cs.len() == 0 {
        -1
    } else if cs.last() == c {
        cs.len() - 1
    } else {
        last_index_of(cs.drop_last(), c)
    }
}

/// A file name being completed, taken apart: the directories it goes through (relative
/// to the working directory), the part up to and including its last `/`, and the part
/// after it, which candidates must start with.
pub struct FileQuery {
    pub parents: Vec<String>,
    pub fpart: String,
    pub stem: String,
}

/// Takes apart a file name being completed at its slashes.
pub fn split_file_token(token: &str) -> (query: FileQuery)
    requires
        utf8(token@).len() > 0,
    ensures
        query.parents.deep_view() == split_on(token@, '/').drop_last(),
        query.stem@ == split_on(token@, '/').last(),
        query.fpart@ == token@.take(last_index_of(token@, '/') + 1),
{
    let mut pieces = split_str(token, '/');
    proof {
        lemma_split_on_nonempty(token@, '/');
    }
    let ghost all = pieces.deep_view();
    let stem = pieces.pop().unwrap();
    assert(pieces.deep_view() =~= all.drop_last());
    let cs = chars_of(token);
    let mut k: usize = cs.len();
    assert(cs@.take(k as int) =~= cs@);
    while k > 0 && cs[k - 1] != '/'
        invariant
            cs@ == token@,
            k <= cs@.len(),
            last_index_of(token@, '/') == last_index_of(cs@.take(k as int), '/'),
        decreases k,
    {
        assert(cs@.take(k as int - 1) =~= cs@.take(k as int).drop_last());
        k -= 1;
    }
    proof {
        if k == 0 {
            assert(cs@.take(0) =~= Seq::<char>::empty());
        }
    }
    let fpart = string_from_chars(cs.as_slice(), k);
    FileQuery { parents: pieces, fpart, stem }
}

/// Where the candidates for a word come from.
pub enum CandidateSource {
    /// The command names: the built-in commands and the programs on `PATH`.
    Commands,
    /// The entries of a directory, as the word, taken apart, names them.
    Files(FileQuery),
}

/// Chooses where the candidates for the word under the cursor come from: command
/// names for the first word of the line, files for any other word.
pub fn candidate_source(word: &str, command_position: bool) -> (source: CandidateSource)
    requires
        command_position || utf8(word@).len() > 0,
    ensures
        command_position ==> source is Commands,
        !command_position ==> (source matches CandidateSource::Files(q)
            && q.parents.deep_view() == split_on(word@, '/').drop_last()
            && q.stem@ == split_on(word@, '/').last()
            && q.fpart@ == word@.take(last_index_of(word@, '/') + 1)),
{
    if command_position {
        CandidateSource::Commands
    } else {
        CandidateSource::Files(split_file_token(word))
    }
}

} // verus!
