//! Strings as the shell sees them: byte-level views, comparisons and the
//! few `String` operations that the rest of the library builds on.
use vstd::prelude::*;
use vstd::string::StringSliceAdditionalSpecFns;
use vstd::utf8::{
    encode_utf8, encode_utf8_decode_utf8, encode_scalar, encode_utf8_valid_utf8, valid_utf8,
    is_char_boundary, valid_utf8_split, is_char_boundary_start_end_of_seq,
    is_char_boundary_iff_not_is_continuation_byte, pop_first_scalar,
};

verus! {

/// Calls `String::push`. Its contract, which Verus takes without proof, says that the
/// characters afterwards are the old ones followed by `c`.
#[verifier::external_body]
pub(crate) fn push_char(s: &mut String, c: char)
    ensures
        final(s)@ == old(s)@.push(c),
{
    s.push(c)
}

/// The characters of a byte string, each byte read as the character with that code (`b as char`).
pub open spec fn latin1(bytes: Seq<u8>) -> Seq<char> {
    bytes.map_values(|b: u8| b as char)
}

/// The UTF-8 bytes of a character sequence.
pub open spec fn utf8(s: Seq<char>) -> Seq<u8> {
    encode_utf8(s)
}

/// UTF-8 encoding maps concatenation to concatenation.
pub proof fn lemma_utf8_concat(a: Seq<char>, b: Seq<char>)
    ensures
        utf8(a + b) == utf8(a) + utf8(b),
    decreases a.len(),
{
    if a.len() == 0 {
        assert(a + b =~= b);
    } else {
        assert((a + b).drop_first() =~= a.drop_first() + b);
        lemma_utf8_concat(a.drop_first(), b);
        assert(utf8(a + b) =~= encode_scalar(a[0] as u32) + utf8(a.drop_first() + b));
    }
}

/// Two character sequences with the same UTF-8 bytes are equal.
pub proof fn lemma_utf8_injective(a: Seq<char>, b: Seq<char>)
    requires
        utf8(a) == utf8(b),
    ensures
        a == b,
{
    encode_utf8_decode_utf8(a);
    encode_utf8_decode_utf8(b);
}

/// An ASCII character is encoded as its own single byte.
pub proof fn lemma_utf8_ascii_char(c: char)
    requires
        (c as u32) < 0x80,
    ensures
        utf8(seq![c]) == seq![(c as u32) as u8],
{
    assert(seq![c].drop_first() =~= Seq::<char>::empty());
    assert(utf8(seq![c]) =~= encode_scalar(c as u32) + utf8(Seq::<char>::empty()));
    let u: u32 = c as u32;
    assert((u & 0x7F) as u8 == u as u8) by (bit_vector)
        requires
            u < 0x80,
    ;
}

/// Whether two strings hold the same characters.
pub fn str_eq(a: &str, b: &str) -> (equal: bool)
    ensures
        equal == (a@ == b@),
{
    let x = a.as_bytes();
    let y = b.as_bytes();
    if x.len() != y.len() {
        return false;
    }
    let mut i: usize = 0;
    while i < x.len()
        invariant
            x@ == utf8(a@),
            y@ == utf8(b@),
            x@.len() == y@.len(),
            i <= x@.len(),
            forall|k: int| 0 <= k < i ==> x@[k] == y@[k],
        decreases x@.len() - i,
    {
        if x[i] != y[i] {
            return false;
        }
        i += 1;
    }
    proof {
        assert(x@ =~= y@);
        lemma_utf8_injective(a@, b@);
    }
    true
}

/// Whether the bytes of `prefix` begin the bytes of `s` (`str::starts_with`).
pub fn starts_with(s: &str, prefix: &str) -> (yes: bool)
    ensures
        yes == utf8(prefix@).is_prefix_of(utf8(s@)),
{
    let x = s.as_bytes();
    let p = prefix.as_bytes();
    if p.len() > x.len() {
        return false;
    }
    let mut i: usize = 0;
    while i < p.len()
        invariant
            x@ == utf8(s@),
            p@ == utf8(prefix@),
            p@.len() <= x@.len(),
            i <= p@.len(),
            forall|k: int| 0 <= k < i ==> p@[k] == x@[k],
        decreases p@.len() - i,
    {
        if x[i] != p[i] {
            return false;
        }
        i += 1;
    }
    true
}

/// The concatenation of two strings.
pub fn concat(a: &str, b: &str) -> (joined: String)
    ensures
        joined@ == a@ + b@,
{
    let mut r = a.to_owned();
    r.append(b);
    r
}

/// The characters of a string, one by one.
pub fn chars_of(s: &str) -> (cs: Vec<char>)
    ensures
        cs@ == s@,
{
    let mut cs: Vec<char> = Vec::new();
    for c in it: s.chars()
        invariant
            it.seq() == s@,
            cs@ == it.seq().take(it.index() as int),
    {
        cs.push(c);
    }
    cs
}

/// A `String` holding the first `count` of the given characters.
pub fn string_from_chars(cs: &[char], count: usize) -> (s: String)
    requires
        count <= cs@.len(),
    ensures
        s@ == cs@.take(count as int),
{
    let mut s = String::new();
    let mut i: usize = 0;
    while i < count
        invariant
            count <= cs@.len(),
            i <= count,
            s@ == cs@.take(i as int),
        decreases count - i,
    {
        push_char(&mut s, cs[i]);
        i += 1;
        assert(s@ =~= cs@.take(i as int));
    }
    s
}

/// A boundary of a valid byte string that lies at or after `from` is a boundary of its suffix from `from`.
pub proof fn lemma_boundary_in_suffix(bs: Seq<u8>, from: int, k: int)
    requires
        valid_utf8(bs),
        0 <= from <= k <= bs.len(),
        is_char_boundary(bs, from),
        is_char_boundary(bs, k),
    ensures
        valid_utf8(bs.subrange(from, bs.len() as int)),
        is_char_boundary(bs.subrange(from, bs.len() as int), k - from),
{
    let rest = bs.subrange(from, bs.len() as int);
    valid_utf8_split(bs, from);
    if k == bs.len() {
        is_char_boundary_start_end_of_seq(rest);
    } else {
        is_char_boundary_iff_not_is_continuation_byte(bs, k);
        is_char_boundary_iff_not_is_continuation_byte(rest, k - from);
    }
}

/// In a valid byte string, the position right after an ASCII byte is a boundary.
pub proof fn lemma_boundary_after_ascii(bs: Seq<u8>, j: int)
    requires
        valid_utf8(bs),
        0 <= j < bs.len(),
        bs[j] < 0x80,
    ensures
        is_char_boundary(bs, j + 1),
{
    is_char_boundary_iff_not_is_continuation_byte(bs, j);
    let rest = bs.subrange(j, bs.len() as int);
    valid_utf8_split(bs, j);
    assert(rest[0] == bs[j]);
    assert(pop_first_scalar(rest) =~= bs.subrange(j + 1, bs.len() as int));
    if j + 1 == bs.len() {
        is_char_boundary_start_end_of_seq(bs);
    } else {
        let tail = pop_first_scalar(rest);
        assert(valid_utf8(tail));
        assert(tail[0] == bs[j + 1]);
        is_char_boundary_iff_not_is_continuation_byte(bs, j + 1);
    }
}

/// The UTF-8 bytes of any character sequence are valid UTF-8.
pub proof fn lemma_utf8_valid(s: Seq<char>)
    ensures
        valid_utf8(utf8(s)),
        is_char_boundary(utf8(s), 0),
        is_char_boundary(utf8(s), utf8(s).len() as int),
{
    encode_utf8_valid_utf8(s);
    is_char_boundary_start_end_of_seq(utf8(s));
}

/// The part of a string between two byte positions, both on character boundaries.
pub fn byte_range(s: &str, from: usize, to: usize) -> (part: String)
    requires
        from <= to <= utf8(s@).len(),
        is_char_boundary(utf8(s@), from as int),
        is_char_boundary(utf8(s@), to as int),
    ensures
        utf8(part@) == utf8(s@).subrange(from as int, to as int),
{
    let ghost bs = utf8(s@);
    proof {
        lemma_utf8_valid(s@);
    }
    let (_, rest) = s.split_at(from);
    proof {
        lemma_boundary_in_suffix(bs, from as int, to as int);
        assert(rest.spec_bytes() =~= bs.subrange(from as int, bs.len() as int));
    }
    let (mid, _) = rest.split_at(to - from);
    proof {
        assert(mid.spec_bytes() =~= bs.subrange(from as int, to as int));
    }
    mid.to_owned()
}

/// The pieces of `cs` between occurrences of `sep` (`str::split` with a character):
/// one more piece than there are separators, empty pieces included.
pub open spec fn split_on(cs: Seq<char>, sep: char) -> Seq<Seq<char>>
    decreases cs.len(),
{
    if cs.len() == 0 {
        seq![seq![]]
    } else {
        let r = split_on(cs.drop_last(), sep);
        if cs.last() == sep {
            r.push(seq![])
        } else {
            r.update(r.len() - 1, r.last().push(cs.last()))
        }
    }
}

/// `split_on` always yields at least one piece.
pub proof fn lemma_split_on_nonempty(cs: Seq<char>, sep: char)
    ensures
        split_on(cs, sep).len() >= 1,
    decreases cs.len(),
{
    if cs.len() > 0 {
        lemma_split_on_nonempty(cs.drop_last(), sep);
    }
}

/// The pieces joined back together with `sep` between them.
pub open spec fn join_on(pieces: Seq<Seq<char>>, sep: char) -> Seq<char>
    decreases pieces.len(),
{
    if pieces.len() == 0 {
        seq![]
    } else if pieces.len() == 1 {
        pieces[0]
    } else {
        join_on(pieces.drop_last(), sep) + seq![sep] + pieces.last()
    }
}

/// Joining the pieces of a split with the separator gives back the text, and no piece
/// holds the separator.
pub proof fn law_split_then_join(cs: Seq<char>, sep: char)
    ensures
        join_on(split_on(cs, sep), sep) == cs,
        forall|i: int, k: int| 0 <= i < split_on(cs, sep).len() && 0 <= k < split_on(cs, sep)[i].len()
            ==> #[trigger] split_on(cs, sep)[i][k] != sep,
    decreases cs.len(),
{
    if cs.len() > 0 {
        let r = split_on(cs.drop_last(), sep);
        law_split_then_join(cs.drop_last(), sep);
        lemma_split_on_nonempty(cs.drop_last(), sep);
        let c = cs.last();
        if c == sep {
            assert(r.push(seq![]).drop_last() =~= r);
            assert(join_on(r.push(seq![]), sep) =~= cs);
        } else {
            let u = r.update(r.len() - 1, r.last().push(c));
            if r.len() == 1 {
                assert(join_on(u, sep) =~= cs);
            } else {
                assert(u.drop_last() =~= r.drop_last());
                assert(join_on(u, sep) == join_on(r.drop_last(), sep) + seq![sep] + r.last().push(c));
                assert(join_on(r, sep) == join_on(r.drop_last(), sep) + seq![sep] + r.last());
                assert(cs =~= cs.drop_last().push(c));
                assert(join_on(u, sep) =~= join_on(r, sep).push(c));
            }
            assert forall|i: int, k: int| 0 <= i < u.len() && 0 <= k < u[i].len() implies #[trigger] u[i][k] != sep by {
                if i < u.len() - 1 {
                    assert(u[i] == r[i]);
                } else if k < r.last().len() {
                    assert(u[i][k] == r[i][k]);
                }
            }
        }
    }
}

/// Text without the separator extends the last piece of a split.
pub proof fn lemma_split_on_extend(p: Seq<char>, y: Seq<char>, sep: char)
    requires
        forall|i: int| 0 <= i < y.len() ==> y[i] != sep,
    ensures
        split_on(p + y, sep) == split_on(p, sep).update(
            split_on(p, sep).len() - 1, split_on(p, sep).last() + y),
    decreases y.len(),
{
    lemma_split_on_nonempty(p, sep);
    if y.len() == 0 {
        assert(p + y =~= p);
        assert(split_on(p, sep).last() + y =~= split_on(p, sep).last());
        assert(split_on(p, sep).update(split_on(p, sep).len() - 1, split_on(p, sep).last())
            =~= split_on(p, sep));
    } else {
        let y0 = y.drop_last();
        lemma_split_on_extend(p, y0, sep);
        assert((p + y).drop_last() =~= p + y0);
        assert((p + y).last() == y.last());
        let r = split_on(p, sep);
        lemma_split_on_nonempty(p + y0, sep);
        let r1 = split_on(p + y0, sep);
        assert(r1 == r.update(r.len() - 1, r.last() + y0));
        assert(r1.len() == r.len());
        assert(r1.last() == r.last() + y0);
        assert(y.last() != sep);
        assert(split_on(p + y, sep) == r1.update(r1.len() - 1, r1.last().push(y.last())));
        assert(r1.last().push(y.last()) =~= r.last() + y);
        assert(split_on(p + y, sep) =~= r.update(r.len() - 1, r.last() + y));
    }
}

/// A separator at the end of a text starts a new, empty piece.
pub proof fn lemma_split_on_sep(p: Seq<char>, sep: char)
    ensures
        split_on(p + seq![sep], sep) == split_on(p, sep).push(seq![]),
{
    assert((p + seq![sep]).drop_last() =~= p);
}

/// Splits a string at every occurrence of `sep`.
pub fn split_str(s: &str, sep: char) -> (pieces: Vec<String>)
    ensures
        pieces.deep_view() == split_on(s@, sep),
{
    let cs = chars_of(s);
    let mut pieces: Vec<String> = Vec::new();
    let mut cur = String::new();
    let mut i: usize = 0;
    assert(cs@.take(0) =~= Seq::<char>::empty());
    while i < cs.len()
        invariant
            cs@ == s@,
            i <= cs@.len(),
            pieces.deep_view().push(cur@) == split_on(cs@.take(i as int), sep),
        decreases cs@.len() - i,
    {
        let c = cs[i];
        proof {
            lemma_split_on_nonempty(cs@.take(i as int), sep);
            assert(cs@.take(i as int + 1).drop_last() =~= cs@.take(i as int));
        }
        if c == sep {
            pieces.push(cur);
            cur = String::new();
        } else {
            push_char(&mut cur, c);
        }
        i += 1;
        assert(pieces.deep_view().push(cur@) =~= split_on(cs@.take(i as int), sep));
    }
    assert(cs@.take(cs@.len() as int) =~= s@);
    pieces.push(cur);
    pieces
}

/// Calls `String::insert`. Its contract, which Verus takes without proof, says that at a
/// character boundary `idx` inside the string the UTF-8 bytes of `c` are inserted, the
/// bytes before and after it staying as they were.
#[verifier::external_body]
pub(crate) fn string_insert(s: &mut String, idx: usize, c: char)
    requires
        idx <= utf8(old(s)@).len(),
        is_char_boundary(utf8(old(s)@), idx as int),
    ensures
        utf8(final(s)@) == utf8(old(s)@).take(idx as int) + utf8(seq![c]) + utf8(old(s)@).skip(idx as int),
{
    s.insert(idx, c)
}

/// Calls `String::remove`. Its contract, which Verus takes without proof, says that for a
/// character boundary `idx` before the end, the returned character is the one whose
/// UTF-8 bytes start at `idx`, and that exactly those bytes are taken out.
#[verifier::external_body]
pub(crate) fn string_remove(s: &mut String, idx: usize) -> (c: char)
    requires
        idx < utf8(old(s)@).len(),
        is_char_boundary(utf8(old(s)@), idx as int),
    ensures
        idx + utf8(seq![c]).len() <= utf8(old(s)@).len(),
        utf8(old(s)@).subrange(idx as int, idx + utf8(seq![c]).len()) == utf8(seq![c]),
        utf8(final(s)@) == utf8(old(s)@).take(idx as int) + utf8(old(s)@).skip(idx + utf8(seq![c]).len()),
{
    s.remove(idx)
}

/// Calls `String::pop`. Its contract, which Verus takes without proof, says that the last
/// character is removed and returned, and that nothing happens to an empty string.
#[verifier::external_body]
pub(crate) fn string_pop(s: &mut String) -> (c: Option<char>)
    ensures
        old(s)@.len() == 0 ==> c is None && final(s)@ == old(s)@,
        old(s)@.len() > 0 ==> c == Some(old(s)@.last()) && final(s)@ == old(s)@.drop_last(),
{
    s.pop()
}

/// A `String` holding the characters `cs[from..to]`.
pub fn string_from_char_range(cs: &[char], from: usize, to: usize) -> (s: String)
    requires
        from <= to <= cs@.len(),
    ensures
        s@ == cs@.subrange(from as int, to as int),
{
    let mut s = String::new();
    let mut i: usize = from;
    while i < to
        invariant
            from <= i <= to <= cs@.len(),
            s@ == cs@.subrange(from as int, i as int),
        decreases to - i,
    {
        push_char(&mut s, cs[i]);
        i += 1;
        assert(s@ =~= cs@.subrange(from as int, i as int));
    }
    s
}

} // verus!
