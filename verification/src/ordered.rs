//! Strings kept in byte order without repeats: the ordered sets of completion
//! candidates.
use vstd::prelude::*;
use crate::text::{utf8, lemma_utf8_injective};

verus! {

/// Byte-wise lexicographic order, in which a proper prefix comes first.
pub open spec fn bytes_lt(a: Seq<u8>, b: Seq<u8>) -> bool
    decreases a.len(),
{
    if a.len() == 0 {
        b.len() > 0
    } else if b.len() == 0 {
        false
    } else if a[0] != b[0] {
        a[0] < b[0]
    } else {
        bytes_lt(a.drop_first(), b.drop_first())
    }
}

/// No byte string comes before itself.
pub proof fn lemma_bytes_lt_irreflexive(a: Seq<u8>)
    ensures
        !bytes_lt(a, a),
    decreases a.len(),
{
    if a.len() > 0 {
        lemma_bytes_lt_irreflexive(a.drop_first());
    }
}

/// The byte order is transitive.
pub proof fn lemma_bytes_lt_transitive(a: Seq<u8>, b: Seq<u8>, c: Seq<u8>)
    requires
        bytes_lt(a, b),
        bytes_lt(b, c),
    ensures
        bytes_lt(a, c),
    decreases a.len(),
{
    if a.len() > 0 && b.len() > 0 && c.len() > 0 && a[0] == b[0] && b[0] == c[0] {
        lemma_bytes_lt_transitive(a.drop_first(), b.drop_first(), c.drop_first());
    }
}

/// Of two different byte strings, exactly one comes first.
pub proof fn lemma_bytes_lt_total(a: Seq<u8>, b: Seq<u8>)
    ensures
        a != b ==> (bytes_lt(a, b) || bytes_lt(b, a)),
        !(bytes_lt(a, b) && bytes_lt(b, a)),
    decreases a.len(),
{
    if a.len() > 0 && b.len() > 0 && a[0] == b[0] {
        lemma_bytes_lt_total(a.drop_first(), b.drop_first());
        if a != b {
            assert(a =~= seq![a[0]] + a.drop_first());
            assert(b =~= seq![b[0]] + b.drop_first());
        }
    } else if a.len() == 0 && b.len() == 0 {
        assert(a =~= b);
    }
}

/// The characters of each string of a vector.
pub open spec fn views(v: Seq<String>) -> Seq<Seq<char>> {
    v.map_values(|s: String| s@)
}

/// Strings in strictly increasing byte order (so without repeats).
pub open spec fn ordered(vs: Seq<Seq<char>>) -> bool {
    forall|i: int, j: int| 0 <= i < j < vs.len() ==> bytes_lt(utf8(vs[i]), utf8(vs[j]))
}

/// Where one byte string stands relative to another.
pub enum Rank {
    Before,
    Same,
    After,
}

/// Compares two strings by their bytes.
pub fn compare_strs(a: &str, b: &str) -> (rank: Rank)
    ensures
        rank is Before <==> bytes_lt(utf8(a@), utf8(b@)),
        rank is Same <==> a@ == b@,
        rank is After <==> bytes_lt(utf8(b@), utf8(a@)),
{
    let x = a.as_bytes();
    let y = b.as_bytes();
    let ghost xs = x@;
    let ghost ys = y@;
    let mut i: usize = 0;
    let rank;
    assert(xs.skip(0) =~= xs);
    assert(ys.skip(0) =~= ys);
    loop
        invariant
            xs == x@,
            ys == y@,
            x@ == utf8(a@),
            y@ == utf8(b@),
            i <= x@.len(),
            i <= y@.len(),
            x@.take(i as int) == y@.take(i as int),
            bytes_lt(xs, ys) == bytes_lt(xs.skip(i as int), ys.skip(i as int)),
            bytes_lt(ys, xs) == bytes_lt(ys.skip(i as int), xs.skip(i as int)),
        ensures
            rank is Before <==> bytes_lt(xs, ys),
            rank is Same <==> xs == ys,
            rank is After <==> bytes_lt(ys, xs),
        decreases x@.len() - i,
    {
        if i == x.len() || i == y.len() {
            if i == x.len() && i == y.len() {
                assert(xs =~= xs.take(i as int));
                assert(ys =~= ys.take(i as int));
                rank = Rank::Same;
            } else if i == x.len() {
                proof {
                    if xs == ys {
                        assert(false);
                    }
                }
                rank = Rank::Before;
            } else {
                rank = Rank::After;
            }
            break;
        }
        proof {
            assert(xs.skip(i as int).drop_first() =~= xs.skip(i as int + 1));
            assert(ys.skip(i as int).drop_first() =~= ys.skip(i as int + 1));
        }
        if x[i] != y[i] {
            proof {
                if xs == ys {
                    assert(xs[i as int] == ys[i as int]);
                }
            }
            if x[i] < y[i] {
                rank = Rank::Before;
            } else {
                rank = Rank::After;
            }
            break;
        }
        let ghost old_i = i as int;
        i += 1;
        assert forall|k: int| 0 <= k < i implies x@.take(i as int)[k] == y@.take(i as int)[k] by {
            if k < old_i {
                assert(x@.take(old_i)[k] == y@.take(old_i)[k]);
            }
        }
        assert(x@.take(i as int) =~= y@.take(i as int));
    }
    proof {
        if rank is Same {
            lemma_utf8_injective(a@, b@);
        }
    }
    rank
}

/// Adds a string to an ordered set of strings, unless it is there already.
pub fn insert_ordered(set: &mut Vec<String>, item: String)
    requires
        ordered(views(old(set)@)),
    ensures
        ordered(views(final(set)@)),
        forall|x: Seq<char>|
            views(final(set)@).contains(x) <==> (views(old(set)@).contains(x) || x == item@),
{
    let ghost before = views(set@);
    let mut p: usize = 0;
    while p < set.len()
        invariant
            before == views(set@),
            set@ == old(set)@,
            ordered(before),
            p <= set@.len(),
            forall|k: int| 0 <= k < p ==> bytes_lt(utf8(before[k]), utf8(item@)),
        ensures
            before == views(set@),
            set@ == old(set)@,
            p <= set@.len(),
            forall|k: int| 0 <= k < p ==> bytes_lt(utf8(before[k]), utf8(item@)),
            p < set@.len() ==> bytes_lt(utf8(item@), utf8(before[p as int])),
        decreases set@.len() - p,
    {
        match compare_strs(set[p].as_str(), item.as_str()) {
            Rank::Before => {
                p += 1;
            },
            Rank::Same => {
                assert(before[p as int] == item@);
                assert(before.contains(item@));
                return;
            },
            Rank::After => {
                break;
            },
        }
    }
    proof {
        assert forall|k: int| p <= k < before.len() implies bytes_lt(utf8(item@), utf8(before[k])) by {
            if k > p {
                lemma_bytes_lt_transitive(utf8(item@), utf8(before[p as int]), utf8(before[k]));
            }
        }
    }
    let ghost v = item@;
    set.insert(p, item);
    proof {
        let after = views(set@);
        assert(after =~= before.take(p as int) + seq![v] + before.skip(p as int));
        assert forall|x: Seq<char>| after.contains(x) <==> (before.contains(x) || x == v) by {
            if after.contains(x) {
                let k = choose|k: int| 0 <= k < after.len() && after[k] == x;
                if k < p {
                    assert(before[k] == x);
                } else if k > p {
                    assert(before[k - 1] == x);
                }
            }
            if before.contains(x) {
                let k = choose|k: int| 0 <= k < before.len() && before[k] == x;
                if k < p {
                    assert(after[k] == x);
                } else {
                    assert(after[k + 1] == x);
                }
            }
            if x == v {
                assert(after[p as int] == x);
            }
        }
        assert forall|i: int, j: int| 0 <= i < j < after.len() implies
            bytes_lt(utf8(after[i]), utf8(after[j])) by {
            if j < p {
            } else if j == p {
            } else if i < p {
                lemma_bytes_lt_transitive(utf8(after[i]), utf8(v), utf8(after[j]));
            } else if i == p {
            } else {
            }
        }
    }
}

} // verus!
