//! The order of lines, and sorting by it.

use vstd::prelude::*;
use vstd::relations::{sorted_by, total_ordering};
use vstd::seq_lib::{lemma_sorted_unique, to_multiset_insert, to_multiset_remove};
use crate::text::texts;

verus! {

/// `a` comes before `b`, or is `b`, in the lexicographic order by code
/// point: at the first index where the two differ `a` has the lesser
/// character, or `a` ends there.
pub open spec fn lex_le(a: Seq<char>, b: Seq<char>) -> bool
    decreases a.len(),
{
    if a.len() == 0 {
        true
    } else if b.len() == 0 {
        false
    } else if a[0] == b[0] {
        lex_le(a.drop_first(), b.drop_first())
    } else {
        a[0] < b[0]
    }
}

/// The lexicographic order as a relation.
pub open spec fn lex_order() -> spec_fn(Seq<char>, Seq<char>) -> bool {
    |a: Seq<char>, b: Seq<char>| lex_le(a, b)
}

/// The lines of `s` in lexicographic order.
pub open spec fn sorted_texts(s: Seq<Seq<char>>) -> Seq<Seq<char>> {
    s.sort_by(lex_order())
}

/// Every text comes before itself, or is itself.
proof fn lemma_lex_reflexive(a: Seq<char>)
    ensures
        lex_le(a, a),
    decreases a.len(),
{
    if a.len() > 0 {
        lemma_lex_reflexive(a.drop_first());
    }
}

/// Two texts of which each comes before the other, or is it, are one.
proof fn lemma_lex_antisymmetric(a: Seq<char>, b: Seq<char>)
    requires
        lex_le(a, b),
        lex_le(b, a),
    ensures
        a == b,
    decreases a.len(),
{
    if a.len() == 0 || b.len() == 0 {
        assert(a =~= b);
    } else {
        lemma_lex_antisymmetric(a.drop_first(), b.drop_first());
        assert(a =~= seq![a[0]] + a.drop_first());
        assert(b =~= seq![b[0]] + b.drop_first());
    }
}

/// What comes before a text that comes before a third comes before the
/// third.
proof fn lemma_lex_transitive(a: Seq<char>, b: Seq<char>, c: Seq<char>)
    requires
        lex_le(a, b),
        lex_le(b, c),
    ensures
        lex_le(a, c),
    decreases a.len(),
{
    if a.len() > 0 && b.len() > 0 && c.len() > 0 {
        if a[0] == b[0] && b[0] == c[0] {
            lemma_lex_transitive(a.drop_first(), b.drop_first(), c.drop_first());
        }
    }
}

/// Of two texts one comes before the other, or is it.
proof fn lemma_lex_connected(a: Seq<char>, b: Seq<char>)
    ensures
        lex_le(a, b) || lex_le(b, a),
    decreases a.len(),
{
    if a.len() > 0 && b.len() > 0 && a[0] == b[0] {
        lemma_lex_connected(a.drop_first(), b.drop_first());
    }
}

/// The lexicographic order is a total order.
pub proof fn lemma_lex_total_ordering()
    ensures
        total_ordering(lex_order()),
{
    let r = lex_order();
    assert forall|x: Seq<char>| #[trigger] r(x, x) by {
        lemma_lex_reflexive(x);
    }
    assert forall|x: Seq<char>, y: Seq<char>| #[trigger] r(x, y) && #[trigger] r(y, x) implies x
        == y by {
        lemma_lex_antisymmetric(x, y);
    }
    assert forall|x: Seq<char>, y: Seq<char>, z: Seq<char>| #[trigger]
        r(x, y) && #[trigger] r(y, z) implies r(x, z) by {
        lemma_lex_transitive(x, y, z);
    }
    assert forall|x: Seq<char>, y: Seq<char>| #[trigger] r(x, y) || #[trigger] r(y, x) by {
        lemma_lex_connected(x, y);
    }
}

/// Sorting gives the same lines, each as often as before, in
/// non-decreasing lexicographic order; and there is only one such
/// arrangement.
pub proof fn lemma_sorted_texts(s: Seq<Seq<char>>)
    ensures
        sorted_by(sorted_texts(s), lex_order()),
        sorted_texts(s).to_multiset() == s.to_multiset(),
        sorted_texts(s).len() == s.len(),
        forall|t: Seq<Seq<char>>|
            sorted_by(t, lex_order()) && t.to_multiset() == s.to_multiset() ==> t
                == #[trigger] sorted_texts(s),
{
    lemma_lex_total_ordering();
    s.lemma_sort_by_ensures(lex_order());
    s.to_multiset_ensures();
    sorted_texts(s).to_multiset_ensures();
    assert forall|t: Seq<Seq<char>>|
        sorted_by(t, lex_order()) && t.to_multiset() == s.to_multiset() implies t
        == #[trigger] sorted_texts(s) by {
        lemma_sorted_unique(t, sorted_texts(s), lex_order());
    }
}

/// Whether `a` comes before `b`, or is `b`, in lexicographic order.
pub fn lex_le_chars(a: &[char], b: &[char]) -> (r: bool)
    ensures
        r == lex_le(a@, b@),
{
    let mut i: usize = 0;
    proof {
        assert(a@.skip(0) =~= a@);
        assert(b@.skip(0) =~= b@);
    }
    loop
        invariant
            i <= a.len(),
            i <= b.len(),
            lex_le(a@, b@) == lex_le(a@.skip(i as int), b@.skip(i as int)),
        decreases a.len() - i,
    {
        if i == a.len() {
            return true;
        }
        if i == b.len() {
            return false;
        }
        proof {
            assert(a@.skip(i as int)[0] == a@[i as int]);
            assert(b@.skip(i as int)[0] == b@[i as int]);
            assert(a@.skip(i as int).drop_first() =~= a@.skip(i + 1));
            assert(b@.skip(i as int).drop_first() =~= b@.skip(i + 1));
        }
        if a[i] != b[i] {
            return a[i] < b[i];
        }
        i += 1;
    }
}

/// Sorts `lines` into non-decreasing lexicographic order.
pub fn sort_lines(lines: &mut Vec<Vec<char>>)
    ensures
        texts(final(lines)@) == sorted_texts(texts(old(lines)@)),
        sorted_by(texts(final(lines)@), lex_order()),
        texts(final(lines)@).to_multiset() == texts(old(lines)@).to_multiset(),
{
    let ghost orig = texts(lines@);
    let mut i: usize = 0;
    while i < lines.len()
        invariant
            i <= lines.len(),
            texts(lines@).to_multiset() == orig.to_multiset(),
            sorted_by(texts(lines@).take(i as int), lex_order()),
        decreases lines.len() - i,
    {
        let ghost before = texts(lines@);
        let line = lines.remove(i);
        let ghost rest = texts(lines@);
        proof {
            assert(rest =~= before.remove(i as int));
            to_multiset_remove(before, i as int);
            assert(rest.take(i as int) =~= before.take(i as int));
        }
        let mut p: usize = 0;
        while p < i && lex_le_chars(&lines[p], &line)
            invariant
                p <= i <= lines.len(),
                rest == texts(lines@),
                forall|k: int| 0 <= k < p ==> lex_le(#[trigger] rest[k], line@),
            decreases i - p,
        {
            p += 1;
        }
        lines.insert(p, line);
        proof {
            let now = texts(lines@);
            assert(now =~= rest.insert(p as int, line@));
            to_multiset_insert(rest, p as int, line@);
            before.to_multiset_ensures();
            assert(before.contains(before[i as int]));
            assert(before.to_multiset().remove(line@).insert(line@) =~= before.to_multiset()) by {
                broadcast use vstd::multiset::group_multiset_axioms;

            }
            assert(now.to_multiset() =~= orig.to_multiset());
            lemma_lex_total_ordering();
            let t = now.take(i + 1);
            let f = lex_order();
            assert forall|a: int, b: int| 0 <= a < b < t.len() implies #[trigger] f(t[a], t[b]) by {
                if b < p {
                    assert(lex_order()(rest.take(i as int)[a], rest.take(i as int)[b]));
                } else if b == p {
                    assert(lex_le(rest[a], line@));
                } else if a == p {
                    lemma_lex_connected(rest[p as int], line@);
                    if b - 1 > p {
                        assert(lex_order()(
                            rest.take(i as int)[p as int],
                            rest.take(i as int)[b - 1],
                        ));
                        lemma_lex_transitive(line@, rest[p as int], rest[b - 1]);
                    }
                } else if a < p {
                    assert(lex_order()(rest.take(i as int)[a], rest.take(i as int)[b - 1]));
                } else {
                    assert(lex_order()(rest.take(i as int)[a - 1], rest.take(i as int)[b - 1]));
                }
            }
            assert(sorted_by(now.take(i + 1), lex_order()));
        }
        i += 1;
    }
    proof {
        assert(texts(lines@).take(i as int) =~= texts(lines@));
        lemma_sorted_texts(orig);
    }
}

} // verus!
