//! How whitespace collapses: a calculus for `squeeze`, character by
//! character.

use vstd::prelude::*;
use crate::text::{
    ends_with, is_blank, join_spaced, lemma_join_push, lemma_match_char, lemma_match_from_chars,
    lemma_occurs_in_part, lemma_tokens_open, lemma_tokens_solid, matches_at, occurs_in, solid,
    spaced, spaces, squeeze, tokens,
};

verus! {

/// The text `v` with the character `c` collapsed onto it: a non-blank is
/// appended, a blank becomes a space unless `v` is empty or ends in one.
pub open spec fn collapse_step(v: Seq<char>, c: char) -> Seq<char> {
    if !is_blank(c) {
        v.push(c)
    } else if v.len() == 0 || v.last() == ' ' {
        v
    } else {
        v.push(' ')
    }
}

/// The text `v` with the characters of `w` collapsed onto it in turn.
pub open spec fn collapse_onto(v: Seq<char>, w: Seq<char>) -> Seq<char>
    decreases w.len(),
{
    if w.len() == 0 {
        v
    } else {
        collapse_step(collapse_onto(v, w.drop_last()), w.last())
    }
}

/// `v` without the space at its end, if it has one.
pub open spec fn trim_end(v: Seq<char>) -> Seq<char> {
    if v.len() > 0 && v.last() == ' ' {
        v.drop_last()
    } else {
        v
    }
}

/// The only blanks of the text are spaces, and no two of them are
/// neighbours.
pub open spec fn neat(s: Seq<char>) -> bool {
    &&& spaced(s)
    &&& forall|k: int| 0 <= k < s.len() - 1 ==> !(#[trigger] s[k] == ' ' && s[k + 1] == ' ')
}

/// The characters of `s` that are no blanks, in their order.
pub open spec fn unblank(s: Seq<char>) -> Seq<char>
    decreases s.len(),
{
    if s.len() == 0 {
        Seq::empty()
    } else if is_blank(s.last()) {
        unblank(s.drop_last())
    } else {
        unblank(s.drop_last()).push(s.last())
    }
}

/// Collapsing two texts onto a third is collapsing the first, then the
/// second.
pub proof fn lemma_collapse_concat(v: Seq<char>, a: Seq<char>, b: Seq<char>)
    ensures
        collapse_onto(v, a + b) == collapse_onto(collapse_onto(v, a), b),
    decreases b.len(),
{
    if b.len() == 0 {
        assert(a + b =~= a);
    } else {
        assert((a + b).drop_last() =~= a + b.drop_last());
        lemma_collapse_concat(v, a, b.drop_last());
    }
}

/// A neat text collapses onto `v` as it is, provided that it does not put
/// a space at the start or after a space.
pub proof fn lemma_collapse_neat(v: Seq<char>, w: Seq<char>)
    requires
        neat(w),
        w.len() > 0 && w[0] == ' ' ==> v.len() > 0 && v.last() != ' ',
    ensures
        collapse_onto(v, w) == v + w,
    decreases w.len(),
{
    if w.len() == 0 {
        assert(v + w =~= v);
    } else {
        let init = w.drop_last();
        assert(neat(init)) by {
            assert forall|k: int| 0 <= k < init.len() implies init[k] == ' ' || !is_blank(
                #[trigger] init[k],
            ) by {
                assert(init[k] == w[k]);
            }
            assert forall|k: int| 0 <= k < init.len() - 1 implies !(#[trigger] init[k] == ' '
                && init[k + 1] == ' ') by {
                assert(init[k] == w[k]);
                assert(init[k + 1] == w[k + 1]);
            }
        }
        if init.len() > 0 {
            assert(init[0] == w[0]);
        }
        lemma_collapse_neat(v, init);
        let c = w.last();
        assert(w[w.len() - 1] == c);
        if is_blank(c) {
            assert(c == ' ');
            if init.len() > 0 {
                assert(w[w.len() - 2] == init.last());
                assert(!(w[w.len() - 2] == ' ' && w[w.len() - 2 + 1] == ' '));
            }
        }
        assert((v + init).push(c) =~= v + w);
    }
}

/// Spaces collapse onto `v` to one space, or to none where `v` is empty or
/// ends in a space or there are no spaces.
pub proof fn lemma_collapse_spaces(v: Seq<char>, n: nat)
    ensures
        collapse_onto(v, spaces(n)) == if n == 0 || v.len() == 0 || v.last() == ' ' {
            v
        } else {
            v.push(' ')
        },
    decreases n,
{
    if n > 0 {
        assert(spaces(n).drop_last() =~= spaces((n - 1) as nat));
        lemma_collapse_spaces(v, (n - 1) as nat);
    }
}

/// What collapsing onto the empty text gives: the text with its whitespace
/// collapsed, and a space after it where the text ends in a blank and holds
/// more than blanks.
pub proof fn lemma_collapse_is_squeeze(s: Seq<char>)
    ensures
        collapse_onto(Seq::empty(), s) == if s.len() > 0 && is_blank(s.last()) && tokens(s).len()
            > 0 {
            squeeze(s).push(' ')
        } else {
            squeeze(s)
        },
        tokens(s).len() > 0 ==> squeeze(s).len() > 0 && squeeze(s).last() != ' ',
        tokens(s).len() == 0 ==> squeeze(s).len() == 0,
    decreases s.len(),
{
    if s.len() > 0 {
        let init = s.drop_last();
        let c = s.last();
        let before = tokens(init);
        lemma_collapse_is_squeeze(init);
        lemma_tokens_solid(s);
        if is_blank(c) {
        } else if s.len() >= 2 && !is_blank(s[s.len() - 2]) {
            lemma_tokens_open(init);
            let grown = before.last().push(c);
            lemma_join_push(before.drop_last(), before.last());
            lemma_join_push(before.drop_last(), grown);
            assert(before.drop_last().push(before.last()) =~= before);
            assert(join_spaced(before.drop_last().push(grown)) =~= join_spaced(before).push(c));
        } else {
            lemma_join_push(before, seq![c]);
            if before.len() > 0 {
                assert(join_spaced(before) + seq![' '] + seq![c] =~= join_spaced(before).push(
                    ' ',
                ).push(c));
            } else {
                assert(seq![c] =~= Seq::<char>::empty().push(c));
                if init.len() > 0 {
                    assert(is_blank(init.last()));
                }
            }
        }
    }
}

/// Collapsing the whitespace of a text is collapsing it onto the empty
/// text and taking off the space at the end.
pub proof fn lemma_squeeze_is_collapse(s: Seq<char>)
    ensures
        squeeze(s) == trim_end(collapse_onto(Seq::empty(), s)),
{
    lemma_collapse_is_squeeze(s);
    if s.len() > 0 && is_blank(s.last()) && tokens(s).len() > 0 {
        assert(squeeze(s).push(' ').drop_last() =~= squeeze(s));
    }
}

/// A part of a neat text is neat.
pub proof fn lemma_neat_part(s: Seq<char>, a: int, b: int)
    requires
        neat(s),
        0 <= a <= b <= s.len(),
    ensures
        neat(s.subrange(a, b)),
{
    let t = s.subrange(a, b);
    assert forall|k: int| 0 <= k < t.len() implies t[k] == ' ' || !is_blank(#[trigger] t[k]) by {
        assert(t[k] == s[a + k]);
    }
    assert forall|k: int| 0 <= k < t.len() - 1 implies !(#[trigger] t[k] == ' ' && t[k + 1]
        == ' ') by {
        assert(t[k] == s[a + k]);
        assert(t[k + 1] == s[a + k + 1]);
    }
}

/// A solid text is neat.
pub proof fn lemma_solid_neat(s: Seq<char>)
    requires
        solid(s),
    ensures
        neat(s),
        s[0] != ' ',
        s.last() != ' ',
{
}

/// Solid parts joined by single spaces make a neat text that neither
/// begins nor ends with a space.
pub proof fn lemma_join_neat(parts: Seq<Seq<char>>)
    requires
        forall|i: int| 0 <= i < parts.len() ==> solid(#[trigger] parts[i]),
    ensures
        neat(join_spaced(parts)),
        parts.len() > 0 ==> join_spaced(parts).len() > 0 && join_spaced(parts)[0] != ' '
            && join_spaced(parts).last() != ' ',
    decreases parts.len(),
{
    if parts.len() >= 2 {
        let init = join_spaced(parts.drop_last());
        let last = parts.last();
        lemma_join_neat(parts.drop_last());
        assert(solid(parts[parts.len() - 1]));
        assert(solid(parts.drop_last()[0]));
        let all = init + seq![' '] + last;
        assert forall|k: int| 0 <= k < all.len() - 1 implies !(#[trigger] all[k] == ' ' && all[k
            + 1] == ' ') by {
            if k < init.len() - 1 {
                assert(all[k] == init[k]);
                assert(all[k + 1] == init[k + 1]);
            } else if k == init.len() - 1 {
                assert(all[k] == init.last());
            } else if k == init.len() {
                assert(all[k + 1] == last[0]);
            } else {
                assert(all[k] == last[k - init.len() - 1]);
            }
        }
        assert(all[0] == init[0]);
    } else if parts.len() == 1 {
        assert(solid(parts[0]));
    }
}

/// A text with its whitespace collapsed is neat, and neither begins nor
/// ends with a space.
pub proof fn lemma_squeeze_neat(s: Seq<char>)
    ensures
        neat(squeeze(s)),
        squeeze(s).len() > 0 ==> squeeze(s)[0] != ' ' && squeeze(s).last() != ' ',
{
    lemma_tokens_solid(s);
    lemma_join_neat(tokens(s));
}

/// What occurs in a text with one more character occurs in the text or
/// ends the longer text.
pub proof fn lemma_occurs_push(v: Seq<char>, c: char, p: Seq<char>)
    requires
        occurs_in(v.push(c), p),
    ensures
        occurs_in(v, p) || ends_with(v.push(c), p),
{
    let t = v.push(c);
    let i = choose|i: int| matches_at(t, p, i);
    if i + p.len() <= v.len() {
        assert(v.subrange(i, i + p.len()) =~= t.subrange(i, i + p.len()));
        assert(matches_at(v, p, i));
    }
}

/// A solid or empty text that ends a collapsed text ends the text that was
/// collapsed.
pub proof fn lemma_collapse_end(t: Seq<char>, q: Seq<char>)
    requires
        q.len() == 0 || solid(q),
        ends_with(collapse_onto(Seq::empty(), t), q),
    ensures
        ends_with(t, q),
    decreases t.len(),
{
    let whole = collapse_onto(Seq::empty(), t);
    if q.len() == 0 {
        assert(t.subrange(t.len() as int, t.len() as int) =~= q);
    } else {
        lemma_match_char(whole, q, whole.len() - q.len(), q.len() - 1);
        assert(whole.last() == q.last());
        assert(!is_blank(q[q.len() - 1]));
        assert(t.len() > 0);
        let init = t.drop_last();
        let v = collapse_onto(Seq::empty(), init);
        let c = t.last();
        assert(whole == v.push(c));
        let rest = q.drop_last();
        assert forall|k: int| 0 <= k < rest.len() implies v[v.len() - rest.len() + k]
            == rest[k] by {
            lemma_match_char(whole, q, whole.len() - q.len(), k);
        }
        lemma_match_from_chars(v, rest, v.len() - rest.len());
        assert(rest.len() == 0 || solid(rest)) by {
            assert forall|k: int| 0 <= k < rest.len() implies !is_blank(rest[k]) by {
                assert(rest[k] == q[k]);
            }
        }
        lemma_collapse_end(init, rest);
        assert forall|k: int| 0 <= k < q.len() implies t[t.len() - q.len() + k] == q[k] by {
            if k < q.len() - 1 {
                lemma_match_char(init, rest, init.len() - rest.len(), k);
            }
        }
        lemma_match_from_chars(t, q, t.len() - q.len());
    }
}

/// A solid text that occurs in a collapsed text occurs in the text that
/// was collapsed.
pub proof fn lemma_collapse_occurs(t: Seq<char>, p: Seq<char>)
    requires
        solid(p),
        occurs_in(collapse_onto(Seq::empty(), t), p),
    ensures
        occurs_in(t, p),
    decreases t.len(),
{
    if t.len() == 0 {
        let i = choose|i: int| matches_at(collapse_onto(Seq::empty(), t), p, i);
        assert(false);
    } else {
        let init = t.drop_last();
        let v = collapse_onto(Seq::empty(), init);
        let c = t.last();
        let whole = collapse_onto(Seq::empty(), t);
        assert(init =~= t.subrange(0, t.len() - 1));
        if whole == v {
            lemma_collapse_occurs(init, p);
            lemma_occurs_in_part(t, 0, t.len() - 1, p);
        } else {
            lemma_occurs_push(v, whole.last(), p);
            assert(whole =~= v.push(whole.last()));
            if occurs_in(v, p) {
                lemma_collapse_occurs(init, p);
                lemma_occurs_in_part(t, 0, t.len() - 1, p);
            } else {
                lemma_collapse_end(t, p);
            }
        }
    }
}

/// A solid text that occurs in a text with its whitespace collapsed
/// occurs in the text.
pub proof fn lemma_squeeze_occurs(t: Seq<char>, p: Seq<char>)
    requires
        solid(p),
        occurs_in(squeeze(t), p),
    ensures
        occurs_in(t, p),
{
    lemma_squeeze_is_collapse(t);
    let whole = collapse_onto(Seq::empty(), t);
    if squeeze(t) != whole {
        assert(squeeze(t) =~= whole.subrange(0, whole.len() - 1));
        lemma_occurs_in_part(whole, 0, whole.len() - 1, p);
    }
    lemma_collapse_occurs(t, p);
}

/// The non-blanks of two texts, one after the other, are the non-blanks of
/// the texts put together.
pub proof fn lemma_unblank_add(a: Seq<char>, b: Seq<char>)
    ensures
        unblank(a + b) == unblank(a) + unblank(b),
    decreases b.len(),
{
    if b.len() == 0 {
        assert(a + b =~= a);
        assert(unblank(a) + unblank(b) =~= unblank(a));
    } else {
        assert((a + b).drop_last() =~= a + b.drop_last());
        lemma_unblank_add(a, b.drop_last());
        if !is_blank(b.last()) {
            assert((unblank(a) + unblank(b.drop_last())).push(b.last()) =~= unblank(a)
                + unblank(b.drop_last()).push(b.last()));
        }
    }
}

/// Collapsing keeps the non-blanks.
pub proof fn lemma_unblank_collapse(v: Seq<char>, w: Seq<char>)
    ensures
        unblank(collapse_onto(v, w)) == unblank(v) + unblank(w),
    decreases w.len(),
{
    if w.len() == 0 {
        assert(unblank(v) + unblank(w) =~= unblank(v));
    } else {
        let before = collapse_onto(v, w.drop_last());
        lemma_unblank_collapse(v, w.drop_last());
        if !is_blank(w.last()) {
            assert(before.push(w.last()).drop_last() =~= before);
            assert((unblank(v) + unblank(w.drop_last())).push(w.last()) =~= unblank(v)
                + unblank(w.drop_last()).push(w.last()));
        } else if !(before.len() == 0 || before.last() == ' ') {
            assert(before.push(' ').drop_last() =~= before);
        }
    }
}

/// Collapsing the whitespace of a text keeps its non-blanks.
pub proof fn lemma_unblank_squeeze(s: Seq<char>)
    ensures
        unblank(squeeze(s)) == unblank(s),
{
    lemma_squeeze_is_collapse(s);
    lemma_unblank_collapse(Seq::empty(), s);
    assert(unblank(Seq::<char>::empty()) + unblank(s) =~= unblank(s));
}

} // verus!
