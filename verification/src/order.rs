//! Lexicographic order of texts, as `str`'s `Ord` compares them (by code
//! point, which is the order of their UTF-8 bytes).

use vstd::prelude::*;
use crate::text::chars_of;

verus! {

/// `a` sorts strictly before `b`.
pub open spec fn text_lt(a: Seq<char>, b: Seq<char>) -> bool
    decreases a.len(),
{
    if a.len() == 0 {
        b.len() > 0
    } else if b.len() == 0 {
        false
    } else if a[0] != b[0] {
        (a[0] as int) < (b[0] as int)
    } else {
        text_lt(a.drop_first(), b.drop_first())
    }
}

pub proof fn lemma_text_lt_irreflexive(a: Seq<char>)
    ensures
        !text_lt(a, a),
    decreases a.len(),
{
    if a.len() > 0 {
        lemma_text_lt_irreflexive(a.drop_first());
    }
}

pub proof fn lemma_text_lt_asymmetric(a: Seq<char>, b: Seq<char>)
    ensures
        text_lt(a, b) ==> !text_lt(b, a),
    decreases a.len(),
{
    if a.len() > 0 && b.len() > 0 && a[0] == b[0] {
        lemma_text_lt_asymmetric(a.drop_first(), b.drop_first());
    }
}

pub proof fn lemma_text_lt_total(a: Seq<char>, b: Seq<char>)
    ensures
        a != b ==> text_lt(a, b) || text_lt(b, a),
    decreases a.len(),
{
    if a.len() > 0 && b.len() > 0 {
        if a[0] == b[0] {
            lemma_text_lt_total(a.drop_first(), b.drop_first());
            if a.drop_first() == b.drop_first() {
                assert(a =~= seq![a[0]] + a.drop_first());
                assert(b =~= seq![b[0]] + b.drop_first());
            }
        } else {
            assert((a[0] as int) != (b[0] as int));
        }
    } else if a.len() == 0 && b.len() == 0 {
        assert(a =~= b);
    }
}

pub proof fn lemma_text_lt_transitive(a: Seq<char>, b: Seq<char>, c: Seq<char>)
    ensures
        text_lt(a, b) && text_lt(b, c) ==> text_lt(a, c),
    decreases a.len(),
{
    if a.len() > 0 && b.len() > 0 && c.len() > 0 && a[0] == b[0] && b[0] == c[0] {
        lemma_text_lt_transitive(a.drop_first(), b.drop_first(), c.drop_first());
    }
}

/// Whether `a` sorts strictly before `b`.
pub fn text_less(a: &str, b: &str) -> (r: bool)
    ensures
        r == text_lt(a@, b@),
{
    let ca = chars_of(a);
    let cb = chars_of(b);
    let mut i: usize = 0;
    assert(ca@.subrange(0, ca.len() as int) =~= a@);
    assert(cb@.subrange(0, cb.len() as int) =~= b@);
    while i < ca.len() && i < cb.len()
        invariant
            ca@ == a@,
            cb@ == b@,
            i <= ca.len(),
            i <= cb.len(),
            text_lt(a@, b@) == text_lt(ca@.subrange(i as int, ca.len() as int), cb@.subrange(i as int, cb.len() as int)),
        decreases ca.len() - i,
    {
        let ghost sa = ca@.subrange(i as int, ca.len() as int);
        let ghost sb = cb@.subrange(i as int, cb.len() as int);
        assert(sa[0] == ca@[i as int]);
        assert(sb[0] == cb@[i as int]);
        if ca[i] != cb[i] {
            return ca[i] < cb[i];
        }
        assert(sa.drop_first() =~= ca@.subrange(i + 1, ca.len() as int));
        assert(sb.drop_first() =~= cb@.subrange(i + 1, cb.len() as int));
        i = i + 1;
    }
    ca.len() == i && cb.len() > i
}

} // verus!
