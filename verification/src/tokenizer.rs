//! Character tokenizer and the common tokenizer facade.

use vstd::prelude::*;
use crate::text::{chars_of, push_char};

verus! {

/// First position of `c` in `itos`.
pub open spec fn first_pos(itos: Seq<char>, c: char) -> Option<nat>
    decreases itos.len(),
{
    if itos.len() == 0 {
        None
    } else if itos[0] == c {
        Some(0)
    } else {
        match first_pos(itos.drop_first(), c) {
            Some(i) => Some(i + 1),
            None => None,
        }
    }
}

/// Ids of the characters of `s` that the vocabulary knows, in order.
pub open spec fn encode_spec(itos: Seq<char>, s: Seq<char>) -> Seq<usize>
    decreases s.len(),
{
    if s.len() == 0 {
        Seq::empty()
    } else {
        let rest = encode_spec(itos, s.drop_last());
        match first_pos(itos, s.last()) {
            Some(i) => rest.push(i as usize),
            None => rest,
        }
    }
}

/// Characters of the ids that are in range, in order.
pub open spec fn decode_spec(itos: Seq<char>, ids: Seq<usize>) -> Seq<char>
    decreases ids.len(),
{
    if ids.len() == 0 {
        Seq::empty()
    } else {
        let rest = decode_spec(itos, ids.drop_last());
        if (ids.last() as int) < itos.len() {
            rest.push(itos[ids.last() as int])
        } else {
            rest
        }
    }
}

pub open spec fn distinct_chars(v: Seq<char>) -> bool {
    forall|i: int, j: int| 0 <= i < j < v.len() ==> v[i] != v[j]
}

#[derive(Clone, Debug)]
pub struct CharTokenizer {
    pub itos: Vec<char>,
}

fn position(itos: &Vec<char>, c: char) -> (r: Option<usize>)
    ensures
        r == (match first_pos(itos@, c) {
            Some(i) => Some(i as usize),
            None => None::<usize>,
        }),
{
    let mut i: usize = 0;
    assert(itos@.subrange(0, itos.len() as int) =~= itos@);
    while i < itos.len()
        invariant
            i <= itos.len(),
            forall|k: int| 0 <= k < i ==> itos@[k] != c,
            first_pos(itos@, c) == (match first_pos(itos@.subrange(i as int, itos.len() as int), c) {
                Some(p) => Some((p + i) as nat),
                None => None::<nat>,
            }),
        decreases itos.len() - i,
    {
        let ghost rest = itos@.subrange(i as int, itos.len() as int);
        assert(rest.drop_first() =~= itos@.subrange(i + 1, itos.len() as int));
        if itos[i] == c {
            return Some(i);
        }
        i = i + 1;
    }
    None
}

impl CharTokenizer {
    /// The vocabulary of a text: its distinct characters in code-point
    /// order, then newline and space where the text lacks them.
    pub fn fit(text: &str) -> (t: CharTokenizer)
        ensures
            forall|c: char| t.itos@.contains(c) <==> (text@.contains(c) || c == '\n' || c == ' '),
            distinct_chars(t.itos@),
            forall|i: int, j: int| 0 <= i < j < t.itos@.len() && text@.contains(t.itos@[i]) && text@.contains(t.itos@[j])
                ==> (t.itos@[i] as int) < (t.itos@[j] as int),
    {
        let cs = chars_of(text);
        let mut v: Vec<char> = Vec::new();
        let mut k: usize = 0;
        while k < cs.len()
            invariant
                cs@ == text@,
                k <= cs.len(),
                forall|c: char| v@.contains(c) <==> cs@.subrange(0, k as int).contains(c),
                forall|i: int, j: int| 0 <= i < j < v@.len() ==> (v@[i] as int) < (v@[j] as int),
            decreases cs.len() - k,
        {
            let c = cs[k];
            let mut p: usize = 0;
            while p < v.len() && v[p] < c
                invariant
                    p <= v.len(),
                    forall|q: int| 0 <= q < p ==> (v@[q] as int) < (c as int),
                decreases v.len() - p,
            {
                p = p + 1;
            }
            let ghost old_v = v@;
            if p < v.len() && v[p] == c {
            } else {
                v.insert(p, c);
                proof {
                    assert forall|i: int, j: int| 0 <= i < j < v@.len() implies (v@[i] as int) < (v@[j] as int) by {
                        if j == p {
                            assert(v@[i] == old_v[i]);
                        } else if i == p {
                            assert(v@[j] == old_v[j - 1]);
                        } else if j < p {
                            assert(v@[i] == old_v[i] && v@[j] == old_v[j]);
                        } else if i < p {
                            assert(v@[i] == old_v[i] && v@[j] == old_v[j - 1]);
                        } else {
                            assert(v@[i] == old_v[i - 1] && v@[j] == old_v[j - 1]);
                        }
                    }
                }
            }
            proof {
                let pre = cs@.subrange(0, k as int);
                let post = cs@.subrange(0, k + 1);
                assert(post =~= pre.push(c));
                assert forall|d: char| v@.contains(d) <==> post.contains(d) by {
                    if v@.contains(d) {
                        let j = choose|j: int| 0 <= j < v@.len() && v@[j] == d;
                        if d != c {
                            if p < old_v.len() && old_v[p as int] == c {
                                assert(old_v[j] == d);
                            } else if j < p {
                                assert(old_v[j] == d);
                            } else {
                                assert(old_v[j - 1] == d);
                            }
                            assert(old_v.contains(d));
                            assert(pre.contains(d));
                            let i = choose|i: int| 0 <= i < pre.len() && pre[i] == d;
                            assert(post[i] == d);
                        } else {
                            assert(post[k as int] == d);
                        }
                    }
                    if post.contains(d) {
                        let i = choose|i: int| 0 <= i < post.len() && post[i] == d;
                        if i < k {
                            assert(pre[i] == d);
                            assert(old_v.contains(d));
                            let j = choose|j: int| 0 <= j < old_v.len() && old_v[j] == d;
                            if p < old_v.len() && old_v[p as int] == c {
                                assert(v@[j] == d);
                            } else if j < p {
                                assert(v@[j] == d);
                            } else {
                                assert(v@[j + 1] == d);
                            }
                        } else {
                            assert(d == c);
                            if p < old_v.len() && old_v[p as int] == c {
                                assert(v@[p as int] == d);
                            } else {
                                assert(v@[p as int] == d);
                            }
                        }
                    }
                }
            }
            k = k + 1;
        }
        assert(cs@.subrange(0, cs.len() as int) =~= text@);
        let ghost sorted = v@;
        let has_nl = position(&v, '\n').is_some();
        proof { lemma_first_pos_contains(v@, '\n'); }
        if !has_nl {
            v.push('\n');
        }
        let has_sp = position(&v, ' ').is_some();
        proof { lemma_first_pos_contains(v@, ' '); }
        if !has_sp {
            v.push(' ');
        }
        proof {
            assert forall|c: char| v@.contains(c) <==> (text@.contains(c) || c == '\n' || c == ' ') by {
                if v@.contains(c) {
                    let j = choose|j: int| 0 <= j < v@.len() && v@[j] == c;
                    if j < sorted.len() {
                        assert(sorted[j] == c);
                        assert(sorted.contains(c));
                    }
                }
                if text@.contains(c) {
                    assert(sorted.contains(c));
                    let j = choose|j: int| 0 <= j < sorted.len() && sorted[j] == c;
                    assert(v@[j] == c);
                }
                if c == '\n' && !v@.contains(c) {
                    if has_nl {
                        let j = choose|j: int| 0 <= j < sorted.len() && sorted[j] == c;
                        assert(v@[j] == c);
                    } else {
                        assert(v@[sorted.len() as int] == c);
                    }
                }
                if c == ' ' && !v@.contains(c) {
                    assert(v@[v@.len() - 1] == c || has_sp);
                    if has_sp {
                        let before_sp = if has_nl { sorted } else { sorted.push('\n') };
                        assert(before_sp.contains(c));
                        let j = choose|j: int| 0 <= j < before_sp.len() && before_sp[j] == c;
                        assert(v@[j] == c);
                    }
                }
            }
            assert forall|i: int, j: int| 0 <= i < j < v@.len() implies v@[i] != v@[j] by {
                if j < sorted.len() {
                    assert((v@[i] as int) < (v@[j] as int));
                } else if i < sorted.len() {
                    assert(sorted[i] == v@[i]);
                    assert(sorted.contains(v@[i]));
                    if v@[j] == '\n' {
                        assert(!has_nl);
                    } else {
                        assert(!has_sp);
                        if has_nl {
                            assert(v@[i] != ' ');
                        } else {
                            assert(v@[i] != ' ');
                        }
                    }
                }
            }
            assert forall|i: int, j: int| 0 <= i < j < v@.len() && text@.contains(v@[i]) && text@.contains(v@[j])
                implies (v@[i] as int) < (v@[j] as int) by {
                if j >= sorted.len() {
                    assert(sorted.contains(v@[j]));
                    let k = choose|k: int| 0 <= k < sorted.len() && sorted[k] == v@[j];
                    assert(v@[k] == v@[j]);
                    if !has_nl && j == sorted.len() {
                        assert(!sorted.contains('\n'));
                    } else {
                        assert(!has_sp);
                        let before_sp = if has_nl { sorted } else { sorted.push('\n') };
                        assert(!before_sp.contains(' '));
                        assert(before_sp[k] == sorted[k]);
                    }
                } else {
                    assert(v@[i] == sorted[i] && v@[j] == sorted[j]);
                }
            }
        }
        CharTokenizer { itos: v }
    }

    pub fn vocab_size(&self) -> (r: usize)
        ensures
            r == self.itos@.len(),
    {
        self.itos.len()
    }

    /// The ids of the known characters of `text`; unknown characters are
    /// dropped.
    pub fn encode(&self, text: &str) -> (r: Vec<usize>)
        ensures
            r@ == encode_spec(self.itos@, text@),
    {
        let cs = chars_of(text);
        let mut out: Vec<usize> = Vec::new();
        let mut i: usize = 0;
        while i < cs.len()
            invariant
                cs@ == text@,
                i <= cs.len(),
                out@ == encode_spec(self.itos@, cs@.subrange(0, i as int)),
            decreases cs.len() - i,
        {
            assert(cs@.subrange(0, i + 1).drop_last() =~= cs@.subrange(0, i as int));
            match position(&self.itos, cs[i]) {
                Some(p) => {
                    out.push(p);
                },
                None => {},
            }
            i = i + 1;
        }
        assert(cs@.subrange(0, cs.len() as int) =~= text@);
        out
    }

    /// The characters of the ids in range; others are dropped.
    pub fn decode(&self, ids: &[usize]) -> (r: String)
        ensures
            r@ == decode_spec(self.itos@, ids@),
    {
        let mut out = String::new();
        let mut i: usize = 0;
        while i < ids.len()
            invariant
                i <= ids.len(),
                out@ == decode_spec(self.itos@, ids@.subrange(0, i as int)),
            decreases ids.len() - i,
        {
            assert(ids@.subrange(0, i + 1).drop_last() =~= ids@.subrange(0, i as int));
            if ids[i] < self.itos.len() {
                push_char(&mut out, self.itos[ids[i]]);
            }
            i = i + 1;
        }
        assert(ids@.subrange(0, ids.len() as int) =~= ids@);
        out
    }
}

pub proof fn lemma_first_pos_contains(itos: Seq<char>, c: char)
    ensures
        first_pos(itos, c) is Some <==> itos.contains(c),
        first_pos(itos, c) matches Some(i) ==> i < itos.len() && itos[i as int] == c,
    decreases itos.len(),
{
    if itos.len() > 0 {
        lemma_first_pos_contains(itos.drop_first(), c);
        if itos[0] != c {
            if itos.contains(c) {
                let j = choose|j: int| 0 <= j < itos.len() && itos[j] == c;
                assert(itos.drop_first()[j - 1] == c);
            }
            if itos.drop_first().contains(c) {
                let j = choose|j: int| 0 <= j < itos.drop_first().len() && itos.drop_first()[j] == c;
                assert(itos[j + 1] == c);
            }
        } else {
            assert(itos[0] == c);
        }
    }
}

/// Decoding what was encoded gives the text back when the vocabulary holds
/// every character of the text.
pub proof fn lemma_roundtrip(itos: Seq<char>, s: Seq<char>)
    requires
        forall|i: int| 0 <= i < s.len() ==> itos.contains(#[trigger] s[i]),
        itos.len() <= usize::MAX,
    ensures
        decode_spec(itos, encode_spec(itos, s)) == s,
    decreases s.len(),
{
    if s.len() > 0 {
        let init = s.drop_last();
        assert forall|i: int| 0 <= i < init.len() implies itos.contains(#[trigger] init[i]) by {
            assert(init[i] == s[i]);
        }
        lemma_roundtrip(itos, init);
        lemma_first_pos_contains(itos, s.last());
        assert(itos.contains(s[s.len() - 1]));
        let e = encode_spec(itos, s);
        assert(e.drop_last() == encode_spec(itos, init));
        assert(s =~= init.push(s.last()));
    }
}

/// The tokenizers behind one interface.
#[derive(Clone, Debug)]
pub enum AnyTok {
    Char(CharTokenizer),
}

impl AnyTok {
    pub fn encode(&self, text: &str) -> (r: Vec<usize>)
        ensures
            self matches AnyTok::Char(t) ==> r@ == encode_spec(t.itos@, text@),
    {
        match self {
            AnyTok::Char(t) => t.encode(text),
        }
    }

    pub fn decode(&self, ids: &[usize]) -> (r: String)
        ensures
            self matches AnyTok::Char(t) ==> r@ == decode_spec(t.itos@, ids@),
    {
        match self {
            AnyTok::Char(t) => t.decode(ids),
        }
    }

    pub fn vocab_size(&self) -> (r: usize)
        ensures
            self matches AnyTok::Char(t) ==> r == t.itos@.len(),
    {
        match self {
            AnyTok::Char(t) => t.vocab_size(),
        }
    }

    pub fn kind(&self) -> (r: &'static str)
        ensures
            self is Char ==> r@ == "char"@,
    {
        match self {
            AnyTok::Char(_) => "char",
        }
    }
}

} // verus!
