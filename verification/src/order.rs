//! Dictionary order on tokens, character by character, by code point.

use vstd::prelude::*;
use vstd::std_specs::iter::IteratorSpec;

verus! {

/// `a` comes strictly before `b`: at the first position where they differ `a`
/// has the smaller character, or `a` ends there and `b` goes on.
pub open spec fn lex_lt(a: Seq<char>, b: Seq<char>) -> bool
    decreases a.len(),
{
    if b.len() == 0 {
        false
    } else if a.len() == 0 {
        true
    } else if a[0] == b[0] {
        lex_lt(a.drop_first(), b.drop_first())
    } else {
        a[0] < b[0]
    }
}

/// Where one token stands relative to another.
#[derive(Clone, Copy, Debug, PartialEq, Eq)]
pub enum Place {
    Before,
    Same,
    After,
}

/// No token comes before itself.
pub proof fn lemma_lex_irreflexive(a: Seq<char>)
    ensures
        !lex_lt(a, a),
    decreases a.len(),
{
    if a.len() > 0 {
        lemma_lex_irreflexive(a.drop_first());
    }
}

/// What comes before a token comes before everything the token comes before.
pub proof fn lemma_lex_transitive(a: Seq<char>, b: Seq<char>, c: Seq<char>)
    requires
        lex_lt(a, b),
        lex_lt(b, c),
    ensures
        lex_lt(a, c),
    decreases a.len(),
{
    if a.len() > 0 && a[0] == b[0] && b[0] == c[0] {
        lemma_lex_transitive(a.drop_first(), b.drop_first(), c.drop_first());
    }
}

/// Two tokens are equal when both are empty, or when they start with the same
/// character and go on equally.
pub proof fn lemma_equal_by_parts(a: Seq<char>, b: Seq<char>)
    ensures
        a.len() == 0 && b.len() == 0 ==> a == b,
        a.len() > 0 && b.len() > 0 && a[0] == b[0] ==> (a == b) == (a.drop_first()
            == b.drop_first()),
{
    if a.len() == 0 && b.len() == 0 {
        assert(a =~= b);
    }
    if a.len() > 0 && b.len() > 0 && a[0] == b[0] && a.drop_first() == b.drop_first() {
        assert(a =~= seq![a[0]] + a.drop_first());
        assert(b =~= seq![b[0]] + b.drop_first());
    }
}

/// Compares two words in dictionary order.
pub fn place_of(a: &str, b: &str) -> (r: Place)
    ensures
        r == Place::Before <==> lex_lt(a@, b@),
        r == Place::Same <==> a@ == b@,
        r == Place::After <==> lex_lt(b@, a@),
{
    let mut ia = a.chars();
    let mut ib = b.chars();
    proof {
        lemma_lex_irreflexive(a@);
    }
    loop
        invariant
            ia.obeys_prophetic_iter_laws(),
            ib.obeys_prophetic_iter_laws(),
            ia.decrease() is Some,
            lex_lt(a@, b@) == lex_lt(ia.remaining(), ib.remaining()),
            lex_lt(b@, a@) == lex_lt(ib.remaining(), ia.remaining()),
            (a@ == b@) == (ia.remaining() == ib.remaining()),
        decreases ia.decrease()->0,
    {
        proof {
            lemma_lex_irreflexive(ia.remaining());
            lemma_equal_by_parts(ia.remaining(), ib.remaining());
        }
        let x = ia.next();
        let y = ib.next();
        match (x, y) {
            (None, None) => {
                return Place::Same;
            },
            (None, Some(_)) => {
                return Place::Before;
            },
            (Some(_), None) => {
                return Place::After;
            },
            (Some(p), Some(q)) => {
                if p < q {
                    return Place::Before;
                } else if q < p {
                    return Place::After;
                }
            },
        }
    }
}

} // verus!
