//! Merge sort that keeps one word of each token.

use vstd::prelude::*;
use crate::order::{lex_lt, place_of, Place, lemma_lex_transitive, lemma_lex_irreflexive};
use crate::text::tokens;

verus! {

/// `x` stands before `y` in the chosen direction: upwards in dictionary order,
/// or downwards.
pub open spec fn before(x: Seq<char>, y: Seq<char>, up: bool) -> bool {
    if up {
        lex_lt(x, y)
    } else {
        lex_lt(y, x)
    }
}

/// Every word stands before all the words after it, in the chosen direction.
pub open spec fn ordered(s: Seq<String>, up: bool) -> bool {
    forall|i: int, j: int| 0 <= i < j < s.len() ==> before(#[trigger] s[i]@, #[trigger] s[j]@, up)
}

/// The tokens that occur in a collection.
pub open spec fn members(s: Seq<String>) -> Set<Seq<char>> {
    Set::new(|t: Seq<char>| exists|i: int| 0 <= i < s.len() && (#[trigger] s[i])@ == t)
}

/// No token occurs at two positions.
pub open spec fn distinct(s: Seq<String>) -> bool {
    forall|i: int, j: int| 0 <= i < j < s.len() ==> (#[trigger] s[i])@ != (#[trigger] s[j])@
}

/// Adding a word at the end adds its token to the members.
pub proof fn lemma_members_push(s: Seq<String>, w: String)
    ensures
        members(s.push(w)) == members(s).insert(w@),
{
    let big = s.push(w);
    assert forall|t: Seq<char>| members(big).contains(t) <==> members(s).insert(w@).contains(
        t,
    ) by {
        if members(big).contains(t) {
            let i = choose|i: int| 0 <= i < big.len() && (#[trigger] big[i])@ == t;
            if i < s.len() {
                assert(s[i]@ == t);
            }
        }
        if members(s).contains(t) {
            let i = choose|i: int| 0 <= i < s.len() && (#[trigger] s[i])@ == t;
            assert(big[i]@ == t);
        }
        if t == w@ {
            assert(big[s.len() as int]@ == t);
        }
    }
    assert(members(big) =~= members(s).insert(w@));
}

/// The members of two collections joined are the members of either.
pub proof fn lemma_members_concat(a: Seq<String>, b: Seq<String>)
    ensures
        members(a + b) == members(a).union(members(b)),
    decreases b.len(),
{
    if b.len() == 0 {
        assert(a + b =~= a);
        assert(members(b) =~= Set::empty());
        assert(members(a).union(members(b)) =~= members(a));
    } else {
        lemma_members_concat(a, b.drop_last());
        lemma_members_push(a + b.drop_last(), b.last());
        lemma_members_push(b.drop_last(), b.last());
        assert((a + b.drop_last()).push(b.last()) =~= a + b);
        assert(b.drop_last().push(b.last()) =~= b);
        assert(members(a + b) =~= members(a).union(members(b)));
    }
}

/// An ordered collection holds no token twice.
pub proof fn lemma_ordered_distinct(s: Seq<String>, up: bool)
    requires
        ordered(s, up),
    ensures
        distinct(s),
{
    assert forall|i: int, j: int| 0 <= i < j < s.len() implies (#[trigger] s[i])@ != (
    #[trigger] s[j])@ by {
        lemma_lex_irreflexive(s[i]@);
        assert(before(s[i]@, s[j]@, up));
    }
}

/// In an ordered collection that is not empty, a member is the last token or
/// stands before it.
pub proof fn lemma_last_bounds(s: Seq<String>, up: bool, t: Seq<char>)
    requires
        ordered(s, up),
        s.len() > 0,
        members(s).contains(t),
    ensures
        t == s.last()@ || before(t, s.last()@, up),
{
    let i = choose|i: int| 0 <= i < s.len() && (#[trigger] s[i])@ == t;
    if i < s.len() - 1 {
        assert(before(s[i]@, s[s.len() - 1]@, up));
    }
}

/// Without its last word an ordered collection has the same members but for
/// the last token.
pub proof fn lemma_members_drop_last(s: Seq<String>, up: bool)
    requires
        ordered(s, up),
        s.len() > 0,
    ensures
        ordered(s.drop_last(), up),
        members(s.drop_last()) == members(s).remove(s.last()@),
{
    let front = s.drop_last();
    assert forall|i: int, j: int| 0 <= i < j < front.len() implies before(
        #[trigger] front[i]@,
        #[trigger] front[j]@,
        up,
    ) by {
        assert(front[i] == s[i] && front[j] == s[j]);
    }
    assert(front.push(s.last()) =~= s);
    lemma_members_push(front, s.last());
    assert(!members(front).contains(s.last()@)) by {
        if members(front).contains(s.last()@) {
            let i = choose|i: int| 0 <= i < front.len() && (#[trigger] front[i])@ == s.last()@;
            assert(front[i] == s[i]);
            assert(before(s[i]@, s[s.len() - 1]@, up));
            lemma_lex_irreflexive(s.last()@);
        }
    }
    assert(members(front) =~= members(s).remove(s.last()@));
}

/// Two collections ordered in the same direction that have the same members
/// hold the same tokens at the same positions.
pub proof fn lemma_ordered_unique(x: Seq<String>, y: Seq<String>, up: bool)
    requires
        ordered(x, up),
        ordered(y, up),
        members(x) == members(y),
    ensures
        tokens(x) == tokens(y),
    decreases x.len(),
{
    if x.len() == 0 || y.len() == 0 {
        if x.len() > 0 {
            assert(members(x).contains(x[0]@));
            assert(members(y).contains(x[0]@));
        }
        if y.len() > 0 {
            assert(members(y).contains(y[0]@));
            assert(members(x).contains(y[0]@));
        }
        assert(tokens(x) =~= tokens(y));
    } else {
        let a = x.last()@;
        let b = y.last()@;
        assert(members(x).contains(a)) by {
            assert(x[x.len() - 1]@ == a);
        }
        assert(members(y).contains(b)) by {
            assert(y[y.len() - 1]@ == b);
        }
        lemma_last_bounds(y, up, a);
        lemma_last_bounds(x, up, b);
        if a != b {
            lemma_before_transitive(a, b, a, up);
            lemma_lex_irreflexive(a);
        }
        lemma_members_drop_last(x, up);
        lemma_members_drop_last(y, up);
        lemma_ordered_unique(x.drop_last(), y.drop_last(), up);
        let tx = tokens(x.drop_last());
        let ty = tokens(y.drop_last());
        assert(tx.len() == ty.len());
        assert forall|i: int| 0 <= i < x.len() implies tokens(x)[i] == tokens(y)[i] by {
            if i < x.len() - 1 {
                assert(tx[i] == ty[i]);
                assert(tx[i] == x[i]@);
                assert(ty[i] == y[i]@);
            }
        }
        assert(tokens(x) =~= tokens(y));
    }
}

/// Merges two collections, each ordered against the chosen direction, by taking
/// words from their ends. A token that both hold is kept once.
pub fn merge(a: Vec<String>, b: Vec<String>, up: bool) -> (out: Vec<String>)
    requires
        ordered(a@, !up),
        ordered(b@, !up),
    ensures
        ordered(out@, up),
        members(out@) == members(a@).union(members(b@)),
{
    let ghost a0 = a@;
    let ghost b0 = b@;
    let mut a = a;
    let mut b = b;
    let mut out: Vec<String> = Vec::new();
    while a.len() > 0 || b.len() > 0
        invariant
            ordered(a@, !up),
            ordered(b@, !up),
            ordered(out@, up),
            forall|i: int, j: int|
                0 <= i < out@.len() && 0 <= j < a@.len() ==> before(
                    #[trigger] out@[i]@,
                    #[trigger] a@[j]@,
                    up,
                ),
            forall|i: int, j: int|
                0 <= i < out@.len() && 0 <= j < b@.len() ==> before(
                    #[trigger] out@[i]@,
                    #[trigger] b@[j]@,
                    up,
                ),
            members(a@).union(members(b@)).union(members(out@)) =~= members(a0).union(
                members(b0),
            ),
        decreases a@.len() + b@.len(),
    {
        let ghost pa = a@;
        let ghost pb = b@;
        let ghost po = out@;
        let mut from_a: bool = true;
        let mut from_b: bool = true;
        if a.len() == 0 {
            from_a = false;
        } else if b.len() == 0 {
            from_b = false;
        } else {
            match place_of(a[a.len() - 1].as_str(), b[b.len() - 1].as_str()) {
                Place::Same => {},
                Place::Before => {
                    if up {
                        from_b = false;
                    } else {
                        from_a = false;
                    }
                },
                Place::After => {
                    if up {
                        from_a = false;
                    } else {
                        from_b = false;
                    }
                },
            }
        }
        let mut word: String = String::new();
        if from_a {
            word = a.pop().unwrap();
            proof {
                assert(a@ =~= pa.drop_last());
                assert(pa =~= a@.push(word));
                lemma_members_push(a@, word);
            }
        }
        if from_b {
            let other = b.pop().unwrap();
            proof {
                assert(b@ =~= pb.drop_last());
                assert(pb =~= b@.push(other));
                lemma_members_push(b@, other);
            }
            if !from_a {
                word = other;
            }
        }
        proof {
            lemma_members_push(po, word);
            assert forall|j: int| 0 <= j < a@.len() implies before(word@, #[trigger] a@[j]@, up) by {
                assert(a@[j] == pa[j]);
                if from_a {
                    assert(before(pa[j]@, pa.last()@, !up));
                } else {
                    if j < pa.len() - 1 {
                        assert(before(pa[j]@, pa.last()@, !up));
                        lemma_before_transitive(word@, pa.last()@, pa[j]@, up);
                    }
                }
            }
            assert forall|j: int| 0 <= j < b@.len() implies before(word@, #[trigger] b@[j]@, up) by {
                assert(b@[j] == pb[j]);
                if from_b {
                    assert(before(pb[j]@, pb.last()@, !up));
                } else {
                    if j < pb.len() - 1 {
                        assert(before(pb[j]@, pb.last()@, !up));
                        lemma_before_transitive(word@, pb.last()@, pb[j]@, up);
                    }
                }
            }
        }
        out.push(word);
        proof {
            assert forall|i: int, j: int| 0 <= i < j < out@.len() implies before(
                #[trigger] out@[i]@,
                #[trigger] out@[j]@,
                up,
            ) by {
                if j < po.len() {
                    assert(out@[i] == po[i] && out@[j] == po[j]);
                } else {
                    assert(out@[i] == po[i]);
                    if from_a {
                        assert(before(po[i]@, pa[pa.len() - 1]@, up));
                    } else {
                        assert(before(po[i]@, pb[pb.len() - 1]@, up));
                    }
                }
            }
        }
    }
    proof {
        assert(members(a@) =~= Set::empty());
        assert(members(b@) =~= Set::empty());
        assert(members(out@) =~= members(a0).union(members(b0)));
    }
    out
}

/// What stands before a word stands before everything the word stands before.
pub proof fn lemma_before_transitive(x: Seq<char>, y: Seq<char>, z: Seq<char>, up: bool)
    requires
        before(x, y, up),
        before(y, z, up),
    ensures
        before(x, z, up),
{
    if up {
        lemma_lex_transitive(x, y, z);
    } else {
        lemma_lex_transitive(z, y, x);
    }
}

/// Sorts the words in the chosen direction and keeps one word of each token.
pub fn sort_distinct(words: Vec<String>, up: bool) -> (out: Vec<String>)
    ensures
        ordered(out@, up),
        members(out@) == members(words@),
    decreases words@.len(),
{
    let n: usize = words.len();
    if n <= 1 {
        return words;
    }
    let ghost all = words@;
    let mut left = words;
    let right = left.split_off(n / 2);
    proof {
        assert(left@ + right@ =~= all);
        lemma_members_concat(left@, right@);
    }
    let l = sort_distinct(left, !up);
    let r = sort_distinct(right, !up);
    merge(l, r, up)
}

} // verus!
