//! Character-level vocabulary shared by the transforms: the blank set, decimal
//! digits, runs at either end of a token, and trimming.

use vstd::prelude::*;

verus! {

/// The characters that trimming removes: space, tab and newline, and no others.
pub open spec fn is_blank(c: char) -> bool {
    c == ' ' || c == '\t' || c == '\n'
}

/// An ASCII decimal digit.
pub open spec fn is_digit(c: char) -> bool {
    '0' <= c && c <= '9'
}

/// The characters of every token of a collection, in order.
pub open spec fn tokens(words: Seq<String>) -> Seq<Seq<char>> {
    Seq::new(words.len(), |i: int| words[i]@)
}

/// Whether the character is a space, a tab or a newline.
pub fn blank(c: char) -> (r: bool)
    ensures
        r == is_blank(c),
{
    c == ' ' || c == '\t' || c == '\n'
}

/// Whether the character is one of `0` to `9`.
pub fn digit(c: char) -> (r: bool)
    ensures
        r == is_digit(c),
{
    '0' <= c && c <= '9'
}

/// The characters of a string, decoded once into a vector.
pub fn chars_of(word: &str) -> (r: Vec<char>)
    ensures
        r@ == word@,
{
    let mut out: Vec<char> = Vec::new();
    for c in it: word.chars()
        invariant
            out@ == it.seq().take(it.index()),
            it.seq() == word@,
    {
        out.push(c);
    }
    out
}

/// How many characters at the start of `s` satisfy `p` before the first one
/// that does not.
pub open spec fn run_at_start(s: Seq<char>, p: spec_fn(char) -> bool) -> nat
    decreases s.len(),
{
    if s.len() > 0 && p(s[0]) {
        1 + run_at_start(s.drop_first(), p)
    } else {
        0
    }
}

/// How many characters at the end of `s` satisfy `p` after the last one that
/// does not.
pub open spec fn run_at_end(s: Seq<char>, p: spec_fn(char) -> bool) -> nat
    decreases s.len(),
{
    if s.len() > 0 && p(s.last()) {
        1 + run_at_end(s.drop_last(), p)
    } else {
        0
    }
}

/// Number of blanks a token starts with.
pub open spec fn blanks_at_start(s: Seq<char>) -> nat {
    run_at_start(s, |c: char| is_blank(c))
}

/// Number of blanks a token ends with.
pub open spec fn blanks_at_end(s: Seq<char>) -> nat {
    run_at_end(s, |c: char| is_blank(c))
}

/// Number of decimal digits a token starts with.
pub open spec fn digits_at_start(s: Seq<char>) -> nat {
    run_at_start(s, |c: char| is_digit(c))
}

/// A token without the blanks at its start and at its end. Blanks inside stay.
pub open spec fn trimmed(s: Seq<char>) -> Seq<char> {
    let t = s.skip(blanks_at_start(s) as int);
    t.take(t.len() - blanks_at_end(t))
}

/// The run at the start is the only `n` with `p` on everything before position
/// `n` and not on position `n` itself.
pub proof fn lemma_run_at_start_is(s: Seq<char>, p: spec_fn(char) -> bool, n: int)
    requires
        0 <= n <= s.len(),
        forall|j: int| 0 <= j < n ==> p(#[trigger] s[j]),
        n == s.len() || !p(s[n]),
    ensures
        run_at_start(s, p) == n,
    decreases n,
{
    if n > 0 {
        let rest = s.drop_first();
        assert forall|j: int| 0 <= j < n - 1 implies p(#[trigger] rest[j]) by {
            assert(rest[j] == s[j + 1]);
        }
        lemma_run_at_start_is(rest, p, n - 1);
    }
}

/// The run at the end starts at the only `n` with `p` on everything from
/// position `n` on and not on position `n - 1`.
pub proof fn lemma_run_at_end_is(s: Seq<char>, p: spec_fn(char) -> bool, n: int)
    requires
        0 <= n <= s.len(),
        forall|j: int| n <= j < s.len() ==> p(#[trigger] s[j]),
        n == 0 || !p(s[n - 1]),
    ensures
        run_at_end(s, p) == s.len() - n,
    decreases s.len() - n,
{
    if n < s.len() {
        let rest = s.drop_last();
        assert forall|j: int| n <= j < rest.len() implies p(#[trigger] rest[j]) by {
            assert(rest[j] == s[j]);
        }
        lemma_run_at_end_is(rest, p, n);
    }
}

/// What the run at the start consists of, and what stops it.
pub proof fn lemma_run_at_start_bounds(s: Seq<char>, p: spec_fn(char) -> bool)
    ensures
        run_at_start(s, p) <= s.len(),
        forall|j: int| 0 <= j < run_at_start(s, p) ==> p(#[trigger] s[j]),
        run_at_start(s, p) < s.len() ==> !p(s[run_at_start(s, p) as int]),
    decreases s.len(),
{
    if s.len() > 0 && p(s[0]) {
        let rest = s.drop_first();
        lemma_run_at_start_bounds(rest, p);
        assert forall|j: int| 0 <= j < run_at_start(s, p) implies p(#[trigger] s[j]) by {
            if j > 0 {
                assert(s[j] == rest[j - 1]);
            }
        }
        if run_at_start(s, p) < s.len() {
            assert(s[run_at_start(s, p) as int] == rest[run_at_start(rest, p) as int]);
        }
    }
}

/// What the run at the end consists of, and what stops it.
pub proof fn lemma_run_at_end_bounds(s: Seq<char>, p: spec_fn(char) -> bool)
    ensures
        run_at_end(s, p) <= s.len(),
        forall|j: int| s.len() - run_at_end(s, p) <= j < s.len() ==> p(#[trigger] s[j]),
        run_at_end(s, p) < s.len() ==> !p(s[s.len() - run_at_end(s, p) - 1]),
    decreases s.len(),
{
    if s.len() > 0 && p(s.last()) {
        let rest = s.drop_last();
        lemma_run_at_end_bounds(rest, p);
        assert forall|j: int| s.len() - run_at_end(s, p) <= j < s.len() implies p(
            #[trigger] s[j],
        ) by {
            if j < s.len() - 1 {
                assert(s[j] == rest[j]);
            }
        }
        if run_at_end(s, p) < s.len() {
            assert(s[s.len() - run_at_end(s, p) - 1] == rest[rest.len() - run_at_end(rest, p) - 1]);
        }
    }
}

/// A trimmed token neither starts nor ends with a blank.
pub proof fn lemma_trimmed_ends(s: Seq<char>)
    ensures
        trimmed(s).len() <= s.len(),
        trimmed(s).len() > 0 ==> !is_blank(trimmed(s).first()) && !is_blank(trimmed(s).last()),
{
    let p = |c: char| is_blank(c);
    lemma_run_at_start_bounds(s, p);
    let t = s.skip(blanks_at_start(s) as int);
    lemma_run_at_end_bounds(t, p);
    if t.len() > 0 {
        assert(t[0] == s[blanks_at_start(s) as int]);
        assert(blanks_at_end(t) < t.len()) by {
            if blanks_at_end(t) == t.len() {
                assert(p(t[0]));
            }
        }
        let r = trimmed(s);
        assert(r.first() == t[0]);
        assert(r.last() == t[t.len() - blanks_at_end(t) - 1]);
    }
}

/// A token that neither starts nor ends with a blank is its own trimmed form.
pub proof fn lemma_trimmed_fixed(s: Seq<char>)
    requires
        s.len() > 0 ==> !is_blank(s.first()) && !is_blank(s.last()),
    ensures
        trimmed(s) == s,
{
    let p = |c: char| is_blank(c);
    lemma_run_at_start_is(s, p, 0);
    assert(s.skip(0) =~= s);
    lemma_run_at_end_is(s, p, s.len() as int);
    assert(s.take(s.len() as int) =~= s);
}

/// Trimming twice gives what trimming once gives.
pub proof fn lemma_trimmed_idempotent(s: Seq<char>)
    ensures
        trimmed(trimmed(s)) == trimmed(s),
{
    lemma_trimmed_ends(s);
    lemma_trimmed_fixed(trimmed(s));
}

/// The first position at or after `lo` that holds no blank, or `hi`.
pub fn skip_blanks(chars: &Vec<char>, lo: usize, hi: usize) -> (a: usize)
    requires
        lo <= hi <= chars@.len(),
    ensures
        a == lo + blanks_at_start(chars@.subrange(lo as int, hi as int)),
        lo <= a <= hi,
{
    let mut a: usize = lo;
    while a < hi && blank(chars[a])
        invariant
            lo <= a <= hi <= chars@.len(),
            forall|j: int| lo <= j < a ==> is_blank(#[trigger] chars@[j]),
        decreases hi - a,
    {
        a += 1;
    }
    proof {
        lemma_run_at_start_is(
            chars@.subrange(lo as int, hi as int),
            |c: char| is_blank(c),
            a - lo,
        );
    }
    a
}

/// The first position at or after `lo` that holds no decimal digit, or `hi`.
pub fn skip_digits(chars: &Vec<char>, lo: usize, hi: usize) -> (a: usize)
    requires
        lo <= hi <= chars@.len(),
    ensures
        a == lo + digits_at_start(chars@.subrange(lo as int, hi as int)),
        lo <= a <= hi,
{
    let mut a: usize = lo;
    while a < hi && digit(chars[a])
        invariant
            lo <= a <= hi <= chars@.len(),
            forall|j: int| lo <= j < a ==> is_digit(#[trigger] chars@[j]),
        decreases hi - a,
    {
        a += 1;
    }
    proof {
        lemma_run_at_start_is(
            chars@.subrange(lo as int, hi as int),
            |c: char| is_digit(c),
            a - lo,
        );
    }
    a
}

/// The position just after the last character before `hi` that is no blank, or
/// `lo`.
pub fn drop_blanks(chars: &Vec<char>, lo: usize, hi: usize) -> (b: usize)
    requires
        lo <= hi <= chars@.len(),
    ensures
        b == hi - blanks_at_end(chars@.subrange(lo as int, hi as int)),
        lo <= b <= hi,
{
    let mut b: usize = hi;
    while b > lo && blank(chars[b - 1])
        invariant
            lo <= b <= hi <= chars@.len(),
            forall|j: int| b <= j < hi ==> is_blank(#[trigger] chars@[j]),
        decreases b - lo,
    {
        b -= 1;
    }
    proof {
        lemma_run_at_end_is(
            chars@.subrange(lo as int, hi as int),
            |c: char| is_blank(c),
            b - lo,
        );
    }
    b
}

/// Where the trimmed form of `chars[lo..]` lies inside `chars`.
pub fn trim_bounds(chars: &Vec<char>, lo: usize) -> (r: (usize, usize))
    requires
        lo <= chars@.len(),
    ensures
        lo <= r.0 <= r.1 <= chars@.len(),
        chars@.subrange(r.0 as int, r.1 as int) == trimmed(chars@.skip(lo as int)),
{
    let n: usize = chars.len();
    let a: usize = skip_blanks(chars, lo, n);
    let b: usize = drop_blanks(chars, a, n);
    proof {
        let s = chars@.skip(lo as int);
        assert(s =~= chars@.subrange(lo as int, n as int));
        let t = s.skip(blanks_at_start(s) as int);
        assert(t =~= chars@.subrange(a as int, n as int));
        assert(chars@.subrange(a as int, b as int) =~= t.take(t.len() - blanks_at_end(t)));
    }
    (a, b)
}

} // verus!
