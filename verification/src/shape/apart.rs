//! Text that can be told apart: pieces of a text that end where they are seen to end.
use vstd::prelude::*;

use crate::lexer;
use crate::text;

verus! {

/// What is left behind the same beginning is the same.
pub proof fn lemma_strip(p: Seq<char>, a: Seq<char>, b: Seq<char>)
    requires
        p + a == p + b,
    ensures
        a == b,
{
    assert((p + a).len() == p.len() + a.len());
    assert((p + b).len() == p.len() + b.len());
    assert forall|i: int| 0 <= i < a.len() implies a[i] == b[i] by {
        assert((p + a)[p.len() + i] == a[i]);
        assert((p + b)[p.len() + i] == b[i]);
    }
    assert(a =~= b);
}

/// Every character is one of a class.
pub open spec fn all_of(class: spec_fn(char) -> bool, word: Seq<char>) -> bool {
    forall|i: int| 0 <= i < word.len() ==> class(#[trigger] word[i])
}

/// A text that does not begin with a character of a class.
pub open spec fn stops(class: spec_fn(char) -> bool, rest: Seq<char>) -> bool {
    rest.len() > 0 ==> !class(rest[0])
}

proof fn lemma_no_longer(
    class: spec_fn(char) -> bool,
    a: Seq<char>,
    b: Seq<char>,
    s: Seq<char>,
    t: Seq<char>,
)
    requires
        all_of(class, b),
        stops(class, s),
        a + s == b + t,
    ensures
        b.len() <= a.len(),
{
    if a.len() < b.len() {
        assert((a + s).len() == (b + t).len());
        assert((a + s)[a.len() as int] == s[0]);
        assert((b + t)[a.len() as int] == b[a.len() as int]);
    }
}

/// Words of a class that are followed by something else are told apart.
pub proof fn lemma_word(
    class: spec_fn(char) -> bool,
    a: Seq<char>,
    b: Seq<char>,
    s: Seq<char>,
    t: Seq<char>,
)
    requires
        all_of(class, a),
        all_of(class, b),
        stops(class, s),
        stops(class, t),
        a + s == b + t,
    ensures
        a == b,
        s == t,
{
    lemma_no_longer(class, a, b, s, t);
    lemma_no_longer(class, b, a, t, s);
    assert forall|i: int| 0 <= i < a.len() implies a[i] == b[i] by {
        assert((a + s)[i] == a[i]);
        assert((b + t)[i] == b[i]);
    }
    assert(a =~= b);
    lemma_strip(a, s, t);
}

/// A digit.
pub open spec fn a_digit() -> spec_fn(char) -> bool {
    |c: char| '0' <= c <= '9'
}

/// Numbers in decimal are told apart.
pub proof fn lemma_decimals(m: nat, n: nat, s: Seq<char>, t: Seq<char>)
    requires
        text::decimal(m) + s == text::decimal(n) + t,
        stops(a_digit(), s),
        stops(a_digit(), t),
    ensures
        m == n,
        s == t,
{
    lexer::lemma_decimal(m);
    lexer::lemma_decimal(n);
    lemma_word(a_digit(), text::decimal(m), text::decimal(n), s, t);
}

/// Integers in decimal are told apart.
pub proof fn lemma_integers(m: int, n: int, s: Seq<char>, t: Seq<char>)
    requires
        text::signed_decimal(m) + s == text::signed_decimal(n) + t,
        stops(a_digit(), s),
        stops(a_digit(), t),
    ensures
        m == n,
        s == t,
{
    reveal_strlit("-");
    let (x, y) = (text::signed_decimal(m) + s, text::signed_decimal(n) + t);
    let (p, q) = (
        if m < 0 {
            -m
        } else {
            m
        } as nat,
        if n < 0 {
            -n
        } else {
            n
        } as nat,
    );
    lexer::lemma_decimal(p);
    lexer::lemma_decimal(q);
    if m < 0 {
        assert(x =~= "-"@ + (text::decimal(p) + s));
        assert(x[0] == '-');
    } else {
        assert(x[0] == text::decimal(p)[0]);
    }
    if n < 0 {
        assert(y =~= "-"@ + (text::decimal(q) + t));
        assert(y[0] == '-');
    } else {
        assert(y[0] == text::decimal(q)[0]);
    }
    if m < 0 {
        lemma_strip("-"@, text::decimal(p) + s, text::decimal(q) + t);
    }
    lemma_decimals(p, q, s, t);
}

} // verus!
