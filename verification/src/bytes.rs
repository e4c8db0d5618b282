//! Byte strings in the order the store keeps them.
use vstd::prelude::*;

verus! {

/// Where `a` and `b` first differ, `a` has the smaller byte, or has ended.
pub open spec fn differs_at(a: Seq<u8>, b: Seq<u8>, i: int) -> bool {
    &&& 0 <= i < b.len()
    &&& i <= a.len()
    &&& a.take(i) == b.take(i)
    &&& (i == a.len() || a[i] < b[i])
}

/// `a` sorts before `b`: the lexicographic order of byte strings.
pub open spec fn lex_lt(a: Seq<u8>, b: Seq<u8>) -> bool {
    exists|i: int| differs_at(a, b, i)
}

/// `a` sorts before `b`, or is `b`.
pub open spec fn lex_le(a: Seq<u8>, b: Seq<u8>) -> bool {
    a == b || lex_lt(a, b)
}

pub proof fn lemma_lex_irreflexive(a: Seq<u8>)
    ensures
        !lex_lt(a, a),
{
}

pub proof fn lemma_lex_transitive(a: Seq<u8>, b: Seq<u8>, c: Seq<u8>)
    requires
        lex_lt(a, b),
        lex_lt(b, c),
    ensures
        lex_lt(a, c),
{
    let i = choose|i: int| differs_at(a, b, i);
    let j = choose|j: int| differs_at(b, c, j);
    let k = if i < j { i } else { j };
    assert(a.take(k) =~= a.take(i).take(k));
    assert(b.take(k) =~= b.take(i).take(k));
    assert(b.take(k) =~= b.take(j).take(k));
    assert(c.take(k) =~= c.take(j).take(k));
    if i < j {
        assert(b.take(j)[i] == c.take(j)[i]);
    } else if j < i {
        assert(a.take(i)[j] == b.take(i)[j]);
    }
    assert(differs_at(a, c, k));
}

pub proof fn lemma_lex_asymmetric(a: Seq<u8>, b: Seq<u8>)
    requires
        lex_lt(a, b),
    ensures
        !lex_lt(b, a),
        a != b,
{
    if lex_lt(b, a) {
        lemma_lex_transitive(a, b, a);
        lemma_lex_irreflexive(a);
    }
    lemma_lex_irreflexive(a);
}

/// The length of the longest common prefix.
pub open spec fn common(a: Seq<u8>, b: Seq<u8>) -> nat
    decreases a.len(),
{
    if a.len() == 0 || b.len() == 0 || a[0] != b[0] {
        0
    } else {
        1 + common(a.drop_first(), b.drop_first())
    }
}

proof fn lemma_common(a: Seq<u8>, b: Seq<u8>)
    ensures
        common(a, b) <= a.len(),
        common(a, b) <= b.len(),
        a.take(common(a, b) as int) == b.take(common(a, b) as int),
        common(a, b) < a.len() && common(a, b) < b.len() ==> a[common(a, b) as int] != b[common(
            a,
            b,
        ) as int],
    decreases a.len(),
{
    if a.len() == 0 || b.len() == 0 || a[0] != b[0] {
        assert(a.take(0) =~= b.take(0));
    } else {
        let (c, d) = (a.drop_first(), b.drop_first());
        lemma_common(c, d);
        let n = common(c, d) as int;
        assert forall|i: int| 0 <= i < n + 1 implies a[i] == b[i] by {
            if i > 0 {
                assert(c.take(n)[i - 1] == d.take(n)[i - 1]);
            }
        }
        assert(a.take(n + 1) =~= b.take(n + 1));
    }
}

/// The order is total.
pub proof fn lemma_lex_total(a: Seq<u8>, b: Seq<u8>)
    ensures
        lex_lt(a, b) || lex_lt(b, a) || a == b,
{
    lemma_common(a, b);
    let n = common(a, b) as int;
    if n == a.len() && n == b.len() {
        assert(a.take(n) =~= a);
        assert(b.take(n) =~= b);
    } else if n == a.len() {
        assert(differs_at(a, b, n));
    } else if n == b.len() {
        assert(differs_at(b, a, n));
    } else if a[n] < b[n] {
        assert(differs_at(a, b, n));
    } else {
        assert(differs_at(b, a, n));
    }
}

/// `a` sorts before `b`.
pub fn less(a: &[u8], b: &[u8]) -> (r: bool)
    ensures
        r == lex_lt(a@, b@),
{
    let mut i: usize = 0;
    while i < a.len() && i < b.len()
        invariant
            i <= a@.len(),
            i <= b@.len(),
            a@.take(i as int) == b@.take(i as int),
        decreases a@.len() - i,
    {
        if a[i] != b[i] {
            let r = a[i] < b[i];
            proof {
                if r {
                    assert(differs_at(a@, b@, i as int));
                } else {
                    assert(differs_at(b@, a@, i as int)) by {
                        assert(b@.take(i as int) == a@.take(i as int));
                    }
                    lemma_lex_asymmetric(b@, a@);
                }
            }
            return r;
        }
        proof {
            assert(a@.take(i + 1) =~= a@.take(i as int).push(a@[i as int]));
            assert(b@.take(i + 1) =~= b@.take(i as int).push(b@[i as int]));
        }
        i += 1;
    }
    let r = i < b.len();
    proof {
        if r {
            assert(differs_at(a@, b@, i as int));
        } else if i < a.len() {
            assert(differs_at(b@, a@, i as int));
            lemma_lex_asymmetric(b@, a@);
        } else {
            assert(a@.take(i as int) =~= a@);
            assert(b@.take(i as int) =~= b@);
            lemma_lex_irreflexive(a@);
        }
    }
    r
}

/// Whether two byte strings are equal.
pub fn same_bytes(a: &[u8], b: &[u8]) -> (r: bool)
    ensures
        r == (a@ == b@),
{
    if a.len() != b.len() {
        return false;
    }
    let mut i: usize = 0;
    while i < a.len()
        invariant
            a@.len() == b@.len(),
            i <= a@.len(),
            forall|j: int| 0 <= j < i ==> a@[j] == b@[j],
        decreases a@.len() - i,
    {
        if a[i] != b[i] {
            return false;
        }
        i += 1;
    }
    proof {
        assert(a@ =~= b@);
    }
    true
}

/// `s` begins with `prefix`.
pub open spec fn begins_with(s: Seq<u8>, prefix: Seq<u8>) -> bool {
    prefix.len() <= s.len() && s.take(prefix.len() as int) == prefix
}

/// Whether `s` begins with `prefix`.
pub fn starts_with(s: &[u8], prefix: &[u8]) -> (r: bool)
    ensures
        r == begins_with(s@, prefix@),
{
    if prefix.len() > s.len() {
        return false;
    }
    let mut i: usize = 0;
    while i < prefix.len()
        invariant
            prefix@.len() <= s@.len(),
            i <= prefix@.len(),
            forall|j: int| 0 <= j < i ==> s@[j] == prefix@[j],
        decreases prefix@.len() - i,
    {
        if s[i] != prefix[i] {
            proof {
                assert(s@.take(prefix@.len() as int)[i as int] != prefix@[i as int]);
            }
            return false;
        }
        i += 1;
    }
    proof {
        assert(s@.take(prefix@.len() as int) =~= prefix@);
    }
    true
}

/// Append a copy of `more`.
pub fn append_bytes(out: &mut Vec<u8>, more: &[u8])
    ensures
        final(out)@ == old(out)@ + more@,
{
    out.extend_from_slice(more);
    proof {
        assert(out@ =~= old(out)@ + more@);
    }
}

/// A copy of `bytes[from..to]`.
pub fn sub_bytes(bytes: &[u8], from: usize, to: usize) -> (out: Vec<u8>)
    requires
        from <= to <= bytes@.len(),
    ensures
        out@ == bytes@.subrange(from as int, to as int),
{
    vstd::slice::slice_to_vec(vstd::slice::slice_subrange(bytes, from, to))
}

// ---- the end of a prefix's range --------------------------------------------

/// The least byte string sorting after everything that begins with `prefix`: its last
/// byte that can grow, grown by one, and nothing after it. `None` where nothing sorts
/// after all of them: a prefix of `0xff` bytes alone.
pub open spec fn successor(prefix: Seq<u8>) -> Option<Seq<u8>>
    decreases prefix.len(),
{
    if prefix.len() == 0 {
        None
    } else if prefix.last() < 0xff {
        Some(prefix.drop_last().push((prefix.last() + 1) as u8))
    } else {
        successor(prefix.drop_last())
    }
}

/// See [`successor`].
pub fn strinc(prefix: &[u8]) -> (end: Option<Vec<u8>>)
    ensures
        match (end, successor(prefix@)) {
            (Some(bytes), Some(expected)) => bytes@ == expected,
            (None, None) => true,
            _ => false,
        },
{
    let mut n: usize = prefix.len();
    proof {
        assert(prefix@.take(n as int) =~= prefix@);
    }
    while n > 0
        invariant
            n <= prefix@.len(),
            successor(prefix@) == successor(prefix@.take(n as int)),
        decreases n,
    {
        proof {
            assert(prefix@.take(n as int).drop_last() =~= prefix@.take(n - 1));
        }
        if prefix[n - 1] < 0xff {
            let mut out: Vec<u8> = sub_bytes(prefix, 0, n - 1);
            proof {
                assert(out@ =~= prefix@.take(n - 1));
            }
            out.push(prefix[n - 1] + 1);
            return Some(out);
        }
        n -= 1;
    }
    None
}

proof fn lemma_successor(prefix: Seq<u8>)
    ensures
        match successor(prefix) {
            Some(end) => exists|k: int|
                {
                    &&& 0 <= k < prefix.len()
                    &&& prefix[k] < 0xff
                    &&& #[trigger] prefix.take(k).push((prefix[k] + 1) as u8) == end
                    &&& forall|j: int| k < j < prefix.len() ==> prefix[j] == 0xff
                },
            None => forall|j: int| 0 <= j < prefix.len() ==> prefix[j] == 0xff,
        },
    decreases prefix.len(),
{
    if prefix.len() > 0 {
        let last = prefix.len() - 1;
        if prefix.last() < 0xff {
            assert(prefix.drop_last() =~= prefix.take(last));
            assert(prefix.take(last).push((prefix[last] + 1) as u8) == successor(prefix)->0);
        } else {
            lemma_successor(prefix.drop_last());
            let p = prefix.drop_last();
            assert forall|j: int| 0 <= j < last implies prefix[j] == p[j] by {}
            assert(prefix[last] == 0xff);
            if successor(prefix) is Some {
                let k = choose|k: int|
                    {
                        &&& 0 <= k < p.len()
                        &&& p[k] < 0xff
                        &&& #[trigger] p.take(k).push((p[k] + 1) as u8) == successor(p)->0
                        &&& forall|j: int| k < j < p.len() ==> p[j] == 0xff
                    };
                assert(p.take(k) =~= prefix.take(k));
                assert(prefix.take(k).push((prefix[k] + 1) as u8) == successor(prefix)->0);
                assert forall|j: int| k < j < prefix.len() implies prefix[j] == 0xff by {
                    if j < last {
                        assert(p[j] == 0xff);
                    }
                }
            } else {
                assert forall|j: int| 0 <= j < prefix.len() implies prefix[j] == 0xff by {
                    if j < last {
                        assert(p[j] == 0xff);
                    }
                }
            }
        }
    }
}

/// What begins with a prefix is exactly what sorts from the prefix up to its
/// successor, so a prefix match is a range of the store.
pub proof fn law_prefix_is_a_range(prefix: Seq<u8>, s: Seq<u8>)
    ensures
        begins_with(s, prefix) <==> lex_le(prefix, s) && (successor(prefix) matches Some(end)
            ==> lex_lt(s, end)),
{
    lemma_successor(prefix);
    let n = prefix.len() as int;
    if begins_with(s, prefix) {
        if s.len() == n {
            assert(s.take(n) =~= s);
        } else {
            assert(prefix.take(n) =~= prefix);
            assert(differs_at(prefix, s, n));
        }
        if let Some(end) = successor(prefix) {
            let k = choose|k: int|
                {
                    &&& 0 <= k < prefix.len()
                    &&& prefix[k] < 0xff
                    &&& #[trigger] prefix.take(k).push((prefix[k] + 1) as u8) == end
                    &&& forall|j: int| k < j < prefix.len() ==> prefix[j] == 0xff
                };
            assert(s.take(n)[k] == prefix[k]);
            assert(s.take(k) =~= s.take(n).take(k));
            assert(end.take(k) =~= prefix.take(k));
            assert(differs_at(s, end, k));
        }
    } else if lex_le(prefix, s) {
        if prefix == s {
            assert(s.take(n) =~= s);
        } else {
            let i = choose|i: int| differs_at(prefix, s, i);
            if i == n {
                assert(prefix.take(n) =~= prefix);
            } else {
                // s is larger than the prefix at a byte the prefix has.
                lemma_above(prefix, s, i);
            }
        }
    }
}

proof fn lemma_above(prefix: Seq<u8>, s: Seq<u8>, i: int)
    requires
        differs_at(prefix, s, i),
        i < prefix.len(),
    ensures
        successor(prefix) matches Some(end) && !lex_lt(s, end),
{
    lemma_successor(prefix);
    assert(prefix[i] < 0xff);
    let end = successor(prefix)->0;
    let k = choose|k: int|
        {
            &&& 0 <= k < prefix.len()
            &&& prefix[k] < 0xff
            &&& #[trigger] prefix.take(k).push((prefix[k] + 1) as u8) == end
            &&& forall|j: int| k < j < prefix.len() ==> prefix[j] == 0xff
        };
    assert(i <= k);
    if i < k {
        assert(end.take(i) =~= prefix.take(i));
        assert(end[i] == prefix[i]);
        assert(differs_at(end, s, i));
        lemma_lex_asymmetric(end, s);
    } else {
        assert(end.take(k) =~= prefix.take(k));
        if s[k] > end[k] {
            assert(differs_at(end, s, k));
            lemma_lex_asymmetric(end, s);
        } else {
            assert(s[k] == end[k]);
            assert(s.take(k + 1) =~= end) by {
                assert(s.take(k + 1) =~= s.take(k).push(s[k]));
            }
            if s.len() == k + 1 {
                assert(s =~= end);
                lemma_lex_irreflexive(s);
            } else {
                assert(end.take(k + 1) =~= end);
                assert(differs_at(end, s, k + 1));
                lemma_lex_asymmetric(end, s);
            }
        }
    }
}

} // verus!
