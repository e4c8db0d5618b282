//! Nothing but an encoding decodes, and encodings sort as what they encode.
use vstd::prelude::*;
use vstd::utf8::*;

use super::{Datum, ESCAPE, MARK_FACT, MARK_INT, MARK_RECORD, MARK_STR, MARK_TERM};
use crate::bytes;
use crate::plan;
use crate::schema::{NameKey, Names, PredicateTy, Symbol};

verus! {

// ---- what decodes -----------------------------------------------------------

proof fn lemma_eight(s: Seq<u8>)
    ensures
        super::big_endian(super::of_big_endian(s), s.len()) == s,
    decreases s.len(),
{
    if s.len() > 0 {
        lemma_eight(s.drop_last());
        let (rest, last) = (super::of_big_endian(s.drop_last()), s.last());
        let all = super::of_big_endian(s);
        assert(all == rest * 256 + last as nat);
        assert(all / 256 == rest && all % 256 == last as nat);
        assert(s.drop_last().push(last) =~= s);
    } else {
        assert(s =~= Seq::<u8>::empty());
    }
}

proof fn lemma_escaped_first(c: u8, rest: Seq<u8>)
    ensures
        super::escaped(seq![c] + rest) == super::escaped_byte(c) + super::escaped(rest),
{
    super::lemma_escaped_concat(seq![c], rest);
    reveal_with_fuel(super::escaped, 2);
    assert(seq![c].drop_last() =~= Seq::<u8>::empty());
    assert(super::escaped(seq![c]) =~= super::escaped_byte(c));
}

proof fn lemma_only_strings(b: Seq<u8>, at: nat)
    requires
        super::read_str(b, at) is Ok,
    ensures
        ({
            let (raw, end) = super::read_str(b, at)->Ok_0;
            &&& at < end <= b.len()
            &&& b.subrange(at as int, end as int) == super::escaped(raw).push(MARK_TERM)
        }),
    decreases b.len() - at,
{
    let (raw, end) = super::read_str(b, at)->Ok_0;
    let here = b[at as int];
    if here == MARK_TERM {
        assert(b.subrange(at as int, end as int) =~= seq![MARK_TERM]);
        assert(super::escaped(raw).push(MARK_TERM) =~= seq![MARK_TERM]);
    } else if here != ESCAPE {
        lemma_only_strings(b, at + 1);
        let rest = super::read_str(b, at + 1)->Ok_0.0;
        lemma_escaped_first(here, rest);
        assert(b.subrange(at as int, end as int) =~= seq![here] + b.subrange(
            at as int + 1,
            end as int,
        ));
        assert(seq![here] + super::escaped(rest).push(MARK_TERM) =~= (seq![here]
            + super::escaped(rest)).push(MARK_TERM));
    } else {
        lemma_only_strings(b, at + 2);
        let rest = super::read_str(b, at + 2)->Ok_0.0;
        let second = b[at as int + 1];
        let c = (second - 1) as u8;
        lemma_escaped_first(c, rest);
        assert(super::escaped_byte(c) =~= seq![here, second]);
        assert(b.subrange(at as int, end as int) =~= seq![here, second] + b.subrange(
            at as int + 2,
            end as int,
        ));
        assert(seq![here, second] + super::escaped(rest).push(MARK_TERM) =~= (seq![here, second]
            + super::escaped(rest)).push(MARK_TERM));
    }
}

/// Only an encoding decodes: bytes that decode as a type are the encoding of the value they
/// decode to, from where it begins to where it ends, and the value is of the type.
pub proof fn law_only_an_encoding_decodes(names: Names, b: Seq<u8>, at: nat, ty: PredicateTy)
    requires
        super::decoded(names, b, at, ty) is Ok,
    ensures
        ({
            let (d, end) = super::decoded(names, b, at, ty)->Ok_0;
            &&& at < end <= b.len()
            &&& b.subrange(at as int, end as int) == super::enc(d)
            &&& super::fits(names, d, ty)
        }),
    decreases ty, 1nat, 0nat,
{
    let (d, end) = super::decoded(names, b, at, ty)->Ok_0;
    let mark = b[at as int];
    super::lemma_pow256_8();
    match ty {
        PredicateTy::Int => {
            let bits = b.subrange(at as int + 1, at as int + 9);
            lemma_eight(bits);
            super::lemma_of_big_endian(bits);
            assert(b.subrange(at as int, end as int) =~= seq![MARK_INT] + bits);
        },
        PredicateTy::Str => {
            lemma_only_strings(b, at + 1);
            let raw = super::read_str(b, at + 1)->Ok_0.0;
            decode_utf8_encode_utf8(raw);
            assert(b.subrange(at as int, end as int) =~= seq![MARK_STR] + b.subrange(
                at as int + 1,
                end as int,
            ));
            assert(seq![MARK_STR] + super::escaped(raw).push(MARK_TERM) =~= (seq![MARK_STR]
                + super::escaped(raw)).push(MARK_TERM));
        },
        PredicateTy::Fact(_) => {
            let bits = b.subrange(at as int + 1, at as int + 9);
            lemma_eight(bits);
            super::lemma_of_big_endian(bits);
            plan::lemma_bits(super::of_big_endian(bits) as u64);
            assert(b.subrange(at as int, end as int) =~= seq![MARK_FACT] + bits);
        },
        PredicateTy::Record(fields) => {
            let (found, past) = super::decoded_fields(
                names,
                b,
                at + 1,
                fields@,
                fields@.len(),
                ty,
            )->Ok_0;
            lemma_count(names, b, at + 1, fields@, fields@.len(), ty);
            assert(found.take(found.len() as int) =~= found);
            lemma_only_fields(names, b, at + 1, fields@, fields@.len(), ty, d);
            let values = super::values_of(found);
            assert(values.take(found.len() as int) =~= values);
            assert(b.subrange(at as int, end as int) =~= seq![MARK_RECORD] + b.subrange(
                at as int + 1,
                past as int,
            ) + seq![MARK_TERM]);
            assert(super::enc(d) == seq![MARK_RECORD] + super::enc_fields(values, d)
                + seq![MARK_TERM]);
        },
    }
}

proof fn lemma_count(
    names: Names,
    b: Seq<u8>,
    at: nat,
    fields: Seq<(NameKey, PredicateTy)>,
    k: nat,
    whole: PredicateTy,
)
    requires
        super::decoded_fields(names, b, at, fields, k, whole) is Ok,
    ensures
        super::decoded_fields(names, b, at, fields, k, whole)->Ok_0.0.len() == k,
    decreases k,
{
    if k > 0 {
        lemma_count(names, b, at, fields, (k - 1) as nat, whole);
    }
}

proof fn lemma_only_fields(
    names: Names,
    b: Seq<u8>,
    at: nat,
    fields: Seq<(NameKey, PredicateTy)>,
    k: nat,
    whole: PredicateTy,
    d: Datum,
)
    requires
        k <= fields.len(),
        at <= b.len(),
        super::decoded_fields(names, b, at, fields, k, whole) is Ok,
        d is Record,
        k <= d->Record_0.len(),
        d->Record_0.take(k as int) == super::decoded_fields(
            names,
            b,
            at,
            fields,
            k,
            whole,
        )->Ok_0.0,
    ensures
        ({
            let end = super::decoded_fields(names, b, at, fields, k, whole)->Ok_0.1;
            let values = super::values_of(d->Record_0);
            &&& at <= end <= b.len()
            &&& b.subrange(at as int, end as int) == super::enc_fields(values.take(k as int), d)
            &&& forall|i: int|
                0 <= i < k ==> names.text(Symbol::Schema(fields[i].0)) == Some(
                    (#[trigger] d->Record_0[i]).0,
                ) && super::fits(names, d->Record_0[i].1, fields[i].1)
        }),
    decreases whole, 0nat, k,
{
    let values = super::values_of(d->Record_0);
    if k > 0 {
        let j = (k - 1) as nat;
        let (before, from) = super::decoded_fields(names, b, at, fields, j, whole)->Ok_0;
        let (some, end) = super::decoded_fields(names, b, at, fields, k, whole)->Ok_0;
        assert(some.drop_last() =~= before);
        assert(d->Record_0.take(j as int) =~= d->Record_0.take(k as int).drop_last());
        lemma_only_fields(names, b, at, fields, j, whole, d);
        law_only_an_encoding_decodes(names, b, from, fields[j as int].1);
        assert(d->Record_0[j as int] == d->Record_0.take(k as int)[j as int]);
        assert(some[j as int] == some.last());
        super::lemma_enc_fields_step(d, j);
        assert(values[j as int] == d->Record_0[j as int].1);
        assert(b.subrange(at as int, end as int) =~= b.subrange(at as int, from as int)
            + b.subrange(from as int, end as int));
    } else {
        assert(values.take(0) =~= Seq::<Datum>::empty());
        assert(b.subrange(at as int, at as int) =~= Seq::<u8>::empty());
    }
}

// ---- what sorts -------------------------------------------------------------

/// Where two texts first differ, their encodings do.
proof fn lemma_behind(p: Seq<u8>, a: Seq<u8>, b: Seq<u8>)
    requires
        bytes::lex_lt(a, b),
    ensures
        bytes::lex_lt(p + a, p + b),
{
    let i = choose|i: int| bytes::differs_at(a, b, i);
    let at = p.len() + i;
    assert((p + a).take(at) =~= p + a.take(i));
    assert((p + b).take(at) =~= p + b.take(i));
    assert(bytes::differs_at(p + a, p + b, at));
}

proof fn lemma_strings_sort(a: Seq<u8>, b: Seq<u8>, s: Seq<u8>, t: Seq<u8>)
    requires
        bytes::lex_lt(a, b),
    ensures
        bytes::lex_lt(super::escaped(a).push(MARK_TERM) + s, super::escaped(b).push(MARK_TERM) + t),
    decreases a.len(),
{
    let i = choose|i: int| bytes::differs_at(a, b, i);
    let (x, y) = (
        super::escaped(a).push(MARK_TERM) + s,
        super::escaped(b).push(MARK_TERM) + t,
    );
    let rest = b.drop_first();
    assert(b =~= seq![b[0]] + rest);
    lemma_escaped_first(b[0], rest);
    let two = super::escaped_byte(b[0]);
    assert(y =~= two + (super::escaped(rest).push(MARK_TERM) + t));
    if a.len() == 0 {
        assert(super::escaped(a) =~= Seq::<u8>::empty());
        assert(x[0] == MARK_TERM);
        assert(y[0] == two[0]);
        assert(x.take(0) =~= y.take(0));
        assert(bytes::differs_at(x, y, 0));
    } else {
        let less = a.drop_first();
        assert(a =~= seq![a[0]] + less);
        lemma_escaped_first(a[0], less);
        let one = super::escaped_byte(a[0]);
        assert(x =~= one + (super::escaped(less).push(MARK_TERM) + s));
        if i == 0 {
            assert(x[0] == one[0] && y[0] == two[0]);
            if one[0] < two[0] {
                assert(x.take(0) =~= y.take(0));
                assert(bytes::differs_at(x, y, 0));
            } else {
                assert(x[1] == one[1] && y[1] == two[1]);
                assert(x.take(1) =~= y.take(1));
                assert(bytes::differs_at(x, y, 1));
            }
        } else {
            assert(a.take(i)[0] == b.take(i)[0]);
            assert(less.take(i - 1) =~= a.take(i).drop_first());
            assert(rest.take(i - 1) =~= b.take(i).drop_first());
            assert(bytes::differs_at(less, rest, i - 1));
            lemma_strings_sort(less, rest, s, t);
            lemma_behind(
                one,
                super::escaped(less).push(MARK_TERM) + s,
                super::escaped(rest).push(MARK_TERM) + t,
            );
        }
    }
}

/// Encoded strings sort as the strings do, by their bytes, whatever follows them.
pub proof fn law_strings_sort(x: Seq<char>, y: Seq<char>, s: Seq<u8>, t: Seq<u8>)
    requires
        bytes::lex_lt(encode_utf8(x), encode_utf8(y)),
    ensures
        bytes::lex_lt(super::enc_str(x) + s, super::enc_str(y) + t),
{
    let (a, b) = (encode_utf8(x), encode_utf8(y));
    lemma_strings_sort(a, b, s, t);
    let (p, q) = (super::escaped(a).push(MARK_TERM) + s, super::escaped(b).push(MARK_TERM) + t);
    lemma_behind(seq![MARK_STR], p, q);
    assert(super::enc_str(x) + s =~= seq![MARK_STR] + p);
    assert(super::enc_str(y) + t =~= seq![MARK_STR] + q);
}

/// Keys sort field by field: behind fields that are the same, what follows decides, and what
/// follows the first field that differs does not. Fields that are integers and strings sort as
/// the integers and the strings do.
pub proof fn law_keys_sort_field_by_field(p: Seq<u8>, a: Seq<u8>, b: Seq<u8>, x: i64, y: i64)
    requires
        bytes::lex_lt(a, b),
        x < y,
    ensures
        bytes::lex_lt(p + a, p + b),
        bytes::lex_lt(super::enc_i64(x) + b, super::enc_i64(y) + a),
{
    lemma_behind(p, a, b);
    super::law_integers_sort(x, y);
    let (m, n) = (super::enc_i64(x), super::enc_i64(y));
    super::lemma_big_endian_len(super::biased(x), 8);
    super::lemma_big_endian_len(super::biased(y), 8);
    let i = choose|i: int| bytes::differs_at(m, n, i);
    assert((m + b).take(i) =~= m.take(i));
    assert((n + a).take(i) =~= n.take(i));
    if i == m.len() {
        assert(n.take(i) =~= n);
        assert(m.take(i) =~= m);
    }
    assert(bytes::differs_at(m + b, n + a, i));
}

} // verus!
