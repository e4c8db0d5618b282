//! What is wrong with a parse is what lowering it reports: one report for every fault.
use vstd::prelude::*;
use vstd::utf8::encode_utf8;

use super::{Entry, Item};
use crate::bytes;
use crate::cst::{CstNode, Rule, Span};
use crate::lexer;
use crate::lexer::Token;
use crate::lower;
use crate::lower::{Field, Lowered, Made};
use crate::schema::{Names, Schema};
use crate::text;

verus! {

// ---- faults -----------------------------------------------------------------

/// A number whose text denotes no integer.
pub open spec fn bad_number(nodes: Seq<CstNode>, negative: bool) -> bool {
    lower::token_of(nodes, Token::Nat) matches Some(text) && match lexer::nat_value(text) {
        Ok(n) => lexer::signed_value(n, negative) is Err,
        Err(_) => true,
    }
}

/// A string whose text denotes none.
pub open spec fn bad_string(nodes: Seq<CstNode>) -> bool {
    lower::token_of(nodes, Token::String) matches Some(text) && lexer::str_value(text) is Err
}

/// The names of some fields.
pub open spec fn names_of(entries: Seq<Entry>) -> Set<Seq<char>> {
    entries.map_values(|entry: Entry| entry.0).to_set()
}

/// How many faults a node has of its own: one for a literal that denotes nothing, one for a
/// predicate the schema lacks, and one for every field whose name the record has already.
pub open spec fn own_faults(
    schema: Schema,
    rule: Rule,
    nodes: Seq<CstNode>,
    items: Seq<Item>,
) -> int {
    match rule {
        Rule::NatPrimary => if bad_number(nodes, false) {
            1
        } else {
            0
        },
        Rule::IntPrimary => if bad_number(nodes, true) {
            1
        } else {
            0
        },
        Rule::StringPrimary | Rule::StringPrefixPrimary => if bad_string(nodes) {
            1
        } else {
            0
        },
        Rule::AnonRecordPrimary => match super::first_fields(items) {
            Some(entries) => entries.len() - names_of(entries).len(),
            None => 0,
        },
        Rule::FactPattern => if schema.position(
            lower::token_or_empty(nodes, Token::QId),
        ) is None {
            1
        } else {
            0
        },
        _ => 0,
    }
}

/// How many faults there are in a node.
pub open spec fn faults(schema: Schema, node: CstNode) -> int
    decreases node, 1nat, 0nat,
{
    match node {
        CstNode::Token { .. } => 0,
        CstNode::Rule { rule, children, .. } => faults_under(schema, node, children@.len())
            + own_faults(
            schema,
            rule,
            children@,
            super::meant_children(schema, node, children@.len()),
        ),
    }
}

/// How many there are in the first `k` nodes under a node.
pub open spec fn faults_under(schema: Schema, node: CstNode, k: nat) -> int
    decreases node, 0nat, k,
{
    match node {
        CstNode::Token { .. } => 0,
        CstNode::Rule { children, .. } => if k == 0 || k > children@.len() {
            0
        } else {
            faults_under(schema, node, (k - 1) as nat) + faults(schema, children@[k - 1])
        },
    }
}

// ---- records ----------------------------------------------------------------

proof fn lemma_twice(st: Lowered, fields: Seq<Field>)
    ensures
        lower::given_twice(st, fields).reports.len() == st.reports.len() + fields.len(),
    decreases fields.len(),
{
    if fields.len() > 0 {
        lemma_twice(st, fields.drop_last());
    }
}

proof fn lemma_from_inserted(sorted: Seq<Field>, field: Field, names: Names, one: Field)
    requires
        lower::inserted(sorted, field, names).contains(one),
    ensures
        one == field || sorted.contains(one),
    decreases sorted.len(),
{
    let all = lower::inserted(sorted, field, names);
    let i = choose|i: int| 0 <= i < all.len() && all[i] == one;
    if sorted.len() == 0 || !text::before(
        lower::name_text(names, field.name),
        lower::name_text(names, sorted.last().name),
    ) {
        if i < sorted.len() {
            assert(sorted[i] == one);
        }
    } else {
        let inner = lower::inserted(sorted.drop_last(), field, names);
        if i < inner.len() {
            assert(inner[i] == one);
            lemma_from_inserted(sorted.drop_last(), field, names, one);
            if one != field {
                let j = choose|j: int|
                    0 <= j < sorted.drop_last().len() && sorted.drop_last()[j] == one;
                assert(sorted[j] == one);
            }
        } else {
            assert(sorted[sorted.len() - 1] == one);
        }
    }
}

proof fn lemma_from_by_name(fields: Seq<Field>, names: Names, one: Field)
    requires
        lower::by_name(fields, names).contains(one),
    ensures
        fields.contains(one),
    decreases fields.len(),
{
    if fields.len() > 0 {
        let less = fields.drop_last();
        lemma_from_inserted(lower::by_name(less, names), fields.last(), names, one);
        if one == fields.last() {
            assert(fields[fields.len() - 1] == one);
        } else {
            lemma_from_by_name(less, names, one);
            let j = choose|j: int| 0 <= j < less.len() && less[j] == one;
            assert(fields[j] == one);
        }
    }
}

proof fn lemma_from_kept(fields: Seq<Field>, one: Field)
    requires
        lower::kept(fields).contains(one),
    ensures
        fields.contains(one),
    decreases fields.len(),
{
    if fields.len() > 0 {
        let less = fields.drop_last();
        let before = lower::kept(less);
        let all = lower::kept(fields);
        let i = choose|i: int| 0 <= i < all.len() && all[i] == one;
        if i < before.len() {
            assert(before[i] == one);
            lemma_from_kept(less, one);
            let j = choose|j: int| 0 <= j < less.len() && less[j] == one;
            assert(fields[j] == one);
        } else {
            assert(fields[fields.len() - 1] == one);
        }
    }
}

/// As many fields are given again as the record has fewer names than fields.
proof fn lemma_repeated(st: Lowered, written: Seq<Field>)
    requires
        super::there(st, Made::Fields(written)),
    ensures
        lower::repeated(lower::by_name(written, st.names)).len() == written.len() - names_of(
            super::entries_of(st, written),
        ).len(),
{
    let names = st.names;
    assert forall|i: int| 0 <= i < written.len() implies lower::canonical(
        names,
        (#[trigger] written[i]).name,
    ) by {
        assert(super::known(names, written[i].name));
    }
    lower::law_record_fields_are_a_sorted_set(written, names);
    let sorted = lower::by_name(written, names);
    let some = lower::kept(sorted);
    let texts = some.map_values(|field: Field| lower::name_text(names, field.name));
    let entries = super::entries_of(st, written);
    let all = entries.map_values(|entry: Entry| entry.0);
    assert forall|i: int, j: int|
        0 <= i < texts.len() && 0 <= j < texts.len() && i != j implies texts[i] != texts[j] by {
        if i < j {
            assert(text::before(
                lower::name_text(names, some[i].name),
                lower::name_text(names, some[j].name),
            ));
            bytes::lemma_lex_asymmetric(encode_utf8(texts[i]), encode_utf8(texts[j]));
        } else {
            assert(text::before(
                lower::name_text(names, some[j].name),
                lower::name_text(names, some[i].name),
            ));
            bytes::lemma_lex_asymmetric(encode_utf8(texts[j]), encode_utf8(texts[i]));
        }
    }
    texts.unique_seq_to_set();
    assert forall|one: Seq<char>| texts.contains(one) == all.contains(one) by {
        if texts.contains(one) {
            let i = choose|i: int| 0 <= i < texts.len() && texts[i] == one;
            assert(some.contains(some[i]));
            lemma_from_kept(sorted, some[i]);
            lemma_from_by_name(written, names, some[i]);
            let j = choose|j: int| 0 <= j < written.len() && written[j] == some[i];
            assert(super::known(names, written[j].name));
            assert(entries[j] == super::entry_of(st, written[j]));
            assert(all[j] == one);
        }
        if all.contains(one) {
            let i = choose|i: int| 0 <= i < all.len() && all[i] == one;
            assert(super::known(names, written[i].name));
            assert(entries[i] == super::entry_of(st, written[i]));
            let j = choose|j: int|
                0 <= j < some.len() && (#[trigger] some[j]).name == written[i].name;
            assert(texts[j] == one);
        }
    }
    assert(texts.to_set() =~= all.to_set());
}

// ---- lowering ---------------------------------------------------------------

proof fn lemma_chain(
    st: Lowered,
    nodes: Seq<CstNode>,
    outs: Seq<Made>,
    span: Span,
    k: nat,
)
    ensures
        lower::chained(st, nodes, outs, span, k).st.reports == st.reports,
    decreases k,
{
    if k > 0 {
        lemma_chain(st, nodes, outs, span, (k - 1) as nat);
    }
}

proof fn lemma_rule(
    st: Lowered,
    schema: Schema,
    rule: Rule,
    span: Span,
    nodes: Seq<CstNode>,
    outs: Seq<Made>,
)
    requires
        super::all_there(st, outs),
    ensures
        lower::ruled(st, schema, rule, span, nodes, outs).1.reports.len() == st.reports.len()
            + own_faults(schema, rule, nodes, super::items_of(st, outs)),
{
    match rule {
        Rule::AnonRecordPrimary => {
            let written = match lower::first_fields(outs) {
                Some(fields) => fields,
                None => Seq::empty(),
            };
            super::lemma_picked(st, outs);
            assert(super::there(st, Made::Fields(written)));
            lemma_repeated(st, written);
            lemma_twice(st, lower::repeated(lower::by_name(written, st.names)));
            if lower::first_fields(outs) is None {
                let none = super::entries_of(st, written);
                assert(none.map_values(|entry: Entry| entry.0).to_set() =~= Set::empty());
            }
        },
        Rule::AccessPattern => lemma_chain(st, nodes, outs, span, nodes.len()),
        _ => {},
    }
}

proof fn lemma_lowered(st: Lowered, schema: Schema, node: CstNode)
    requires
        super::sound(st),
        lower::fits(st, schema, node),
        super::bounded(lower::lowered(st, schema, node).1),
    ensures
        lower::lowered(st, schema, node).1.reports.len() == st.reports.len() + faults(
            schema,
            node,
        ),
    decreases node, 1nat, 0nat,
{
    if let CstNode::Rule { rule, span, children } = node {
        let (outs, last) = lower::lowered_children(st, schema, node, children@.len());
        super::lemma_rule_grows(last, schema, rule, span, children@, outs);
        assert(super::bounded(last));
        super::lemma_lowered_children(st, schema, node, children@.len());
        lemma_children(st, schema, node, children@.len());
        lemma_rule(last, schema, rule, span, children@, outs);
    }
}

proof fn lemma_children(st: Lowered, schema: Schema, node: CstNode, k: nat)
    requires
        super::sound(st),
        node matches CstNode::Rule { children, .. } && k <= children@.len(),
        lower::fits_under(st, schema, node, k),
        super::bounded(lower::lowered_children(st, schema, node, k).1),
    ensures
        lower::lowered_children(st, schema, node, k).1.reports.len() == st.reports.len()
            + faults_under(schema, node, k),
    decreases node, 0nat, k,
{
    if let CstNode::Rule { children, .. } = node {
        if k > 0 {
            let (before, mid) = lower::lowered_children(st, schema, node, (k - 1) as nat);
            super::lemma_lowered_grows(mid, schema, children@[k - 1]);
            assert(super::bounded(mid));
            super::lemma_lowered_children(st, schema, node, (k - 1) as nat);
            lemma_children(st, schema, node, (k - 1) as nat);
            lemma_lowered(mid, schema, children@[k - 1]);
        }
    }
}

/// Lowering reports what is wrong with a parse, and nothing else: as many reports as there are
/// literals that denote nothing, predicates the schema lacks, and fields given again.
pub proof fn law_every_fault_is_reported(names: Names, schema: Schema, root: CstNode)
    requires
        lower::query_fits(names, schema, root),
        super::bounded(lower::lowered_query(names, schema, root).1),
    ensures
        lower::lowered_query(names, schema, root).1.reports.len() == faults(schema, root),
{
    let start = lower::beginning(names);
    let (out, mid) = lower::lowered(start, schema, root);
    assert(super::bounded(mid));
    lemma_lowered(start, schema, root);
}

} // verus!
