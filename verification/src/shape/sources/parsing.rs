//! Printing and parsing undo each other: what the grammar makes of a printed text means what
//! was printed.
use vstd::prelude::*;

use super::super::meaning;
use super::super::meaning::faults;
use super::super::meaning::{Entry, Item, Reading};
use super::super::{Said, Shape};
use crate::cst::{CstNode, Rule};
use crate::lexer;
use crate::lexer::Token;
use crate::lower;
use crate::print;
use crate::print::{Page, Prec, Script};
use crate::schema::{Names, Schema};
use crate::shape;
use crate::syntax;
use crate::syntax::Ast;
use crate::text;

verus! {

// ---- the text of a parse tree -----------------------------------------------

/// The nodes under a node.
pub open spec fn under(node: CstNode) -> Seq<CstNode> {
    match node {
        CstNode::Rule { children, .. } => children@,
        CstNode::Token { .. } => Seq::empty(),
    }
}

/// The text a parse tree covers: that of its tokens, one behind the other.
pub open spec fn spelled(node: CstNode) -> Seq<char>
    decreases node, 1nat, 0nat,
{
    match node {
        CstNode::Token { text, .. } => text@,
        CstNode::Rule { children, .. } => spelled_by(node, children@.len()),
    }
}

/// The text of the first `k` nodes under a node.
pub open spec fn spelled_by(node: CstNode, k: nat) -> Seq<char>
    decreases node, 0nat, k,
{
    match node {
        CstNode::Token { .. } => Seq::empty(),
        CstNode::Rule { children, .. } => if k == 0 || k > children@.len() {
            Seq::empty()
        } else {
            spelled_by(node, (k - 1) as nat) + spelled(children@[k - 1])
        },
    }
}

// ---- the grammar ------------------------------------------------------------

/// A token with its text.
pub open spec fn is_token(node: CstNode, token: Token, written: Seq<char>) -> bool {
    node matches CstNode::Token { token: found, text, .. } && found == token && text@ == written
}

/// One space.
pub open spec fn is_space(node: CstNode) -> bool {
    is_token(node, Token::Whitespace, " "@)
}

/// The one node under a node of these rules is the same pattern.
pub open spec fn is_passed_through(rule: Rule, n: nat) -> bool {
    rule == Rule::Pattern || rule == Rule::Branch || rule == Rule::Fact || rule == Rule::Primary
        || (rule == Rule::AccessPattern && n == 1)
}

/// A parse tree of a pattern that says `x`, where so much is permitted: with parentheses where
/// the pattern binds more loosely, and nowhere else.
pub open spec fn parses(schema: Schema, node: CstNode, x: Shape, permitted: Prec) -> bool
    decreases node, 2nat, 0nat,
{
    match node {
        CstNode::Token { .. } => false,
        CstNode::Rule { rule, children, .. } => {
            let n = children@.len();
            if is_passed_through(rule, n) {
                n == 1 && parses(schema, children@[0], x, permitted)
            } else if rule == Rule::ParenPrimary {
                &&& super::loose(x).rank() > permitted.rank()
                &&& n == 3
                &&& is_token(children@[0], Token::LParen, "("@)
                &&& parses(schema, children@[1], x, Prec::Disjunction)
                &&& is_token(children@[2], Token::RParen, ")"@)
            } else {
                super::loose(x).rank() <= permitted.rank() && parses_bare(schema, node, x)
            }
        },
    }
}

/// The same, without parentheses of its own.
pub open spec fn parses_bare(schema: Schema, node: CstNode, x: Shape) -> bool
    decreases node, 1nat, 0nat,
{
    match node {
        CstNode::Token { .. } => false,
        CstNode::Rule { rule, children, .. } => {
            let n = children@.len();
            match x {
                Shape::Wildcard => {
                    &&& rule == Rule::WildcardPrimary
                    &&& n == 1
                    &&& is_token(children@[0], Token::Underscore, "_"@)
                },
                Shape::Never => {
                    &&& rule == Rule::NeverPrimary
                    &&& n == 1
                    &&& is_token(children@[0], Token::Never, "never"@)
                },
                Shape::Error => false,
                Shape::Var(name) => {
                    &&& rule == Rule::VarPrimary
                    &&& n == 1
                    &&& is_token(children@[0], Token::UId, name)
                },
                Shape::Int(value) => if value >= 0 {
                    &&& rule == Rule::NatPrimary
                    &&& n == 1
                    &&& is_token(children@[0], Token::Nat, text::decimal(value as nat))
                } else {
                    &&& rule == Rule::IntPrimary
                    &&& n == 2
                    &&& is_token(children@[0], Token::Minus, "-"@)
                    &&& is_token(children@[1], Token::Nat, text::decimal((-value) as nat))
                },
                Shape::Str(s) => {
                    &&& rule == Rule::StringPrimary
                    &&& n == 1
                    &&& is_token(children@[0], Token::String, print::escaped(s))
                },
                Shape::Prefix(s) => {
                    &&& rule == Rule::StringPrefixPrimary
                    &&& n == 2
                    &&& is_token(children@[0], Token::String, print::escaped(s))
                    &&& is_token(children@[1], Token::DotDot, ".."@)
                },
                Shape::Record(fields) => {
                    &&& rule == Rule::AnonRecordPrimary
                    &&& n == 3
                    &&& is_token(children@[0], Token::LBrace, "{"@)
                    &&& children@[1] matches CstNode::Rule { rule: Rule::FieldList, .. }
                    &&& gives(schema, children@[1], under(children@[1]).len(), fields, fields.len())
                    &&& in_order(fields)
                    &&& is_token(children@[2], Token::RBrace, "}"@)
                },
                Shape::Fact(predicate, key) => {
                    let name = print::predicate_name(schema, predicate);
                    &&& rule == Rule::FactPattern
                    &&& n == 3
                    &&& is_token(children@[0], Token::QId, name)
                    &&& schema.position(name) == Some(predicate.0 as nat)
                    &&& is_space(children@[1])
                    &&& parses(schema, children@[2], *key, Prec::Application)
                },
                Shape::Disjunction(branches) => {
                    &&& rule == Rule::Disjunction
                    &&& branches.len() > 0
                    &&& branch(schema, node, n, branches, branches.len())
                },
                Shape::Subquery(head, body) => {
                    &&& rule == Rule::SubqueryPrimary
                    &&& n == 7
                    &&& is_token(children@[0], Token::LParen, "("@)
                    &&& parses(schema, children@[1], *head, Prec::Disjunction)
                    &&& is_space(children@[2])
                    &&& is_token(children@[3], Token::Where, "where"@)
                    &&& is_space(children@[4])
                    &&& children@[5] matches CstNode::Rule { rule: Rule::StmtList, .. }
                    &&& lists(schema, children@[5], under(children@[5]).len(), body, body.len())
                    &&& is_token(children@[6], Token::RParen, ")"@)
                },
                Shape::Field(_, _) | Shape::Value(_) | Shape::Select(_, _) => {
                    rule == Rule::AccessPattern && chains(schema, node, n, x)
                },
            }
        },
    }
}

/// The first `k` nodes under a node are the first `n` branches.
pub open spec fn branch(schema: Schema, node: CstNode, k: nat, branches: Seq<Shape>, n: nat) -> bool
    decreases node, 0nat, k,
{
    match node {
        CstNode::Token { .. } => false,
        CstNode::Rule { children, .. } => if n == 0 || k == 0 || k > children@.len() {
            false
        } else if n == 1 {
            k == 1 && parses(schema, children@[0], branches[0], Prec::Application)
        } else {
            &&& k > 4
            &&& branch(schema, node, (k - 4) as nat, branches, (n - 1) as nat)
            &&& is_space(children@[k - 4])
            &&& is_token(children@[k - 3], Token::Pipe, "|"@)
            &&& is_space(children@[k - 2])
            &&& parses(schema, children@[k - 1], branches[n - 1], Prec::Application)
        },
    }
}

/// The first `k` nodes under a node are a chain that comes to `x`.
pub open spec fn chains(schema: Schema, node: CstNode, k: nat, x: Shape) -> bool
    decreases node, 0nat, k,
{
    match node {
        CstNode::Token { .. } => false,
        CstNode::Rule { children, .. } => if k == 0 || k > children@.len() {
            false
        } else if k == 1 {
            super::loose(x) != Prec::Chain && parses(schema, children@[0], x, Prec::Chain)
        } else {
            match x {
                Shape::Field(name, base) => {
                    &&& k > 2
                    &&& name != "value"@
                    &&& chains(schema, node, (k - 2) as nat, *base)
                    &&& is_token(children@[k - 2], Token::Dot, "."@)
                    &&& is_token(children@[k - 1], Token::LId, name)
                },
                Shape::Value(base) => {
                    &&& k > 2
                    &&& chains(schema, node, (k - 2) as nat, *base)
                    &&& is_token(children@[k - 2], Token::Dot, "."@)
                    &&& is_token(children@[k - 1], Token::LId, "value"@)
                },
                Shape::Select(name, base) => {
                    &&& k > 3
                    &&& chains(schema, node, (k - 3) as nat, *base)
                    &&& is_token(children@[k - 3], Token::Dot, "."@)
                    &&& is_token(children@[k - 2], Token::LId, name)
                    &&& is_token(children@[k - 1], Token::Question, "?"@)
                },
                _ => false,
            }
        },
    }
}

/// Fields in the order of their names, each name once.
pub open spec fn in_order(fields: Seq<Entry>) -> bool {
    forall|i: int, j: int|
        0 <= i < j < fields.len() ==> (#[trigger] fields[i]).0 != (#[trigger] fields[j]).0
            && !text::before(fields[j].0, fields[i].0)
}

/// The first `k` nodes under a list of fields are the first `n` fields.
pub open spec fn gives(schema: Schema, node: CstNode, k: nat, fields: Seq<Entry>, n: nat) -> bool
    decreases node, 0nat, k,
{
    match node {
        CstNode::Token { .. } => false,
        CstNode::Rule { children, .. } => if k > children@.len() {
            false
        } else if n == 0 || k == 0 {
            n == 0 && k == 0
        } else if n == 1 {
            k == 1 && gives_one(schema, children@[0], fields[0])
        } else {
            &&& k > 3
            &&& gives(schema, node, (k - 3) as nat, fields, (n - 1) as nat)
            &&& is_token(children@[k - 3], Token::Comma, ","@)
            &&& is_space(children@[k - 2])
            &&& gives_one(schema, children@[k - 1], fields[n - 1])
        },
    }
}

/// A parse tree of one field.
pub open spec fn gives_one(schema: Schema, node: CstNode, entry: Entry) -> bool
    decreases node, 1nat, 0nat,
{
    match node {
        CstNode::Token { .. } => false,
        CstNode::Rule { rule, children, .. } => {
            &&& rule == Rule::Field
            &&& children@.len() == 5
            &&& is_token(children@[0], Token::LId, entry.0)
            &&& is_space(children@[1])
            &&& is_token(children@[2], Token::Eq, "="@)
            &&& is_space(children@[3])
            &&& parses(schema, children@[4], entry.1, Prec::Disjunction)
        },
    }
}

/// The first `k` nodes under a list of statements are the first `n` of `body`.
pub open spec fn lists(schema: Schema, node: CstNode, k: nat, body: Seq<Said>, n: nat) -> bool
    decreases node, 0nat, k,
{
    match node {
        CstNode::Token { .. } => false,
        CstNode::Rule { children, .. } => if k > children@.len() {
            false
        } else if n == 0 || k == 0 {
            n == 0 && k == 0
        } else if n == 1 {
            k == 1 && states(schema, children@[0], body[0])
        } else {
            &&& k > 3
            &&& lists(schema, node, (k - 3) as nat, body, (n - 1) as nat)
            &&& is_token(children@[k - 3], Token::Semi, ";"@)
            &&& is_space(children@[k - 2])
            &&& states(schema, children@[k - 1], body[n - 1])
        },
    }
}

/// A parse tree of one statement.
pub open spec fn states(schema: Schema, node: CstNode, said: Said) -> bool
    decreases node, 1nat, 0nat,
{
    match node {
        CstNode::Token { .. } => false,
        CstNode::Rule { rule, children, .. } => match said {
            Said::Implicit(x) => {
                &&& rule == Rule::ImplicitBindStmt
                &&& children@.len() == 1
                &&& parses(schema, children@[0], x, Prec::Disjunction)
            },
            Said::Bind(x, y) => {
                &&& rule == Rule::BindStmt
                &&& children@.len() == 5
                &&& parses(schema, children@[0], x, Prec::Disjunction)
                &&& is_space(children@[1])
                &&& is_token(children@[2], Token::Eq, "="@)
                &&& is_space(children@[3])
                &&& parses(schema, children@[4], y, Prec::Disjunction)
            },
            Said::Negation(x) => {
                &&& rule == Rule::NegationStmt
                &&& children@.len() == 2
                &&& is_token(children@[0], Token::Bang, "!"@)
                &&& parses(schema, children@[1], x, Prec::Disjunction)
            },
        },
    }
}

/// A parse tree of a whole query.
pub open spec fn asks(schema: Schema, root: CstNode, head: Shape, body: Seq<Said>) -> bool {
    &&& root matches CstNode::Rule { rule: Rule::Root, .. }
    &&& under(root).len() == 1
    &&& under(root)[0] matches CstNode::Rule { rule: Rule::Query, .. }
    &&& asks_one(schema, under(root)[0], head, body)
}

/// The query under the root.
pub open spec fn asks_one(schema: Schema, node: CstNode, head: Shape, body: Seq<Said>) -> bool {
    let nodes = under(node);
    &&& nodes.len() == 5
    &&& parses(schema, nodes[0], head, Prec::Disjunction)
    &&& is_space(nodes[1])
    &&& is_token(nodes[2], Token::Where, "where"@)
    &&& is_space(nodes[3])
    &&& nodes[4] matches CstNode::Rule { rule: Rule::StmtList, .. }
    &&& lists(schema, nodes[4], under(nodes[4]).len(), body, body.len())
}

// ---- reading the nodes under a node -----------------------------------------

/// One node further.
proof fn lemma_next(schema: Schema, node: CstNode, k: nat)
    requires
        0 < k <= under(node).len(),
    ensures
        ({
            let before = meaning::meant_children(schema, node, (k - 1) as nat);
            let all = meaning::meant_children(schema, node, k);
            let item = meaning::meant(schema, under(node)[k - 1]);
            &&& all.len() == before.len() + 1
            &&& all.last() == item
            &&& all.drop_last() == before
            &&& meaning::patterns(all) == (match item {
                Item::Pattern(shape) => meaning::patterns(before).push(shape),
                _ => meaning::patterns(before),
            })
            &&& meaning::stmts(all) == (match item {
                Item::Stmt(said) => meaning::stmts(before).push(said),
                _ => meaning::stmts(before),
            })
            &&& meaning::fields(all) == (match item {
                Item::Field(entry) => meaning::fields(before).push(entry),
                _ => meaning::fields(before),
            })
            &&& meaning::last_stmts(all) == (match item {
                Item::Stmts(stmts) => stmts,
                _ => meaning::last_stmts(before),
            })
            &&& meaning::first_fields(all) == (match (meaning::first_fields(before), item) {
                (Some(entries), _) => Some(entries),
                (None, Item::Fields(entries)) => Some(entries),
                _ => None,
            })
            &&& meaning::first_query(all) == (match (meaning::first_query(before), item) {
                (Some(query), _) => Some(query),
                (None, Item::Query(head, body)) => Some((head, body)),
                _ => None,
            })
            &&& spelled_by(node, k) == spelled_by(node, (k - 1) as nat) + spelled(
                under(node)[k - 1],
            )
            &&& faults::faults_under(schema, node, k) == faults::faults_under(
                schema,
                node,
                (k - 1) as nat,
            ) + faults::faults(schema, under(node)[k - 1])
        }),
{
    let before = meaning::meant_children(schema, node, (k - 1) as nat);
    let all = meaning::meant_children(schema, node, k);
    assert(all == before.push(meaning::meant(schema, under(node)[k - 1])));
    assert(all.drop_last() =~= before);
}

/// Before the first.
proof fn lemma_none(schema: Schema, node: CstNode)
    ensures
        ({
            let none = meaning::meant_children(schema, node, 0);
            &&& none.len() == 0
            &&& meaning::patterns(none).len() == 0
            &&& meaning::stmts(none).len() == 0
            &&& meaning::fields(none).len() == 0
            &&& meaning::last_stmts(none).len() == 0
            &&& meaning::first_fields(none) is None
            &&& meaning::first_query(none) is None
            &&& spelled_by(node, 0).len() == 0
            &&& faults::faults_under(schema, node, 0) == 0
        }),
{
}

/// The first token of a kind, where it stands first.
proof fn lemma_first_token(nodes: Seq<CstNode>, token: Token, written: Seq<char>)
    requires
        nodes.len() > 0,
        is_token(nodes[0], token, written),
    ensures
        lower::token_of(nodes, token) == Some(written),
    decreases nodes.len(),
{
    if nodes.len() == 1 {
        assert(lower::token_of(nodes.drop_last(), token) is None);
    } else {
        assert(nodes.drop_last()[0] == nodes[0]);
        lemma_first_token(nodes.drop_last(), token, written);
    }
}

/// The same, behind one of another kind.
proof fn lemma_second_token(nodes: Seq<CstNode>, token: Token, written: Seq<char>)
    requires
        nodes.len() == 2,
        nodes[0] matches CstNode::Token { token: other, .. } && other != token,
        is_token(nodes[1], token, written),
    ensures
        lower::token_of(nodes, token) == Some(written),
{
    reveal_with_fuel(lower::token_of, 3);
    assert(nodes.drop_last().last() == nodes[0]);
    assert(nodes.drop_last().drop_last().len() == 0);
}

/// What the `i`th node under a node means stands at its place.
proof fn lemma_item(schema: Schema, node: CstNode, k: nat, i: int)
    requires
        0 <= i < k <= under(node).len(),
    ensures
        meaning::meant_children(schema, node, k).len() == k,
        meaning::meant_children(schema, node, k)[i] == meaning::meant(schema, under(node)[i]),
    decreases k,
{
    lemma_next(schema, node, k);
    lemma_count(schema, node, k);
    let all = meaning::meant_children(schema, node, k);
    if i < k - 1 {
        lemma_item(schema, node, (k - 1) as nat, i);
        assert(all[i] == all.drop_last()[i]);
    }
}

proof fn lemma_count(schema: Schema, node: CstNode, k: nat)
    requires
        k <= under(node).len(),
    ensures
        meaning::meant_children(schema, node, k).len() == k,
    decreases k,
{
    if k > 0 {
        lemma_next(schema, node, k);
        lemma_count(schema, node, (k - 1) as nat);
    }
}

/// The signs that are printed, token by token.
proof fn lemma_signs()
    ensures
        ", "@ == ","@ + " "@,
        "; "@ == ";"@ + " "@,
        " = "@ == " "@ + "="@ + " "@,
        " | "@ == " "@ + "|"@ + " "@,
        " where "@ == " "@ + "where"@ + " "@,
        ".value"@ == "."@ + "value"@,
{
    reveal_strlit(" ");
    reveal_strlit(",");
    reveal_strlit(", ");
    reveal_strlit(";");
    reveal_strlit("; ");
    reveal_strlit("=");
    reveal_strlit(" = ");
    reveal_strlit("|");
    reveal_strlit(" | ");
    reveal_strlit("where");
    reveal_strlit(" where ");
    reveal_strlit(".");
    reveal_strlit("value");
    reveal_strlit(".value");
    assert(", "@ =~= ","@ + " "@);
    assert("; "@ =~= ";"@ + " "@);
    assert(" = "@ =~= " "@ + "="@ + " "@);
    assert(" | "@ =~= " "@ + "|"@ + " "@);
    assert(" where "@ =~= " "@ + "where"@ + " "@);
    assert(".value"@ =~= "."@ + "value"@);
}

/// Fields that are in order stay as they are.
proof fn lemma_in_order(fields: Seq<Entry>)
    requires
        in_order(fields),
    ensures
        meaning::by_name(fields) == fields,
        meaning::kept(fields) == fields,
        faults::names_of(fields).len() == fields.len(),
    decreases fields.len(),
{
    if fields.len() > 0 {
        let less = fields.drop_last();
        assert forall|i: int, j: int| 0 <= i < j < less.len() implies (#[trigger] less[i]).0 != (
        #[trigger] less[j]).0 && !text::before(less[j].0, less[i].0) by {
            assert(less[i] == fields[i] && less[j] == fields[j]);
        }
        lemma_in_order(less);
        assert(less.push(fields.last()) =~= fields);
        if less.len() > 0 {
            assert(less.last() == fields[fields.len() - 2]);
            assert(fields.last() == fields[fields.len() - 1]);
        }
    } else {
        assert(fields =~= Seq::<Entry>::empty());
    }
    let names = fields.map_values(|entry: Entry| entry.0);
    assert forall|i: int, j: int|
        0 <= i < names.len() && 0 <= j < names.len() && i != j implies names[i] != names[j] by {
        assert(fields[i].0 != fields[j].0);
    }
    names.unique_seq_to_set();
}

// ---- what is read is what was printed ---------------------------------------

proof fn lemma_parses(schema: Schema, node: CstNode, x: Shape, permitted: Prec)
    requires
        parses(schema, node, x, permitted),
    ensures
        meaning::meant(schema, node) == Item::Pattern(x),
        spelled(node) == super::src(schema, x, permitted),
        faults::faults(schema, node) == 0,
    decreases node, 2nat, 0nat,
{
    if let CstNode::Rule { rule, children, .. } = node {
        let n = children@.len();
        lemma_none(schema, node);
        if is_passed_through(rule, n) {
            lemma_parses(schema, children@[0], x, permitted);
            lemma_next(schema, node, 1);
            assert(spelled(node) =~= spelled(children@[0]));
            if rule == Rule::AccessPattern {
                let items = meaning::meant_children(schema, node, 1);
                reveal_with_fuel(meaning::read_chain, 2);
                assert(items[0] == Item::Pattern(x));
            }
        } else if rule == Rule::ParenPrimary {
            lemma_parses(schema, children@[1], x, Prec::Disjunction);
            lemma_next(schema, node, 1);
            lemma_next(schema, node, 2);
            lemma_next(schema, node, 3);
            assert(super::src(schema, x, Prec::Disjunction) == super::own(schema, x));
            assert(spelled(node) =~= "("@ + (super::own(schema, x) + ")"@));
        } else {
            lemma_parses_bare(schema, node, x);
        }
    }
}

proof fn lemma_parses_bare(schema: Schema, node: CstNode, x: Shape)
    requires
        parses_bare(schema, node, x),
        !is_passed_through(node->Rule_rule, under(node).len()),
    ensures
        meaning::meant(schema, node) == Item::Pattern(x),
        spelled(node) == super::own(schema, x),
        faults::faults(schema, node) == 0,
    decreases node, 1nat, 0nat,
{
    if let CstNode::Rule { rule, children, .. } = node {
        let nodes = children@;
        let n = nodes.len();
        lemma_none(schema, node);
        lemma_signs();
        lemma_next(schema, node, 1);
        match x {
            Shape::Var(name) => {
                lemma_first_token(nodes, Token::UId, name);
            },
            Shape::Int(value) => {
                lexer::law_an_integer_reads_back(value, 0, false);
                if value >= 0 {
                    lemma_first_token(nodes, Token::Nat, text::decimal(value as nat));
                } else {
                    lemma_second_token(nodes, Token::Nat, text::decimal((-value) as nat));
                    lemma_next(schema, node, 2);
                }
            },
            Shape::Str(s) => {
                lemma_first_token(nodes, Token::String, print::escaped(s));
                print::law_an_escaped_string_reads_back(s);
            },
            Shape::Prefix(s) => {
                lemma_first_token(nodes, Token::String, print::escaped(s));
                print::law_an_escaped_string_reads_back(s);
                lemma_next(schema, node, 2);
            },
            Shape::Record(fields) => {
                lemma_next(schema, node, 2);
                lemma_next(schema, node, 3);
                let list = nodes[1];
                lemma_gives(schema, list, under(list).len(), x, fields.len());
                assert(fields.take(fields.len() as int) =~= fields);
                assert(meaning::meant(schema, list) == Item::Fields(fields));
                lemma_in_order(fields);
                assert(super::fields_src(schema, x, fields.len()) =~= Seq::<char>::empty());
                assert(spelled(list) =~= super::fields_src(schema, x, 0));
                assert(spelled(node) =~= super::own(schema, x));
            },
            Shape::Fact(predicate, key) => {
                let name = print::predicate_name(schema, predicate);
                lemma_first_token(nodes, Token::QId, name);
                lemma_next(schema, node, 2);
                lemma_next(schema, node, 3);
                lemma_parses(schema, nodes[2], *key, Prec::Application);
                assert(spelled(node) =~= super::own(schema, x));
            },
            Shape::Disjunction(branches) => {
                lemma_branch(schema, node, n, x, branches.len());
                assert(branches.take(branches.len() as int) =~= branches);
                assert(super::branches_src(schema, x, branches.len()) =~= Seq::<char>::empty());
                assert(spelled(node) =~= super::own(schema, x));
            },
            Shape::Subquery(head, body) => {
                lemma_parses(schema, nodes[1], *head, Prec::Disjunction);
                let list = nodes[5];
                lemma_lists(schema, list, under(list).len(), x, body.len());
                assert(body.take(body.len() as int) =~= body);
                assert(meaning::meant(schema, list) == Item::Stmts(body));
                lemma_next(schema, node, 2);
                lemma_next(schema, node, 3);
                lemma_next(schema, node, 4);
                lemma_next(schema, node, 5);
                lemma_next(schema, node, 6);
                lemma_next(schema, node, 7);
                assert(super::stmts_src(schema, x, body.len()) =~= Seq::<char>::empty());
                assert(spelled(list) =~= super::stmts_src(schema, x, 0));
                assert(spelled(node) =~= super::own(schema, x));
            },
            Shape::Field(_, _) | Shape::Value(_) | Shape::Select(_, _) => {
                lemma_chain(schema, node, n, x);
            },
            _ => {},
        }
    }
}

proof fn lemma_branch(schema: Schema, node: CstNode, k: nat, x: Shape, n: nat)
    requires
        x is Disjunction,
        n <= x->Disjunction_0.len(),
        branch(schema, node, k, x->Disjunction_0, n),
    ensures
        meaning::patterns(meaning::meant_children(schema, node, k)) == x->Disjunction_0.take(
            n as int,
        ),
        spelled_by(node, k) + super::branches_src(schema, x, n) == super::branches_src(
            schema,
            x,
            0,
        ),
        faults::faults_under(schema, node, k) == 0,
    decreases node, 0nat, k,
{
    if let CstNode::Rule { children, .. } = node {
        let branches = x->Disjunction_0;
        let last = children@[k - 1];
        lemma_parses(schema, last, branches[n - 1], Prec::Application);
        lemma_next(schema, node, k);
        lemma_none(schema, node);
        assert(branches.take(n as int) =~= branches.take(n - 1).push(branches[n - 1]));
        let here = super::src(schema, branches[n - 1], Prec::Application);
        let rest = super::branches_src(schema, x, n);
        if n > 1 {
            lemma_branch(schema, node, (k - 4) as nat, x, (n - 1) as nat);
            lemma_next(schema, node, (k - 3) as nat);
            lemma_next(schema, node, (k - 2) as nat);
            lemma_next(schema, node, (k - 1) as nat);
            lemma_signs();
            let before = spelled_by(node, (k - 4) as nat);
            assert(spelled_by(node, k) + rest =~= before + (" "@ + "|"@ + " "@ + (here + rest)));
        } else {
            assert(branches.take(0) =~= Seq::<Shape>::empty());
            assert(spelled_by(node, k) + rest =~= Seq::<char>::empty() + (here + rest));
        }
    }
}

/// A chain is one name further, which may yet be a select.
proof fn lemma_named(
    nodes: Seq<CstNode>,
    items: Seq<Item>,
    k: nat,
    base: Shape,
    name: Seq<char>,
)
    requires
        k >= 2,
        meaning::read_chain(nodes, items, (k - 2) as nat).settled() == (Reading {
            current: Some(base),
            pending: None,
        }),
        is_token(nodes[k - 2], Token::Dot, "."@),
        is_token(nodes[k - 1], Token::LId, name),
        items[k - 2] is Nothing,
        items[k - 1] is Nothing,
    ensures
        meaning::read_chain(nodes, items, k) == (Reading {
            current: Some(base),
            pending: Some(name),
        }),
{
    let so_far = meaning::read_chain(nodes, items, (k - 2) as nat);
    let dotted = meaning::read_chain(nodes, items, (k - 1) as nat);
    assert(dotted == so_far.step(nodes[k - 2], items[k - 2]));
    assert(dotted == so_far);
    assert(meaning::read_chain(nodes, items, k) == dotted.step(nodes[k - 1], items[k - 1]));
}

/// And it is one.
proof fn lemma_selected(
    nodes: Seq<CstNode>,
    items: Seq<Item>,
    k: nat,
    base: Shape,
    name: Seq<char>,
)
    requires
        k >= 1,
        meaning::read_chain(nodes, items, (k - 1) as nat) == (Reading {
            current: Some(base),
            pending: Some(name),
        }),
        is_token(nodes[k - 1], Token::Question, "?"@),
        items[k - 1] is Nothing,
    ensures
        meaning::read_chain(nodes, items, k) == (Reading {
            current: Some(Shape::Select(name, Box::new(base))),
            pending: None,
        }),
{
    let so_far = meaning::read_chain(nodes, items, (k - 1) as nat);
    assert(meaning::read_chain(nodes, items, k) == so_far.step(nodes[k - 1], items[k - 1]));
}

proof fn lemma_chain(schema: Schema, node: CstNode, k: nat, x: Shape)
    requires
        chains(schema, node, k, x),
    ensures
        k <= under(node).len(),
        ({
            let items = meaning::meant_children(schema, node, under(node).len());
            meaning::read_chain(under(node), items, k).settled() == (Reading {
                current: Some(x),
                pending: None,
            })
        }),
        spelled_by(node, k) == super::src(schema, x, Prec::Chain),
        faults::faults_under(schema, node, k) == 0,
    decreases node, 0nat, k,
{
    if let CstNode::Rule { children, .. } = node {
        let nodes = children@;
        let items = meaning::meant_children(schema, node, nodes.len());
        lemma_item(schema, node, nodes.len(), k - 1);
        lemma_next(schema, node, k);
        if k == 1 {
            lemma_none(schema, node);
            lemma_parses(schema, nodes[0], x, Prec::Chain);
            reveal_with_fuel(meaning::read_chain, 2);
            assert(spelled_by(node, 1) =~= spelled(nodes[0]));
        } else {
            lemma_item(schema, node, nodes.len(), k - 2);
            lemma_next(schema, node, (k - 1) as nat);
            match x {
                Shape::Field(name, base) => {
                    lemma_chain(schema, node, (k - 2) as nat, *base);
                    lemma_named(nodes, items, k, *base, name);
                    let so_far = spelled_by(node, (k - 2) as nat);
                    assert(so_far + "."@ + name =~= so_far + ("."@ + name));
                },
                Shape::Value(base) => {
                    lemma_signs();
                    lemma_chain(schema, node, (k - 2) as nat, *base);
                    lemma_named(nodes, items, k, *base, "value"@);
                    let so_far = spelled_by(node, (k - 2) as nat);
                    assert(so_far + "."@ + "value"@ =~= so_far + ("."@ + "value"@));
                },
                Shape::Select(name, base) => {
                    lemma_chain(schema, node, (k - 3) as nat, *base);
                    lemma_item(schema, node, nodes.len(), k - 3);
                    lemma_next(schema, node, (k - 2) as nat);
                    lemma_named(nodes, items, (k - 1) as nat, *base, name);
                    lemma_selected(nodes, items, k, *base, name);
                    let so_far = spelled_by(node, (k - 3) as nat);
                    assert(so_far + "."@ + name + "?"@ =~= so_far + ("."@ + (name + "?"@)));
                },
                _ => {},
            }
        }
    }
}

proof fn lemma_gives(schema: Schema, node: CstNode, k: nat, x: Shape, n: nat)
    requires
        x is Record,
        n <= x->Record_0.len(),
        gives(schema, node, k, x->Record_0, n),
    ensures
        meaning::fields(meaning::meant_children(schema, node, k)) == x->Record_0.take(n as int),
        spelled_by(node, k) + super::fields_src(schema, x, n) == super::fields_src(schema, x, 0),
        faults::faults_under(schema, node, k) == 0,
    decreases node, 0nat, k,
{
    if let CstNode::Rule { children, .. } = node {
        let fields = x->Record_0;
        lemma_none(schema, node);
        if n == 0 {
            assert(fields.take(0) =~= Seq::<Entry>::empty());
            assert(meaning::fields(meaning::meant_children(schema, node, 0)) =~= Seq::<
                Entry,
            >::empty());
            assert(spelled_by(node, 0) + super::fields_src(schema, x, 0) =~= super::fields_src(
                schema,
                x,
                0,
            ));
        } else {
            let (name, inner) = fields[n - 1];
            lemma_gives_one(schema, children@[k - 1], fields[n - 1]);
            lemma_next(schema, node, k);
            assert(fields.take(n as int) =~= fields.take(n - 1).push(fields[n - 1]));
            let here = super::src(schema, inner, Prec::Disjunction);
            let rest = super::fields_src(schema, x, n);
            if n > 1 {
                lemma_gives(schema, node, (k - 3) as nat, x, (n - 1) as nat);
                lemma_next(schema, node, (k - 2) as nat);
                lemma_next(schema, node, (k - 1) as nat);
                lemma_signs();
                let before = spelled_by(node, (k - 3) as nat);
                assert(spelled_by(node, k) + rest =~= before + (","@ + " "@ + (name + (" = "@ + (
                here + rest)))));
            } else {
                assert(fields.take(0) =~= Seq::<Entry>::empty());
                assert(spelled_by(node, k) + rest =~= Seq::<char>::empty() + (name + (" = "@ + (
                here + rest))));
            }
        }
    }
}

proof fn lemma_gives_one(schema: Schema, node: CstNode, entry: Entry)
    requires
        gives_one(schema, node, entry),
    ensures
        meaning::meant(schema, node) == Item::Field(entry),
        spelled(node) == entry.0 + (" = "@ + super::src(schema, entry.1, Prec::Disjunction)),
        faults::faults(schema, node) == 0,
    decreases node, 1nat, 0nat,
{
    if let CstNode::Rule { children, .. } = node {
        lemma_parses(schema, children@[4], entry.1, Prec::Disjunction);
        lemma_first_token(children@, Token::LId, entry.0);
        lemma_none(schema, node);
        lemma_next(schema, node, 1);
        lemma_next(schema, node, 2);
        lemma_next(schema, node, 3);
        lemma_next(schema, node, 4);
        lemma_next(schema, node, 5);
        lemma_signs();
        assert(spelled(node) =~= entry.0 + (" "@ + "="@ + " "@ + super::src(
            schema,
            entry.1,
            Prec::Disjunction,
        )));
    }
}

proof fn lemma_lists(schema: Schema, node: CstNode, k: nat, x: Shape, n: nat)
    requires
        x is Subquery,
        n <= x->Subquery_1.len(),
        lists(schema, node, k, x->Subquery_1, n),
    ensures
        meaning::stmts(meaning::meant_children(schema, node, k)) == x->Subquery_1.take(n as int),
        spelled_by(node, k) + super::stmts_src(schema, x, n) == super::stmts_src(schema, x, 0),
        faults::faults_under(schema, node, k) == 0,
    decreases node, 0nat, k,
{
    if let CstNode::Rule { children, .. } = node {
        let body = x->Subquery_1;
        lemma_none(schema, node);
        if n == 0 {
            assert(body.take(0) =~= Seq::<Said>::empty());
            assert(meaning::stmts(meaning::meant_children(schema, node, 0)) =~= Seq::<
                Said,
            >::empty());
            assert(spelled_by(node, 0) + super::stmts_src(schema, x, 0) =~= super::stmts_src(
                schema,
                x,
                0,
            ));
        } else {
            lemma_states(schema, children@[k - 1], body[n - 1]);
            lemma_next(schema, node, k);
            assert(body.take(n as int) =~= body.take(n - 1).push(body[n - 1]));
            let here = super::said_src(schema, body[n - 1]);
            let rest = super::stmts_src(schema, x, n);
            if n > 1 {
                lemma_lists(schema, node, (k - 3) as nat, x, (n - 1) as nat);
                lemma_next(schema, node, (k - 2) as nat);
                lemma_next(schema, node, (k - 1) as nat);
                lemma_signs();
                let before = spelled_by(node, (k - 3) as nat);
                assert(spelled_by(node, k) + rest =~= before + (";"@ + " "@ + (here + rest)));
            } else {
                assert(body.take(0) =~= Seq::<Said>::empty());
                assert(spelled_by(node, k) + rest =~= Seq::<char>::empty() + (here + rest));
            }
        }
    }
}

proof fn lemma_states(schema: Schema, node: CstNode, said: Said)
    requires
        states(schema, node, said),
    ensures
        meaning::meant(schema, node) == Item::Stmt(said),
        spelled(node) == super::said_src(schema, said),
        faults::faults(schema, node) == 0,
    decreases node, 1nat, 0nat,
{
    if let CstNode::Rule { children, .. } = node {
        lemma_none(schema, node);
        lemma_next(schema, node, 1);
        lemma_signs();
        match said {
            Said::Implicit(x) => {
                lemma_parses(schema, children@[0], x, Prec::Disjunction);
                assert(spelled(node) =~= super::said_src(schema, said));
            },
            Said::Bind(x, y) => {
                lemma_parses(schema, children@[0], x, Prec::Disjunction);
                lemma_parses(schema, children@[4], y, Prec::Disjunction);
                lemma_next(schema, node, 2);
                lemma_next(schema, node, 3);
                lemma_next(schema, node, 4);
                lemma_next(schema, node, 5);
                assert(spelled(node) =~= super::said_src(schema, said));
            },
            Said::Negation(x) => {
                lemma_parses(schema, children@[1], x, Prec::Disjunction);
                lemma_next(schema, node, 2);
                assert(spelled(node) =~= super::said_src(schema, said));
            },
        }
    }
}

proof fn lemma_asks(schema: Schema, root: CstNode, x: Shape)
    requires
        x is Subquery,
        asks(schema, root, *x->Subquery_0, x->Subquery_1),
    ensures
        spelled(root) == super::query_src(schema, x),
        meaning::meant_query(schema, root) == (*x->Subquery_0, x->Subquery_1),
        faults::faults(schema, root) == 0,
{
    let (head, body) = (*x->Subquery_0, x->Subquery_1);
    let node = under(root)[0];
    let nodes = under(node);
    let list = nodes[4];
    lemma_none(schema, root);
    lemma_next(schema, root, 1);
    lemma_none(schema, node);
    lemma_parses(schema, nodes[0], head, Prec::Disjunction);
    lemma_lists(schema, list, under(list).len(), x, body.len());
    assert(body.take(body.len() as int) =~= body);
    assert(meaning::meant(schema, list) == Item::Stmts(body));
    lemma_next(schema, node, 1);
    lemma_next(schema, node, 2);
    lemma_next(schema, node, 3);
    lemma_next(schema, node, 4);
    lemma_next(schema, node, 5);
    lemma_signs();
    assert(meaning::meant(schema, node) == Item::Query(head, body));
    assert(super::stmts_src(schema, x, body.len()) =~= Seq::<char>::empty());
    assert(spelled(list) =~= super::stmts_src(schema, x, 0));
    assert(spelled(node) =~= super::query_src(schema, x));
    assert(spelled(root) =~= spelled(node));
}

/// Printing and parsing undo each other: the parse of a query that says what a tree does, made
/// by the grammar with its signs, its spaces and its parentheses where they are printed, has
/// the text that the tree prints as, and means what the tree says: the same head, and the same
/// statements in the same order.
pub proof fn law_a_printed_query_is_read_back(
    ast: Ast,
    names: Names,
    schema: Schema,
    root: CstNode,
)
    requires
        ast.wf(),
        asks(schema, root, shape::head_of(ast, names), shape::body_of(ast, names)),
    ensures
        spelled(root) == print::page_of(ast, schema, names).text,
        meaning::meant_query(schema, root) == (
            shape::head_of(ast, names),
            shape::body_of(ast, names),
        ),
{
    let x = Shape::Subquery(
        Box::new(shape::head_of(ast, names)),
        shape::body_of(ast, names),
    );
    lemma_asks(schema, root, x);
    let blank = Page {
        text: Seq::empty(),
        spans: Seq::new(
            ast.tree().kinds().len(),
            |i: int| syntax::NodeSpan { start: 0, end: 0 },
        ),
    };
    super::lemma_query(
        Script { ast, schema, names },
        ast.root(),
        ast.tree().kinds().len(),
        x,
        blank,
    );
    assert(Seq::<char>::empty() + super::query_src(schema, x) =~= super::query_src(schema, x));
}

/// The grammar is not ambiguous: two parses of one text mean the same. They are of queries
/// that source can say, under a schema that names its predicates apart.
pub proof fn law_one_text_has_one_meaning(
    schema: Schema,
    a: CstNode,
    head: Shape,
    body: Seq<Said>,
    b: CstNode,
    other: Shape,
    others: Seq<Said>,
)
    requires
        super::names_predicates_apart(schema),
        super::legible(Shape::Subquery(Box::new(head), body)),
        super::legible(Shape::Subquery(Box::new(other), others)),
        asks(schema, a, head, body),
        asks(schema, b, other, others),
        spelled(a) == spelled(b),
    ensures
        meaning::meant_query(schema, a) == meaning::meant_query(schema, b),
        meaning::meant_query(schema, a) == (head, body),
{
    let x = Shape::Subquery(Box::new(head), body);
    let y = Shape::Subquery(Box::new(other), others);
    lemma_asks(schema, a, x);
    lemma_asks(schema, b, y);
    super::lemma_queries_apart(schema, x, y);
}

/// What is printed is lowered without a word: nothing is reported of the parse of a printed
/// query, whatever names were interned before.
pub proof fn law_a_printed_query_is_lowered_without_a_word(
    ast: Ast,
    names: Names,
    schema: Schema,
    root: CstNode,
    others: Names,
)
    requires
        ast.wf(),
        asks(schema, root, shape::head_of(ast, names), shape::body_of(ast, names)),
        lower::query_fits(others, schema, root),
        meaning::bounded(lower::lowered_query(others, schema, root).1),
    ensures
        lower::lowered_query(others, schema, root).1.reports.len() == 0,
{
    let x = Shape::Subquery(
        Box::new(shape::head_of(ast, names)),
        shape::body_of(ast, names),
    );
    lemma_asks(schema, root, x);
    faults::law_every_fault_is_reported(others, schema, root);
}

} // verus!
