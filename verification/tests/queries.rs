//! The front end on query text: the texts are cut into parse trees here, and everything
//! after that is the library's.

use std::collections::BTreeSet;
use std::sync::Arc;

use focus::answers::collect_answers;
use focus::corpus::{entry, Entry, Expectation};
use focus::cst::{CstNode, Rule, Span};
use focus::diag::{Code, Diagnostics};
use focus::error::ApertureError;
use focus::fixtures::{collect_rows, i64_field, str_field};
use focus::flatten::{dependencies, flatten, flatten_in_order};
use focus::iter::{Address, Cursor, Executor, Iteratee, Row, Stream};
use focus::lexer::Token;
use focus::lower::lower;
use focus::mem_store::MemStore;
use focus::parse::{parse as parse_tokens, Parsed, MAX_NEST_DEPTH};
use focus::parser::{create_diagnostic, Lexed};
use focus::plan::{
    Access, FactId, FieldPath, Plan, Project, Residual, ResidualOp, SeekKey, SeekKeyPart,
};
use focus::print::{canonical, plan, print, spanned};
use focus::program::{Level, Program, Source, Step, Test};
use focus::reorder::Deps;
use focus::schema::{
    LocalInterner, NameKey, Predicate, PredicateId, PredicateTy, Schema, SchemaInterner, Symbol,
};
use focus::syntax::{Ast, ExprKind, FieldRef, Literal, NodeId, Query, QueryStmt};
use focus::tuple::{put_fact_id, Value, MARK_RECORD, MARK_TERM};
use lasso::{Key, Rodeo};
use tokio_util::sync::CancellationToken;

// ---- from text to a parse tree ----------------------------------------------

/// The tokens of a text and the bytes each covers.
fn tokens_of(source: &str) -> (Vec<Token>, Vec<Span>) {
    let bytes = source.as_bytes();
    let mut tokens = vec![];
    let mut spans = vec![];
    let mut at = 0;
    while at < bytes.len() {
        let start = at;
        let token = match bytes[at] {
            b' ' | b'\t' | b'\n' | b'\r' => {
                while at < bytes.len() && matches!(bytes[at], b' ' | b'\t' | b'\n' | b'\r') {
                    at += 1;
                }
                Token::Whitespace
            }
            b'0'..=b'9' => {
                while at < bytes.len() && matches!(bytes[at], b'0'..=b'9' | b'_') {
                    at += 1;
                }
                Token::Nat
            }
            b'"' => {
                at += 1;
                while at < bytes.len() && bytes[at] != b'"' {
                    at += if bytes[at] == b'\\' { 2 } else { 1 };
                }
                at += 1;
                if at <= bytes.len() {
                    Token::String
                } else {
                    at = bytes.len();
                    Token::Error
                }
            }
            b'A'..=b'Z' => {
                at = word_end(bytes, at);
                Token::UId
            }
            b'a'..=b'z' => {
                at = word_end(bytes, at);
                let mut qualified = at;
                while qualified + 1 < bytes.len()
                    && bytes[qualified] == b'.'
                    && bytes[qualified + 1].is_ascii_lowercase()
                {
                    qualified = word_end(bytes, qualified + 1);
                }
                if qualified + 1 < bytes.len()
                    && bytes[qualified] == b'.'
                    && bytes[qualified + 1].is_ascii_uppercase()
                {
                    at = word_end(bytes, qualified + 1);
                    Token::QId
                } else {
                    match &source[start..at] {
                        "where" => Token::Where,
                        "never" => Token::Never,
                        _ => Token::LId,
                    }
                }
            }
            b'.' => {
                at += 1;
                if at < bytes.len() && bytes[at] == b'.' {
                    at += 1;
                    Token::DotDot
                } else {
                    Token::Dot
                }
            }
            one => {
                at += 1;
                while !source.is_char_boundary(at) {
                    at += 1;
                }
                match one {
                    b'_' => Token::Underscore,
                    b'{' => Token::LBrace,
                    b'}' => Token::RBrace,
                    b'(' => Token::LParen,
                    b')' => Token::RParen,
                    b',' => Token::Comma,
                    b';' => Token::Semi,
                    b'=' => Token::Eq,
                    b'-' => Token::Minus,
                    b'|' => Token::Pipe,
                    b'?' => Token::Question,
                    b'!' => Token::Bang,
                    _ => Token::Error,
                }
            }
        };
        tokens.push(token);
        spans.push(Span { start, end: at });
    }
    (tokens, spans)
}

fn word_end(bytes: &[u8], mut at: usize) -> usize {
    while at < bytes.len() && (bytes[at].is_ascii_alphanumeric() || bytes[at] == b'_') {
        at += 1;
    }
    at
}

/// A parser by descent: one method a rule.
struct Descent<'a> {
    source: &'a str,
    tokens: Vec<Token>,
    spans: Vec<Span>,
    at: usize,
}

type Found = Result<CstNode, String>;

impl Descent<'_> {
    fn peek(&self) -> Option<Token> {
        self.tokens[self.at..]
            .iter()
            .copied()
            .find(|token| *token != Token::Whitespace)
    }

    /// The whitespace here, and the token after it, if it is `token`.
    fn eat(&mut self, token: Token, out: &mut Vec<CstNode>) -> bool {
        if self.peek() != Some(token) {
            return false;
        }
        self.trivia(out);
        self.take(out);
        true
    }

    fn need(&mut self, token: Token, out: &mut Vec<CstNode>) -> Result<(), String> {
        if self.eat(token, out) {
            Ok(())
        } else {
            Err(format!("expected {token:?}, found {:?}", self.peek()))
        }
    }

    fn trivia(&mut self, out: &mut Vec<CstNode>) {
        while self.at < self.tokens.len() && self.tokens[self.at] == Token::Whitespace {
            self.take(out);
        }
    }

    fn take(&mut self, out: &mut Vec<CstNode>) {
        let span = self.spans[self.at];
        out.push(CstNode::Token {
            token: self.tokens[self.at],
            text: self.source[span.start..span.end].to_owned(),
            span,
        });
        self.at += 1;
    }

    fn rule(&self, rule: Rule, children: Vec<CstNode>) -> CstNode {
        let start = children.first().map_or(0, |node| node.span().start);
        let end = children.last().map_or(0, |node| node.span().end);
        CstNode::Rule {
            rule,
            span: Span { start, end },
            children,
        }
    }

    fn root(&mut self) -> Found {
        let mut out = vec![];
        self.trivia(&mut out);
        out.push(self.query()?);
        self.trivia(&mut out);
        match self.peek() {
            None => Ok(self.rule(Rule::Root, out)),
            Some(token) => Err(format!("unexpected {token:?}")),
        }
    }

    fn query(&mut self) -> Found {
        let mut out = vec![self.pattern()?];
        self.need(Token::Where, &mut out)?;
        self.trivia(&mut out);
        out.push(self.stmt_list()?);
        Ok(self.rule(Rule::Query, out))
    }

    fn stmt_list(&mut self) -> Found {
        let mut out = vec![self.stmt()?];
        while self.eat(Token::Semi, &mut out) {
            if matches!(self.peek(), None | Some(Token::RParen)) {
                continue;
            }
            self.trivia(&mut out);
            out.push(self.stmt()?);
        }
        Ok(self.rule(Rule::StmtList, out))
    }

    fn stmt(&mut self) -> Found {
        let mut out = vec![];
        if self.eat(Token::Bang, &mut out) {
            self.trivia(&mut out);
            out.push(self.pattern()?);
            return Ok(self.rule(Rule::NegationStmt, out));
        }
        out.push(self.pattern()?);
        if self.eat(Token::Eq, &mut out) {
            self.trivia(&mut out);
            out.push(self.pattern()?);
            return Ok(self.rule(Rule::BindStmt, out));
        }
        Ok(self.rule(Rule::ImplicitBindStmt, out))
    }

    fn pattern(&mut self) -> Found {
        let mut out = vec![self.branch()?];
        while self.eat(Token::Pipe, &mut out) {
            self.trivia(&mut out);
            out.push(self.branch()?);
        }
        let rule = if out.len() == 1 {
            Rule::Pattern
        } else {
            Rule::Disjunction
        };
        Ok(self.rule(rule, out))
    }

    fn branch(&mut self) -> Found {
        let mut out = vec![];
        if self.eat(Token::QId, &mut out) {
            self.trivia(&mut out);
            out.push(self.branch()?);
            return Ok(self.rule(Rule::FactPattern, out));
        }
        out.push(self.primary()?);
        while self.eat(Token::Dot, &mut out) {
            self.need(Token::LId, &mut out)?;
            self.eat(Token::Question, &mut out);
        }
        let rule = if out.len() == 1 {
            Rule::Branch
        } else {
            Rule::AccessPattern
        };
        Ok(self.rule(rule, out))
    }

    fn primary(&mut self) -> Found {
        let mut out = vec![];
        if self.eat(Token::Underscore, &mut out) {
            return Ok(self.rule(Rule::WildcardPrimary, out));
        }
        if self.eat(Token::Never, &mut out) {
            return Ok(self.rule(Rule::NeverPrimary, out));
        }
        if self.eat(Token::UId, &mut out) {
            return Ok(self.rule(Rule::VarPrimary, out));
        }
        if self.eat(Token::Nat, &mut out) {
            return Ok(self.rule(Rule::NatPrimary, out));
        }
        if self.eat(Token::Minus, &mut out) {
            self.need(Token::Nat, &mut out)?;
            return Ok(self.rule(Rule::IntPrimary, out));
        }
        if self.eat(Token::String, &mut out) {
            let rule = if self.eat(Token::DotDot, &mut out) {
                Rule::StringPrefixPrimary
            } else {
                Rule::StringPrimary
            };
            return Ok(self.rule(rule, out));
        }
        if self.eat(Token::LBrace, &mut out) {
            if self.peek() != Some(Token::RBrace) {
                self.trivia(&mut out);
                out.push(self.field_list()?);
            }
            self.need(Token::RBrace, &mut out)?;
            return Ok(self.rule(Rule::AnonRecordPrimary, out));
        }
        if self.eat(Token::LParen, &mut out) {
            self.trivia(&mut out);
            out.push(self.pattern()?);
            let mut rule = Rule::ParenPrimary;
            if self.eat(Token::Where, &mut out) {
                self.trivia(&mut out);
                out.push(self.stmt_list()?);
                rule = Rule::SubqueryPrimary;
            }
            self.need(Token::RParen, &mut out)?;
            return Ok(self.rule(rule, out));
        }
        Err(format!("expected a pattern, found {:?}", self.peek()))
    }

    fn field_list(&mut self) -> Found {
        let mut out = vec![self.field()?];
        while self.eat(Token::Comma, &mut out) {
            self.trivia(&mut out);
            out.push(self.field()?);
        }
        Ok(self.rule(Rule::FieldList, out))
    }

    fn field(&mut self) -> Found {
        let mut out = vec![];
        self.need(Token::LId, &mut out)?;
        self.need(Token::Eq, &mut out)?;
        self.trivia(&mut out);
        out.push(self.pattern()?);
        Ok(self.rule(Rule::Field, out))
    }
}

/// Parse a text. One that is no query still has a tree, with a hole in it.
fn parse(source: &str) -> Parsed {
    let (tokens, spans) = tokens_of(source);
    let grammar = |mut lexed: Lexed| {
        let (tokens, spans) = lexed.create_tokens().expect("tokens nobody has taken");
        let mut descent = Descent {
            source,
            tokens,
            spans,
            at: 0,
        };
        let whole = Span {
            start: 0,
            end: source.len(),
        };
        match descent.root() {
            Ok(root) => (root, vec![]),
            Err(message) => {
                let hole = CstNode::Rule {
                    rule: Rule::Error,
                    span: whole,
                    children: vec![],
                };
                let root = CstNode::Rule {
                    rule: Rule::Root,
                    span: whole,
                    children: vec![hole],
                };
                (root, vec![create_diagnostic(whole, message)])
            }
        }
    };
    parse_tokens(Lexed::new(tokens, spans), source.len(), vec![], grammar)
}

// ---- the database the queries are about --------------------------------------

fn schema() -> Schema {
    let mut names = Rodeo::default();
    let mut key = |name: &str| NameKey(names.get_or_intern(name).into_usize());
    let (int, text) = (|| PredicateTy::Int, || PredicateTy::Str);
    let foo = || PredicateTy::Fact(PredicateId(0));

    let mut predicates = vec![];
    let mut declare = |name: NameKey, key: PredicateTy, value: Option<PredicateTy>| {
        predicates.push(Predicate { name, key, value });
    };
    let record = |fields: Vec<(NameKey, PredicateTy)>| PredicateTy::Record(Arc::new(fields));

    declare(
        key("test.Foo"),
        record(vec![(key("id"), int()), (key("name"), text())]),
        Some(text()),
    );
    declare(key("test.Bar"), record(vec![(key("id"), int())]), None);
    declare(
        key("test.Edge"),
        record(vec![(key("from"), int()), (key("to"), int())]),
        None,
    );
    declare(key("test.Node"), record(vec![(key("id"), int())]), None);
    declare(
        key("test.Nested"),
        record(vec![(key("outer"), record(vec![(key("inner"), int())]))]),
        None,
    );
    declare(key("test.Name"), text(), None);
    declare(key("test.Count"), int(), None);
    declare(key("test.Ref"), record(vec![(key("of"), foo())]), None);
    declare(
        key("test.Link"),
        record(vec![(key("at"), int()), (key("of"), foo())]),
        None,
    );
    declare(
        key("test.Deep"),
        record(vec![(key("via"), PredicateTy::Fact(PredicateId(7)))]),
        None,
    );
    declare(
        key("test.Wide"),
        record(vec![(
            key("outer"),
            record(vec![(key("extra"), int()), (key("inner"), int())]),
        )]),
        None,
    );
    declare(
        key("test.Shadow"),
        record(vec![(key("value"), int())]),
        Some(text()),
    );

    Schema::new(names.into_reader(), Arc::new(predicates))
}

fn record_field(fields: &[Vec<u8>]) -> Vec<u8> {
    let mut out = vec![MARK_RECORD];
    for field in fields {
        out.extend_from_slice(field);
    }
    out.push(MARK_TERM);
    out
}

fn fact_field(predicate: u32, sequence: u64) -> Vec<u8> {
    let mut out = vec![];
    put_fact_id(
        &mut out,
        FactId::new(PredicateId(predicate), sequence).expect("id"),
    );
    out
}

fn store() -> MemStore {
    let mut store = MemStore::new();
    let mut put = |predicate: u32, rows: Vec<(Vec<u8>, Vec<u8>)>| {
        for (at, (key, value)) in rows.into_iter().enumerate() {
            store.insert_valued(PredicateId(predicate), key, at as u64 + 1, value);
        }
    };
    let bare = |keys: Vec<Vec<u8>>| keys.into_iter().map(|key| (key, vec![])).collect::<Vec<_>>();

    put(
        0,
        [(1, "ann", "one"), (2, "bob", "two"), (3, "ann", "three")]
            .iter()
            .map(|(id, name, value)| {
                let mut key = i64_field(*id);
                key.extend(str_field(name));
                (key, str_field(value))
            })
            .collect(),
    );
    put(1, bare(vec![i64_field(1), i64_field(2)]));
    put(
        2,
        bare(
            [(1, 2), (1, 3), (2, 3)]
                .iter()
                .map(|(from, to)| {
                    let mut key = i64_field(*from);
                    key.extend(i64_field(*to));
                    key
                })
                .collect(),
        ),
    );
    put(3, bare(vec![i64_field(2), i64_field(3)]));
    put(
        4,
        bare(vec![
            record_field(&[i64_field(1)]),
            record_field(&[i64_field(7)]),
        ]),
    );
    put(
        5,
        bare(["abc", "ann", "anna", "bob"].iter().map(|name| str_field(name)).collect()),
    );
    put(
        6,
        bare([i64::MIN, -42, 7, 1_000].iter().map(|n| i64_field(*n)).collect()),
    );
    put(7, bare(vec![fact_field(0, 1), fact_field(0, 2)]));
    put(
        8,
        bare(
            [(10, 1), (11, 2), (12, 2)]
                .iter()
                .map(|(at, of)| {
                    let mut key = i64_field(*at);
                    key.extend(fact_field(0, *of));
                    key
                })
                .collect(),
        ),
    );
    put(9, bare(vec![fact_field(7, 1), fact_field(7, 2)]));
    put(
        10,
        bare(vec![record_field(&[i64_field(1), i64_field(2)])]),
    );
    store
}

// ---- driving the front end ---------------------------------------------------

struct Flattened {
    plan: Option<Program>,
    diagnostics: Diagnostics,
    interner: LocalInterner,
}

impl Flattened {
    fn codes(&self) -> Vec<&str> {
        codes(&self.diagnostics)
    }

    /// The program, insisting that nothing was reported.
    fn plan(&self) -> &Program {
        assert!(
            self.codes().is_empty(),
            "expected a plan, got {:?}",
            self.codes()
        );
        self.plan.as_ref().expect("a plan")
    }

    fn into_program(self) -> Program {
        assert!(self.codes().is_empty());
        self.plan.expect("a plan")
    }
}

fn codes(diagnostics: &Diagnostics) -> Vec<&'static str> {
    diagnostics
        .entries()
        .iter()
        .map(|entry| entry.code.as_str())
        .collect()
}

/// Parse and lower, without asking that nothing was reported in lowering.
fn lower_source(source: &str) -> (Ast, Diagnostics, LocalInterner) {
    let schema = schema();
    let mut interner = LocalInterner::new(schema.interner().clone());
    let parsed = parse(source);
    assert!(!parsed.has_errors(), "{source:?} must parse");
    let (ast, diagnostics) = lower(parsed.root().expect("a tree"), &schema, &mut interner);
    (ast, diagnostics, interner)
}

fn flatten_with(source: &str, schema: &Schema, order: Option<&[usize]>) -> Flattened {
    let mut interner = LocalInterner::new(schema.interner().clone());
    let parsed = parse(source);
    assert!(!parsed.has_errors(), "{source:?} must parse");
    let (ast, mut diagnostics) = lower(parsed.root().expect("a tree"), schema, &mut interner);
    assert!(
        !diagnostics.has_errors(),
        "{source:?} must lower cleanly: {:?}",
        codes(&diagnostics)
    );
    let plan = match order {
        None => flatten(&ast, schema, &mut interner, &mut diagnostics),
        Some(order) => flatten_in_order(&ast, schema, &mut interner, &mut diagnostics, order),
    };
    Flattened {
        plan,
        diagnostics,
        interner,
    }
}

fn compile(source: &str) -> Flattened {
    flatten_with(source, &schema(), None)
}

fn compile_in_order(source: &str, order: &[usize]) -> Flattened {
    flatten_with(source, &schema(), Some(order))
}

/// The statements' dependency graph.
fn deps_of(source: &str) -> Deps {
    let schema = schema();
    let (ast, mut diagnostics, mut interner) = lower_source(source);
    assert!(!diagnostics.has_errors(), "{source:?} must lower cleanly");
    dependencies(&ast, &schema, &mut interner, &mut diagnostics).expect("a collectable query")
}

/// The codes of everything reported on the way to a plan.
fn front_end_codes(source: &str) -> Vec<String> {
    compile(source).codes().iter().map(|code| code.to_string()).collect()
}

fn shape(source: &str) -> String {
    let flattened = compile(source);
    describe(flattened.plan(), &flattened.interner)
}

fn lines(ls: &[&str]) -> String {
    ls.join("\n")
}

// ---- a program as text ---------------------------------------------------------

/// One line a step, and one for the head. Constant bytes show as `k`.
fn describe(plan: &Program, interner: &LocalInterner) -> String {
    let schema = schema();
    let mut out = vec![];
    for step in plan.body.iter() {
        let (sources, opening) = match step {
            Step::Level(level) => (
                &level.sources,
                format!(
                    "{} <- ",
                    level
                        .binds
                        .iter()
                        .map(|address| address.text())
                        .collect::<Vec<_>>()
                        .join(",")
                ),
            ),
            Step::Derive(derived) => {
                out.push(format!("{} = <computed>", derived.bind.text()));
                continue;
            }
            Step::Test(Test::Absent(sources)) => (sources, "absent ".to_owned()),
        };
        let alternatives = sources
            .iter()
            .map(|source| describe_source(source, &schema))
            .collect::<Vec<_>>();
        let rendered = if alternatives.is_empty() {
            "never".to_owned()
        } else {
            alternatives.join(" | ")
        };
        out.push(format!("{opening}{rendered}"));
    }
    out.push(format!("head {}", project(&plan.head, interner)));
    out.join("\n")
}

fn describe_source(source: &Source, schema: &Schema) -> String {
    let name = schema
        .get(source.predicate_id())
        .and_then(|p| p.name())
        .unwrap_or("?")
        .to_owned();
    let seek = match source {
        Source::Seek { access, .. } => match &access.seek_key {
            SeekKey::Prefix(bytes) if bytes.is_empty() => "scan".to_owned(),
            SeekKey::Prefix(_) => "seek[k]".to_owned(),
            SeekKey::Composite(parts) => format!(
                "seek[{}]",
                parts
                    .iter()
                    .map(|part| match part {
                        SeekKeyPart::Bytes(_) => "k".to_owned(),
                        SeekKeyPart::RegisterField { address, path } => {
                            format!("{}.{}", address.text(), path.text())
                        }
                        SeekKeyPart::RegisterFactId(address) => format!("{}#", address.text()),
                    })
                    .collect::<Vec<_>>()
                    .join(" ")
            ),
        },
        Source::Fetch {
            reference, path, ..
        } => format!("fetch[{}.{}]", reference.text(), path.text()),
    };
    let residuals = source
        .residuals()
        .iter()
        .map(|Residual { path, op }| match op {
            ResidualOp::EqConst(_) => format!("{} == k", path.text()),
            ResidualOp::Prefix(_) => format!("{} ^= k", path.text()),
            ResidualOp::EqRegisterField { address, path: at } => {
                format!("{} == {}.{}", path.text(), address.text(), at.text())
            }
            ResidualOp::EqRegisterFactId(address) => {
                format!("{} == {}#", path.text(), address.text())
            }
        })
        .collect::<Vec<_>>();
    let residuals = if residuals.is_empty() {
        String::new()
    } else {
        format!(" where {}", residuals.join(" and "))
    };
    format!("{name} {seek}{residuals}")
}

fn project(p: &Project, interner: &LocalInterner) -> String {
    match p {
        Project::Lit(Value::Int(n)) => n.to_string(),
        Project::Lit(Value::Str(s)) => format!("{s:?}"),
        Project::Lit(other) => format!("{other:?}"),
        Project::FactRef(address) => address.text(),
        Project::RegisterField { address, path, ty } => {
            format!("{}.{}:{}", address.text(), path.text(), render_ty(ty))
        }
        Project::Value { address, ty } => format!("{}.value:{}", address.text(), render_ty(ty)),
        Project::Computed(address) => format!("{}=", address.text()),
        Project::Record(fields) => format!(
            "{{{}}}",
            fields
                .iter()
                .map(|(name, field)| format!(
                    "{} = {}",
                    interner.try_resolve(*name).unwrap_or("?"),
                    project(field, interner)
                ))
                .collect::<Vec<_>>()
                .join(", ")
        ),
    }
}

fn render_ty(ty: &PredicateTy) -> String {
    match ty {
        PredicateTy::Int => "int".to_owned(),
        PredicateTy::Str => "str".to_owned(),
        PredicateTy::Fact(p) => format!("fact({})", p.0),
        PredicateTy::Record(fields) => format!("{{{} fields}}", fields.len()),
    }
}

// ---- running a program -----------------------------------------------------------

/// The rows of a query. Where its program is scans alone, the executor yields them too.
fn rows(source: &str) -> Vec<Value> {
    let flattened = compile(source);
    let answered =
        collect_answers(&store(), flattened.plan(), &flattened.interner).expect("answers");
    if let Some(plan) = compile(source).into_program().into_plan() {
        let run = collect_rows(store(), plan, &flattened.interner).expect("run");
        assert_eq!(run, answered, "{source:?}: as its plan runs");
    }
    answered
}

fn ints(ns: &[i64]) -> Vec<Value> {
    ns.iter().copied().map(Value::Int).collect()
}

fn strs(ss: &[&str]) -> Vec<Value> {
    ss.iter().map(|s| Value::Str((*s).to_owned())).collect()
}

/// Run a plan, stopping after each row `cuts` names and taking it up again.
fn run_with_suspends(
    mk: &dyn Fn() -> (MemStore, Plan),
    interner: &LocalInterner,
    cuts: &BTreeSet<usize>,
) -> Result<(Vec<Value>, usize), ApertureError> {
    let (store, plan) = mk();
    let mut executor = Executor::new(store, plan);
    let mut rows: Vec<Value> = vec![];
    let mut suspends = 0;
    loop {
        let ended = executor.enumerate(
            rows,
            |mut acc: Vec<Value>, row: Row<'_, MemStore>| {
                acc.push(row.to_value(interner)?);
                if cuts.contains(&acc.len()) {
                    Ok(Stream::Suspend(acc))
                } else {
                    Ok(Stream::Continue(acc))
                }
            },
            &CancellationToken::new(),
        )?;
        let cursor: Cursor;
        (rows, cursor) = match ended {
            Iteratee::Done(rows) => return Ok((rows, suspends)),
            Iteratee::Suspended(rows, cursor) => (rows, cursor),
        };
        suspends += 1;
        let (store, plan) = mk();
        executor = Executor::resume(store, plan, cursor)?;
    }
}

/// A store, and a query's plan where its program is scans alone.
fn run_of(source: &str) -> (MemStore, Plan) {
    let plan = compile(source).into_program().into_plan();
    (store(), plan.expect("scans alone"))
}

// ---- programs -------------------------------------------------------------------

#[test]
fn a_scan_binds_the_whole_row() {
    let flattened = compile("X where X = test.Foo _");
    let plan = flattened.plan();

    assert_eq!(plan.nvars, 1);
    assert_eq!(plan.body.len(), 1);
    assert_eq!(
        plan.level(0).expect("a level").binds.as_ref(),
        [Address::new(0)]
    );
    assert_eq!(
        describe(plan, &flattened.interner),
        lines(&["r0 <- test.Foo scan", "head r0"])
    );
}

#[test]
fn a_key_field_pattern_captures_the_field() {
    assert_eq!(
        shape("X where test.Foo {name = X}"),
        lines(&["r0 <- test.Foo scan", "head r0.1:str"]),
        "`name` is field 1 of `{{id, name}}` — fields are sorted by name",
    );
}

#[test]
fn the_head_projects_fields_values_and_records() {
    assert_eq!(
        shape("X.name where X = test.Foo _"),
        lines(&["r0 <- test.Foo scan", "head r0.1:str"])
    );
    assert_eq!(
        shape("X.value where X = test.Foo _"),
        lines(&["r0 <- test.Foo scan", "head r0.value:str"])
    );
    assert_eq!(
        shape("{a = X, b = Y} where test.Foo {name = X, id = Y}"),
        lines(&["r0 <- test.Foo scan", "head {a = r0.1:str, b = r0.0:int}"]),
        "record fields are sorted by name, in the head as everywhere",
    );
    assert_eq!(
        shape("42 where test.Foo _"),
        lines(&["r0 <- test.Foo scan", "head 42"]),
        "a literal head is a constant row",
    );
}

#[test]
fn a_nested_capture_is_projected_through_a_path() {
    assert_eq!(
        shape("X where test.Nested {outer = {inner = X}}"),
        lines(&["r0 <- test.Nested scan", "head r0.0.0:int"])
    );
    assert_eq!(
        shape("X where test.Nested {outer = X}"),
        lines(&["r0 <- test.Nested scan", "head r0.0:{1 fields}"])
    );
}

#[test]
fn a_leading_constant_becomes_a_seek_prefix() {
    let flattened = compile("X where X = test.Foo {id = 1}");
    let plan = flattened.plan();

    assert_eq!(
        describe(plan, &flattened.interner),
        lines(&["r0 <- test.Foo seek[k]", "head r0"])
    );
    match &plan
        .level(0)
        .expect("a level")
        .sole_source()
        .expect("one source")
        .seek_key()
        .expect("a seek")
    {
        SeekKey::Prefix(bytes) => assert_eq!(bytes.as_ref(), i64_field(1).as_slice()),
        other => panic!("expected a constant prefix, got {other:?}"),
    }
}

#[test]
fn a_scalar_key_constant_is_the_whole_seek() {
    let flattened = compile("X where X = test.Count -42");

    match &flattened
        .plan()
        .level(0)
        .expect("a level")
        .sole_source()
        .expect("one source")
        .seek_key()
        .expect("a seek")
    {
        SeekKey::Prefix(bytes) => assert_eq!(bytes.as_ref(), i64_field(-42).as_slice()),
        other => panic!("expected a constant prefix, got {other:?}"),
    }
}

#[test]
fn a_constant_after_a_capture_becomes_a_residual() {
    let flattened = compile("X where test.Foo {id = X, name = \"a\"}");
    let plan = flattened.plan();

    assert_eq!(
        describe(plan, &flattened.interner),
        lines(&["r0 <- test.Foo scan where 1 == k", "head r0.0:int"])
    );
    match &plan
        .level(0)
        .expect("a level")
        .sole_source()
        .expect("one source")
        .residuals()[0]
        .op
    {
        ResidualOp::EqConst(bytes) => assert_eq!(bytes.as_ref(), str_field("a").as_slice()),
        other => panic!("expected a constant residual, got {other:?}"),
    }
}

#[test]
fn a_string_prefix_narrows_the_scan() {
    let flattened = compile("X where X = test.Name \"abc\"..");
    let plan = flattened.plan();

    assert_eq!(
        describe(plan, &flattened.interner),
        lines(&["r0 <- test.Name seek[k]", "head r0"])
    );

    let mut expected = str_field("abc");
    expected.pop().expect("a terminated string");
    match &plan
        .level(0)
        .expect("a level")
        .sole_source()
        .expect("one source")
        .seek_key()
        .expect("a seek")
    {
        SeekKey::Prefix(bytes) => assert_eq!(bytes.as_ref(), expected.as_slice()),
        other => panic!("expected a prefix seek, got {other:?}"),
    }
}

#[test]
fn a_string_prefix_after_a_capture_is_a_prefix_residual() {
    let flattened = compile("X where test.Foo {id = X, name = \"a\"..}");
    let plan = flattened.plan();

    assert_eq!(
        describe(plan, &flattened.interner),
        lines(&["r0 <- test.Foo scan where 1 ^= k", "head r0.0:int"])
    );

    let mut expected = str_field("a");
    expected.pop().expect("a terminated string");
    match &plan
        .level(0)
        .expect("a level")
        .sole_source()
        .expect("one source")
        .residuals()[0]
        .op
    {
        ResidualOp::Prefix(bytes) => assert_eq!(bytes.as_ref(), expected.as_slice()),
        other => panic!("expected a prefix residual, got {other:?}"),
    }
}

#[test]
fn a_constrained_capture_narrows_the_scan_that_binds_it() {
    let flattened = compile("X where test.Name X; X = \"a\"..");
    let plan = flattened.plan();

    assert_eq!(
        describe(plan, &flattened.interner),
        lines(&["r0 <- test.Name seek[k]", "head r0.0:str"])
    );

    let mut expected = str_field("a");
    expected.pop().expect("a terminated string");
    match &plan
        .level(0)
        .expect("a level")
        .sole_source()
        .expect("one source")
        .seek_key()
        .expect("a seek")
    {
        SeekKey::Prefix(bytes) => assert_eq!(bytes.as_ref(), expected.as_slice()),
        other => panic!("expected a prefix seek, got {other:?}"),
    }

    assert_eq!(rows("X where test.Name X; X = \"a\"..").len(), 3);
}

#[test]
fn a_constraint_extends_a_seek_that_is_still_building() {
    assert_eq!(
        shape("X where test.Foo {id = 1, name = X}; X = \"a\".."),
        lines(&["r0 <- test.Foo seek[k]", "head r0.1:str"])
    );

    assert_eq!(
        shape("X where test.Foo {name = X}; X = \"a\".."),
        lines(&["r0 <- test.Foo scan where 1 ^= k", "head r0.1:str"])
    );

    assert_eq!(rows("X where test.Foo {name = X}; X = \"a\"..").len(), 2);
}

#[test]
fn a_negation_is_a_test_over_the_seek_a_scan_would_have_used() {
    assert_eq!(
        shape("X where test.Foo {id = X}; !test.Bar {id = X}"),
        lines(&[
            "r0 <- test.Foo scan",
            "absent test.Bar seek[r0.0]",
            "head r0.0:int",
        ])
    );

    assert_eq!(
        rows("X where test.Foo {id = X}; !test.Bar {id = X}"),
        ints(&[3])
    );
}

#[test]
fn a_negation_runs_after_the_statement_that_binds_it() {
    let expected = shape("X where test.Foo {id = X}; !test.Bar {id = X}");
    assert_eq!(
        shape("X where !test.Bar {id = X}; test.Foo {id = X}"),
        expected
    );

    assert_eq!(
        rows("X where !test.Bar {id = X}; test.Foo {id = X}"),
        rows("X where test.Foo {id = X}; !test.Bar {id = X}")
    );
}

#[test]
fn a_negated_disjunction_is_one_test_with_two_sources() {
    assert_eq!(
        shape("X where test.Foo {id = X}; !(test.Bar {id = X} | test.Node {id = X})"),
        lines(&[
            "r0 <- test.Foo scan",
            "absent test.Bar seek[r0.0] | test.Node seek[r0.0]",
            "head r0.0:int",
        ])
    );

    assert_eq!(
        rows("X where test.Foo {id = X}; !(test.Bar {id = X} | test.Node {id = X})"),
        ints(&[])
    );
}

#[test]
fn negating_the_empty_relation_passes_everything() {
    assert_eq!(
        shape("X where test.Bar {id = X}; !never"),
        lines(&["r0 <- test.Bar scan", "absent never", "head r0.0:int"])
    );

    assert_eq!(rows("X where test.Bar {id = X}; !never"), ints(&[1, 2]));
}

#[test]
fn a_negation_refuses_what_it_cannot_mean() {
    assert_eq!(
        front_end_codes("X where test.Foo {id = X}; !test.Edge {from = X, to = Y}"),
        ["reject/unbound-variable"]
    );

    assert_eq!(
        front_end_codes("P where P = test.Foo {id = 1}; !test.Ref {of = test.Foo {id = 2}}"),
        ["nyi/negation"]
    );

    assert_eq!(
        front_end_codes("X where test.Foo {id = X}; !(Y where test.Bar {id = Y})"),
        ["nyi/negation"]
    );

    assert_eq!(
        rows("X where test.Foo {id = X}; !test.Edge {from = X, to = _}"),
        ints(&[3])
    );
}

#[test]
fn a_constraint_lands_wherever_it_is_written() {
    let expected = shape("X where test.Edge {from = X}; test.Node {id = X}; X = 1");

    for source in [
        "X where X = 1; test.Edge {from = X}; test.Node {id = X}",
        "X where test.Edge {from = X}; X = 1; test.Node {id = X}",
    ] {
        assert_eq!(shape(source), expected, "for {source:?}");
    }

    let constrained = shape("X where test.Name X; X = \"a\"..");
    assert_eq!(shape("X where X = \"a\"..; test.Name X"), constrained);
}

#[test]
fn two_constraints_on_one_variable_both_hold() {
    assert_eq!(
        shape("X where test.Name X; X = \"a\"..; X = \"an\".."),
        lines(&["r0 <- test.Name seek[k] where 0 ^= k", "head r0.0:str"])
    );

    assert_eq!(
        rows("X where test.Name X; X = \"a\"..; X = \"an\".."),
        strs(&["ann", "anna"]),
    );
}

#[test]
fn a_constraint_on_an_alias_filters_the_row_it_names() {
    assert_eq!(
        shape("Y where X = test.Foo _; Y = X.name; Y = \"a\".."),
        lines(&["r0 <- test.Foo scan where 1 ^= k", "head r0.1:str"])
    );

    assert_eq!(
        rows("Y where X = test.Foo _; Y = X.name; Y = \"a\".."),
        strs(&["ann", "ann"]),
    );
}

#[test]
fn a_constraint_a_constant_meets_folds_and_one_it_cannot_empties_the_query() {
    assert_eq!(
        shape("X where X = \"abc\"; X = \"a\".."),
        lines(&["head \"abc\""])
    );
    assert_eq!(rows("X where X = \"abc\"; X = \"a\".."), strs(&["abc"]));

    assert_eq!(
        shape("X where X = \"abc\"; X = \"z\".."),
        lines(&["r0 <- never", "head \"abc\""])
    );
    assert_eq!(rows("X where X = \"abc\"; X = \"z\".."), vec![]);
}

#[test]
fn every_branch_of_a_disjunction_is_constrained() {
    assert_eq!(
        shape("X where test.Name X | test.Name X; X = \"a\".."),
        lines(&[
            "r0 <- test.Name seek[k] | test.Name seek[k]",
            "head r0.0:str"
        ])
    );
}

#[test]
fn a_constraint_on_a_variable_nothing_binds_is_unbound() {
    assert_eq!(
        compile("X where X = \"a\"..").codes(),
        ["reject/unbound-variable"]
    );
    assert_eq!(
        compile("Y where test.Name Y; X = \"a\"..").codes(),
        ["reject/unbound-variable"]
    );
}

#[test]
fn a_bound_variable_in_the_leading_field_splices_into_the_seek() {
    assert_eq!(
        shape("X where test.Edge {from = X, to = Y}; test.Node {id = Y}"),
        lines(&[
            "r0 <- test.Edge scan",
            "r1 <- test.Node seek[r0.1]",
            "head r0.0:int",
        ])
    );
}

#[test]
fn a_bound_variable_after_an_open_field_becomes_a_residual() {
    assert_eq!(
        shape("X where test.Edge {from = X, to = Y}; test.Edge {to = Y}"),
        lines(&[
            "r0 <- test.Edge scan",
            "r1 <- test.Edge scan where 1 == r0.1",
            "head r0.0:int",
        ])
    );
}

#[test]
fn a_field_read_splices_the_field_it_names() {
    assert_eq!(
        shape("Y where Y = test.Foo _; test.Name Y.name"),
        lines(&[
            "r0 <- test.Foo scan",
            "r1 <- test.Name seek[r0.1]",
            "head r0",
        ])
    );
}

#[test]
fn which_statement_comes_first_decides_seek_or_residual() {
    assert_eq!(
        shape("X where test.Edge {from = X, to = Y}; test.Node {id = Y}"),
        lines(&[
            "r0 <- test.Edge scan",
            "r1 <- test.Node seek[r0.1]",
            "head r0.0:int",
        ])
    );
    assert_eq!(
        shape("X where test.Node {id = Y}; test.Edge {from = X, to = Y}"),
        lines(&[
            "r0 <- test.Node scan",
            "r1 <- test.Edge scan where 1 == r0.0",
            "head r1.0:int",
        ]),
        "`from = X` is a capture, so it cannot narrow the scan; `to = Y` filters",
    );
}

#[test]
fn a_bound_variable_may_be_read_twice_in_one_row() {
    assert_eq!(
        shape("X where test.Node {id = X}; test.Edge {from = X, to = X}"),
        lines(&[
            "r0 <- test.Node scan",
            "r1 <- test.Edge seek[r0.0 r0.0]",
            "head r0.0:int",
        ])
    );
}

#[test]
fn a_bound_row_splices_its_fact_id_into_the_seek() {
    assert_eq!(
        shape("P where P = test.Foo {id = 1}; test.Ref {of = P}"),
        lines(&[
            "r0 <- test.Foo seek[k]",
            "r1 <- test.Ref seek[r0#]",
            "head r0",
        ]),
    );
}

#[test]
fn a_reference_after_an_open_field_becomes_a_residual() {
    assert_eq!(
        shape("{a = X} where P = test.Foo {id = 1}; test.Link {at = X, of = P}"),
        lines(&[
            "r0 <- test.Foo seek[k]",
            "r1 <- test.Link scan where 1 == r0#",
            "head {a = r1.0:int}",
        ]),
    );
}

#[test]
fn a_fact_typed_field_may_be_captured_and_projected() {
    assert_eq!(
        shape("X where test.Ref {of = X}"),
        lines(&["r0 <- test.Ref scan", "head r0.0:fact(0)"]),
        "`fact(0)` is `test.Foo` — the predicate the field is declared against",
    );
}

#[test]
fn two_references_to_one_fact_compare_as_fields() {
    assert_eq!(
        shape("X where test.Ref {of = X}; test.Link {at = 1, of = X}"),
        lines(&[
            "r0 <- test.Ref scan",
            "r1 <- test.Link seek[k r0.0]",
            "head r0.0:fact(0)",
        ]),
    );
}

#[test]
fn a_row_variable_at_a_reference_field_is_a_read() {
    let deps = deps_of("P where P = test.Foo {id = 1}; test.Ref {of = P}");

    assert_eq!(deps.antichains(), Some(vec![vec![0], vec![1]]));
    assert!(deps.respects(&[0, 1]));
    assert!(!deps.respects(&[1, 0]));
}

#[test]
fn a_row_bound_after_the_field_that_reads_it_is_reordered() {
    let deps = deps_of("P where test.Ref {of = P}; P = test.Foo {id = 1}");

    assert_eq!(deps.antichains(), Some(vec![vec![1], vec![0]]));
    assert!(deps.respects(&[1, 0]));
    assert!(
        !deps.respects(&[0, 1]),
        "the premise: the source order is wrong"
    );

    assert_eq!(
        shape("P where test.Ref {of = P}; P = test.Foo {id = 1}"),
        shape("P where P = test.Foo {id = 1}; test.Ref {of = P}"),
        "one query, two spellings, one plan"
    );

    assert_eq!(
        shape("P where test.Ref {of = P}; P = test.Foo {id = 1}"),
        lines(&[
            "r0 <- test.Foo seek[k]",
            "r1 <- test.Ref seek[r0#]",
            "head r0",
        ]),
    );
}

#[test]
fn a_row_variable_bound_twice_is_deferred() {
    let flattened = compile("X where X = test.Foo {id = 1}; X = test.Foo {id = 2}");

    assert!(flattened.plan.is_none());
    assert_eq!(flattened.codes(), ["nyi/bind-unification"]);
}

#[test]
fn two_reference_fields_sharing_a_variable_are_one_antichain() {
    let deps = deps_of("X where test.Ref {of = X}; test.Link {at = 1, of = X}");

    assert_eq!(deps.antichains(), Some(vec![vec![0, 1]]));
    assert!(deps.respects(&[0, 1]));
    assert!(deps.respects(&[1, 0]));
}

#[test]
fn a_nested_fact_pattern_becomes_its_own_level() {
    assert_eq!(
        shape("X where X = test.Ref {of = test.Foo {id = 1}}"),
        lines(&[
            "r0 <- test.Foo seek[k]",
            "r1 <- test.Ref seek[r0#]",
            "head r1",
        ]),
    );
}

#[test]
fn hoisting_nests() {
    assert_eq!(
        shape("X where X = test.Deep {via = test.Ref {of = test.Foo {id = 1}}}"),
        lines(&[
            "r0 <- test.Foo seek[k]",
            "r1 <- test.Ref seek[r0#]",
            "r2 <- test.Deep seek[r1#]",
            "head r2",
        ]),
    );
}

#[test]
fn a_hoisted_generator_captures_its_own_fields() {
    assert_eq!(
        shape("X where test.Ref {of = test.Foo {name = X}}"),
        lines(&[
            "r0 <- test.Foo scan",
            "r1 <- test.Ref seek[r0#]",
            "head r0.1:str",
        ]),
    );
}

#[test]
fn a_hoisted_generator_may_read_an_outer_capture() {
    assert_eq!(
        shape("X where test.Node {id = X}; test.Ref {of = test.Foo {id = X}}"),
        lines(&[
            "r0 <- test.Node scan",
            "r1 <- test.Foo seek[r0.0]",
            "r2 <- test.Ref seek[r1#]",
            "head r0.0:int",
        ]),
        "the hoisted level lands between the statement it reads and the one that \
         names it",
    );
}

#[test]
fn a_fact_pattern_in_the_head_is_hoisted_too() {
    assert_eq!(
        shape("test.Bar {id = 1} where test.Foo _"),
        lines(&["r0 <- test.Foo scan", "r1 <- test.Bar seek[k]", "head r1",]),
        "the head's generator is the last level: it can read every capture, and \
         nothing reads it",
    );
    assert_eq!(
        shape("{a = test.Bar {id = 1}} where test.Foo _"),
        lines(&[
            "r0 <- test.Foo scan",
            "r1 <- test.Bar seek[k]",
            "head {a = r1}",
        ]),
    );
}

#[test]
fn a_hoisted_generators_field_may_be_read() {
    assert_eq!(
        shape("(test.Foo {id = 1}).name where test.Bar _"),
        lines(&[
            "r0 <- test.Bar scan",
            "r1 <- test.Foo seek[k]",
            "head r1.1:str",
        ]),
    );
}

#[test]
fn the_nested_spelling_is_the_two_statement_one() {
    assert_eq!(
        shape("X where X = test.Ref {of = test.Foo {id = 1}}"),
        shape("X where P = test.Foo {id = 1}; X = test.Ref {of = P}"),
    );
    assert_eq!(
        shape("X where test.Ref {of = test.Foo {name = X}}"),
        shape("X where P = test.Foo {name = X}; test.Ref {of = P}"),
    );
    assert_eq!(
        shape("X where X = test.Deep {via = test.Ref {of = test.Foo {id = 1}}}"),
        shape(
            "X where P = test.Foo {id = 1}; Q = test.Ref {of = P}; \
             X = test.Deep {via = Q}"
        ),
    );

    assert_eq!(
        rows("X where test.Ref {of = test.Foo {name = X}}"),
        rows("X where P = test.Foo {name = X}; test.Ref {of = P}"),
    );
}

#[test]
fn a_hoisted_generator_constrains_the_order() {
    let deps = deps_of("X where X = test.Ref {of = test.Foo {id = 1}}");

    assert_eq!(deps.len(), 2, "one statement became two levels");
    assert_eq!(deps.antichains(), Some(vec![vec![0], vec![1]]));
    assert!(deps.respects(&[0, 1]));
    assert!(!deps.respects(&[1, 0]));

    let flattened = compile_in_order("X where X = test.Ref {of = test.Foo {id = 1}}", &[1, 0]);
    assert_eq!(flattened.codes(), ["reject/unbound-variable"]);
}

#[test]
fn an_uncaptured_variable_is_rejected() {
    for source in [
        "X where test.Foo _",
        "X where test.Foo {id = Y}",
        "{a = X} where test.Foo {id = Y}",
    ] {
        let flattened = compile(source);
        assert_eq!(flattened.codes(), ["reject/unbound-variable"], "{source:?}");
        assert!(flattened.plan.is_none());
    }
}

#[test]
fn an_intra_row_repeat_is_rejected() {
    for source in [
        "X where test.Edge {from = X, to = X}",
        "X where test.Wide {outer = {extra = X, inner = X}}",
    ] {
        let flattened = compile(source);
        assert_eq!(flattened.codes(), ["nyi/repeated-variable"], "{source:?}");
        assert!(flattened.plan.is_none());
    }
}

#[test]
fn a_statement_that_is_not_a_generator_is_rejected() {
    let flattened = compile("X where X = test.Foo _; 42");
    assert_eq!(flattened.codes(), ["reject/not-a-generator"]);
}

#[test]
fn a_head_that_is_not_a_value_is_rejected() {
    let flattened = compile("\"abc\".. where test.Foo _");
    assert_eq!(flattened.codes(), ["reject/not-projectable"]);
}

#[test]
fn flatten_reports_every_fault_it_finds() {
    let flattened = compile("X where 42; 43");
    assert_eq!(
        flattened.codes(),
        ["reject/not-a-generator", "reject/not-a-generator"],
        "both statements, not just the first",
    );
}

/// A head of another shape, or with a variable nothing binds, is reported; one that reads a
/// field that is not there is left to typechecking.
#[test]
fn a_head_without_a_projection_is_reported_or_reads_what_is_not_there() {
    assert_eq!(
        compile("\"abc\".. where test.Foo _").codes(),
        ["reject/not-projectable"]
    );
    assert_eq!(
        compile("{a = X, b = Y} where test.Bar {id = X}").codes(),
        ["reject/unbound-variable"]
    );
    let quiet = compile("X.nope where X = test.Foo _");
    assert!(quiet.plan.is_none());
    assert!(quiet.codes().is_empty());
}

/// What was reported before stays, ahead of what flattening reports.
#[test]
fn what_was_reported_stays_reported() {
    let schema = schema();
    let (ast, mut diagnostics, mut interner) = lower_source("X where 42");
    assert!(flatten(&ast, &schema, &mut interner, &mut diagnostics).is_none());
    let before: Vec<String> = diagnostics
        .entries()
        .iter()
        .map(|entry| entry.message.clone())
        .collect();
    assert_eq!(before.len(), 1);

    let (ast, _, _) = lower_source("X where 42; 43");
    assert!(flatten(&ast, &schema, &mut interner, &mut diagnostics).is_none());
    let after: Vec<String> = diagnostics
        .entries()
        .iter()
        .map(|entry| entry.message.clone())
        .collect();
    assert_eq!(after.len(), 3);
    assert_eq!(after[..1], before[..]);
}

/// What cannot stand inside a pattern is said in full.
#[test]
fn an_alternation_and_never_inside_a_pattern_are_explained() {
    let said = |source: &str| -> Vec<String> {
        compile(source)
            .diagnostics
            .entries()
            .iter()
            .map(|entry| entry.message.clone())
            .collect()
    };
    let gap = " ".repeat(22);
    assert_eq!(
        said("X where test.Bar {id = X}; test.Node {id = 1 | 2}"),
        [format!(
            "an alternation inside a pattern is not implemented yet; write it as{gap}whole \
             alternatives — `test.Foo {{…}} | test.Foo {{…}}`"
        )]
    );
    assert_eq!(
        said("X where test.Bar {id = X}; test.Node {id = never}"),
        [format!(
            "`never` inside a pattern is not implemented yet; as a statement or a{gap}branch \
             of a disjunction it works"
        )]
    );
}

#[test]
fn naming_a_field_read_compiles_to_the_read() {
    assert_eq!(
        shape("Y where X = test.Foo _; Y = X.name"),
        shape("X.name where X = test.Foo _"),
    );

    assert_eq!(
        rows("Y where X = test.Foo _; Y = X.name"),
        strs(&["ann", "bob", "ann"]),
    );
}

#[test]
fn an_alias_seeks_where_the_read_would() {
    assert_eq!(
        shape("X.name where X = test.Foo _; Y = X.name; test.Name Y"),
        shape("X.name where X = test.Foo _; test.Name X.name"),
    );

    assert_eq!(
        rows("Y where X = test.Foo _; Y = X.name; test.Name Y"),
        strs(&["ann", "bob", "ann"]),
    );
}

#[test]
fn naming_a_bound_variable_is_an_alias() {
    assert_eq!(
        shape("Y where test.Foo {name = X}; Y = X"),
        shape("X where test.Foo {name = X}"),
    );

    assert_eq!(
        rows("Y where test.Foo {name = X}; Y = X"),
        strs(&["ann", "bob", "ann"]),
    );
}

#[test]
fn which_side_of_a_bind_is_written_first_does_not_matter() {
    assert_eq!(
        shape("Y where test.Foo {name = X}; X = Y"),
        shape("Y where test.Foo {name = X}; Y = X"),
    );

    assert_eq!(
        shape("Y where P = test.Foo _; P = Y"),
        shape("Y where P = test.Foo _; Y = P"),
    );

    assert_eq!(
        shape("X where test.Foo {id = X}; test.Bar {id = Y}; X = Y"),
        shape("X where test.Foo {id = X}; test.Bar {id = Y}; Y = X"),
    );

    assert_eq!(
        shape("X where test.Foo {id = X}; X = Y; test.Bar {id = Y}"),
        shape("X where test.Foo {id = X}; test.Bar {id = Y}; X = Y"),
    );

    assert_eq!(
        rows("Y where test.Foo {name = X}; X = Y"),
        rows("X where test.Foo {name = X}"),
    );
}

#[test]
fn a_value_alias_projects_but_does_not_match() {
    assert_eq!(
        rows("Y where X = test.Foo _; Y = X.value"),
        strs(&["one", "two", "three"]),
    );

    assert_eq!(
        compile("Y where X = test.Foo _; Y = X.value; test.Name Y").codes(),
        ["nyi/value-match"],
    );

    assert_eq!(
        compile("Y where X = test.Foo _; Y = X.value; Y = \"a\"..").codes(),
        ["nyi/value-match"],
    );
}

#[test]
fn an_alias_through_a_reference_names_the_fetched_field() {
    assert_eq!(
        shape("Y where test.Ref {of = P}; Y = P.name"),
        shape("P.name where test.Ref {of = P}"),
    );
}

#[test]
fn a_variable_may_be_claimed_once() {
    assert_eq!(
        front_end_codes("Z where X = test.Foo _; Y = test.Foo _; Z = X.name; Z = Y.name"),
        ["nyi/bind-unification"],
    );

    assert_eq!(
        compile("X where X = test.Foo _; X = test.Foo {id = 1}").codes(),
        ["nyi/bind-unification"],
    );
}

#[test]
fn a_record_pattern_destructures_any_slot() {
    assert_eq!(
        shape("X where P = test.Nested _; {inner = X} = P.outer"),
        shape("X where P = test.Nested _; X = P.outer.inner"),
    );

    assert_eq!(
        rows("X where P = test.Nested _; {inner = X} = P.outer"),
        ints(&[1, 7])
    );

    assert_eq!(
        rows("{a = A, b = B} where P = test.Wide _; {extra = A, inner = B} = P.outer"),
        vec![Value::Record(vec![
            ("a".to_owned(), Value::Int(1)),
            ("b".to_owned(), Value::Int(2)),
        ])],
    );
}

#[test]
fn a_wildcard_piece_binds_nothing() {
    assert_eq!(
        shape("X where P = test.Wide _; {extra = _, inner = X} = P.outer"),
        shape("X where P = test.Wide _; X = P.outer.inner"),
    );

    assert_eq!(
        rows("X where P = test.Wide _; {extra = _, inner = X} = P.outer"),
        ints(&[2]),
    );
}

#[test]
fn a_value_no_location_names_is_still_deferred() {
    assert_eq!(
        compile("X where test.Nested {outer = {inner = Y}}; X = {inner = Y}").codes(),
        ["nyi/value-bind"],
    );
}

#[test]
fn a_constant_bind_folds_however_deep_it_is() {
    assert_eq!(rows("X where X = \"ann\""), strs(&["ann"]));

    assert_eq!(
        compile("X where X = \"a\"..").codes(),
        ["reject/unbound-variable"]
    );

    assert_eq!(
        rows("X where X = {inner = 1}"),
        vec![Value::Record(vec![(
            "inner".to_owned(),
            Value::Int(1)
        )])],
    );

    assert_eq!(
        rows("X where X = {extra = 2, inner = 1}"),
        rows("X where X = {inner = 1, extra = 2}"),
    );

    assert_eq!(
        compile("X where test.Nested {outer = {inner = Y}}; X = {inner = Y}").codes(),
        ["nyi/value-bind"],
    );
}

#[test]
fn a_constant_may_be_bound_after_a_field_captures_it() {
    for (written_late, written_first) in [
        (
            "X where test.Foo {id = N, name = X}; N = 1",
            "X where N = 1; test.Foo {id = N, name = X}",
        ),
        (
            "X where test.Nested {outer = X}; X = {inner = 1}",
            "X where X = {inner = 1}; test.Nested {outer = X}",
        ),
    ] {
        assert_eq!(
            shape(written_late),
            shape(written_first),
            "one query, two spellings, one plan: {written_late:?}"
        );
        assert_eq!(rows(written_late), rows(written_first), "{written_late:?}");
    }
}

#[test]
fn destructuring_a_constant_is_the_same_as_binding_each_piece() {
    assert_eq!(rows("X where {a = X} = {a = 1}"), rows("X where X = 1"));

    assert_eq!(
        shape("X where {a = X, b = Y} = {a = 1, b = 2}; test.Bar {id = X}"),
        shape("X where X = 1; Y = 2; test.Bar {id = X}"),
        "destructuring is the two binds written out"
    );

    assert_eq!(
        shape("X where {a = X} = {a = {inner = 1}}; test.Nested {outer = X}"),
        shape("X where X = {inner = 1}; test.Nested {outer = X}"),
    );
}

#[test]
fn a_field_read_through_a_folded_constant_is_folded_too() {
    assert_eq!(
        rows("{x = A.x, y = A.y} where A = {x = 2, y = 3}"),
        vec![Value::Record(vec![
            ("x".to_owned(), Value::Int(2)),
            ("y".to_owned(), Value::Int(3)),
        ])],
    );

    assert_eq!(
        shape("A.x where A = {x = 1}; test.Bar {id = A.x}"),
        shape("1 where test.Bar {id = 1}"),
        "a field read through a fold narrows the seek like a literal"
    );

    assert_eq!(
        rows("A.x where A = {x = 1}; test.Bar {id = A.x}"),
        rows("1 where test.Bar {id = 1}"),
    );
    assert!(
        rows("A.x where A = {x = 1}; test.Bar {id = A.x}").len()
            < rows("A.x where A = {x = 1}; test.Bar _").len(),
        "the premise: an unnarrowed scan of test.Bar returns more rows"
    );

    assert_eq!(rows("A.a.b where A = {a = {b = 7}}"), vec![Value::Int(7)]);
}

#[test]
fn a_constant_bound_to_one_variable_twice_is_deferred() {
    for source in [
        "Y where Y = 1; Y = 2",
        "Y where Y = 1; Y = 1",
        "Y where test.Foo {id = Y}; Y = 1; Y = 2",
    ] {
        let flattened = compile(source);

        assert!(flattened.plan.is_none(), "{source:?}");
        assert_eq!(flattened.codes(), ["nyi/bind-unification"], "{source:?}");
    }
}

#[test]
fn a_folded_record_narrows_a_nested_field_and_still_matches() {
    assert_eq!(
        rows("X where X = {inner = 1}; test.Nested {outer = X}").len(),
        1
    );

    assert_eq!(
        rows("R where X = {inner = 1}; R = test.Nested {outer = X}"),
        rows("R where R = test.Nested {outer = {inner = 1}}"),
    );
    assert_eq!(
        rows("R where R = test.Nested {outer = {inner = 1}}").len(),
        1,
        "the oracle has to match something for the comparison to mean anything",
    );

    let flattened = compile("X where X = {inner = 1}; test.Nested {outer = X}");
    match &flattened
        .plan()
        .level(0)
        .expect("a level")
        .sole_source()
        .expect("one source")
        .seek_key()
        .expect("a seek")
    {
        SeekKey::Prefix(bytes) => assert!(!bytes.is_empty(), "a constant prefix"),
        SeekKey::Composite(parts) => assert!(
            matches!(parts.first(), Some(SeekKeyPart::Bytes(_))),
            "the fold must reach the seek prefix, got {parts:?}",
        ),
    }
}

#[test]
fn reading_through_a_reference_fetches_the_fact_it_names() {
    assert_eq!(
        shape("X.name where test.Ref {of = X}"),
        lines(&[
            "r0 <- test.Ref scan",
            "r1 <- test.Foo fetch[r0.0]",
            "head r1.1:str",
        ]),
    );

    assert_eq!(
        shape("X.value where test.Ref {of = X}"),
        lines(&[
            "r0 <- test.Ref scan",
            "r1 <- test.Foo fetch[r0.0]",
            "head r1.value:str",
        ]),
    );
}

#[test]
fn a_fetch_reads_the_reference_field_wherever_it_sits() {
    assert_eq!(
        shape("Y where test.Link {at = 11, of = P}; Y = P.name"),
        lines(&[
            "r0 <- test.Link seek[k]",
            "r1 <- test.Foo fetch[r0.1]",
            "head r1.1:str",
        ]),
    );
}

#[test]
fn a_reference_to_a_reference_is_two_fetches() {
    assert_eq!(
        shape("N where test.Deep {via = R}; N = R.of.name"),
        lines(&[
            "r0 <- test.Deep scan",
            "r1 <- test.Ref fetch[r0.0]",
            "r2 <- test.Foo fetch[r1.0]",
            "head r2.1:str",
        ]),
    );
}

#[test]
fn two_reads_of_one_reference_share_a_fetch() {
    assert_eq!(
        shape("{a = X.id, b = X.name} where test.Ref {of = X}"),
        lines(&[
            "r0 <- test.Ref scan",
            "r1 <- test.Foo fetch[r0.0]",
            "head {a = r1.0:int, b = r1.1:str}",
        ]),
    );
}

#[test]
fn a_field_read_through_a_reference_seeks() {
    assert_eq!(
        shape("P.id where test.Ref {of = P}; test.Bar {id = P.id}"),
        lines(&[
            "r0 <- test.Ref scan",
            "r1 <- test.Foo fetch[r0.0]",
            "r2 <- test.Bar seek[r1.0]",
            "head r1.0:int",
        ]),
    );
}

#[test]
fn a_nested_pattern_is_a_join_rather_than_a_fetch() {
    assert_eq!(
        shape("Y where test.Ref {of = test.Foo {id = 1, name = Y}}"),
        lines(&[
            "r0 <- test.Foo seek[k]",
            "r1 <- test.Ref seek[r0#]",
            "head r0.1:str",
        ]),
    );
}

#[test]
fn matching_on_a_value_is_not_implemented_yet() {
    assert_eq!(
        compile("Y where Y = test.Foo _; test.Name Y.value").codes(),
        ["nyi/value-match"]
    );
}

#[test]
fn a_subquery_inlines_into_the_query_around_it() {
    assert_eq!(
        shape("X where X = (Y where test.Foo {id = Y})"),
        shape("X where test.Foo {id = X}"),
    );
}

#[test]
fn a_subquery_joins_with_the_statements_around_it() {
    assert_eq!(
        shape("X where test.Bar {id = X}; W = (Y where test.Foo {id = X, name = Y})"),
        lines(&[
            "r0 <- test.Bar scan",
            "r1 <- test.Foo seek[r0.0]",
            "head r0.0:int",
        ]),
    );
}

#[test]
fn a_subquery_reusing_an_outer_name_is_refused() {
    assert_eq!(
        compile("X where X = (Y where test.Foo {id = Y}); test.Bar {id = Y}").codes(),
        ["nyi/subquery"]
    );
}

#[test]
fn comparing_two_bound_variables_is_a_residual_on_the_inner_level() {
    assert_eq!(
        shape("X where test.Foo {id = X}; test.Bar {id = Y}; X = Y"),
        lines(&[
            "r0 <- test.Foo scan",
            "r1 <- test.Bar scan where 0 == r0.0",
            "head r0.0:int",
        ]),
    );
}

#[test]
fn a_comparison_reads_both_sides_whichever_way_it_is_written() {
    assert_eq!(
        shape("X where test.Foo {id = X}; test.Bar {id = Y}; X = Y"),
        shape("X where test.Foo {id = X}; test.Bar {id = Y}; Y = X"),
    );
}

#[test]
fn a_comparison_is_ordered_after_both_levels_it_reads() {
    let deps = deps_of("X where test.Bar {id = Y}; X = Y; test.Foo {id = X, name = _}");

    assert!(deps.stmt(1).expect("the comparison").captures.is_empty());
    assert_eq!(deps.stmt(1).expect("the comparison").reads.len(), 2);
}

#[test]
fn comparing_two_fields_of_one_row_is_still_deferred() {
    assert_eq!(
        compile("X where test.Edge {from = X, to = Y}; X = Y").codes(),
        ["nyi/repeated-variable"]
    );
}

#[test]
fn a_disjunction_is_one_level_with_a_source_per_branch() {
    assert_eq!(
        shape("X where test.Foo {id = X} | test.Bar {id = X}"),
        lines(&["r0 <- test.Foo scan | test.Bar scan", "head r0.0:int"]),
    );
}

#[test]
fn conjoined_disjunctions_do_not_multiply() {
    let flattened = compile(
        "X where test.Foo {id = X} | test.Bar {id = X}; \
         test.Node {id = X} | test.Edge {from = X, to = _}; \
         test.Count X | test.Nested {outer = {inner = X}}",
    );

    let sources: Vec<usize> = flattened
        .plan()
        .body
        .iter()
        .filter_map(|step| match step {
            Step::Level(level) => Some(level.sources.len()),
            Step::Derive(_) | Step::Test(_) => None,
        })
        .collect();

    assert_eq!(
        sources,
        vec![2, 2, 2],
        "one level per statement, one source per branch"
    );
}

#[test]
fn each_branch_builds_its_own_seek() {
    assert_eq!(
        shape("X where test.Foo {id = 1, name = X} | test.Foo {id = _, name = X}"),
        lines(&["r0 <- test.Foo seek[k] | test.Foo scan", "head r0.1:str"]),
    );
}

#[test]
fn never_is_a_level_with_no_sources() {
    assert_eq!(
        shape("X where X = never"),
        lines(&["r0 <- never", "head r0"]),
    );
}

#[test]
fn a_never_branch_drops_out_of_a_disjunction() {
    assert_eq!(
        shape("X where test.Bar {id = X} | never"),
        shape("X where test.Bar {id = X}"),
    );
}

#[test]
fn a_variable_only_one_branch_binds_does_not_escape() {
    assert_eq!(
        compile("Y where test.Foo {id = X, name = Y} | test.Bar {id = X}").codes(),
        ["reject/unbound-variable"]
    );
}

#[test]
fn a_variable_at_a_different_field_in_two_branches_is_refused() {
    assert_eq!(
        compile("X where test.Edge {from = 1, to = X} | test.Bar {id = X}").codes(),
        ["nyi/disjunction"]
    );
}

#[test]
fn an_alternation_inside_a_pattern_is_not_implemented_yet() {
    assert_eq!(
        compile("X where test.Bar {id = X}; test.Node {id = 1 | 2}").codes(),
        ["nyi/disjunction"]
    );
}

#[test]
fn a_whole_record_key_binds_to_a_record_of_its_fields() {
    assert_eq!(
        shape("Y where test.Foo Y"),
        lines(&[
            "r0 <- test.Foo scan",
            "head {id = r0.0:int, name = r0.1:str}"
        ]),
    );

    assert_eq!(
        shape("Y where test.Count Y"),
        lines(&["r0 <- test.Count scan", "head r0.0:int"]),
        "a scalar key is one field",
    );
}

#[test]
fn a_whole_key_read_back_splices_each_field_in_order() {
    assert_eq!(
        shape("Y where test.Bar Y; test.Node Y"),
        lines(&[
            "r0 <- test.Bar scan",
            "r1 <- test.Node seek[r0.0]",
            "head {id = r0.0:int}",
        ]),
    );
}

#[test]
fn a_field_of_a_whole_key_is_a_field_of_its_row() {
    assert_eq!(
        shape("Y.name where test.Foo Y"),
        lines(&["r0 <- test.Foo scan", "head r0.1:str"]),
    );
}

#[test]
fn matching_a_whole_key_against_a_record_field_is_not_implemented_yet() {
    let mut names = Rodeo::default();
    let mut sym = |s: &str| NameKey(names.get_or_intern(s).into_usize());

    let point = PredicateTy::Record(Arc::new(vec![(sym("x"), PredicateTy::Int)]));
    let predicates = vec![
        Predicate {
            name: sym("t.Point"),
            key: point.clone(),
            value: None,
        },
        Predicate {
            name: sym("t.Box"),
            key: PredicateTy::Record(Arc::new(vec![(sym("at"), point)])),
            value: None,
        },
    ];
    let schema = Schema::new(names.into_reader(), Arc::new(predicates));

    let flattened = flatten_with("Y where t.Point Y; t.Box {at = Y}", &schema, None);

    assert!(flattened.plan.is_none(), "expected no plan");
    assert_eq!(flattened.codes(), ["nyi/whole-key"]);
}

#[test]
fn reading_through_a_reference_in_a_value_is_not_implemented_yet() {
    let mut names = Rodeo::default();
    let mut sym = |s: &str| NameKey(names.get_or_intern(s).into_usize());

    let predicates = vec![
        Predicate {
            name: sym("t.Thing"),
            key: PredicateTy::Record(Arc::new(vec![(sym("name"), PredicateTy::Str)])),
            value: None,
        },
        Predicate {
            name: sym("t.Owner"),
            key: PredicateTy::Record(Arc::new(vec![(sym("id"), PredicateTy::Int)])),
            value: Some(PredicateTy::Fact(PredicateId(0))),
        },
    ];
    let schema = Schema::new(names.into_reader(), Arc::new(predicates));

    let flattened = flatten_with("O.value.name where O = t.Owner _", &schema, None);

    assert!(flattened.plan.is_none(), "expected no plan");
    assert_eq!(flattened.codes(), ["nyi/fact-field"]);
}

#[test]
fn two_fact_patterns_sharing_a_variable_are_one_antichain() {
    let deps = deps_of("X where test.Edge {from = X, to = Y}; test.Node {id = Y}");

    assert_eq!(deps.antichains(), Some(vec![vec![0, 1]]));
    assert!(deps.respects(&[0, 1]));
    assert!(deps.respects(&[1, 0]));
}

#[test]
fn a_field_read_constrains_the_order() {
    let deps = deps_of("Y where Y = test.Foo _; test.Name Y.name");

    assert_eq!(deps.antichains(), Some(vec![vec![0], vec![1]]));
    assert!(deps.respects(&[0, 1]));
    assert!(!deps.respects(&[1, 0]));

    let flattened = compile_in_order("Y where Y = test.Foo _; test.Name Y.name", &[1, 0]);
    assert_eq!(flattened.codes(), ["reject/unbound-variable"]);
    assert!(flattened.plan.is_none());
}

#[test]
fn a_valid_source_order_is_flattened_untouched() {
    for source in [
        "X where X = test.Foo _",
        "X where test.Edge {from = X, to = Y}; test.Node {id = Y}",
        "X where test.Edge {from = X, to = Y}; test.Node {id = Y}; test.Bar {id = X}",
    ] {
        let chosen = compile(source);
        let statements = chosen.plan().body.len();
        let identity: Vec<usize> = (0..statements).collect();
        let given = compile_in_order(source, &identity);

        assert_eq!(
            describe(chosen.plan(), &chosen.interner),
            describe(given.plan(), &given.interner),
            "{source:?}",
        );
    }
}

#[test]
fn a_plan_from_text_runs_to_the_rows_the_query_means() {
    assert_eq!(rows("X where test.Foo {id = X}"), ints(&[1, 2, 3]));
    assert_eq!(
        rows("X where test.Foo {name = X}"),
        strs(&["ann", "bob", "ann"])
    );

    assert_eq!(rows("X where test.Foo {id = 2, name = X}"), strs(&["bob"]));

    assert_eq!(
        rows("X where test.Foo {id = X, name = \"ann\"}"),
        ints(&[1, 3])
    );

    assert_eq!(
        rows("X where test.Edge {from = X, to = Y}; test.Node {id = Y}"),
        ints(&[1, 1, 2]),
        "edges (1,2), (1,3) and (2,3) all have a node at their `to`",
    );

    assert_eq!(
        rows("X.value where X = test.Foo _"),
        strs(&["one", "two", "three"])
    );

    assert_eq!(
        rows("X where test.Nested {outer = {inner = X}}"),
        ints(&[1, 7])
    );

    assert_eq!(rows("X where X = test.Name \"ann\"..").len(), 2);

    assert_eq!(rows("X.value where X = test.Foo _").len(), 3);
    assert_eq!(
        rows("Y where test.Count Y"),
        ints(&[i64::MIN, -42, 7, 1_000]),
        "a scalar key binds its one field",
    );

    assert_eq!(
        rows("{a = X, b = Y} where test.Foo {id = X, name = Y}").len(),
        3
    );

    assert_eq!(
        rows("P.name where P = test.Foo {id = 1}; test.Ref {of = P}"),
        strs(&["ann"]),
    );
    assert_eq!(
        rows("P.name where P = test.Foo {id = 3}; test.Ref {of = P}"),
        strs(&[]),
        "nothing references `(3, \"ann\")`",
    );

    assert_eq!(
        rows("P.name where P = test.Foo {id = 2}; test.Link {at = _, of = P}"),
        strs(&["bob", "bob"]),
    );
    assert_eq!(
        rows("X where P = test.Foo {id = 2}; test.Link {at = X, of = P}"),
        ints(&[11, 12]),
    );

    let foo = |sequence| {
        let schema = schema();
        let predicate = schema.find_position("test.Foo").expect("test.Foo").0;
        Value::FactRef(FactId::new(predicate, sequence).expect("id"))
    };
    assert_eq!(rows("X where test.Ref {of = X}"), vec![foo(1), foo(2)]);

    assert_eq!(
        rows("X where test.Ref {of = test.Foo {name = X}}"),
        strs(&["ann", "bob"]),
        "`(3, \"ann\")` is referenced by nothing, so its name is not a row",
    );

    assert_eq!(
        rows("X where test.Deep {via = test.Ref {of = test.Foo {name = X}}}"),
        strs(&["ann", "bob"]),
    );

    assert_eq!(rows("test.Bar {id = 1} where test.Foo {id = 1}").len(), 1);
    assert_eq!(
        rows("test.Bar {id = 99} where test.Foo {id = 1}"),
        vec![],
        "no such `test.Bar` exists, so nothing survives the last level",
    );
}

#[test]
fn a_value_bind_returns_the_value() {
    assert_eq!(rows("X where X = 42"), ints(&[42]));
    assert_eq!(rows("X where X = \"ann\""), strs(&["ann"]));
}

#[test]
fn a_folded_bind_narrows_a_seek() {
    assert_eq!(rows("Z where Z = 1; test.Bar {id = Z}"), ints(&[1]));
    assert_eq!(
        rows("Z where Z = 99; test.Bar {id = Z}"),
        vec![],
        "no `test.Bar` has id 99, so the spliced seek finds nothing",
    );
    assert_eq!(
        rows("X where Z = 1; test.Edge {from = Z, to = X}"),
        ints(&[2, 3]),
        "edges (1,2) and (1,3), reached by a seek on a derived value",
    );
}

#[test]
fn a_query_with_no_levels_answers_without_suspending() {
    let flattened = compile("X where X = 42");
    let plan = flattened.plan();

    assert_eq!(plan.levels(), 0, "everything folded, so there is no loop");
    assert!(plan.body.is_empty(), "...and so no step either");

    let cuts = BTreeSet::from([1]);
    let (rows, suspends) =
        run_with_suspends(&|| run_of("X where X = 42"), &flattened.interner, &cuts).expect("run");

    assert_eq!(rows, ints(&[42]), "the row is still the answer");
    assert_eq!(
        suspends, 0,
        "a plan with no levels reports Done at a suspend request, since an \
         empty cursor would restart it and re-emit the row",
    );
}

#[test]
fn resume_is_unaffected_by_a_folded_bind() {
    for source in [
        "X where Z = 1; test.Edge {from = Z, to = X}",
        "{a = X, b = Z} where test.Edge {from = X, to = _}; Z = 7",
    ] {
        let flattened = compile(source);
        let interner = &flattened.interner;

        let (store, plan) = run_of(source);
        let model = collect_rows(store, plan, interner).expect("run");
        assert!(
            !model.is_empty(),
            "{source:?} must produce rows for a cut point to mean anything",
        );

        for k in 1..=model.len() {
            let cuts = BTreeSet::from([k]);
            let (rows, suspends) =
                run_with_suspends(&|| run_of(source), interner, &cuts).expect("resume");

            assert_eq!(suspends, 1, "{source:?}: schedule {{{k}}} never suspended");
            assert_eq!(
                rows, model,
                "{source:?}: suspending after row {k} changed the run",
            );
        }
    }
}

#[test]
fn every_order_of_the_body_gives_the_same_rows() {
    let source = "{a = X, b = Y} where test.Edge {from = X, to = Y}; test.Node {id = Y}";

    let mut shapes = vec![];
    let mut answers = vec![];

    for order in [vec![0, 1], vec![1, 0]] {
        let flattened = compile_in_order(source, &order);
        shapes.push(describe(flattened.plan(), &flattened.interner));

        let plan = compile_in_order(source, &order)
            .into_program()
            .into_plan()
            .expect("scans alone");
        let mut rows = collect_rows(store(), plan, &flattened.interner).expect("run");
        rows.sort();
        answers.push(rows);
    }

    assert_ne!(
        shapes[0], shapes[1],
        "the two orders must be different plans"
    );
    assert_eq!(answers[0], answers[1], "...and the same answer");
    assert_eq!(answers[0].len(), 3);
}

/// An alias stands anywhere after what it names, and a comparison after what it compares.
#[test]
fn every_order_of_an_alias_gives_the_same_rows() {
    let named = (
        "{a = X, b = Z} where test.Edge {from = X, to = Y}; Z = Y; test.Node {id = Y}",
        vec![[0, 1, 2], [0, 2, 1], [2, 0, 1], [2, 1, 0]],
    );
    let compared = (
        "{a = X, b = Y} where test.Edge {from = X, to = Y}; test.Node {id = N}; N = Y",
        vec![[0, 1, 2], [1, 0, 2]],
    );

    for (source, orders) in [named, compared] {
        let mut answers: Vec<Vec<Value>> = vec![];
        for order in orders {
            let flattened = compile_in_order(source, &order);
            let plan = compile_in_order(source, &order)
                .into_program()
                .into_plan()
                .expect("scans alone");
            let mut rows = collect_rows(store(), plan, &flattened.interner).expect("run");
            rows.sort();
            assert_eq!(rows.len(), 3, "{source:?} in {order:?}");
            answers.push(rows);
        }
        for one in &answers {
            assert_eq!(one, &answers[0], "{source:?}");
        }
    }
}

// ---- answers of programs ------------------------------------------------------------

fn sorted(mut rows: Vec<Value>) -> Vec<Value> {
    rows.sort();
    rows
}

/// A query's rows are those of nested loops over the facts, one statement inside another.
#[test]
fn a_compiled_query_answers_what_it_means() {
    let (foos, edges, nodes) = ([1, 2, 3], [(1, 2), (1, 3), (2, 3)], [2, 3]);

    let mut joined = vec![];
    for (_, to) in edges {
        for id in nodes {
            if id == to {
                joined.push(to);
            }
        }
    }
    assert_eq!(
        rows("Y where test.Edge {from = X, to = Y}; test.Node {id = Y}"),
        ints(&joined)
    );

    let mut other_way = vec![];
    for id in nodes {
        for (from, to) in edges {
            if id == to {
                other_way.push(from);
            }
        }
    }
    assert_eq!(
        rows("X where test.Node {id = Y}; test.Edge {from = X, to = Y}"),
        ints(&other_way)
    );

    let mut denied = vec![];
    for id in foos {
        if !nodes.contains(&id) {
            denied.push(id);
        }
    }
    assert_eq!(
        rows("X where test.Foo {id = X}; !test.Node {id = X}"),
        ints(&denied)
    );

    let mut either = foos.to_vec();
    either.extend(nodes);
    assert_eq!(
        rows("X where test.Foo {id = X} | test.Node {id = X}"),
        ints(&either)
    );

    let names = ["ann", "bob", "ann"];
    let followed: Vec<&str> = [1, 2, 2].iter().map(|of| names[*of - 1]).collect();
    assert_eq!(
        rows("F.name where test.Link {at = _, of = F}"),
        strs(&followed)
    );

    let begun: Vec<&str> = ["abc", "ann", "anna", "bob"]
        .into_iter()
        .filter(|name| name.starts_with("an"))
        .collect();
    assert_eq!(
        rows(r#"X where test.Name X; X = "an".."#),
        strs(&begun)
    );
}

/// A seek for a string finds that string alone, whatever bytes a longer one goes on with.
#[test]
fn a_seek_for_a_string_finds_no_longer_one() {
    let mut store = MemStore::new();
    for (at, name) in ["a", "a\0b", "a\u{1}", "ab"].iter().enumerate() {
        store.insert_valued(PredicateId(5), str_field(name), at as u64 + 1, vec![]);
    }
    let answers = |source: &str| {
        let flattened = compile(source);
        collect_answers(&store, flattened.plan(), &flattened.interner).expect("answers")
    };
    assert_eq!(answers(r#"X where X = test.Name "a""#).len(), 1);
    assert_eq!(answers(r#"X where test.Name X; X = "a".."#).len(), 4);
    assert_eq!(answers(r#"X where X = test.Name "ab""#).len(), 1);
}

/// Two spellings of one query are one shape: one text, one canonical form.
#[test]
fn one_shape_has_one_printed_form() {
    let spellings = [
        "X where test.Foo {id = X}; !test.Bar {id = 1_0}",
        "X   where (test.Foo {id=X});\n  !test.Bar {id = 10}",
    ];
    let forms: Vec<(String, String)> = spellings
        .iter()
        .map(|source| {
            let (ast, interner, schema) = tree(source);
            (print(&ast, &schema, &interner), canonical(&ast, &interner))
        })
        .collect();
    assert_eq!(forms[0], forms[1]);

    let (ast, interner, _) = tree("X where test.Foo {id = X}; !test.Bar {id = 11}");
    assert_ne!(forms[0].1, canonical(&ast, &interner));
}

/// A disjunction answers what its branches do, a fact that matches both twice.
#[test]
fn a_disjunction_is_the_concatenation_of_its_branches() {
    let both = rows("X where test.Foo {id = X} | test.Bar {id = X}");
    let mut apart = rows("X where test.Foo {id = X}");
    apart.extend(rows("X where test.Bar {id = X}"));
    assert_eq!(both, apart);

    let inner = "test.Edge {from = X, to = _} | test.Node {id = X}";
    let mut apart = rows("X where test.Foo {id = X}; test.Edge {from = X, to = _}");
    apart.extend(rows("X where test.Foo {id = X}; test.Node {id = X}"));
    assert_eq!(
        sorted(rows(&format!("X where test.Foo {{id = X}}; {inner}"))),
        sorted(apart)
    );
}

#[test]
fn swapping_two_branches_answers_the_same_multiset() {
    let written = rows("X where test.Foo {id = X} | test.Bar {id = X}");
    let swapped = rows("X where test.Bar {id = X} | test.Foo {id = X}");
    assert_ne!(written, swapped, "the order of the rows is the branches'");
    assert_eq!(sorted(written), sorted(swapped));
}

#[test]
fn de_morgan_holds_for_a_negated_disjunction() {
    assert_eq!(
        rows("X where test.Foo {id = X}; !(test.Bar {id = X} | test.Edge {from = _, to = X})"),
        rows("X where test.Foo {id = X}; !test.Bar {id = X}; !test.Edge {from = _, to = X}"),
    );
    assert_eq!(
        rows("X where test.Foo {id = X}; !(test.Bar {id = X} | test.Edge {from = _, to = X})"),
        ints(&[]),
    );
    assert_eq!(
        rows("X where test.Foo {id = X}; !(test.Count X | test.Edge {from = _, to = X})"),
        ints(&[1]),
    );
}

#[test]
fn a_negation_and_its_assertion_partition_the_rows() {
    let denied = rows("X where test.Foo {id = X}; !test.Bar {id = X}");
    let asserted = rows("X where test.Foo {id = X}; test.Bar {id = X}");
    assert_eq!(denied, ints(&[3]));
    assert_eq!(asserted, ints(&[1, 2]));
    let mut both = denied;
    both.extend(asserted);
    assert_eq!(sorted(both), rows("X where test.Foo {id = X}"));

    assert_eq!(
        rows("X where test.Foo {id = X}; !test.Bar {id = X}; !test.Bar {id = X}"),
        ints(&[3]),
        "denying twice is denying once",
    );
}

/// A variable that one branch alone names is local to the disjunction: the same name after it
/// is a variable of its own.
#[test]
fn a_variable_one_branch_names_is_free_after_the_disjunction() {
    assert_eq!(
        rows("Y where test.Foo {id = 1, name = Y} | test.Bar {id = 1}; test.Name Y"),
        strs(&["abc", "ann", "anna", "bob", "abc", "ann", "anna", "bob"]),
    );
    assert_eq!(
        sorted(rows("Y where test.Name Y; test.Foo {id = 1, name = Y} | test.Bar {id = 1}")),
        strs(&["abc", "ann", "ann", "anna", "bob"]),
        "bound before it, the branch that names it tests it",
    );
}

/// A variable bound before a disjunction is tested by every branch, wherever each names it.
#[test]
fn branches_test_a_bound_variable_at_places_of_their_own() {
    assert_eq!(
        rows("X where test.Foo {id = X}; test.Count X | test.Nested {outer = {inner = X}}"),
        ints(&[1]),
    );
    assert_eq!(
        rows("X where test.Count X; test.Foo {id = X} | test.Nested {outer = {inner = X}}"),
        ints(&[7]),
    );
}

/// A variable that a body names several times means one thing in every order.
#[test]
fn every_order_of_a_cycle_gives_the_same_rows() {
    let source = "{a = X, b = Y} where test.Edge {from = X, to = Y}; \
                  test.Edge {from = Y, to = Z}; test.Edge {from = X, to = Z}";
    for order in [[0, 1, 2], [0, 2, 1], [1, 0, 2], [1, 2, 0], [2, 0, 1], [2, 1, 0]] {
        let flattened = compile_in_order(source, &order);
        let plan = compile_in_order(source, &order)
            .into_program()
            .into_plan()
            .expect("scans alone");
        let found = collect_rows(store(), plan, &flattened.interner).expect("run");
        assert_eq!(found, rows(source), "{order:?}");
        assert_eq!(found.len(), 1, "{order:?}");
    }
}

/// A body written in another order is the same query.
#[test]
fn a_body_written_in_another_order_answers_the_same() {
    let statements = [
        "test.Edge {from = X, to = Y}",
        "test.Node {id = Y}",
        "!test.Count X",
        "test.Foo {id = X} | test.Bar {id = X}",
    ];
    let written = |order: [usize; 4]| {
        let body: Vec<&str> = order.iter().map(|at| statements[*at]).collect();
        sorted(rows(&format!("{{a = X, b = Y}} where {}", body.join("; "))))
    };
    let first = written([0, 1, 2, 3]);
    assert_eq!(first.len(), 6);
    for order in [[1, 0, 2, 3], [3, 0, 1, 2], [2, 3, 1, 0], [0, 3, 2, 1]] {
        assert_eq!(written(order), first, "{order:?}");
    }
}

// ---- trees ----------------------------------------------------------------------

/// A node as `kind(child …)`.
fn tree_shape(ast: &Ast, interner: &LocalInterner, id: NodeId) -> String {
    let name = |s: Symbol| interner.try_resolve(s).unwrap_or("?").to_owned();
    let under = |id: NodeId| tree_shape(ast, interner, id);
    match ast.store().kind(id) {
        ExprKind::Lit(Literal::Int(v)) => format!("{v}"),
        ExprKind::Lit(Literal::Str(s)) => format!("{:?}", name(*s)),
        ExprKind::Prefix(s) => format!("prefix({:?})", name(*s)),
        ExprKind::Var(s) => format!("var({})", name(*s)),
        ExprKind::Wildcard => "_".to_owned(),
        ExprKind::Never => "never".to_owned(),
        ExprKind::Record(fields) => format!(
            "{{{}}}",
            fields
                .iter()
                .map(|(f, v)| format!("{}={}", name(*f), under(*v)))
                .collect::<Vec<_>>()
                .join(", ")
        ),
        ExprKind::Access(FieldRef::Key(f), base) => format!("{}.{}", under(*base), name(*f)),
        ExprKind::Access(FieldRef::Value, base) => format!("{}.value!", under(*base)),
        ExprKind::Select(alt, base) => format!("{}.{}?", under(*base), name(*alt)),
        ExprKind::Disjunction(branches) => format!(
            "({})",
            branches.iter().map(|id| under(*id)).collect::<Vec<_>>().join(" | ")
        ),
        ExprKind::Subquery(q) => format!("subquery({})", under(q.head)),
        ExprKind::Fact(p, key) => format!("fact({}, {})", p.0, under(*key)),
        ExprKind::Error => "!error".to_owned(),
    }
}

fn head_shape(source: &str) -> String {
    let (ast, diags, interner) = lower_source(source);
    assert!(codes(&diags).is_empty(), "{source:?}: {:?}", codes(&diags));
    tree_shape(&ast, &interner, ast.query().head)
}

/// The first statement's pattern, as a shape.
fn stmt_shape(source: &str) -> String {
    let (ast, diags, interner) = lower_source(source);
    assert!(codes(&diags).is_empty(), "{source:?}: {:?}", codes(&diags));
    let id = match &ast.query().body[0] {
        QueryStmt::Bind(_, rhs) => *rhs,
        QueryStmt::Implicit(id) | QueryStmt::Negation(id) => *id,
    };
    tree_shape(&ast, &interner, id)
}

/// The text each node of an access chain covers, outermost first.
fn chain_spans(source: &str) -> Vec<&str> {
    let (ast, diags, _) = lower_source(source);
    assert!(codes(&diags).is_empty(), "{source:?}: {:?}", codes(&diags));

    let mut out = vec![];
    let mut id = ast.query().head;
    loop {
        let span = ast.store().span(id);
        out.push(&source[span.start as usize..span.end as usize]);
        id = match ast.store().kind(id) {
            ExprKind::Access(_, base) | ExprKind::Select(_, base) => *base,
            _ => break,
        };
    }
    out
}

#[test]
fn a_chain_step_spans_the_whole_chain() {
    assert_eq!(chain_spans("X.a.b where test.Foo _"), ["X.a.b", "X.a", "X"]);
    assert_eq!(chain_spans("X.alt? where test.Foo _"), ["X.alt?", "X"]);
    assert_eq!(chain_spans("X.value where test.Foo _"), ["X.value", "X"]);
    assert_eq!(
        chain_spans("(test.Bar {id = 1}).value where test.Foo _"),
        ["(test.Bar {id = 1}).value", "test.Bar {id = 1}"]
    );
}

#[test]
fn literals_are_decoded_and_ranged() {
    assert_eq!(stmt_shape("X where X = test.Count 42"), "fact(6, 42)");
    assert_eq!(stmt_shape("X where X = test.Count -42"), "fact(6, -42)");
    assert_eq!(stmt_shape("X where X = test.Count 1_000"), "fact(6, 1000)");
    assert_eq!(
        stmt_shape("X where X = test.Count -9223372036854775808"),
        format!("fact(6, {})", i64::MIN)
    );
    assert_eq!(
        stmt_shape(r#"X where X = test.Name "a\nb""#),
        "fact(5, \"a\\nb\")"
    );
    assert_eq!(
        stmt_shape(r#"X where X = test.Name "abc".."#),
        "fact(5, prefix(\"abc\"))"
    );
}

#[test]
fn malformed_literals_are_reported_by_code() {
    for (source, code) in [
        ("X where X = test.Count 1__0", "lit/int-underscore"),
        ("X where X = test.Count 1_", "lit/int-underscore"),
        ("X where X = test.Count 007", "lit/int-leading-zero"),
        (
            "X where X = test.Count 99999999999999999999",
            "lit/int-range",
        ),
        (
            "X where X = test.Count 9223372036854775808",
            "lit/int-range",
        ),
    ] {
        let (_, diags, _) = lower_source(source);
        assert_eq!(codes(&diags), [code], "for {source:?}");
    }
}

#[test]
fn record_fields_are_sorted_and_deduplicated() {
    assert_eq!(
        stmt_shape("X where test.Foo {name = X, id = 1}"),
        "fact(0, {id=1, name=var(X)})"
    );

    let (_, diags, _) = lower_source("X where test.Foo {name = X, name = Y}");
    assert_eq!(codes(&diags), ["reject/duplicate-field"]);
}

#[test]
fn an_access_chain_nests_left() {
    assert_eq!(head_shape("X.name where test.Foo _"), "var(X).name");
    assert_eq!(
        head_shape("X.outer.inner where test.Nested _"),
        "var(X).outer.inner"
    );
    assert_eq!(head_shape("X.value where test.Foo _"), "var(X).value!");
}

#[test]
fn union_select_is_distinct_from_access() {
    assert_eq!(head_shape("X.alt? where test.Foo _"), "var(X).alt?");
    assert_eq!(
        head_shape("X.a?.b where test.Foo _"),
        "var(X).a?.b",
        "the `?` must attach to `a`, not to `b`"
    );
    assert_eq!(head_shape("X.a.b? where test.Foo _"), "var(X).a.b?");
}

#[test]
fn disjunction_stays_one_flat_node() {
    assert_eq!(
        stmt_shape("X where X = A | B | C"),
        "(var(A) | var(B) | var(C))"
    );
}

#[test]
fn never_and_subqueries_lower_to_their_own_nodes() {
    assert_eq!(stmt_shape("X where X = never"), "never");
    assert_eq!(
        stmt_shape("X where X = (Y where test.Foo {id = Y})"),
        "subquery(var(Y))"
    );
}

#[test]
fn negation_is_a_statement() {
    let (ast, _, _) = lower_source("X where test.Foo {id = X}; !test.Bar {id = X}");
    assert!(matches!(
        ast.query().body.as_ref(),
        [QueryStmt::Implicit(_), QueryStmt::Negation(_)]
    ));
}

#[test]
fn an_unknown_predicate_is_reported() {
    let (_, diags, _) = lower_source("X where X = nosuch.Pred _");
    assert_eq!(codes(&diags), ["reject/unknown-predicate"]);
}

#[test]
fn every_corpus_entry_lowers_without_panicking() {
    for entry in corpus() {
        let schema = schema();
        let mut interner = LocalInterner::new(schema.interner().clone());
        let parsed = parse(entry.source);
        if let Some(root) = parsed.root() {
            let _ = lower(root, &schema, &mut interner);
        }
    }
}

/// An interner whose schema tier is empty, so that every name of the query is its own.
fn bare_interner() -> LocalInterner {
    LocalInterner::new(SchemaInterner::new(Rodeo::default().into_reader()))
}

#[test]
fn a_bare_interner_still_lowers() {
    let schema = schema();
    let mut interner = bare_interner();
    let parsed = parse("X.name where test.Foo {id = X}");
    let root = parsed.root().expect("a tree");
    let (ast, _) = lower(root, &schema, &mut interner);
    assert!(ast.store().len() > 0);
}

// ---- parsing ---------------------------------------------------------------------

/// Every token leaf's text, in order.
fn token_text(node: &CstNode) -> String {
    match node {
        CstNode::Token { text, .. } => text.clone(),
        CstNode::Rule { children, .. } => children.iter().map(token_text).collect(),
    }
}

const SOURCES: &[&str] = &[
    "X where X = test.Foo _",
    "X where test.Foo {name = X}",
    "{a = X, b = Y} where test.Foo {name = X}; test.Bar {id = Y}",
    "X.name where X = test.Foo _",
    "X where X = test.Foo \"abc\"..",
    "X where X = test.Foo -42",
    "  X\n  where\tX = test.Foo _  ",
];

#[test]
fn minimal_query_parses_without_diagnostics() {
    let parsed = parse("X where X = test.Foo _");
    assert!(
        !parsed.has_errors(),
        "unexpected diagnostics: {:?}",
        parsed
            .diagnostics()
            .iter()
            .map(|d| &d.message)
            .collect::<Vec<_>>()
    );
    assert!(parsed.root().is_some());
}

#[test]
fn token_text_reproduces_the_source() {
    for source in SOURCES {
        let parsed = parse(source);
        let root = parsed.root().expect("a tree");
        assert_eq!(&token_text(root), source, "lost bytes for {source:?}");
    }
}

#[test]
fn deep_nesting_is_a_diagnostic_not_a_crash() {
    let depth = MAX_NEST_DEPTH + 1;
    let source = format!(
        "X where X = {}_{}",
        "{a = ".repeat(depth),
        "}".repeat(depth)
    );

    let parsed = parse(&source);
    assert!(parsed.root().is_none(), "the tree must be refused");
    assert!(
        parsed
            .diagnostics()
            .iter()
            .any(|d| d.message.contains("nested deeper than")),
        "expected a nesting diagnostic, got {:?}",
        parsed
            .diagnostics()
            .iter()
            .map(|d| &d.message)
            .collect::<Vec<_>>()
    );
}

#[test]
fn many_flat_statements_are_not_deep() {
    let body = (0..MAX_NEST_DEPTH * 4)
        .map(|_| "test.Foo _".to_string())
        .collect::<Vec<_>>()
        .join("; ");
    let source = format!("X where {body}");
    let parsed = parse(&source);
    assert!(parsed.root().is_some());
}

// ---- printing --------------------------------------------------------------------

/// A program, and the interner its names are in.
fn program_of(source: &str) -> (Program, LocalInterner) {
    let flattened = compile(source);
    assert!(flattened.codes().is_empty(), "{:?}", flattened.codes());
    (flattened.plan.expect("a plan"), flattened.interner)
}

fn rendered(source: &str) -> String {
    let (program, interner) = program_of(source);
    plan(&program, &schema(), &interner)
}

/// The id of the predicate `name`.
fn predicate_id(schema: &Schema, name: &str) -> PredicateId {
    (0..64)
        .map(PredicateId)
        .find(|id| schema.get(*id).and_then(|p| p.name()) == Some(name))
        .unwrap_or_else(|| panic!("no predicate called {name}"))
}

#[test]
fn a_spliced_register_is_named_against_its_own_predicate() {
    let rendered_join =
        rendered("X where test.Edge {from = X, to = _}; test.Foo {id = X, name = _}");

    assert!(
        rendered_join.contains("seek[r0.from]"),
        "expected the register's own field name, got:\n{rendered_join}"
    );

    let rendered_scalar = rendered("X where test.Foo {name = X, id = _}; test.Name X");

    assert!(
        rendered_scalar.contains("seek[r0.name]"),
        "expected the register's own field name, got:\n{rendered_scalar}"
    );
}

#[test]
fn a_residual_against_a_register_is_named_against_its_own_predicate() {
    let rendered = rendered("X where test.Foo {id = X, name = _}; test.Edge {from = _, to = X}");

    assert!(
        rendered.contains("where to == r0.id"),
        "expected `to == r0.id` — this level's field against the register's \
         own — got:\n{rendered}"
    );
}

#[test]
fn a_projected_register_is_named_against_its_own_predicate() {
    let rendered = rendered("Y where test.Foo {id = _, name = Y}; test.Link {at = 1, of = _}");

    assert!(
        rendered.contains("head r0.name"),
        "expected the head to name `r0`'s own field, got:\n{rendered}"
    );
}

#[test]
fn a_register_bound_by_a_disjunction_across_predicates_falls_back_to_the_index() {
    let schema = schema();
    let interner = LocalInterner::new(schema.interner().clone());

    let foo = predicate_id(&schema, "test.Foo");
    let edge = predicate_id(&schema, "test.Edge");

    let source = |predicate| Source::Seek {
        access: Access {
            predicate_id: predicate,
            seek_key: SeekKey::Prefix(Box::new([])),
        },
        residuals: Box::new([]),
    };

    let compiled = Program {
        nvars: 1,
        body: Box::new([Step::Level(Level {
            sources: Box::new([source(foo), source(edge)]),
            binds: Box::new([Address::new(0)]),
        })]),
        head: Project::RegisterField {
            address: Address::new(0),
            path: FieldPath::field(0),
            ty: PredicateTy::Int,
        },
    };

    let rendered = plan(&compiled, &schema, &interner);

    assert!(
        rendered.contains("head r0.0"),
        "expected the index, since `id` and `from` are both wrong for half the \
         rows, got:\n{rendered}"
    );
    assert!(
        rendered.contains("test.Foo scan") && rendered.contains("test.Edge scan"),
        "expected both alternatives, got:\n{rendered}"
    );
}

/// Parse and lower `source`, requiring both to be clean.
fn tree(source: &str) -> (Ast, LocalInterner, Schema) {
    let (ast, diagnostics, interner) = lower_source(source);
    assert!(
        codes(&diagnostics).is_empty(),
        "{source:?} must lower cleanly"
    );
    (ast, interner, schema())
}

fn printed(source: &str) -> String {
    let (ast, interner, schema) = tree(source);
    print(&ast, &schema, &interner)
}

#[test]
fn parentheses_go_where_precedence_requires() {
    assert_eq!(
        printed("Y where test.Name Y.name"),
        "Y where test.Name Y.name"
    );
    assert_eq!(
        printed("Y where test.Name (Y.name)"),
        "Y where test.Name Y.name"
    );

    assert_eq!(
        printed("(test.Bar {id = 1}).value where test.Foo _"),
        "(test.Bar {id = 1}).value where test.Foo _"
    );

    assert_eq!(
        printed("X where test.Foo (A | B)"),
        "X where test.Foo (A | B)"
    );
    assert_eq!(printed("X where A | B"), "X where A | B");

    assert_eq!(printed("X where (A | B) | C"), "X where (A | B) | C");
}

#[test]
fn literals_and_names_survive_printing() {
    assert_eq!(
        printed("X where X = test.Count -42"),
        "X where X = test.Count -42"
    );
    assert_eq!(
        printed("X where X = test.Count -9223372036854775808"),
        "X where X = test.Count -9223372036854775808"
    );
    assert_eq!(
        printed("X where X = test.Count 1_000"),
        "X where X = test.Count 1000"
    );
    assert_eq!(
        printed(r#"X where X = test.Name "a\nb""#),
        r#"X where X = test.Name "a\nb""#
    );
    assert_eq!(
        printed(r#"X where X = test.Name "abc".."#),
        r#"X where X = test.Name "abc".."#
    );
}

#[test]
fn every_construct_prints() {
    assert_eq!(printed("X where X = never"), "X where X = never");
    assert_eq!(
        printed("X.alt? where test.Foo _"),
        "X.alt? where test.Foo _"
    );
    assert_eq!(
        printed("X.value where test.Foo _"),
        "X.value where test.Foo _"
    );
    assert_eq!(printed("_ where test.Foo {}"), "_ where test.Foo {}");
    assert_eq!(
        printed("X where !test.Bar {id = 1}"),
        "X where !test.Bar {id = 1}"
    );
    assert_eq!(
        printed("X where X = (Y where test.Foo {id = Y})"),
        "X where X = (Y where test.Foo {id = Y})"
    );
}

/// The entries that parse and lower with nothing to report.
fn clean_entries() -> Vec<&'static str> {
    corpus()
        .iter()
        .map(|entry| entry.source)
        .filter(|source| !parse(source).has_errors())
        .filter(|source| codes(&lower_source(source).1).is_empty())
        .collect()
}

#[test]
fn printing_and_reparsing_the_corpus_is_the_identity() {
    let mut checked = 0;

    for source in clean_entries() {
        let (ast, interner, schema) = tree(source);
        let text = print(&ast, &schema, &interner);

        assert!(
            !parse(&text).has_errors(),
            "printing {source:?} gave {text:?}, which does not parse"
        );
        let (reast, rediagnostics, reinterner) = lower_source(&text);
        assert!(
            codes(&rediagnostics).is_empty(),
            "printing {source:?} gave {text:?}, which does not lower cleanly"
        );

        assert_eq!(
            canonical(&ast, &interner),
            canonical(&reast, &reinterner),
            "{source:?} printed to {text:?}, which lowered to a different tree"
        );
        checked += 1;
    }

    assert!(checked > 20, "only {checked} entries were round-tripped");
}

#[test]
fn printing_is_idempotent() {
    for source in clean_entries() {
        let (ast, interner, schema) = tree(source);
        let once = print(&ast, &schema, &interner);
        let (reast, reinterner, _) = tree(&once);
        let twice = print(&reast, &schema, &reinterner);
        assert_eq!(once, twice, "for {source:?}");
    }
}

/// The nodes of a query, children first, in the order they are written.
fn nodes_of(ast: &Ast, query: &Query, out: &mut Vec<NodeId>) {
    nodes_under(ast, query.head, out);
    for stmt in query.body.iter() {
        match stmt {
            QueryStmt::Implicit(id) | QueryStmt::Negation(id) => nodes_under(ast, *id, out),
            QueryStmt::Bind(lhs, rhs) => {
                nodes_under(ast, *lhs, out);
                nodes_under(ast, *rhs, out);
            }
        }
    }
}

fn nodes_under(ast: &Ast, id: NodeId, out: &mut Vec<NodeId>) {
    match ast.store().kind(id) {
        ExprKind::Record(fields) => {
            for (_, value) in fields.iter() {
                nodes_under(ast, *value, out);
            }
        }
        ExprKind::Access(_, base) | ExprKind::Select(_, base) | ExprKind::Fact(_, base) => {
            nodes_under(ast, *base, out)
        }
        ExprKind::Disjunction(branches) => {
            for branch in branches.iter() {
                nodes_under(ast, *branch, out);
            }
        }
        ExprKind::Subquery(query) => nodes_of(ast, query, out),
        _ => {}
    }
    out.push(id);
}

/// A node's text is printed at the bytes it is lowered back from.
#[test]
fn spans_are_where_the_corpus_was_printed() {
    let mut checked = 0;

    for source in clean_entries() {
        let (ast, interner, schema) = tree(source);
        let page = spanned(&ast, &schema, &interner);
        let (reast, _, _) = tree(page.text());

        let (mut nodes, mut renodes) = (vec![], vec![]);
        nodes_of(&ast, ast.query(), &mut nodes);
        nodes_of(&reast, reast.query(), &mut renodes);
        assert_eq!(nodes.len(), renodes.len(), "for {source:?}");

        for (id, reid) in nodes.iter().zip(renodes.iter()) {
            assert_eq!(
                page.span(*id),
                reast.store().span(*reid),
                "for {source:?}, printed as {:?}",
                page.text()
            );
            checked += 1;
        }
    }

    assert!(checked > 100, "only {checked} nodes were compared");
}

/// Every node is printed inside the text.
#[test]
fn every_span_lies_within_the_text() {
    for source in clean_entries() {
        let (ast, interner, schema) = tree(source);
        let page = spanned(&ast, &schema, &interner);
        let mut nodes = vec![];
        nodes_of(&ast, ast.query(), &mut nodes);
        for id in nodes {
            let span = page.span(id);
            assert!(span.start <= span.end, "for {source:?}");
            assert!(span.end as usize <= page.text().len(), "for {source:?}");
        }
    }
}

// ---- the corpus --------------------------------------------------------------------

fn corpus() -> Vec<Entry> {
    vec![
        entry(
            "X where X = test.Foo _",
            Expectation::Supported("test.Foo#1; test.Foo#2; test.Foo#3"),
            "scan a predicate and bind the whole row",
        ),
        entry(
            "X where test.Foo {name = X}",
            Expectation::Supported("ann; bob; ann"),
            "implicit bind; capture a key field",
        ),
        entry(
            "{a = X, b = Y} where test.Foo {name = X, id = Y}",
            Expectation::Supported("{a = ann, b = 1}; {a = bob, b = 2}; {a = ann, b = 3}"),
            "record head over two captured fields",
        ),
        entry(
            "X.name where X = test.Foo _",
            Expectation::Supported("ann; bob; ann"),
            "field access on a bound row",
        ),
        entry(
            "X.value where X = test.Foo _",
            Expectation::Supported("one; two; three"),
            "`.value` is the fact's value side — Project::Value",
        ),
        entry(
            "X where test.Edge {from = X, to = Y}; test.Node {id = Y}",
            Expectation::Supported("1; 1; 2"),
            "two-level join through a shared variable",
        ),
        entry(
            "X where test.Nested {outer = {inner = X}}",
            Expectation::Supported("1; 7"),
            "nested record pattern",
        ),
        entry(
            "X where X = test.Name \"abc\"..",
            Expectation::Supported("test.Name#1"),
            "string prefix against a scalar string key — ResidualOp::Prefix",
        ),
        entry(
            "X where X = test.Count -42",
            Expectation::Supported("test.Count#2"),
            "negative integer literal",
        ),
        entry(
            "X where X = test.Count -9223372036854775808",
            Expectation::Supported("test.Count#1"),
            "i64::MIN — only reachable through the unary minus, so the literal itself \
             does not fit i64",
        ),
        entry(
            "X where X = test.Count 1_000",
            Expectation::Supported("test.Count#4"),
            "underscore digit separator",
        ),
        entry(
            "Y where Y = test.Foo _; test.Name Y.name",
            Expectation::Supported("test.Foo#1; test.Foo#2; test.Foo#3"),
            "dot binds tighter than application: this is `test.Name (Y.name)`. The \
             precedence itself is pinned structurally in `parse.rs`; this entry is here \
             to check the well-formed case typechecks",
        ),
        entry(
            "Y where Y = test.Foo _; test.Name (Y.name)",
            Expectation::Supported("test.Foo#1; test.Foo#2; test.Foo#3"),
            "the same, parenthesised — a group is transparent",
        ),
        entry(
            "X where X = test.Foo _;",
            Expectation::Supported("test.Foo#1; test.Foo#2; test.Foo#3"),
            "a trailing `;` is permitted by `stmt (';' [stmt])*`",
        ),
        entry(
            "X where X = test.Foo {id = 1}",
            Expectation::Supported("test.Foo#1"),
            "a constant in the leading key field narrows the scan to a seek",
        ),
        entry(
            "X where test.Foo {id = X, name = \"ann\"}",
            Expectation::Supported("1; 3"),
            "a capture cannot narrow the scan, so the constant behind it filters — \
             sargeability is order-dependent",
        ),
        entry(
            "Y where test.Count Y",
            Expectation::Supported("-9223372036854775808; -42; 7; 1000"),
            "a scalar key is one field, so a variable may stand for the whole of it",
        ),
        entry(
            "X where test.Ref {of = X}",
            Expectation::Supported("test.Foo#1; test.Foo#2"),
            "a fact-typed field may be captured and projected — the row it names is a \
             `Value::FactRef`, and reads no second fact to say so",
        ),
        entry(
            "P where P = test.Foo {id = 1}; test.Ref {of = P}",
            Expectation::Supported("test.Foo#1"),
            "**a join through a reference**: the bound row's fact id is spliced into the \
             seek, so the reference is followed without a store read",
        ),
        entry(
            "P where test.Ref {of = P}; P = test.Foo {id = 1}",
            Expectation::Supported("test.Foo#1"),
            "**the same join written in the order that reads before it binds** — the \
             statement that captures `P` is second, so `reorder` moves it first; the \
             same rows as the spelling above, because it is the same plan",
        ),
        entry(
            "P where P = test.Foo {id = 1}; test.Link {at = X, of = P}",
            Expectation::Supported("test.Foo#1"),
            "the same compare once the seek prefix has closed — a capture at `at` closes \
             it, so `of` filters instead",
        ),
        entry(
            "X where X = test.Ref {of = test.Foo {id = 1}}",
            Expectation::Supported("test.Ref#1"),
            "**the idiomatic spelling of that join**: a fact pattern inside another is a \
             generator, hoisted into a loop level of its own and matched by id",
        ),
        entry(
            "X where X = test.Deep {via = test.Ref {of = test.Foo {id = 1}}}",
            Expectation::Supported("test.Deep#1"),
            "hoisting is recursive — innermost first, so each level is bound before the \
             one that names it",
        ),
        entry(
            "test.Bar {id = 1} where test.Foo _",
            Expectation::Supported("test.Bar#1; test.Bar#1; test.Bar#1"),
            "a fact pattern in the **head** is the same construct: hoisted into the last \
             level, and projected as the fact it names",
        ),
        entry(
            "X where test.Foo {id = X} | test.Bar {id = X}",
            Expectation::Supported("1; 2; 3; 1; 2"),
            "**a disjunction**, which is one level with an alternative per branch — \
             never DNF-expanded across conjuncts, and the rows are the branches' \
             concatenated in order rather than merged or deduplicated",
        ),
        entry(
            "X where test.Foo {id = X}; !test.Bar {id = X}",
            Expectation::Diagnosed(Code::NyiNegation),
            "statement-level negation; must move after its non-locals are bound",
        ),
        entry(
            "X where X = (Y where test.Foo {id = Y})",
            Expectation::Supported("1; 2; 3"),
            "**a subquery**, which inlines: its statements become the enclosing \
             query's and its head is the value the bind names",
        ),
        entry(
            "X.alt? where X = test.Foo _",
            Expectation::Diagnosed(Code::NyiUnionSelect),
            "union select lowers to a DiscriminantEq residual; PredicateTy has no \
             Union variant yet (I10 freezes discriminants when it does)",
        ),
        entry(
            "X where X = never",
            Expectation::Supported(""),
            "**the empty pattern**: a level with no alternative to open, which is \
             exhausted the moment it is entered",
        ),
        entry(
            "Y where X = test.Foo _; Y = X.name",
            Expectation::Supported("ann; bob; ann"),
            "an **alias**: a name for a value that is already in a register, so it \
             substitutes exactly as a constant does — no register, no step, and the same \
             plan as projecting the read directly",
        ),
        entry(
            "Y where X = test.Foo _; Y = X.name; test.Name Y",
            Expectation::Supported("ann; bob; ann"),
            "the alias reaching a **key field**, where it splices the register it names \
             rather than comparing a value — the point of substituting a location",
        ),
        entry(
            "Y where test.Foo {name = X}; Y = X",
            Expectation::Supported("ann; bob; ann"),
            "`var = var` with only one side bound: the same substitution with an empty path",
        ),
        entry(
            "Y where X = test.Foo _; Y = X.value",
            Expectation::Supported("one; two; three"),
            "a `.value` alias projects; matching on it stays deferred ([I6](invariants.md))",
        ),
        entry(
            "X where test.Nested {outer = {inner = Y}}; X = {inner = Y}",
            Expectation::Diagnosed(Code::NyiValueBind),
            "what is left of the value bind: a record mentioning a **captured** variable \
             is in no register and differs per row, so it would have to be *built* — the \
             derived bind the machine has a step for and the language has no producer for",
        ),
        entry(
            "Y where test.Ref {of = P}; Y = P.name",
            Expectation::Supported("ann; bob"),
            "naming a read *through* a reference is the same substitution: the alias names \
             the fetched row's field, so it is the same plan as writing the read in place",
        ),
        entry(
            "X where test.Foo {id = X}; test.Bar {id = Y}; X = Y",
            Expectation::Supported("1; 2"),
            "`var = var` with **both** sides already bound: a residual on whichever \
             level binds later, which is where a value already in a register is \
             compared against another",
        ),
        entry(
            "X where test.Foo {id = X} = test.Bar {id = X}",
            Expectation::Diagnosed(Code::NyiBindUnification),
            "generator = generator — also the hard half",
        ),
        entry(
            "X where P = test.Nested _; {inner = X} = P.outer",
            Expectation::Supported("1; 7"),
            "a record pattern **destructuring a place** rather than a constant: each \
             piece names a piece of `P`'s row, so this is the same plan as `X = \
             P.outer.inner` and as the nested-pattern spelling",
        ),
        entry(
            "X where P = test.Wide _; {extra = _, inner = X} = P.outer",
            Expectation::Supported("2"),
            "a **wildcard piece** binds nothing and cannot fail — the tautology Glean's \
             expansion drops, which decomposing against a slot never builds",
        ),
        entry(
            "X where {a = X} = {a = 1}",
            Expectation::Supported("1"),
            "a record **destructured against a constant**: each variable folds into its \
             piece, so this is exactly the sugar it looks like — the same plan as writing \
             `X = 1`. Sound only because the right side is constant, and only because a \
             literal leaf on the *left* is refused: `{a = 1} = {a = 2}` would bind nothing \
             and so mean `true` where it means the empty relation",
        ),
        entry(
            "X where test.Foo {id = X}; {a = X} = {a = Y}",
            Expectation::Diagnosed(Code::NyiValueBind),
            "the same shape with a **non-constant** right side. The line between the two \
             deferrals is where a value *is*: `{a = Y}` is in no register and would have \
             to be built, which is the value bind — where two things that are each \
             somewhere would only need comparing, which is the bind unification above",
        ),
        entry(
            "_ where test.Foo _",
            Expectation::Diagnosed(Code::RejectWildcardInHead),
            "a wildcard head projects nothing",
        ),
        entry(
            "X where 42 = test.Foo _",
            Expectation::Diagnosed(Code::RejectBindLhs),
            "a literal cannot be a bind target",
        ),
        entry(
            "X.value where X = test.Shadow _",
            Expectation::Diagnosed(Code::RejectValueShadowed),
            "the predicate's key has a field named `value`, so `.value` is ambiguous",
        ),
        entry(
            "X where test.Foo {name = X, name = Y}",
            Expectation::Diagnosed(Code::RejectDuplicateField),
            "record fields are a sorted set; a duplicate is an error, not a \
             last-one-wins overwrite",
        ),
        entry(
            "X where X = nosuch.Pred _",
            Expectation::Diagnosed(Code::RejectUnknownPredicate),
            "not in the schema",
        ),
        entry(
            "X where test.Foo {nosuch = X}",
            Expectation::Diagnosed(Code::RejectUnknownField),
            "not a field of the predicate's key",
        ),
        entry(
            "X where test.Foo {name = 42}",
            Expectation::Diagnosed(Code::RejectTypeMismatch),
            "`name` is a string",
        ),
        entry(
            "X where test.Foo X.name",
            Expectation::Diagnosed(Code::RejectUnresolvedAccess),
            "nothing binds `X`, so there is no type to read `name` from. Resolving it \
             would need row polymorphism; Phase 4's range-restriction check would reject \
             the query anyway",
        ),
        entry(
            "X.value where X = test.Bar _",
            Expectation::Diagnosed(Code::RejectNoValue),
            "`test.Bar` is key-only",
        ),
        entry(
            "X where X = test.Count 1__0",
            Expectation::Diagnosed(Code::LitIntUnderscore),
            "repeated separator",
        ),
        entry(
            "X where X = test.Count 1_",
            Expectation::Diagnosed(Code::LitIntUnderscore),
            "trailing separator",
        ),
        entry(
            "X where X = test.Count 007",
            Expectation::Diagnosed(Code::LitIntLeadingZero),
            "leading zero",
        ),
        entry(
            "X where X = test.Count 99999999999999999999",
            Expectation::Diagnosed(Code::LitIntRange),
            "does not fit i64 — an error, never a panicking parse",
        ),
        entry(
            "X where X = test.Count 9223372036854775808",
            Expectation::Diagnosed(Code::LitIntRange),
            "one past i64::MAX; only reachable with a minus in front of it",
        ),
        entry(
            r#"X where X = test.Name "\uD800""#,
            Expectation::Diagnosed(Code::LitStringEscape),
            "an unpaired surrogate. The lexer's regex accepts the escape, so this is only \
             catchable when the string is decoded",
        ),
        entry(
            "X where X = 42",
            Expectation::Supported("42"),
            "a variable bound to a literal is **folded**: substituted at every use, so \
             it takes no register and no plan step. This one folds away entirely, \
             leaving a plan with no levels — the unit relation, exactly one row",
        ),
        entry(
            "Z where Z = 1; test.Bar {id = Z}",
            Expectation::Supported("1"),
            "the same fold **narrowing a seek**: `{id = Z}` seeks the bytes `{id = 1}` \
             seeks, because the fold is seen through by the same code that encodes a \
             literal written in place",
        ),
        entry(
            "Z where test.Bar {id = Z}; Z = 1",
            Expectation::Supported("1"),
            "**the same fold written after the field that captures the variable** — the \
             fold is collected from the whole body before any statement is lowered, so \
             this reaches `emit` with the same bindings as the spelling above and is the \
             same plan. No reordering involved: a constant takes no level to move",
        ),
        entry(
            "X where X = {inner = 1}; test.Nested {outer = X}",
            Expectation::Supported("{inner = 1}"),
            "a **record** of constants folds too, and narrows a nested key field. The \
             wrapped form `constant` writes is right inside a field and would be wrong \
             for a whole key — safe because `key` destructures the top-level record \
             itself, and a bare variable as a whole key is `nyi/whole-key` first",
        ),
        entry(
            "X where test.Nested {outer = X}; X = {inner = 1}",
            Expectation::Supported("{inner = 1}"),
            "and the record fold the other way round, at a record-typed field — the \
             wrapped-bytes trap above, reached from the spelling that names the variable \
             first",
        ),
        entry(
            "{x = A.x, y = A.y} where A = {x = 2, y = 3}",
            Expectation::Supported("{x = 2, y = 3}"),
            "**reading a field through a folded constant is folded too**: the substitution \
             goes through the *access*, not just the variable. Stopping at the variable \
             declined quietly here, so flatten returned no plan with nothing reported — \
             found as a panic from the shell",
        ),
        entry(
            "A.x where A = {x = 1}; test.Bar {id = A.x}",
            Expectation::Supported("1"),
            "the same read at a **key field**, narrowing the seek exactly as the literal in \
             place would. This is the half that was worse: the constraint was dropped with \
             no diagnostic, so the level matched every row",
        ),
        entry(
            "{a = X, b = Z} where test.Edge {from = X, to = _}; Z = 7",
            Expectation::Supported("{a = 1, b = 7}; {a = 1, b = 7}; {a = 2, b = 7}"),
            "and a fold read by the head beside a captured field — one row per edge, \
             the folded value repeated, which is what says folding did not turn a \
             constant into a level of its own",
        ),
        entry(
            "X.name where test.Ref {of = X}",
            Expectation::Supported("ann; bob"),
            "**reading through** a reference: `X` holds a fact id and its fields are in \
             another fact's key, so the fact it names is fetched into a level of its own \
             (`Source::Fetch`) and read from there. *Following* a reference still reads \
             nothing — that is the id compare above",
        ),
        entry(
            "X.value where test.Ref {of = X}",
            Expectation::Supported("one; two"),
            "the same through the value side: one register, and the value one point read \
             further off it — the arm that used to decline *quietly*, which is what makes \
             the `flatten_ordered` promise-guard load-bearing here",
        ),
        entry(
            "N where test.Deep {via = R}; N = R.of.name",
            Expectation::Supported("ann; bob"),
            "a **chain** of references is a chain of fetches, each reading the register the \
             one before it bound — two hops, three levels, and no join",
        ),
        entry(
            "{a = X.id, b = X.name} where test.Ref {of = X}",
            Expectation::Supported("{a = 1, b = ann}; {a = 2, b = bob}"),
            "two reads of one reference are **one** fetch: a second level would read the \
             same row again for every row above it, and could never disagree with the first",
        ),
        entry(
            "P.id where test.Ref {of = P}; test.Bar {id = P.id}",
            Expectation::Supported("1; 2"),
            "a field read through a reference **narrows** the level that reads it — the \
             fetch is an outer level, so its register splices into the seek below it",
        ),
        entry(
            "Y where Y = test.Foo _; test.Name Y.value",
            Expectation::Diagnosed(Code::NyiValueMatch),
            "a value may be projected but not matched: I6 keeps `entities` out of the \
             scan loop",
        ),
        entry(
            "Y where test.Foo Y",
            Expectation::Supported("{id = 1, name = ann}; {id = 2, name = bob}; {id = 3, name = ann}"),
            "**a whole key**, which is its fields: a stored key is flat, so the record \
             is built one field at a time and needs no operator of its own",
        ),
        entry(
            "X where test.Foo _",
            Expectation::Diagnosed(Code::RejectUnboundVariable),
            "range restriction: nothing captures `X`, so there are no values for it to \
             range over",
        ),
        entry(
            "X where test.Edge {from = X, to = X}",
            Expectation::Diagnosed(Code::NyiRepeatedVariable),
            "an intra-row repeat needs a same-row `EqField` residual; the Phase 4 \
             decision is to reject it for now rather than add an operator nothing else \
             uses (docs/open-decisions.md)",
        ),
        entry(
            "X where X = test.Foo _; 42",
            Expectation::Diagnosed(Code::RejectNotAGenerator),
            "a statement that is not a fact pattern generates nothing and constrains \
             nothing",
        ),
        entry(
            "\"abc\".. where test.Foo _",
            Expectation::Diagnosed(Code::RejectNotProjectable),
            "a string prefix is a pattern, not a value, so it cannot be a head",
        ),
        entry("where", Expectation::ParseError, "no head, no body"),
        entry("X where", Expectation::ParseError, "no statements"),
        entry(
            "X where test.Foo",
            Expectation::ParseError,
            "a fact pattern's key is mandatory; the whole-predicate scan is \
             `test.Foo _`",
        ),
        entry("X where X = }", Expectation::ParseError, "junk"),
    ]
}

#[test]
fn every_entry_parses_as_classified() {
    let mut gaps = vec![];
    let corpus = corpus();

    for Entry {
        source,
        expect,
        note,
    } in &corpus
    {
        let parsed = parse(source);
        let diags: Vec<&String> = parsed.diagnostics().iter().map(|d| &d.message).collect();

        match expect {
            Expectation::Supported(_) | Expectation::Diagnosed(_) if parsed.has_errors() => {
                gaps.push(format!("{source:?} must parse ({note}) — got {diags:?}"))
            }
            Expectation::ParseError if !parsed.has_errors() => {
                gaps.push(format!("{source:?} must be a parse error ({note})"))
            }
            _ => {}
        }
    }

    assert!(
        gaps.is_empty(),
        "{} of {} corpus entries are not yet on the surface:\n  {}",
        gaps.len(),
        corpus.len(),
        gaps.join("\n  ")
    );
}

#[test]
fn every_supported_entry_returns_its_rows() {
    let mut wrong = vec![];
    let mut checked = 0;
    let schema = schema();

    for Entry {
        source,
        expect,
        note,
    } in corpus()
    {
        let Expectation::Supported(want) = expect else {
            continue;
        };
        checked += 1;

        let got = rows(source)
            .iter()
            .map(|value| render(value, &schema))
            .collect::<Vec<_>>()
            .join("; ");
        if got != want {
            wrong.push(format!(
                "{source:?}\n      want {want:?}\n      got  {got:?}  ({note})"
            ));
        }
    }

    assert!(
        wrong.is_empty(),
        "{} of {checked} supported entries answer differently than recorded:\n    {}",
        wrong.len(),
        wrong.join("\n    "),
    );
}

/// A row as the corpus writes it: bare scalars, `{a = …}` for a record, and
/// `test.Foo#1` for a reference.
fn render(value: &Value, schema: &Schema) -> String {
    match value {
        Value::Int(n) => n.to_string(),
        Value::Str(s) => s.clone(),
        Value::FactRef(id) => {
            let name = schema
                .get(id.predicate())
                .and_then(|predicate| predicate.name())
                .unwrap_or("?");

            format!("{name}#{}", id.sequence())
        }
        Value::Record(fields) => format!(
            "{{{}}}",
            fields
                .iter()
                .map(|(name, field)| format!("{name} = {}", render(field, schema)))
                .collect::<Vec<_>>()
                .join(", ")
        ),
    }
}
