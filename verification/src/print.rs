//! From a tree to text, in renderings that must not be confused.
//!
//! [`print`] gives focus source, text that parses and lowers back to the tree it came
//! from. [`canonical`] gives an s-expression, which is not focus syntax: it is the
//! structure of a tree, whatever its nodes are numbered and wherever they were written.
//! [`plan`] gives a compiled query for a person to read.
use vstd::prelude::*;
use vstd::string::StringExecFns;
use vstd::utf8::*;

use crate::iter::Address;
use crate::lexer;
use crate::plan::{FieldPath, Project, Projection, Residual, ResidualOp, SeekKey, SeekKeyPart};
use crate::program;
use crate::program::{Derived, Level, Program, Source, Step, Test};
use crate::schema::{LocalInterner, Names, Predicate, PredicateId, PredicateTy, Schema, Symbol};
use crate::shape::apart;
use crate::syntax;
use crate::syntax::{
    narrow_offset, Ast, ExprKind, FieldRef, Literal, NodeId, NodeSpan, Query, QueryStmt,
};
use crate::text;
use crate::text::{chars_of, push_char, push_decimal, push_hexadecimal, push_signed};
use crate::tuple::{Datum, Value};

pub mod landing;
pub mod plans;
pub mod spans;

verus! {

// ---- string literals --------------------------------------------------------

/// Whether a character is a control character.
pub open spec fn is_control(c: char) -> bool {
    (c as u32) < 0x20 || 0x7f <= (c as u32) <= 0x9f
}

/// A character as a string literal holds it.
pub open spec fn escaped_char(c: char) -> Seq<char> {
    if c == '"' {
        "\\\""@
    } else if c == '\\' {
        "\\\\"@
    } else if c == '\n' {
        "\\n"@
    } else if c == '\r' {
        "\\r"@
    } else if c == '\t' {
        "\\t"@
    } else if c == '\u{8}' {
        "\\b"@
    } else if c == '\u{c}' {
        "\\f"@
    } else if is_control(c) {
        "\\u"@ + text::hexadecimal(c as u32 as nat, 4)
    } else {
        seq![c]
    }
}

/// The first `k` characters as a string literal holds them.
pub open spec fn escaped_chars(s: Seq<char>, k: nat) -> Seq<char>
    decreases k,
{
    if k == 0 {
        Seq::empty()
    } else {
        escaped_chars(s, (k - 1) as nat) + escaped_char(s[k - 1])
    }
}

/// A string as the literal that denotes it.
pub open spec fn escaped(s: Seq<char>) -> Seq<char> {
    "\""@ + escaped_chars(s, s.len()) + "\""@
}

/// Quote and escape a string. A control character must be escaped for the lexer to take
/// it; everything else but a quote and a backslash may stand as it is.
pub fn escape(s: &str) -> (literal: String)
    ensures
        literal@ == escaped(s@),
{
    let chars: Vec<char> = chars_of(s);
    let mut out: String = "\"".to_owned();
    let mut k: usize = 0;
    proof {
        assert("\""@ + escaped_chars(s@, 0) =~= "\""@);
    }
    while k < chars.len()
        invariant
            chars@ == s@,
            k <= chars@.len(),
            out@ == "\""@ + escaped_chars(s@, k as nat),
        decreases chars@.len() - k,
    {
        let c: char = chars[k];
        let ghost before = out@;
        if c == '"' {
            out.append("\\\"");
        } else if c == '\\' {
            out.append("\\\\");
        } else if c == '\n' {
            out.append("\\n");
        } else if c == '\r' {
            out.append("\\r");
        } else if c == '\t' {
            out.append("\\t");
        } else if c == '\u{8}' {
            out.append("\\b");
        } else if c == '\u{c}' {
            out.append("\\f");
        } else if (c as u32) < 0x20 || (0x7f <= c as u32 && c as u32 <= 0x9f) {
            out.append("\\u");
            push_hexadecimal(&mut out, c as u32, 4);
        } else {
            push_char(&mut out, c);
        }
        proof {
            assert(out@ =~= before + escaped_char(c));
            assert(before + escaped_char(c) =~= "\""@ + escaped_chars(s@, (k + 1) as nat));
        }
        k += 1;
    }
    out.append("\"");
    out
}

/// The four digits of a control character name it.
proof fn lemma_control_digits(c: char, before: Seq<char>, after: Seq<char>)
    requires
        is_control(c),
    ensures
        ({
            let digits = text::hexadecimal(c as u32 as nat, 4);
            &&& digits.len() == 4
            &&& lexer::hex_number(before + digits + after, before.len(), 4) == Some(c as u32 as nat)
        }),
{
    let n = c as u32 as nat;
    reveal_with_fuel(text::hexadecimal, 5);
    reveal_with_fuel(lexer::hex_number, 5);
    reveal_strlit("0");
    reveal_strlit("1");
    reveal_strlit("2");
    reveal_strlit("3");
    reveal_strlit("4");
    reveal_strlit("5");
    reveal_strlit("6");
    reveal_strlit("7");
    reveal_strlit("8");
    reveal_strlit("9");
    reveal_strlit("a");
    reveal_strlit("b");
    reveal_strlit("c");
    reveal_strlit("d");
    reveal_strlit("e");
    reveal_strlit("f");
    let d0 = text::digit(n / 16 / 16 / 16 % 16);
    let d1 = text::digit(n / 16 / 16 % 16);
    let d2 = text::digit(n / 16 % 16);
    let d3 = text::digit(n % 16);
    assert(n / 16 / 16 / 16 % 16 == 0);
    assert(n / 16 / 16 % 16 == 0);
    let digits = text::hexadecimal(n, 4);
    assert(digits =~= seq![d0[0], d1[0], d2[0], d3[0]]);
    let whole = before + digits + after;
    let at = before.len() as int;
    assert(whole[at] == d0[0]);
    assert(whole[at + 1] == d1[0]);
    assert(whole[at + 2] == d2[0]);
    assert(whole[at + 3] == d3[0]);
    lemma_digit(n / 16 % 16);
    lemma_digit(n % 16);
    lemma_digit(0);
}

/// A digit reads back as its value.
proof fn lemma_digit(d: nat)
    requires
        d < 16,
    ensures
        text::digit(d).len() == 1,
        lexer::hex_digit(text::digit(d)[0]) == Some(d),
{
    reveal_strlit("0");
    reveal_strlit("1");
    reveal_strlit("2");
    reveal_strlit("3");
    reveal_strlit("4");
    reveal_strlit("5");
    reveal_strlit("6");
    reveal_strlit("7");
    reveal_strlit("8");
    reveal_strlit("9");
    reveal_strlit("a");
    reveal_strlit("b");
    reveal_strlit("c");
    reveal_strlit("d");
    reveal_strlit("e");
    reveal_strlit("f");
}

/// An escaped character reads back as itself.
proof fn lemma_char_reads_back(before: Seq<char>, c: char, after: Seq<char>)
    ensures
        lexer::char_at(before + escaped_char(c) + after, before.len()) == Some(
            (c, before.len() + escaped_char(c).len()),
        ),
        escaped_char(c).len() > 0,
{
    reveal_strlit("\\\"");
    reveal_strlit("\\\\");
    reveal_strlit("\\n");
    reveal_strlit("\\r");
    reveal_strlit("\\t");
    reveal_strlit("\\b");
    reveal_strlit("\\f");
    reveal_strlit("\\u");
    let whole = before + escaped_char(c) + after;
    let at = before.len() as int;
    assert(whole[at] == escaped_char(c)[0]);
    if escaped_char(c).len() > 1 {
        assert(whole[at + 1] == escaped_char(c)[1]);
    }
    let short = c == '"' || c == '\\' || c == '\n' || c == '\r' || c == '\t' || c == '\u{8}' || c
        == '\u{c}';
    if !short && is_control(c) {
        lemma_control_digits(c, before + "\\u"@, after);
        assert(before + "\\u"@ + text::hexadecimal(c as u32 as nat, 4) + after =~= whole);
        assert(c as u32 as char == c);
    }
}

/// What follows some characters reads back once they have.
proof fn lemma_reads_back(s: Seq<char>, k: nat)
    requires
        k <= s.len(),
    ensures
        lexer::unescaped(escaped_chars(s, s.len()), escaped_chars(s, k).len()) == Some(
            s.skip(k as int),
        ),
        escaped_chars(s, k).len() <= escaped_chars(s, s.len()).len(),
        escaped_chars(s, k) == escaped_chars(s, s.len()).take(escaped_chars(s, k).len() as int),
    decreases s.len() - k,
{
    let all = escaped_chars(s, s.len());
    if k == s.len() {
        assert(s.skip(k as int) =~= Seq::<char>::empty());
        assert(all.take(all.len() as int) =~= all);
    } else {
        lemma_reads_back(s, k + 1);
        let before = escaped_chars(s, k);
        let c = s[k as int];
        let upto = escaped_chars(s, k + 1);
        let after = all.skip(upto.len() as int);
        assert(before + escaped_char(c) + after =~= all);
        lemma_char_reads_back(before, c, after);
        assert(before =~= all.take(before.len() as int));
        assert(seq![c] + s.skip(k as int + 1) =~= s.skip(k as int));
    }
}

/// Escaping is undone by reading the literal: the text of a literal made from a string
/// denotes that string.
pub proof fn law_an_escaped_string_reads_back(s: Seq<char>)
    ensures
        lexer::str_value(escaped(s)) == Ok::<Seq<char>, lexer::LiteralError>(s),
{
    reveal_strlit("\"");
    let inner = escaped_chars(s, s.len());
    lemma_reads_back(s, 0);
    assert(escaped(s).subrange(1, escaped(s).len() - 1) =~= inner);
    assert(s.skip(0) =~= s);
    assert(escaped_chars(s, 0).len() == 0);
}

/// An escaped character does not begin with a quote.
proof fn lemma_no_quote(c: char)
    ensures
        escaped_char(c).len() > 0,
        escaped_char(c)[0] != '"',
{
    reveal_strlit("\\\"");
    reveal_strlit("\\\\");
    reveal_strlit("\\n");
    reveal_strlit("\\r");
    reveal_strlit("\\t");
    reveal_strlit("\\b");
    reveal_strlit("\\f");
    reveal_strlit("\\u");
}

/// A piece of a quoted text, between what stands before it and what stands behind it.
proof fn lemma_seam(
    quote: Seq<char>,
    head: Seq<char>,
    one: Seq<char>,
    tail: Seq<char>,
    rest: Seq<char>,
)
    ensures
        (quote + head) + one + (tail + quote + rest) == quote + (head + one + tail) + quote + rest,
        one.len() > 0 ==> (quote + (head + one + tail) + quote + rest)[(quote.len()
            + head.len()) as int] == one[0],
{
    assert((quote + head) + one + (tail + quote + rest) =~= quote + (head + one + tail) + quote
        + rest);
}

/// The `k`th character of an escaped string stands behind those before it.
proof fn lemma_char_stands(s: Seq<char>, rest: Seq<char>, k: nat)
    requires
        k < s.len(),
    ensures
        ({
            let all = escaped(s) + rest;
            let at = 1 + escaped_chars(s, k).len();
            &&& at < all.len()
            &&& lexer::char_at(all, at) matches Some((c, _)) && c == s[k as int]
            &&& all[at as int] != '"'
        }),
{
    reveal_strlit("\"");
    let all = escaped(s) + rest;
    let inner = escaped_chars(s, s.len());
    lemma_reads_back(s, k);
    lemma_reads_back(s, k + 1);
    lemma_no_quote(s[k as int]);
    let (head, one) = (escaped_chars(s, k), escaped_char(s[k as int]));
    let upto = escaped_chars(s, k + 1);
    let tail = inner.skip(upto.len() as int);
    assert(upto == head + one);
    assert(inner =~= upto + tail);
    lemma_seam("\""@, head, one, tail, rest);
    lemma_char_reads_back("\""@ + head, s[k as int], tail + "\""@ + rest);
}

/// Escaped strings begin alike where the strings do.
proof fn lemma_same_start(a: Seq<char>, b: Seq<char>, s: Seq<char>, t: Seq<char>, k: nat)
    requires
        escaped(a) + s == escaped(b) + t,
        k <= a.len(),
        k <= b.len(),
    ensures
        a.take(k as int) == b.take(k as int),
        escaped_chars(a, k) == escaped_chars(b, k),
    decreases k,
{
    if k > 0 {
        let j = (k - 1) as nat;
        lemma_same_start(a, b, s, t, j);
        lemma_char_stands(a, s, j);
        lemma_char_stands(b, t, j);
        assert(a.take(k as int) =~= a.take(j as int).push(a[j as int]));
        assert(b.take(k as int) =~= b.take(j as int).push(b[j as int]));
    } else {
        assert(a.take(0) =~= b.take(0));
    }
}

proof fn lemma_no_longer(a: Seq<char>, b: Seq<char>, s: Seq<char>, t: Seq<char>)
    requires
        escaped(a) + s == escaped(b) + t,
    ensures
        b.len() <= a.len(),
{
    if a.len() < b.len() {
        reveal_strlit("\"");
        lemma_same_start(a, b, s, t, a.len());
        lemma_char_stands(b, t, a.len());
        let at = 1 + escaped_chars(a, a.len()).len();
        assert((escaped(a) + s)[at as int] == '"');
    }
}

/// Escaped strings are told apart, wherever they stand.
pub proof fn law_escaped_strings_are_told_apart(
    a: Seq<char>,
    b: Seq<char>,
    s: Seq<char>,
    t: Seq<char>,
)
    requires
        escaped(a) + s == escaped(b) + t,
    ensures
        a == b,
        s == t,
{
    lemma_no_longer(a, b, s, t);
    lemma_no_longer(b, a, t, s);
    lemma_same_start(a, b, s, t, a.len());
    assert(a.take(a.len() as int) =~= a);
    assert(b.take(b.len() as int) =~= b);
    apart::lemma_strip(escaped(a), s, t);
}

// ---- focus source -----------------------------------------------------------

/// How loosely a pattern binds:
///
/// ```text
/// pattern := branch ('|' branch)*                        -- Disjunction
/// branch  := fact_pattern | primary ('.' LId ['?'])*     -- Application | Chain
/// primary := '_' | UId | Nat | … | '(' pattern … ')'     -- Primary
/// ```
///
/// A child is parenthesised exactly when it binds more loosely than its position
/// permits. An application and a chain are siblings in the grammar and ordered here: a
/// chain's base may be a chain, while an application there has to be wrapped.
#[derive(Debug, Clone, Copy, PartialEq, Eq, Structural)]
pub enum Prec {
    Primary,
    Chain,
    Application,
    Disjunction,
}

impl Prec {
    /// The tightest first.
    pub open spec fn rank(self) -> nat {
        match self {
            Prec::Primary => 0,
            Prec::Chain => 1,
            Prec::Application => 2,
            Prec::Disjunction => 3,
        }
    }

    /// Whether this binds more loosely than `other`.
    fn looser(self, other: Prec) -> (looser: bool)
        ensures
            looser == (self.rank() > other.rank()),
    {
        match self {
            Prec::Primary => false,
            Prec::Chain => other == Prec::Primary,
            Prec::Application => other == Prec::Primary || other == Prec::Chain,
            Prec::Disjunction => other != Prec::Disjunction,
        }
    }
}

/// How loosely a node binds.
pub open spec fn looseness(kind: ExprKind) -> Prec {
    match kind {
        ExprKind::Disjunction(_) => Prec::Disjunction,
        ExprKind::Fact(_, _) => Prec::Application,
        ExprKind::Access(_, _) => Prec::Chain,
        ExprKind::Select(_, _) => Prec::Chain,
        _ => Prec::Primary,
    }
}

/// A predicate's name, where the schema can give it.
pub open spec fn declared_name(schema: Schema, predicate: PredicateId) -> Option<Seq<char>> {
    match schema.predicate(predicate) {
        Some(declared) => if declared.name.0 < schema.names().len() {
            Some(schema.names()[declared.name.0 as int])
        } else {
            None
        },
        None => None,
    }
}

/// A predicate's name, or one that says there is none.
pub open spec fn predicate_name(schema: Schema, predicate: PredicateId) -> Seq<char> {
    match declared_name(schema, predicate) {
        Some(name) => name,
        None => "unknown.Predicate"@ + text::decimal(predicate.0 as nat),
    }
}

/// Source under construction: the text, and where each node's own text landed.
#[verifier::ext_equal]
pub struct Page {
    pub text: Seq<char>,
    pub spans: Seq<NodeSpan>,
}

impl Page {
    pub open spec fn put(self, more: Seq<char>) -> Page {
        Page { text: self.text + more, ..self }
    }

    /// How many bytes the text has.
    pub open spec fn bytes(self) -> nat {
        encode_utf8(self.text).len()
    }

    /// A node was printed from byte `start` on, up to the end.
    pub open spec fn marked(self, id: NodeId, start: nat) -> Page {
        Page {
            spans: self.spans.update(
                id.0 as int,
                NodeSpan {
                    start: syntax::narrowed(start),
                    end: syntax::narrowed(self.bytes()),
                },
            ),
            ..self
        }
    }
}

/// What is printed, and the names it is printed with.
pub struct Script {
    pub ast: Ast,
    pub schema: Schema,
    pub names: Names,
}

impl Script {
    /// A query, every node of which stands before position `n`.
    pub open spec fn query(self, page: Page, query: Query, n: nat) -> Page
        decreases n, 1nat, 0nat,
    {
        let page = if query.head.0 < n {
            self.pattern(page, query.head, Prec::Disjunction)
        } else {
            page
        };
        self.stmts(page.put(" where "@), query.body@, n, query.body@.len())
    }

    /// The first `k` statements, a semicolon between them.
    pub open spec fn stmts(self, page: Page, body: Seq<QueryStmt>, n: nat, k: nat) -> Page
        decreases n, 0nat, k,
    {
        if k == 0 {
            page
        } else {
            let page = self.stmts(page, body, n, (k - 1) as nat);
            self.stmt(
                if k > 1 {
                    page.put("; "@)
                } else {
                    page
                },
                body[k - 1],
                n,
            )
        }
    }

    /// One statement.
    pub open spec fn stmt(self, page: Page, stmt: QueryStmt, n: nat) -> Page
        decreases n, 0nat, 0nat,
    {
        match stmt {
            QueryStmt::Implicit(id) => if id.0 < n {
                self.pattern(page, id, Prec::Disjunction)
            } else {
                page
            },
            QueryStmt::Bind(lhs, rhs) => if lhs.0 < n && rhs.0 < n {
                self.pattern(
                    self.pattern(page, lhs, Prec::Disjunction).put(" = "@),
                    rhs,
                    Prec::Disjunction,
                )
            } else {
                page
            },
            QueryStmt::Negation(id) => if id.0 < n {
                self.pattern(page.put("!"@), id, Prec::Disjunction)
            } else {
                page
            },
        }
    }

    /// A node, wrapped where it binds more loosely than its position permits. The
    /// parentheses are not the node's own text.
    pub open spec fn pattern(self, page: Page, id: NodeId, permitted: Prec) -> Page
        decreases id.0, 3nat, 0nat,
    {
        if looseness(self.ast.kind(id)).rank() > permitted.rank() {
            let open = page.put("("@);
            self.bare(open, id).marked(id, open.bytes()).put(")"@)
        } else {
            self.bare(page, id).marked(id, page.bytes())
        }
    }

    /// A node's own text.
    pub open spec fn bare(self, page: Page, id: NodeId) -> Page
        decreases id.0, 2nat, 0nat,
    {
        match self.ast.kind(id) {
            ExprKind::Wildcard => page.put("_"@),
            ExprKind::Never => page.put("never"@),
            ExprKind::Error => page.put("!error"@),
            ExprKind::Var(symbol) => page.put(self.names.shown(symbol)),
            ExprKind::Lit(Literal::Int(value)) => page.put(text::signed_decimal(value as int)),
            ExprKind::Lit(Literal::Str(symbol)) => page.put(escaped(self.names.shown(symbol))),
            ExprKind::Prefix(symbol) => page.put(escaped(self.names.shown(symbol))).put(".."@),
            ExprKind::Record(fields) => self.fields(
                page.put("{"@),
                fields@,
                id.0 as nat,
                fields@.len(),
            ).put("}"@),
            ExprKind::Access(FieldRef::Key(name), base) => self.base(page, base, id).put("."@).put(
                self.names.shown(name),
            ),
            ExprKind::Access(FieldRef::Value, base) => self.base(page, base, id).put(".value"@),
            ExprKind::Select(alt, base) => self.base(page, base, id).put("."@).put(
                self.names.shown(alt),
            ).put("?"@),
            ExprKind::Fact(predicate, key) => {
                let page = page.put(predicate_name(self.schema, predicate)).put(" "@);
                if key.0 < id.0 {
                    self.pattern(page, key, Prec::Application)
                } else {
                    page
                }
            },
            ExprKind::Disjunction(branches) => self.branches(
                page,
                branches@,
                id.0 as nat,
                branches@.len(),
            ),
            ExprKind::Subquery(query) => self.query(page.put("("@), query, id.0 as nat).put(")"@),
        }
    }

    /// What a chain step is taken of: a primary or another chain as it is.
    pub open spec fn base(self, page: Page, base: NodeId, id: NodeId) -> Page
        decreases id.0, 0nat, 0nat,
    {
        if base.0 < id.0 {
            self.pattern(page, base, Prec::Chain)
        } else {
            page
        }
    }

    /// The first `k` fields of a record, a comma between them.
    pub open spec fn fields(self, page: Page, fields: Seq<(Symbol, NodeId)>, n: nat, k: nat) -> Page
        decreases n, 0nat, k,
    {
        if k == 0 {
            page
        } else {
            let page = self.fields(page, fields, n, (k - 1) as nat);
            let page = (if k > 1 {
                page.put(", "@)
            } else {
                page
            }).put(self.names.shown(fields[k - 1].0)).put(" = "@);
            if fields[k - 1].1.0 < n {
                self.pattern(page, fields[k - 1].1, Prec::Disjunction)
            } else {
                page
            }
        }
    }

    /// The first `k` branches of a disjunction, a bar between them.
    pub open spec fn branches(self, page: Page, branches: Seq<NodeId>, n: nat, k: nat) -> Page
        decreases n, 0nat, k,
    {
        if k == 0 {
            page
        } else {
            let page = self.branches(page, branches, n, (k - 1) as nat);
            let page = if k > 1 {
                page.put(" | "@)
            } else {
                page
            };
            if branches[k - 1].0 < n {
                self.pattern(page, branches[k - 1], Prec::Application)
            } else {
                page
            }
        }
    }
}

/// A whole tree as source.
pub open spec fn page_of(ast: Ast, schema: Schema, names: Names) -> Page {
    let blank = Page {
        text: Seq::empty(),
        spans: Seq::new(ast.tree().kinds().len(), |i: int| NodeSpan { start: 0, end: 0 }),
    };
    (Script { ast, schema, names }).query(blank, ast.root(), ast.tree().kinds().len())
}

/// Source under construction, with the span each node was printed at.
pub struct Spanned {
    text: String,
    spans: Vec<NodeSpan>,
}

impl View for Spanned {
    type V = Page;

    closed spec fn view(&self) -> Page {
        Page { text: self.text@, spans: self.spans@ }
    }
}

impl Spanned {
    pub fn text(&self) -> (text: &str)
        ensures
            text@ == self@.text,
    {
        self.text.as_str()
    }

    /// Where a node's own text landed. Parentheses the printer wrapped around it are
    /// left out; a subquery's are its own.
    pub fn span(&self, id: NodeId) -> (span: NodeSpan)
        requires
            id.0 < self@.spans.len(),
        ensures
            span == self@.spans[id.0 as int],
    {
        self.spans[id.0]
    }

    fn push(&mut self, more: &str)
        ensures
            final(self)@ == old(self)@.put(more@),
    {
        self.text.append(more);
    }

    /// Where the text has come to, in bytes.
    fn at(&self) -> (at: usize)
        ensures
            at == self@.bytes(),
    {
        self.text.as_str().as_bytes().len()
    }

    /// A node was printed from byte `start` on.
    fn node(&mut self, id: NodeId, start: usize)
        requires
            id.0 < old(self)@.spans.len(),
        ensures
            final(self)@ == old(self)@.marked(id, start as nat),
    {
        let end: u32 = narrow_offset(self.at());
        self.spans.set(id.0, NodeSpan { start: narrow_offset(start), end });
    }
}

/// What is printed.
struct Printer<'a> {
    ast: &'a Ast,
    schema: &'a Schema,
    interner: &'a LocalInterner,
}

impl<'a> Printer<'a> {
    spec fn script(self) -> Script {
        Script { ast: *self.ast, schema: *self.schema, names: self.interner@ }
    }

    /// Whether a page has a place for every node's span.
    spec fn fits(self, out: Spanned) -> bool {
        self.ast.wf() && out@.spans.len() == self.ast.tree().kinds().len()
    }

    fn query(&self, out: &mut Spanned, query: &Query, Ghost(n): Ghost<nat>)
        requires
            self.fits(*old(out)),
            syntax::query_below(*query, n),
            n <= self.ast.tree().kinds().len(),
        ensures
            self.fits(*final(out)),
            final(out)@ == self.script().query(old(out)@, *query, n),
        decreases n, 1nat, 0nat,
    {
        self.pattern(out, query.head, Prec::Disjunction);
        out.push(" where ");
        let ghost start = out@;
        let mut k: usize = 0;
        while k < query.body.len()
            invariant
                self.fits(*out),
                syntax::query_below(*query, n),
                n <= self.ast.tree().kinds().len(),
                k <= query.body@.len(),
                out@ == self.script().stmts(start, query.body@, n, k as nat),
            decreases query.body@.len() - k,
        {
            if k > 0 {
                out.push("; ");
            }
            proof {
                assert(syntax::stmt_below(query.body@[k as int], n));
            }
            self.stmt(out, &query.body[k], Ghost(n));
            k += 1;
        }
    }

    fn stmt(&self, out: &mut Spanned, stmt: &QueryStmt, Ghost(n): Ghost<nat>)
        requires
            self.fits(*old(out)),
            syntax::stmt_below(*stmt, n),
            n <= self.ast.tree().kinds().len(),
        ensures
            self.fits(*final(out)),
            final(out)@ == self.script().stmt(old(out)@, *stmt, n),
        decreases n, 0nat, 0nat,
    {
        match stmt {
            QueryStmt::Implicit(id) => self.pattern(out, *id, Prec::Disjunction),
            QueryStmt::Bind(lhs, rhs) => {
                self.pattern(out, *lhs, Prec::Disjunction);
                out.push(" = ");
                self.pattern(out, *rhs, Prec::Disjunction);
            },
            QueryStmt::Negation(id) => {
                out.push("!");
                self.pattern(out, *id, Prec::Disjunction);
            },
        }
    }

    fn level(&self, id: NodeId) -> (level: Prec)
        requires
            self.ast.has(id),
        ensures
            level == looseness(self.ast.kind(id)),
    {
        match self.ast.store().kind(id) {
            ExprKind::Disjunction(_) => Prec::Disjunction,
            ExprKind::Fact(_, _) => Prec::Application,
            ExprKind::Access(_, _) => Prec::Chain,
            ExprKind::Select(_, _) => Prec::Chain,
            _ => Prec::Primary,
        }
    }

    fn pattern(&self, out: &mut Spanned, id: NodeId, permitted: Prec)
        requires
            self.fits(*old(out)),
            self.ast.has(id),
        ensures
            self.fits(*final(out)),
            final(out)@ == self.script().pattern(old(out)@, id, permitted),
        decreases id.0, 3nat, 0nat,
    {
        let wrapped: bool = self.level(id).looser(permitted);
        if wrapped {
            out.push("(");
        }
        let start: usize = out.at();
        self.bare(out, id);
        out.node(id, start);
        if wrapped {
            out.push(")");
        }
    }

    /// A predicate's name, or one that says there is none.
    fn push_predicate(&self, out: &mut Spanned, predicate: PredicateId)
        ensures
            final(out)@ == old(out)@.put(predicate_name(*self.schema, predicate)),
    {
        if let Some(declared) = self.schema.get(predicate) {
            if let Some(name) = declared.name() {
                out.push(name);
                return;
            }
        }
        let mut name: String = "unknown.Predicate".to_owned();
        push_decimal(&mut name, predicate.0 as u64);
        out.push(name.as_str());
    }

    fn bare(&self, out: &mut Spanned, id: NodeId)
        requires
            self.fits(*old(out)),
            self.ast.has(id),
        ensures
            self.fits(*final(out)),
            final(out)@ == self.script().bare(old(out)@, id),
        decreases id.0, 2nat, 0nat,
    {
        proof {
            assert(syntax::children_below(self.ast.tree().kinds()[id.0 as int], id.0 as nat));
        }
        match self.ast.store().kind(id) {
            ExprKind::Wildcard => out.push("_"),
            ExprKind::Never => out.push("never"),
            ExprKind::Error => out.push("!error"),
            ExprKind::Var(symbol) => out.push(self.interner.shown(*symbol)),
            ExprKind::Lit(Literal::Int(value)) => {
                let mut digits: String = String::new();
                push_signed(&mut digits, *value);
                proof {
                    assert(digits@ =~= text::signed_decimal(*value as int));
                }
                out.push(digits.as_str());
            },
            ExprKind::Lit(Literal::Str(symbol)) => {
                out.push(escape(self.interner.shown(*symbol)).as_str());
            },
            ExprKind::Prefix(symbol) => {
                out.push(escape(self.interner.shown(*symbol)).as_str());
                out.push("..");
            },
            ExprKind::Record(fields) => {
                out.push("{");
                let ghost start = out@;
                let mut k: usize = 0;
                while k < fields.len()
                    invariant
                        self.fits(*out),
                        self.ast.has(id),
                        self.ast.kind(id) == ExprKind::Record(*fields),
                        syntax::children_below(self.ast.kind(id), id.0 as nat),
                        k <= fields@.len(),
                        out@ == self.script().fields(start, fields@, id.0 as nat, k as nat),
                    decreases fields@.len() - k,
                {
                    if k > 0 {
                        out.push(", ");
                    }
                    proof {
                        assert(fields@[k as int].1.0 < id.0);
                    }
                    out.push(self.interner.shown(fields[k].0));
                    out.push(" = ");
                    self.pattern(out, fields[k].1, Prec::Disjunction);
                    k += 1;
                }
                out.push("}");
            },
            ExprKind::Access(FieldRef::Key(name), base) => {
                self.pattern(out, *base, Prec::Chain);
                out.push(".");
                out.push(self.interner.shown(*name));
            },
            ExprKind::Access(FieldRef::Value, base) => {
                self.pattern(out, *base, Prec::Chain);
                out.push(".value");
            },
            ExprKind::Select(alt, base) => {
                self.pattern(out, *base, Prec::Chain);
                out.push(".");
                out.push(self.interner.shown(*alt));
                out.push("?");
            },
            ExprKind::Fact(predicate, key) => {
                self.push_predicate(out, *predicate);
                out.push(" ");
                self.pattern(out, *key, Prec::Application);
            },
            ExprKind::Disjunction(branches) => {
                let ghost start = out@;
                let mut k: usize = 0;
                while k < branches.len()
                    invariant
                        self.fits(*out),
                        self.ast.has(id),
                        self.ast.kind(id) == ExprKind::Disjunction(*branches),
                        syntax::children_below(self.ast.kind(id), id.0 as nat),
                        k <= branches@.len(),
                        out@ == self.script().branches(start, branches@, id.0 as nat, k as nat),
                    decreases branches@.len() - k,
                {
                    if k > 0 {
                        out.push(" | ");
                    }
                    proof {
                        assert(branches@[k as int].0 < id.0);
                    }
                    self.pattern(out, branches[k], Prec::Application);
                    k += 1;
                }
            },
            ExprKind::Subquery(query) => {
                out.push("(");
                self.query(out, query, Ghost(id.0 as nat));
                out.push(")");
            },
        }
    }
}

/// Render a tree as source, keeping the range each node's text occupies.
pub fn spanned(ast: &Ast, schema: &Schema, interner: &LocalInterner) -> (page: Spanned)
    requires
        ast.wf(),
    ensures
        page@ == page_of(*ast, *schema, interner@),
{
    let n: usize = ast.store().len();
    let mut spans: Vec<NodeSpan> = Vec::new();
    let mut i: usize = 0;
    while i < n
        invariant
            i <= n,
            spans@.len() == i,
            forall|j: int| 0 <= j < i ==> spans@[j] == (NodeSpan { start: 0, end: 0 }),
        decreases n - i,
    {
        spans.push(NodeSpan { start: 0, end: 0 });
        i += 1;
    }
    let mut out = Spanned { text: String::new(), spans };
    proof {
        assert(out@.spans =~= Seq::new(n as nat, |i: int| NodeSpan { start: 0, end: 0 }));
        assert(out@.text =~= Seq::<char>::empty());
    }
    let printer = Printer { ast, schema, interner };
    printer.query(&mut out, ast.query(), Ghost(n as nat));
    out
}

/// Render a tree as source.
pub fn print(ast: &Ast, schema: &Schema, interner: &LocalInterner) -> (text: String)
    requires
        ast.wf(),
    ensures
        text@ == page_of(*ast, *schema, interner@).text,
{
    spanned(ast, schema, interner).text
}

// ---- canonical form ---------------------------------------------------------

/// A string as `Debug` shows it.
pub uninterp spec fn debug_text(s: Seq<char>) -> Seq<char>;

/// `<str as Debug>::fmt`: a string in quotes, what cannot be shown escaped. The result
/// is a function of the string alone.
#[verifier::external_body]
fn quoted(s: &str) -> (shown: String)
    ensures
        shown@ == debug_text(s@),
{
    format!("{s:?}")
}

/// `(tag body)`.
pub open spec fn tagged(tag: Seq<char>, body: Seq<char>) -> Seq<char> {
    "("@ + tag + " "@ + body + ")"@
}

/// Append `(tag body)`.
pub fn push_tagged(out: &mut String, tag: &str, body: &str)
    ensures
        final(out)@ == old(out)@ + tagged(tag@, body@),
{
    out.append("(");
    out.append(tag);
    out.append(" ");
    out.append(body);
    out.append(")");
    proof {
        assert(out@ =~= old(out)@ + tagged(tag@, body@));
    }
}

/// A tree whose structure is written down, and its names.
pub struct Structure {
    pub ast: Ast,
    pub names: Names,
}

impl Structure {
    /// `head stmt stmt …`, behind `out`: the inside a query and a subquery share.
    pub open spec fn body(self, out: Seq<char>, query: Query, n: nat) -> Seq<char>
        decreases n, 1nat, 0nat,
    {
        let out = if query.head.0 < n {
            self.pattern(out, query.head)
        } else {
            out
        };
        self.stmts(out + " "@, query.body@, n, query.body@.len())
    }

    /// The first `k` statements.
    pub open spec fn stmts(self, out: Seq<char>, body: Seq<QueryStmt>, n: nat, k: nat) -> Seq<char>
        decreases n, 0nat, k,
    {
        if k == 0 {
            out
        } else {
            let out = self.stmts(out, body, n, (k - 1) as nat);
            self.stmt(
                if k > 1 {
                    out + " "@
                } else {
                    out
                },
                body[k - 1],
                n,
            )
        }
    }

    /// One statement.
    pub open spec fn stmt(self, out: Seq<char>, stmt: QueryStmt, n: nat) -> Seq<char>
        decreases n, 0nat, 0nat,
    {
        match stmt {
            QueryStmt::Implicit(id) => if id.0 < n {
                self.pattern(out + "(implicit "@, id) + ")"@
            } else {
                out
            },
            QueryStmt::Bind(lhs, rhs) => if lhs.0 < n && rhs.0 < n {
                self.pattern(self.pattern(out + "(bind "@, lhs) + " "@, rhs) + ")"@
            } else {
                out
            },
            QueryStmt::Negation(id) => if id.0 < n {
                self.pattern(out + "(not "@, id) + ")"@
            } else {
                out
            },
        }
    }

    /// A node's structure, behind `out`.
    pub open spec fn pattern(self, out: Seq<char>, id: NodeId) -> Seq<char>
        decreases id.0, 2nat, 0nat,
    {
        match self.ast.kind(id) {
            ExprKind::Wildcard => out + "(wild)"@,
            ExprKind::Never => out + "(never)"@,
            ExprKind::Error => out + "(error)"@,
            ExprKind::Var(symbol) => out + tagged("var"@, self.names.shown(symbol)),
            ExprKind::Lit(Literal::Int(value)) => out + tagged(
                "int"@,
                text::signed_decimal(value as int),
            ),
            ExprKind::Lit(Literal::Str(symbol)) => out + tagged(
                "str"@,
                debug_text(self.names.shown(symbol)),
            ),
            ExprKind::Prefix(symbol) => out + tagged(
                "prefix"@,
                debug_text(self.names.shown(symbol)),
            ),
            ExprKind::Record(fields) => self.fields(
                out + "(record"@,
                fields@,
                id.0 as nat,
                fields@.len(),
            ) + ")"@,
            ExprKind::Access(FieldRef::Key(name), base) => self.base(
                out + "(field "@ + self.names.shown(name) + " "@,
                base,
                id,
            ),
            ExprKind::Access(FieldRef::Value, base) => self.base(out + "(value "@, base, id),
            ExprKind::Select(alt, base) => self.base(
                out + "(select "@ + self.names.shown(alt) + " "@,
                base,
                id,
            ),
            ExprKind::Fact(predicate, key) => self.base(
                out + "(fact "@ + text::decimal(predicate.0 as nat) + " "@,
                key,
                id,
            ),
            ExprKind::Disjunction(branches) => self.branches(
                out + "(or "@,
                branches@,
                id.0 as nat,
                branches@.len(),
            ) + ")"@,
            ExprKind::Subquery(query) => self.body(
                out + "(subquery "@,
                query,
                id.0 as nat,
            ) + ")"@,
        }
    }

    /// The node a node is made of, and the end of it.
    pub open spec fn base(self, out: Seq<char>, base: NodeId, id: NodeId) -> Seq<char>
        decreases id.0, 0nat, 0nat,
    {
        (if base.0 < id.0 {
            self.pattern(out, base)
        } else {
            out
        }) + ")"@
    }

    /// The first `k` fields of a record.
    pub open spec fn fields(
        self,
        out: Seq<char>,
        fields: Seq<(Symbol, NodeId)>,
        n: nat,
        k: nat,
    ) -> Seq<char>
        decreases n, 0nat, k,
    {
        if k == 0 {
            out
        } else {
            let out = self.fields(out, fields, n, (k - 1) as nat) + " ("@ + self.names.shown(
                fields[k - 1].0,
            ) + " "@;
            (if fields[k - 1].1.0 < n {
                self.pattern(out, fields[k - 1].1)
            } else {
                out
            }) + ")"@
        }
    }

    /// The first `k` branches of a disjunction.
    pub open spec fn branches(
        self,
        out: Seq<char>,
        branches: Seq<NodeId>,
        n: nat,
        k: nat,
    ) -> Seq<char>
        decreases n, 0nat, k,
    {
        if k == 0 {
            out
        } else {
            let out = self.branches(out, branches, n, (k - 1) as nat);
            let out = if k > 1 {
                out + " "@
            } else {
                out
            };
            if branches[k - 1].0 < n {
                self.pattern(out, branches[k - 1])
            } else {
                out
            }
        }
    }
}

/// A whole tree's structure.
pub open spec fn structure_of(ast: Ast, names: Names) -> Seq<char> {
    (Structure { ast, names }).body("(query "@, ast.root(), ast.tree().kinds().len()) + ")"@
}

/// What is written down as structure. Predicates are named by id, so no schema is
/// needed.
struct Outline<'a> {
    ast: &'a Ast,
    interner: &'a LocalInterner,
}

impl<'a> Outline<'a> {
    spec fn structure(self) -> Structure {
        Structure { ast: *self.ast, names: self.interner@ }
    }

    fn canonical_body(&self, out: &mut String, query: &Query, Ghost(n): Ghost<nat>)
        requires
            self.ast.wf(),
            syntax::query_below(*query, n),
            n <= self.ast.tree().kinds().len(),
        ensures
            final(out)@ == self.structure().body(old(out)@, *query, n),
        decreases n, 1nat, 0nat,
    {
        self.canonical_pattern(out, query.head);
        out.append(" ");
        let ghost start = out@;
        let mut k: usize = 0;
        while k < query.body.len()
            invariant
                self.ast.wf(),
                syntax::query_below(*query, n),
                n <= self.ast.tree().kinds().len(),
                k <= query.body@.len(),
                out@ == self.structure().stmts(start, query.body@, n, k as nat),
            decreases query.body@.len() - k,
        {
            proof {
                assert(syntax::stmt_below(query.body@[k as int], n));
            }
            if k > 0 {
                out.append(" ");
            }
            let ghost before = out@;
            match &query.body[k] {
                QueryStmt::Implicit(id) => {
                    out.append("(implicit ");
                    self.canonical_pattern(out, *id);
                    out.append(")");
                },
                QueryStmt::Bind(lhs, rhs) => {
                    out.append("(bind ");
                    self.canonical_pattern(out, *lhs);
                    out.append(" ");
                    self.canonical_pattern(out, *rhs);
                    out.append(")");
                },
                QueryStmt::Negation(id) => {
                    out.append("(not ");
                    self.canonical_pattern(out, *id);
                    out.append(")");
                },
            }
            proof {
                assert(out@ == self.structure().stmt(before, query.body@[k as int], n));
            }
            k += 1;
        }
    }

    /// Written into one buffer: folding up a string per node would copy whole subtrees at
    /// every level.
    fn canonical_pattern(&self, out: &mut String, id: NodeId)
        requires
            self.ast.wf(),
            self.ast.has(id),
        ensures
            final(out)@ == self.structure().pattern(old(out)@, id),
        decreases id.0, 2nat, 0nat,
    {
        proof {
            assert(syntax::children_below(self.ast.tree().kinds()[id.0 as int], id.0 as nat));
        }
        match self.ast.store().kind(id) {
            ExprKind::Wildcard => out.append("(wild)"),
            ExprKind::Never => out.append("(never)"),
            ExprKind::Error => out.append("(error)"),
            ExprKind::Var(symbol) => push_tagged(out, "var", self.interner.shown(*symbol)),
            ExprKind::Lit(Literal::Int(value)) => {
                let mut digits: String = String::new();
                push_signed(&mut digits, *value);
                proof {
                    assert(digits@ =~= text::signed_decimal(*value as int));
                }
                push_tagged(out, "int", digits.as_str());
            },
            ExprKind::Lit(Literal::Str(symbol)) => {
                push_tagged(out, "str", quoted(self.interner.shown(*symbol)).as_str());
            },
            ExprKind::Prefix(symbol) => {
                push_tagged(out, "prefix", quoted(self.interner.shown(*symbol)).as_str());
            },
            ExprKind::Record(fields) => {
                out.append("(record");
                let ghost start = out@;
                let mut k: usize = 0;
                while k < fields.len()
                    invariant
                        self.ast.wf(),
                        self.ast.has(id),
                        self.ast.kind(id) == ExprKind::Record(*fields),
                        syntax::children_below(self.ast.kind(id), id.0 as nat),
                        k <= fields@.len(),
                        out@ == self.structure().fields(start, fields@, id.0 as nat, k as nat),
                    decreases fields@.len() - k,
                {
                    proof {
                        assert(fields@[k as int].1.0 < id.0);
                    }
                    out.append(" (");
                    out.append(self.interner.shown(fields[k].0));
                    out.append(" ");
                    self.canonical_pattern(out, fields[k].1);
                    out.append(")");
                    k += 1;
                }
                out.append(")");
            },
            ExprKind::Access(FieldRef::Key(name), base) => {
                out.append("(field ");
                out.append(self.interner.shown(*name));
                out.append(" ");
                self.canonical_pattern(out, *base);
                out.append(")");
            },
            ExprKind::Access(FieldRef::Value, base) => {
                out.append("(value ");
                self.canonical_pattern(out, *base);
                out.append(")");
            },
            ExprKind::Select(alt, base) => {
                out.append("(select ");
                out.append(self.interner.shown(*alt));
                out.append(" ");
                self.canonical_pattern(out, *base);
                out.append(")");
            },
            ExprKind::Fact(predicate, key) => {
                out.append("(fact ");
                push_decimal(out, predicate.0 as u64);
                out.append(" ");
                self.canonical_pattern(out, *key);
                out.append(")");
            },
            ExprKind::Disjunction(branches) => {
                out.append("(or ");
                let ghost start = out@;
                let mut k: usize = 0;
                while k < branches.len()
                    invariant
                        self.ast.wf(),
                        self.ast.has(id),
                        self.ast.kind(id) == ExprKind::Disjunction(*branches),
                        syntax::children_below(self.ast.kind(id), id.0 as nat),
                        k <= branches@.len(),
                        out@ == self.structure().branches(start, branches@, id.0 as nat, k as nat),
                    decreases branches@.len() - k,
                {
                    proof {
                        assert(branches@[k as int].0 < id.0);
                    }
                    if k > 0 {
                        out.append(" ");
                    }
                    self.canonical_pattern(out, branches[k]);
                    k += 1;
                }
                out.append(")");
            },
            ExprKind::Subquery(query) => {
                out.append("(subquery ");
                self.canonical_body(out, query, Ghost(id.0 as nat));
                out.append(")");
            },
        }
    }
}

/// Render a tree as an s-expression: its structure, with no node numbers and no spans.
/// Predicates are named by id.
pub fn canonical(ast: &Ast, interner: &LocalInterner) -> (text: String)
    requires
        ast.wf(),
    ensures
        text@ == structure_of(*ast, interner@),
{
    let outline = Outline { ast, interner };
    let mut out: String = "(query ".to_owned();
    outline.canonical_body(&mut out, ast.query(), Ghost(ast.tree().kinds().len()));
    out.append(")");
    out
}

// ---- plans ------------------------------------------------------------------

/// A name of the schema, or a question mark.
pub open spec fn schema_name(names: Seq<Seq<char>>, key: usize) -> Seq<char> {
    if key < names.len() {
        names[key as int]
    } else {
        "?"@
    }
}

/// The positions a path goes through.
pub open spec fn positions(path: FieldPath) -> Seq<usize> {
    seq![path.top()] + path.inner()
}

/// The names of a path from position `k` on, `so_far` being those before it. What has no
/// name is shown by its positions.
pub open spec fn named_from(
    schema: Schema,
    ty: PredicateTy,
    path: FieldPath,
    k: nat,
    so_far: Seq<char>,
) -> Seq<char>
    decreases positions(path).len() - k,
{
    if k >= positions(path).len() {
        so_far
    } else {
        match ty {
            PredicateTy::Record(fields) => {
                let at = positions(path)[k as int];
                if at < fields@.len() {
                    let name = schema_name(schema.names(), fields@[at as int].0.0);
                    named_from(
                        schema,
                        fields@[at as int].1,
                        path,
                        k + 1,
                        if k == 0 {
                            name
                        } else {
                            so_far + "."@ + name
                        },
                    )
                } else {
                    path.shown()
                }
            },
            _ => if k == 0 {
                path.shown()
            } else {
                so_far
            },
        }
    }
}

/// A field path as the schema names it: `of`, or `outer.inner` for a nested step.
pub open spec fn field_named(schema: Schema, ty: Option<PredicateTy>, path: FieldPath) -> Seq<
    char,
> {
    match ty {
        Some(ty) => named_from(schema, ty, path, 0, Seq::empty()),
        None => path.shown(),
    }
}

/// The first level that binds a register.
pub open spec fn binder(steps: Seq<Step>, address: Address) -> Option<Level>
    decreases steps.len(),
{
    if steps.len() == 0 {
        None
    } else {
        match (binder(steps.drop_last(), address), steps.last()) {
            (Some(level), _) => Some(level),
            (None, Step::Level(level)) => if level.binds@.contains(address) {
                Some(level)
            } else {
                None
            },
            _ => None,
        }
    }
}

/// The key type of a predicate.
pub open spec fn key_ty(schema: Schema, predicate: PredicateId) -> Option<PredicateTy> {
    match schema.predicate(predicate) {
        Some(declared) => Some(declared.key),
        None => None,
    }
}

/// The key type of the rows a register holds: of the predicate the level that binds it
/// ranges over, where it ranges over one.
pub open spec fn register_ty(
    program: Program,
    schema: Schema,
    address: Address,
) -> Option<PredicateTy> {
    match binder(program.body@, address) {
        Some(level) => match level.predicate() {
            Some(predicate) => key_ty(schema, predicate),
            None => None,
        },
        None => None,
    }
}

/// A field of a register, named against the rows that register holds.
pub open spec fn register_field(
    program: Program,
    schema: Schema,
    address: Address,
    path: FieldPath,
) -> Seq<char> {
    address.shown() + "."@ + field_named(schema, register_ty(program, schema, address), path)
}

/// One part of a seek.
pub open spec fn part_shown(program: Program, schema: Schema, part: SeekKeyPart) -> Seq<char> {
    match part {
        SeekKeyPart::Bytes(_) => "<const>"@,
        SeekKeyPart::RegisterField { address, path } => register_field(
            program,
            schema,
            address,
            path,
        ),
        SeekKeyPart::RegisterFactId(address) => address.shown() + "#"@,
    }
}

/// The first `k` parts of a seek behind `out`, a space between them.
pub open spec fn parts_onto(
    out: Seq<char>,
    program: Program,
    schema: Schema,
    parts: Seq<SeekKeyPart>,
    k: nat,
) -> Seq<char>
    decreases k,
{
    if k == 0 {
        out
    } else {
        let out = parts_onto(out, program, schema, parts, (k - 1) as nat);
        (if k > 1 {
            out + " "@
        } else {
            out
        }) + part_shown(program, schema, parts[k - 1])
    }
}

/// What a filter asks of a field.
pub open spec fn op_shown(program: Program, schema: Schema, op: ResidualOp) -> Seq<char> {
    match op {
        ResidualOp::EqConst(_) => " == <const>"@,
        ResidualOp::Prefix(_) => " starts with <const>"@,
        ResidualOp::EqRegisterField { address, path } => " == "@ + register_field(
            program,
            schema,
            address,
            path,
        ),
        ResidualOp::EqRegisterFactId(address) => " == "@ + address.shown() + "#"@,
    }
}

/// The first `k` filters of a source behind `out`, each on a line of its own.
pub open spec fn filters_onto(
    out: Seq<char>,
    program: Program,
    schema: Schema,
    ty: Option<PredicateTy>,
    filters: Seq<Residual>,
    k: nat,
) -> Seq<char>
    decreases k,
{
    if k == 0 {
        out
    } else {
        filters_onto(out, program, schema, ty, filters, (k - 1) as nat) + "\n       where "@
            + field_named(schema, ty, filters[k - 1].path) + op_shown(
            program,
            schema,
            filters[k - 1].op,
        )
    }
}

/// How a source is opened.
pub open spec fn opening_onto(
    out: Seq<char>,
    program: Program,
    schema: Schema,
    source: Source,
) -> Seq<char> {
    match source {
        Source::Seek { access, .. } => match access.seek_key {
            SeekKey::Prefix(bytes) => if bytes@.len() == 0 {
                out + " scan"@
            } else {
                out + " seek[<const>]"@
            },
            SeekKey::Composite(parts) => parts_onto(
                out + " seek["@,
                program,
                schema,
                parts@,
                parts@.len(),
            ) + "]"@,
        },
        Source::Fetch { reference, path, .. } => out + " fetch["@ + register_field(
            program,
            schema,
            reference,
            path,
        ) + "]"@,
    }
}

/// One source: its predicate, how it is opened, and its filters.
pub open spec fn source_onto(
    out: Seq<char>,
    program: Program,
    schema: Schema,
    source: Source,
) -> Seq<char> {
    let name = match declared_name(schema, source.predicate()) {
        Some(name) => name,
        None => "?"@,
    };
    filters_onto(
        opening_onto(out + " "@ + name, program, schema, source),
        program,
        schema,
        key_ty(schema, source.predicate()),
        source.filters()@,
        source.filters()@.len(),
    )
}

/// The first `k` sources of a level behind `out`. Alternatives after the first are
/// stacked under the level.
pub open spec fn sources_onto(
    out: Seq<char>,
    program: Program,
    schema: Schema,
    sources: Seq<Source>,
    k: nat,
) -> Seq<char>
    decreases k,
{
    if k == 0 {
        out
    } else {
        let out = sources_onto(out, program, schema, sources, (k - 1) as nat);
        source_onto(
            if k > 1 {
                out + "\n     |"@
            } else {
                out
            },
            program,
            schema,
            sources[k - 1],
        )
    }
}

/// All the sources of a step: one without any answers nothing, and says so.
pub open spec fn alternatives_onto(
    out: Seq<char>,
    program: Program,
    schema: Schema,
    sources: Seq<Source>,
) -> Seq<char> {
    sources_onto(
        if sources.len() == 0 {
            out + " never"@
        } else {
            out
        },
        program,
        schema,
        sources,
        sources.len(),
    ) + "\n"@
}

/// One step. Levels are numbered; the others are not loops.
pub open spec fn step_onto(
    out: Seq<char>,
    program: Program,
    schema: Schema,
    step: Step,
    level: nat,
) -> Seq<char> {
    match step {
        Step::Derive(derived) => out + "  "@ + derived.bind.shown() + " = <computed>\n"@,
        Step::Level(found) => alternatives_onto(
            out + "  r"@ + text::decimal(level) + " <-"@,
            program,
            schema,
            found.sources@,
        ),
        Step::Test(Test::Absent(sources)) => alternatives_onto(
            out + "  absent"@,
            program,
            schema,
            sources@,
        ),
    }
}

/// The first `k` steps.
pub open spec fn steps_onto(program: Program, schema: Schema, k: nat) -> Seq<char>
    decreases k,
{
    if k == 0 {
        Seq::empty()
    } else {
        step_onto(
            steps_onto(program, schema, (k - 1) as nat),
            program,
            schema,
            program.body@[k - 1],
            program::level_count(program.body@.take(k - 1)),
        )
    }
}

/// A value as `Debug` shows it.
pub open spec fn value_onto(out: Seq<char>, value: Datum) -> Seq<char>
    decreases value, 1nat, 0nat,
{
    match value {
        Datum::Int(v) => out + "Int("@ + text::signed_decimal(v as int) + ")"@,
        Datum::Str(s) => out + "Str("@ + debug_text(s) + ")"@,
        Datum::FactRef(id) => out + "FactRef(FactId("@ + text::decimal(id.bits() as nat) + "))"@,
        Datum::Record(fields) => members_onto(out + "Record(["@, value, fields.len()) + "])"@,
    }
}

/// The first `k` fields of a record value.
pub open spec fn members_onto(out: Seq<char>, value: Datum, k: nat) -> Seq<char>
    decreases value, 0nat, k,
{
    match value {
        Datum::Record(fields) => if k == 0 || k > fields.len() {
            out
        } else {
            let out = members_onto(out, value, (k - 1) as nat);
            value_onto(
                (if k > 1 {
                    out + ", "@
                } else {
                    out
                }) + "("@ + debug_text(fields[k - 1].0) + ", "@,
                fields[k - 1].1,
            ) + ")"@
        },
        _ => out,
    }
}

/// A projection, as the row it produces reads.
pub open spec fn projection_onto(
    out: Seq<char>,
    program: Program,
    schema: Schema,
    names: Names,
    project: Projection,
) -> Seq<char>
    decreases project, 1nat, 0nat,
{
    match project {
        Projection::Lit(value) => value_onto(out, value),
        Projection::FactRef(address) => out + address.shown() + "#"@,
        Projection::RegisterField { address, path, .. } => out + register_field(
            program,
            schema,
            address,
            path,
        ),
        Projection::Value { address, .. } => out + address.shown() + ".value"@,
        Projection::Computed(address) => out + address.shown() + "="@,
        Projection::Record(fields) => pieces_onto(
            out + "{"@,
            program,
            schema,
            names,
            project,
            fields.len(),
        ) + "}"@,
    }
}

/// The first `k` fields of a record projection.
pub open spec fn pieces_onto(
    out: Seq<char>,
    program: Program,
    schema: Schema,
    names: Names,
    project: Projection,
    k: nat,
) -> Seq<char>
    decreases project, 0nat, k,
{
    match project {
        Projection::Record(fields) => if k == 0 || k > fields.len() {
            out
        } else {
            let out = pieces_onto(out, program, schema, names, project, (k - 1) as nat);
            projection_onto(
                (if k > 1 {
                    out + ", "@
                } else {
                    out
                }) + names.shown(fields[k - 1].0) + " = "@,
                program,
                schema,
                names,
                fields[k - 1].1,
            )
        },
        _ => out,
    }
}

/// A compiled query for a person to read: one line per step, then the head.
pub open spec fn plan_shown(program: Program, schema: Schema, names: Names) -> Seq<char> {
    projection_onto(
        steps_onto(program, schema, program.body@.len()) + "  head "@,
        program,
        schema,
        names,
        program.head.shape(),
    )
}

/// A field path as the schema names it.
///
/// Shown by its positions where the type is not to hand, or has no such field.
fn field_name(key: Option<&PredicateTy>, path: &FieldPath, schema: &Schema) -> (name: String)
    ensures
        name@ == field_named(
            *schema,
            match key {
                Some(ty) => Some(*ty),
                None => None,
            },
            *path,
        ),
{
    let mut ty: &PredicateTy = match key {
        Some(ty) => ty,
        None => return path.text(),
    };
    let ghost whole = *ty;
    let n: usize = path.steps().len();
    let mut names: String = String::new();
    let mut k: usize = 0;
    proof {
        assert(names@ =~= Seq::<char>::empty());
    }
    loop
        invariant_except_break
            n == path.inner().len(),
            k <= n,
            key matches Some(given) && *given == whole,
            named_from(*schema, whole, *path, 0, Seq::empty()) == named_from(
                *schema,
                *ty,
                *path,
                k as nat,
                names@,
            ),
        ensures
            named_from(*schema, whole, *path, 0, Seq::empty()) == names@,
        decreases n - k,
    {
        let at: usize = if k == 0 {
            path.field_idx()
        } else {
            path.steps()[k - 1]
        };
        proof {
            assert(positions(*path)[k as int] == at);
        }
        match ty {
            PredicateTy::Record(fields) => {
                if at >= fields.len() {
                    return path.text();
                }
                let name: &str = match schema.interner().resolve(fields[at].0) {
                    Some(name) => name,
                    None => "?",
                };
                if k > 0 {
                    names.append(".");
                    names.append(name);
                } else {
                    names = name.to_owned();
                }
                ty = &fields[at].1;
            },
            _ => {
                if k == 0 {
                    return path.text();
                }
                break;
            },
        }
        if k == n {
            proof {
                assert(positions(*path).len() == n + 1);
                assert(named_from(*schema, *ty, *path, (n + 1) as nat, names@) == names@);
            }
            break;
        }
        k += 1;
    }
    names
}

/// The key type of the rows a register holds.
///
/// Found by asking which level binds the register, and not by the register's number: a
/// step that computes a value writes a register with no level behind it.
fn register_key<'a>(program: &Program, address: Address, schema: &'a Schema) -> (ty: Option<
    &'a PredicateTy,
>)
    ensures
        match (ty, register_ty(*program, *schema, address)) {
            (Some(found), Some(expected)) => *found == expected,
            (None, None) => true,
            _ => false,
        },
{
    let mut i: usize = 0;
    while i < program.body.len()
        invariant
            i <= program.body@.len(),
            binder(program.body@.take(i as int), address) is None,
        decreases program.body@.len() - i,
    {
        proof {
            assert(program.body@.take(i + 1).drop_last() =~= program.body@.take(i as int));
        }
        if let Step::Level(level) = &program.body[i] {
            if binds(level, address) {
                proof {
                    lemma_binder(program.body@, address, i as int + 1);
                }
                return match level.predicate_id() {
                    Some(predicate) => key_type(schema, predicate),
                    None => None,
                };
            }
        }
        i += 1;
    }
    proof {
        assert(program.body@.take(i as int) =~= program.body@);
    }
    None
}

/// The first level that binds a register is first among more steps too.
proof fn lemma_binder(steps: Seq<Step>, address: Address, k: int)
    requires
        0 <= k <= steps.len(),
        binder(steps.take(k), address) is Some,
    ensures
        binder(steps, address) == binder(steps.take(k), address),
    decreases steps.len() - k,
{
    if k < steps.len() {
        assert(steps.take(k + 1).drop_last() =~= steps.take(k));
        lemma_binder(steps, address, k + 1);
    } else {
        assert(steps.take(k) =~= steps);
    }
}

fn binds(level: &Level, address: Address) -> (found: bool)
    ensures
        found == level.binds@.contains(address),
{
    let mut i: usize = 0;
    while i < level.binds.len()
        invariant
            i <= level.binds@.len(),
            forall|j: int| 0 <= j < i ==> level.binds@[j] != address,
        decreases level.binds@.len() - i,
    {
        if level.binds[i] == address {
            return true;
        }
        i += 1;
    }
    false
}

fn key_type(schema: &Schema, predicate: PredicateId) -> (ty: Option<&PredicateTy>)
    ensures
        match (ty, key_ty(*schema, predicate)) {
            (Some(found), Some(expected)) => *found == expected,
            (None, None) => true,
            _ => false,
        },
{
    match schema.get(predicate) {
        Some(declared) => Some(declared.key().ty),
        None => None,
    }
}

/// A plan being rendered.
struct Renderer<'a> {
    program: &'a Program,
    schema: &'a Schema,
    interner: &'a LocalInterner,
}

impl<'a> Renderer<'a> {
    /// A field of a register, named against the rows that register holds.
    fn register_field(&self, out: &mut String, address: Address, path: &FieldPath)
        ensures
            final(out)@ == old(out)@ + register_field(*self.program, *self.schema, address, *path),
    {
        let ty = register_key(self.program, address, self.schema);
        out.append(address.text().as_str());
        out.append(".");
        out.append(field_name(ty, path, self.schema).as_str());
        proof {
            assert(out@ =~= old(out)@ + register_field(
                *self.program,
                *self.schema,
                address,
                *path,
            ));
        }
    }

    fn part(&self, out: &mut String, part: &SeekKeyPart)
        ensures
            final(out)@ == old(out)@ + part_shown(*self.program, *self.schema, *part),
    {
        match part {
            SeekKeyPart::Bytes(_) => out.append("<const>"),
            SeekKeyPart::RegisterField { address, path } => {
                self.register_field(out, *address, path);
            },
            SeekKeyPart::RegisterFactId(address) => {
                out.append(address.text().as_str());
                out.append("#");
                proof {
                    assert(out@ =~= old(out)@ + (address.shown() + "#"@));
                }
            },
        }
    }

    fn opening(&self, out: &mut String, source: &Source)
        ensures
            final(out)@ == opening_onto(old(out)@, *self.program, *self.schema, *source),
    {
        match source {
            Source::Seek { access, .. } => match &access.seek_key {
                SeekKey::Prefix(bytes) => {
                    if bytes.len() == 0 {
                        out.append(" scan");
                    } else {
                        out.append(" seek[<const>]");
                    }
                },
                SeekKey::Composite(parts) => {
                    out.append(" seek[");
                    let ghost start = out@;
                    let mut k: usize = 0;
                    while k < parts.len()
                        invariant
                            k <= parts@.len(),
                            out@ == parts_onto(
                                start,
                                *self.program,
                                *self.schema,
                                parts@,
                                k as nat,
                            ),
                        decreases parts@.len() - k,
                    {
                        if k > 0 {
                            out.append(" ");
                        }
                        self.part(out, &parts[k]);
                        k += 1;
                    }
                    out.append("]");
                },
            },
            Source::Fetch { reference, path, .. } => {
                out.append(" fetch[");
                self.register_field(out, *reference, path);
                out.append("]");
            },
        }
    }

    fn op(&self, out: &mut String, op: &ResidualOp)
        ensures
            final(out)@ == old(out)@ + op_shown(*self.program, *self.schema, *op),
    {
        match op {
            ResidualOp::EqConst(_) => out.append(" == <const>"),
            ResidualOp::Prefix(_) => out.append(" starts with <const>"),
            ResidualOp::EqRegisterField { address, path } => {
                out.append(" == ");
                self.register_field(out, *address, path);
                proof {
                    assert(out@ =~= old(out)@ + (" == "@ + register_field(
                        *self.program,
                        *self.schema,
                        *address,
                        *path,
                    )));
                }
            },
            ResidualOp::EqRegisterFactId(address) => {
                out.append(" == ");
                out.append(address.text().as_str());
                out.append("#");
                proof {
                    assert(out@ =~= old(out)@ + (" == "@ + address.shown() + "#"@));
                }
            },
        }
    }

    fn source(&self, out: &mut String, source: &Source)
        ensures
            final(out)@ == source_onto(old(out)@, *self.program, *self.schema, *source),
    {
        let predicate: PredicateId = source.predicate_id();
        out.append(" ");
        let name: &str = match self.schema.get(predicate) {
            Some(declared) => match declared.name() {
                Some(name) => name,
                None => "?",
            },
            None => "?",
        };
        out.append(name);
        self.opening(out, source);
        let filters: &[Residual] = source.residuals();
        let ghost start = out@;
        let mut k: usize = 0;
        while k < filters.len()
            invariant
                k <= filters@.len(),
                out@ == filters_onto(
                    start,
                    *self.program,
                    *self.schema,
                    key_ty(*self.schema, predicate),
                    filters@,
                    k as nat,
                ),
            decreases filters@.len() - k,
        {
            out.append("\n       where ");
            out.append(
                field_name(
                    key_type(self.schema, predicate),
                    &filters[k].path,
                    self.schema,
                ).as_str(),
            );
            self.op(out, &filters[k].op);
            k += 1;
        }
    }

    fn alternatives(&self, out: &mut String, sources: &[Source])
        ensures
            final(out)@ == alternatives_onto(old(out)@, *self.program, *self.schema, sources@),
    {
        if sources.len() == 0 {
            out.append(" never");
        }
        let ghost start = out@;
        let mut k: usize = 0;
        while k < sources.len()
            invariant
                k <= sources@.len(),
                out@ == sources_onto(start, *self.program, *self.schema, sources@, k as nat),
            decreases sources@.len() - k,
        {
            if k > 0 {
                out.append("\n     |");
            }
            self.source(out, &sources[k]);
            k += 1;
        }
        out.append("\n");
    }

    fn projection(&self, out: &mut String, project: &Project)
        ensures
            final(out)@ == projection_onto(
                old(out)@,
                *self.program,
                *self.schema,
                self.interner@,
                project.shape(),
            ),
        decreases project,
    {
        match project {
            Project::Lit(value) => push_value(out, value),
            Project::FactRef(address) => {
                out.append(address.text().as_str());
                out.append("#");
            },
            Project::RegisterField { address, path, .. } => {
                self.register_field(out, *address, path);
            },
            Project::Value { address, .. } => {
                out.append(address.text().as_str());
                out.append(".value");
            },
            Project::Computed(address) => {
                out.append(address.text().as_str());
                out.append("=");
            },
            Project::Record(fields) => {
                out.append("{");
                let ghost start = out@;
                let mut k: usize = 0;
                while k < fields.len()
                    invariant
                        *project == Project::Record(*fields),
                        k <= fields@.len(),
                        out@ == pieces_onto(
                            start,
                            *self.program,
                            *self.schema,
                            self.interner@,
                            project.shape(),
                            k as nat,
                        ),
                    decreases fields@.len() - k,
                {
                    if k > 0 {
                        out.append(", ");
                    }
                    out.append(self.interner.shown(fields[k].0));
                    out.append(" = ");
                    self.projection(out, &fields[k].1);
                    k += 1;
                }
                out.append("}");
            },
        }
    }
}

/// Append a value as `Debug` shows it.
fn push_value(out: &mut String, value: &Value)
    ensures
        final(out)@ == value_onto(old(out)@, value.datum()),
    decreases value,
{
    match value {
        Value::Int(v) => {
            out.append("Int(");
            push_signed(out, *v);
            out.append(")");
        },
        Value::Str(s) => {
            out.append("Str(");
            out.append(quoted(s.as_str()).as_str());
            out.append(")");
        },
        Value::FactRef(id) => {
            out.append("FactRef(FactId(");
            push_decimal(out, id.raw());
            out.append("))");
        },
        Value::Record(fields) => {
            out.append("Record([");
            let ghost start = out@;
            let mut k: usize = 0;
            while k < fields.len()
                invariant
                    *value == Value::Record(*fields),
                    k <= fields@.len(),
                    out@ == members_onto(start, value.datum(), k as nat),
                decreases fields@.len() - k,
            {
                if k > 0 {
                    out.append(", ");
                }
                out.append("(");
                out.append(quoted(fields[k].0.as_str()).as_str());
                out.append(", ");
                push_value(out, &fields[k].1);
                out.append(")");
                k += 1;
            }
            out.append("])");
        },
    }
}

/// Render a compiled query for a person to read.
///
/// Fields are named from the schema, and constants are not shown: what matters here is
/// which field narrowed a scan, which one filters, and which register a level reads.
pub fn plan(program: &Program, schema: &Schema, interner: &LocalInterner) -> (shown: String)
    ensures
        shown@ == plan_shown(*program, *schema, interner@),
{
    let renderer = Renderer { program, schema, interner };
    let mut out: String = String::new();
    let mut level: u64 = 0;
    let mut k: usize = 0;
    proof {
        assert(out@ =~= Seq::<char>::empty());
        assert(program.body@.take(0) =~= Seq::<Step>::empty());
    }
    while k < program.body.len()
        invariant
            renderer.program == program,
            renderer.schema == schema,
            k <= program.body@.len(),
            level <= k,
            level == program::level_count(program.body@.take(k as int)),
            out@ == steps_onto(*program, *schema, k as nat),
        decreases program.body@.len() - k,
    {
        proof {
            assert(program.body@.take(k + 1).drop_last() =~= program.body@.take(k as int));
            assert(program.body@.take(k + 1).last() == program.body@[k as int]);
        }
        match &program.body[k] {
            Step::Derive(Derived { bind }) => {
                out.append("  ");
                out.append(bind.text().as_str());
                out.append(" = <computed>\n");
            },
            Step::Level(found) => {
                out.append("  r");
                push_decimal(&mut out, level);
                out.append(" <-");
                renderer.alternatives(&mut out, &found.sources);
                level += 1;
            },
            Step::Test(Test::Absent(sources)) => {
                out.append("  absent");
                renderer.alternatives(&mut out, sources);
            },
        }
        k += 1;
    }
    out.append("  head ");
    renderer.projection(&mut out, &program.head);
    out
}

} // verus!
