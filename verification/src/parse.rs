//! What a parse comes to, and the bound on how deep a query may nest.
use vstd::prelude::*;
use vstd::string::StringExecFns;

use crate::cst::{CstNode, Span};
use crate::lexer::Token;
use crate::parser::{create_diagnostic, Lexed, ParseError};
use crate::text;
use crate::text::push_decimal;

verus! {

/// The deepest pattern nesting the parser is handed.
///
/// The parser recurses into patterns through records and through fact patterns, so a
/// deep enough query would overflow the stack. The depth is bounded before parsing, on
/// the tokens; and a pattern nested deeper than a stored value can be has nothing to
/// match.
pub const MAX_NEST_DEPTH: usize = 256;

/// How deep some tokens nest: unclosed braces, and predicates applied in the statement
/// under way.
pub struct Nesting {
    pub brackets: nat,
    pub applications: nat,
}

impl Nesting {
    /// One token further. A semicolon outside every brace ends a statement.
    pub open spec fn past(self, token: Token) -> Nesting {
        if token == Token::LBrace {
            Nesting { brackets: self.brackets + 1, ..self }
        } else if token == Token::RBrace {
            Nesting {
                brackets: if self.brackets > 0 {
                    (self.brackets - 1) as nat
                } else {
                    0
                },
                ..self
            }
        } else if token == Token::QId {
            Nesting { applications: self.applications + 1, ..self }
        } else if token == Token::Semi && self.brackets == 0 {
            Nesting { applications: 0, ..self }
        } else {
            self
        }
    }

    /// How deep it is.
    pub open spec fn depth(self) -> nat {
        self.brackets + self.applications
    }
}

/// How deep the first `k` tokens nest.
pub open spec fn nesting(tokens: Seq<Token>, k: nat) -> Nesting
    decreases k,
{
    if k == 0 {
        Nesting { brackets: 0, applications: 0 }
    } else {
        nesting(tokens, (k - 1) as nat).past(tokens[k - 1])
    }
}

/// The first token at which the nesting is past [`MAX_NEST_DEPTH`].
pub open spec fn is_overflow(tokens: Seq<Token>, at: nat) -> bool {
    &&& at < tokens.len()
    &&& nesting(tokens, at + 1).depth() > MAX_NEST_DEPTH
    &&& forall|k: nat| k <= at ==> (#[trigger] nesting(tokens, k)).depth() <= MAX_NEST_DEPTH
}

/// The first token at which the nesting is past [`MAX_NEST_DEPTH`]. Where there is none,
/// it never is.
pub fn nesting_overflow(tokens: &[Token]) -> (at: Option<usize>)
    ensures
        match at {
            Some(i) => is_overflow(tokens@, i as nat),
            None => forall|k: nat|
                k <= tokens@.len() ==> (#[trigger] nesting(tokens@, k)).depth() <= MAX_NEST_DEPTH,
        },
{
    let mut brackets: usize = 0;
    let mut applications: usize = 0;
    let mut i: usize = 0;
    while i < tokens.len()
        invariant
            i <= tokens@.len(),
            brackets + applications <= MAX_NEST_DEPTH,
            nesting(tokens@, i as nat) == (Nesting {
                brackets: brackets as nat,
                applications: applications as nat,
            }),
            forall|k: nat| k <= i ==> (#[trigger] nesting(tokens@, k)).depth() <= MAX_NEST_DEPTH,
        decreases tokens@.len() - i,
    {
        let token: Token = tokens[i];
        if token == Token::LBrace {
            brackets += 1;
        } else if token == Token::RBrace {
            if brackets > 0 {
                brackets -= 1;
            }
        } else if token == Token::QId {
            applications += 1;
        } else if token == Token::Semi && brackets == 0 {
            applications = 0;
        }
        proof {
            assert(nesting(tokens@, (i + 1) as nat) == nesting(tokens@, i as nat).past(token));
        }
        if brackets + applications > MAX_NEST_DEPTH {
            return Some(i);
        }
        i += 1;
    }
    None
}

/// How many of some tokens are of a kind.
pub open spec fn count(tokens: Seq<Token>, kind: Token) -> nat {
    tokens.filter(|token: Token| token == kind).len()
}

proof fn lemma_count(tokens: Seq<Token>, k: int, kind: Token)
    requires
        0 <= k < tokens.len(),
    ensures
        count(tokens.take(k + 1), kind) == count(tokens.take(k), kind) + (if tokens[k] == kind {
            1nat
        } else {
            0
        }),
{
    reveal(Seq::filter);
    let all = tokens.take(k + 1);
    assert(all.drop_last() =~= tokens.take(k));
    assert(all.last() == tokens[k]);
}

/// Braces are counted: where none closes that was not opened, the brackets are those that were
/// opened less those that were closed.
pub proof fn law_braces_are_counted(tokens: Seq<Token>, k: nat)
    requires
        k <= tokens.len(),
        forall|j: int|
            0 <= j <= k ==> count(#[trigger] tokens.take(j), Token::RBrace) <= count(
                tokens.take(j),
                Token::LBrace,
            ),
    ensures
        nesting(tokens, k).brackets == count(tokens.take(k as int), Token::LBrace) - count(
            tokens.take(k as int),
            Token::RBrace,
        ),
    decreases k,
{
    reveal(Seq::filter);
    if k > 0 {
        law_braces_are_counted(tokens, (k - 1) as nat);
        lemma_count(tokens, k - 1, Token::LBrace);
        lemma_count(tokens, k - 1, Token::RBrace);
        assert(count(tokens.take(k as int), Token::RBrace) <= count(
            tokens.take(k as int),
            Token::LBrace,
        ));
    } else {
        assert(tokens.take(0) =~= Seq::<Token>::empty());
    }
}

/// Applications are counted: from one token to another, with no semicolon outside every brace
/// between them, as many more predicates are applied as are named; and after such a semicolon
/// none is.
pub proof fn law_applications_are_counted(tokens: Seq<Token>, i: nat, k: nat)
    requires
        i <= k <= tokens.len(),
        forall|j: int|
            i <= j < k && #[trigger] tokens[j] == Token::Semi ==> nesting(tokens, j as nat).brackets
                > 0,
    ensures
        nesting(tokens, k).applications == nesting(tokens, i).applications + count(
            tokens.take(k as int),
            Token::QId,
        ) - count(tokens.take(i as int), Token::QId),
        k < tokens.len() && tokens[k as int] == Token::Semi && nesting(tokens, k).brackets == 0
            ==> nesting(tokens, k + 1).applications == 0,
    decreases k,
{
    if i < k {
        law_applications_are_counted(tokens, i, (k - 1) as nat);
        lemma_count(tokens, k - 1, Token::QId);
        assert(tokens[k - 1] == Token::Semi ==> nesting(tokens, (k - 1) as nat).brackets > 0);
    }
}

/// What a refusal says.
pub open spec fn refusal_text() -> Seq<char> {
    "pattern nested deeper than "@ + text::decimal(MAX_NEST_DEPTH as nat)
}

/// The fault of tokens that nest too deep, at the first token that does.
pub open spec fn is_refusal(
    tokens: Seq<Token>,
    spans: Seq<Span>,
    source_len: usize,
    error: ParseError,
) -> bool {
    error.message@ == refusal_text() && exists|at: nat| #[trigger]
        is_overflow(tokens, at) && error.span == (if at < spans.len() {
            spans[at as int]
        } else {
            Span { start: 0, end: source_len }
        })
}

/// The tokens that were lexed.
pub open spec fn tokens_of(lexed: Lexed) -> Seq<Token> {
    match lexed.tokens {
        Some((tokens, _)) => tokens@,
        None => Seq::empty(),
    }
}

/// Where the tokens stand.
pub open spec fn spans_of(lexed: Lexed) -> Seq<Span> {
    match lexed.tokens {
        Some((_, spans)) => spans@,
        None => Seq::empty(),
    }
}

/// Why the parser is not handed some tokens, if it is not: they nest too deep, at the
/// token the fault points to.
pub fn refusal(tokens: &[Token], spans: &[Span], source_len: usize) -> (refused: Option<ParseError>)
    ensures
        match refused {
            Some(error) => is_refusal(tokens@, spans@, source_len, error),
            None => forall|k: nat|
                k <= tokens@.len() ==> (#[trigger] nesting(tokens@, k)).depth() <= MAX_NEST_DEPTH,
        },
{
    match nesting_overflow(tokens) {
        None => None,
        Some(at) => {
            let span: Span = if at < spans.len() {
                spans[at]
            } else {
                Span { start: 0, end: source_len }
            };
            let mut message: String = "pattern nested deeper than ".to_owned();
            push_decimal(&mut message, MAX_NEST_DEPTH as u64);
            proof {
                assert(is_overflow(tokens@, at as nat));
            }
            Some(create_diagnostic(span, message))
        },
    }
}

/// A parse: the tree, and every fault the lexer and the parser found. Faults accumulate,
/// and there may be a tree all the same.
#[derive(Debug)]
pub struct Parsed {
    cst: Option<CstNode>,
    diagnostics: Vec<ParseError>,
}

impl Parsed {
    /// The tree, unless parsing was refused outright.
    pub closed spec fn tree(self) -> Option<CstNode> {
        self.cst
    }

    /// The faults, in the order they were found.
    pub closed spec fn faults(self) -> Seq<ParseError> {
        self.diagnostics@
    }

    pub fn new(cst: Option<CstNode>, diagnostics: Vec<ParseError>) -> (parsed: Self)
        ensures
            parsed.tree() == cst,
            parsed.faults() == diagnostics@,
    {
        Parsed { cst, diagnostics }
    }

    /// The root of the tree, or `None` if parsing was refused outright.
    pub fn root(&self) -> (root: Option<&CstNode>)
        ensures
            match (root, self.tree()) {
                (Some(node), Some(tree)) => *node == tree,
                (None, None) => true,
                _ => false,
            },
    {
        match &self.cst {
            Some(node) => Some(node),
            None => None,
        }
    }

    /// The tree, as the grammar's structure shows in it.
    pub fn cst(&self) -> (cst: Option<&CstNode>)
        ensures
            match (cst, self.tree()) {
                (Some(node), Some(tree)) => *node == tree,
                (None, None) => true,
                _ => false,
            },
    {
        self.root()
    }

    pub fn diagnostics(&self) -> (diagnostics: &[ParseError])
        ensures
            diagnostics@ == self.faults(),
    {
        &self.diagnostics
    }

    pub fn has_errors(&self) -> (any: bool)
        ensures
            any == (self.faults().len() > 0),
    {
        self.diagnostics.len() > 0
    }

    pub fn into_diagnostics(self) -> (diagnostics: Vec<ParseError>)
        ensures
            diagnostics@ == self.faults(),
    {
        self.diagnostics
    }
}

/// Parse tokens that have been lexed, `faults` being what the lexer reported and
/// `grammar` what builds the tree.
///
/// Tokens that nest too deep are refused, and the grammar never sees them. Otherwise the
/// tree is the grammar's, and what it reports comes after what the lexer did.
pub fn parse<G: FnOnce(Lexed) -> (CstNode, Vec<ParseError>)>(
    lexed: Lexed,
    source_len: usize,
    faults: Vec<ParseError>,
    grammar: G,
) -> (parsed: Parsed)
    requires
        call_requires(grammar, (lexed,)),
    ensures
        match parsed.tree() {
            None => {
                let n = faults@.len() as int;
                &&& parsed.faults().len() == n + 1
                &&& parsed.faults().take(n) == faults@
                &&& is_refusal(tokens_of(lexed), spans_of(lexed), source_len, parsed.faults()[n])
            },
            Some(tree) => {
                &&& forall|k: nat|
                    k <= tokens_of(lexed).len() ==> (#[trigger] nesting(
                        tokens_of(lexed),
                        k,
                    )).depth() <= MAX_NEST_DEPTH
                &&& exists|found: Vec<ParseError>| #[trigger]
                    call_ensures(grammar, (lexed,), (tree, found)) && parsed.faults() == faults@
                        + found@
            },
        },
{
    let mut faults = faults;
    let ghost reported = faults@;
    let refused: Option<ParseError> = match &lexed.tokens {
        Some((tokens, spans)) => refusal(tokens, spans, source_len),
        None => None,
    };
    proof {
        if lexed.tokens is None {
            assert forall|k: nat| k <= 0 implies (#[trigger] nesting(
                tokens_of(lexed),
                k,
            )).depth() <= MAX_NEST_DEPTH by {}
        }
    }
    match refused {
        Some(error) => {
            faults.push(error);
            proof {
                assert(faults@.take(reported.len() as int) =~= reported);
            }
            Parsed::new(None, faults)
        },
        None => {
            let (tree, mut found) = grammar(lexed);
            let ghost more = found@;
            let ghost kept = found;
            faults.append(&mut found);
            let parsed = Parsed::new(Some(tree), faults);
            proof {
                assert(call_ensures(grammar, (lexed,), (tree, kept)));
                assert(parsed.faults() =~= reported + more);
            }
            parsed
        },
    }
}

} // verus!
