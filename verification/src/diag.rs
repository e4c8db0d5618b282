//! Diagnostics: what the front end reports, by code.
use vstd::prelude::*;

use crate::syntax::NodeSpan;

verus! {

/// What a diagnostic is about. Tests and tools go by the code; the wording is for a
/// person.
#[derive(Debug, Clone, Copy, PartialEq, Eq, Structural)]
pub enum Code {
    LitIntLeadingZero,
    LitIntRange,
    LitIntUnderscore,
    LitStringEscape,
    NyiBindUnification,
    NyiDisjunction,
    NyiFactField,
    NyiNegation,
    NyiNever,
    NyiRepeatedVariable,
    NyiSubquery,
    NyiUnionSelect,
    NyiValueBind,
    NyiValueMatch,
    NyiWholeKey,
    RejectBindLhs,
    RejectDuplicateField,
    RejectNoValue,
    RejectNotAGenerator,
    RejectNotProjectable,
    RejectTypeMismatch,
    RejectUnboundVariable,
    RejectUnknownField,
    RejectUnknownPredicate,
    RejectUnresolvedAccess,
    RejectValueShadowed,
    RejectWildcardInHead,
}

impl Code {
    /// The code as it is written.
    pub open spec fn text(self) -> Seq<char> {
        match self {
            Code::LitIntLeadingZero => "lit/int-leading-zero"@,
            Code::LitIntRange => "lit/int-range"@,
            Code::LitIntUnderscore => "lit/int-underscore"@,
            Code::LitStringEscape => "lit/string-escape"@,
            Code::NyiBindUnification => "nyi/bind-unification"@,
            Code::NyiDisjunction => "nyi/disjunction"@,
            Code::NyiFactField => "nyi/fact-field"@,
            Code::NyiNegation => "nyi/negation"@,
            Code::NyiNever => "nyi/never"@,
            Code::NyiRepeatedVariable => "nyi/repeated-variable"@,
            Code::NyiSubquery => "nyi/subquery"@,
            Code::NyiUnionSelect => "nyi/union-select"@,
            Code::NyiValueBind => "nyi/value-bind"@,
            Code::NyiValueMatch => "nyi/value-match"@,
            Code::NyiWholeKey => "nyi/whole-key"@,
            Code::RejectBindLhs => "reject/bind-lhs"@,
            Code::RejectDuplicateField => "reject/duplicate-field"@,
            Code::RejectNoValue => "reject/no-value"@,
            Code::RejectNotAGenerator => "reject/not-a-generator"@,
            Code::RejectNotProjectable => "reject/not-projectable"@,
            Code::RejectTypeMismatch => "reject/type-mismatch"@,
            Code::RejectUnboundVariable => "reject/unbound-variable"@,
            Code::RejectUnknownField => "reject/unknown-field"@,
            Code::RejectUnknownPredicate => "reject/unknown-predicate"@,
            Code::RejectUnresolvedAccess => "reject/unresolved-access"@,
            Code::RejectValueShadowed => "reject/value-shadowed"@,
            Code::RejectWildcardInHead => "reject/wildcard-in-head"@,
        }
    }

    /// The code as it is written.
    pub fn as_str(self) -> (text: &'static str)
        ensures
            text@ == self.text(),
    {
        match self {
            Code::LitIntLeadingZero => "lit/int-leading-zero",
            Code::LitIntRange => "lit/int-range",
            Code::LitIntUnderscore => "lit/int-underscore",
            Code::LitStringEscape => "lit/string-escape",
            Code::NyiBindUnification => "nyi/bind-unification",
            Code::NyiDisjunction => "nyi/disjunction",
            Code::NyiFactField => "nyi/fact-field",
            Code::NyiNegation => "nyi/negation",
            Code::NyiNever => "nyi/never",
            Code::NyiRepeatedVariable => "nyi/repeated-variable",
            Code::NyiSubquery => "nyi/subquery",
            Code::NyiUnionSelect => "nyi/union-select",
            Code::NyiValueBind => "nyi/value-bind",
            Code::NyiValueMatch => "nyi/value-match",
            Code::NyiWholeKey => "nyi/whole-key",
            Code::RejectBindLhs => "reject/bind-lhs",
            Code::RejectDuplicateField => "reject/duplicate-field",
            Code::RejectNoValue => "reject/no-value",
            Code::RejectNotAGenerator => "reject/not-a-generator",
            Code::RejectNotProjectable => "reject/not-projectable",
            Code::RejectTypeMismatch => "reject/type-mismatch",
            Code::RejectUnboundVariable => "reject/unbound-variable",
            Code::RejectUnknownField => "reject/unknown-field",
            Code::RejectUnknownPredicate => "reject/unknown-predicate",
            Code::RejectUnresolvedAccess => "reject/unresolved-access",
            Code::RejectValueShadowed => "reject/value-shadowed",
            Code::RejectWildcardInHead => "reject/wildcard-in-head",
        }
    }
}

/// One diagnostic: what it is about, what it says, and where.
#[derive(Debug)]
pub struct Diagnostic {
    pub code: Code,
    pub message: String,
    pub span: NodeSpan,
}

/// What a [`Diagnostic`] says.
pub struct Report {
    pub code: Code,
    pub message: Seq<char>,
    pub span: NodeSpan,
}

impl View for Diagnostic {
    type V = Report;

    open spec fn view(&self) -> Report {
        Report { code: self.code, message: self.message@, span: self.span }
    }
}

/// The sink a compilation reports into.
#[derive(Debug)]
pub struct Diagnostics {
    entries: Vec<Diagnostic>,
}

impl View for Diagnostics {
    type V = Seq<Report>;

    closed spec fn view(&self) -> Seq<Report> {
        self.entries@.map_values(|d: Diagnostic| d@)
    }
}

impl Diagnostics {
    pub fn new() -> (sink: Self)
        ensures
            sink@ == Seq::<Report>::empty(),
    {
        let sink = Diagnostics { entries: Vec::new() };
        proof {
            assert(sink@ =~= Seq::<Report>::empty());
        }
        sink
    }

    /// How many diagnostics have been reported.
    pub fn len(&self) -> (n: usize)
        ensures
            n == self@.len(),
    {
        self.entries.len()
    }

    pub fn has_errors(&self) -> (any: bool)
        ensures
            any == (self@.len() > 0),
    {
        self.entries.len() > 0
    }

    /// Report one.
    pub fn error(&mut self, code: Code, message: String, span: NodeSpan)
        ensures
            final(self)@ == old(self)@.push(Report { code, message: message@, span }),
    {
        let ghost before = self.entries@;
        self.entries.push(Diagnostic { code, message, span });
        proof {
            assert(self@ =~= before.map_values(|d: Diagnostic| d@).push(
                Report { code, message: message@, span },
            ));
        }
    }

    /// What has been reported, in order.
    pub fn entries(&self) -> (entries: &[Diagnostic])
        ensures
            entries@.map_values(|d: Diagnostic| d@) == self@,
    {
        &self.entries
    }
}

/// Codes are told apart by how they are written.
pub proof fn law_codes_are_told_apart(a: Code, b: Code)
    requires
        a.text() == b.text(),
    ensures
        a == b,
{
    reveal_strlit("lit/int-leading-zero");
    reveal_strlit("lit/int-range");
    reveal_strlit("lit/int-underscore");
    reveal_strlit("lit/string-escape");
    reveal_strlit("nyi/bind-unification");
    reveal_strlit("nyi/disjunction");
    reveal_strlit("nyi/fact-field");
    reveal_strlit("nyi/negation");
    reveal_strlit("nyi/never");
    reveal_strlit("nyi/repeated-variable");
    reveal_strlit("nyi/subquery");
    reveal_strlit("nyi/union-select");
    reveal_strlit("nyi/value-bind");
    reveal_strlit("nyi/value-match");
    reveal_strlit("nyi/whole-key");
    reveal_strlit("reject/bind-lhs");
    reveal_strlit("reject/duplicate-field");
    reveal_strlit("reject/no-value");
    reveal_strlit("reject/not-a-generator");
    reveal_strlit("reject/not-projectable");
    reveal_strlit("reject/type-mismatch");
    reveal_strlit("reject/unbound-variable");
    reveal_strlit("reject/unknown-field");
    reveal_strlit("reject/unknown-predicate");
    reveal_strlit("reject/unresolved-access");
    reveal_strlit("reject/value-shadowed");
    reveal_strlit("reject/wildcard-in-head");
    let (s, t) = (a.text(), b.text());
    assert(s.len() == t.len() && s[0] == t[0] && s[11] == t[11]);
}

} // verus!
