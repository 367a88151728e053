//! Parse failures reported by the two regular-expression front ends.

use vstd::prelude::*;

verus! {

/// The distinct ways in which a regular expression can be malformed.
#[derive(Clone, Copy, Debug, PartialEq, Eq, Structural)]
pub enum ParseErrorKind {
    /// A closing parenthesis with no matching open parenthesis.
    UnbalancedClose,
    /// End of input was reached while a group was still open.
    UnterminatedGroup,
    /// Two alternation bars in a row.
    DoubleBar,
    /// Two Kleene stars in a row.
    DoubleStar,
    /// A token that cannot start an atom where an atom is required.
    UnexpectedToken,
}

/// A terminal parse failure: the kind of violation and the index
/// (character or token position) at which it was detected.
#[derive(Clone, Copy, Debug, PartialEq, Eq, Structural)]
pub struct ParseError {
    pub kind: ParseErrorKind,
    pub index: usize,
}

impl ParseError {
    pub fn new(kind: ParseErrorKind, index: usize) -> (e: ParseError)
        ensures
            e.kind == kind,
            e.index == index,
    {
        ParseError { kind, index }
    }

    /// A human-readable description of the violation.
    pub fn message(&self) -> (m: &'static str)
        ensures
            self.kind is UnbalancedClose ==> m@ == "parse error: unbalanced ')'"@,
            self.kind is UnterminatedGroup ==> m@ == "parse error: no closing ')'"@,
            self.kind is DoubleBar ==> m@ == "parse error: double '||'"@,
            self.kind is DoubleStar ==> m@ == "parse error: double '**'"@,
            self.kind is UnexpectedToken ==> m@ == "parse error: unexpected token"@,
    {
        match self.kind {
            ParseErrorKind::UnbalancedClose => "parse error: unbalanced ')'",
            ParseErrorKind::UnterminatedGroup => "parse error: no closing ')'",
            ParseErrorKind::DoubleBar => "parse error: double '||'",
            ParseErrorKind::DoubleStar => "parse error: double '**'",
            ParseErrorKind::UnexpectedToken => "parse error: unexpected token",
        }
    }
}

} // verus!
