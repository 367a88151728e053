//! A recursive-descent parser that assembles an NFA on an explicit fragment
//! stack, following the grammar (in descending precedence)
//!
//! ```text
//! A -> B ('|' A)?
//! B -> C B?          (concatenation is juxtaposition)
//! C -> D '*'?
//! D -> '(' A ')' | <char>
//! ```
//!
//! The grammar itself is written down as the spec functions [`p_alt`],
//! [`p_cat`], [`p_star`] and [`p_atom`]; every parsing method is pinned to
//! them exactly.

use vstd::prelude::*;
use crate::error::{ParseError, ParseErrorKind};
use crate::lexer::Token;
use crate::nfa::{Nfa, NfaView};

verus! {

/// The outcome of parsing one production: the fragment and the position
/// after it, a failure with its kind and token index, or fuel exhaustion
/// (never reached from [`parse_fuel`]).
pub ghost enum ParseStep {
    Parsed(NfaView, int),
    Failed(ParseErrorKind, int),
    OutOfFuel,
}

/// The outcome of parsing a whole token sequence.
pub ghost enum ParseOutcome {
    Done(NfaView),
    Fail(ParseErrorKind, int),
}

/// The error kind of a token left over after a complete expression.
pub open spec fn leftover_kind(t: Token) -> ParseErrorKind {
    if t is ParClose {
        ParseErrorKind::UnbalancedClose
    } else if t is Kleene {
        ParseErrorKind::DoubleStar
    } else {
        ParseErrorKind::UnexpectedToken
    }
}

/// `D -> '(' A ')' | <char>`.  A closing parenthesis outside any group is
/// the unbalanced-close error; any other operator where an atom is required
/// is an unexpected token; a group left open fails as unterminated.
pub open spec fn p_atom(t: Seq<Token>, i: int, depth: int, fuel: nat) -> ParseStep
    decreases fuel,
{
    if fuel == 0 {
        ParseStep::OutOfFuel
    } else if i < 0 || i >= t.len() {
        ParseStep::Failed(ParseErrorKind::UnexpectedToken, i)
    } else {
        match t[i] {
            Token::Char(c) => ParseStep::Parsed(NfaView::lit(c), i + 1),
            Token::ParOpen => match p_alt(t, i + 1, depth + 1, (fuel - 1) as nat) {
                ParseStep::Parsed(v, j) => if j < t.len() && t[j] is ParClose {
                    ParseStep::Parsed(v, j + 1)
                } else {
                    ParseStep::Failed(ParseErrorKind::UnterminatedGroup, j)
                },
                o => o,
            },
            Token::ParClose => ParseStep::Failed(
                if depth == 0 {
                    ParseErrorKind::UnbalancedClose
                } else {
                    ParseErrorKind::UnexpectedToken
                },
                i,
            ),
            _ => ParseStep::Failed(ParseErrorKind::UnexpectedToken, i),
        }
    }
}

/// `C -> D '*'?`.
pub open spec fn p_star(t: Seq<Token>, i: int, depth: int, fuel: nat) -> ParseStep
    decreases fuel,
{
    if fuel == 0 {
        ParseStep::OutOfFuel
    } else {
        match p_atom(t, i, depth, (fuel - 1) as nat) {
            ParseStep::Parsed(v, j) => if j < t.len() && t[j] is Kleene {
                ParseStep::Parsed(v.starred(), j + 1)
            } else {
                ParseStep::Parsed(v, j)
            },
            o => o,
        }
    }
}

/// `B -> C B?`: another factor follows unless the next token terminates it.
pub open spec fn p_cat(t: Seq<Token>, i: int, depth: int, fuel: nat) -> ParseStep
    decreases fuel,
{
    if fuel == 0 {
        ParseStep::OutOfFuel
    } else {
        match p_star(t, i, depth, (fuel - 1) as nat) {
            ParseStep::Parsed(v, j) => if j < t.len() && !(t[j] is ParClose) && !(t[j] is Or)
                && !(t[j] is Kleene) {
                match p_cat(t, j, depth, (fuel - 1) as nat) {
                    ParseStep::Parsed(w, k) => ParseStep::Parsed(v.concatenated(w), k),
                    o => o,
                }
            } else {
                ParseStep::Parsed(v, j)
            },
            o => o,
        }
    }
}

/// `A -> B ('|' A)?`.  Two bars in a row are the double-bar error.
pub open spec fn p_alt(t: Seq<Token>, i: int, depth: int, fuel: nat) -> ParseStep
    decreases fuel,
{
    if fuel == 0 {
        ParseStep::OutOfFuel
    } else {
        match p_cat(t, i, depth, (fuel - 1) as nat) {
            ParseStep::Parsed(v, j) => if j < t.len() && t[j] is Or {
                if j + 1 < t.len() && t[j + 1] is Or {
                    ParseStep::Failed(ParseErrorKind::DoubleBar, j + 1)
                } else {
                    match p_alt(t, j + 1, depth, (fuel - 1) as nat) {
                        ParseStep::Parsed(w, k) => ParseStep::Parsed(v.alternated(w), k),
                        o => o,
                    }
                }
            } else {
                ParseStep::Parsed(v, j)
            },
            o => o,
        }
    }
}

/// Enough fuel to parse the whole of `t` from any position.
pub open spec fn parse_fuel(t: Seq<Token>) -> nat {
    (4 * t.len() + 6) as nat
}

/// What parsing a whole token sequence yields: the expression's fragment
/// when every token is consumed, the expression's own failure otherwise,
/// and for a complete expression followed by more input the leftover
/// token's error at its index.
pub open spec fn parse_result(t: Seq<Token>) -> ParseOutcome {
    match p_alt(t, 0, 0, parse_fuel(t)) {
        ParseStep::Parsed(v, j) => if j == t.len() {
            ParseOutcome::Done(v)
        } else {
            ParseOutcome::Fail(leftover_kind(t[j]), j)
        },
        ParseStep::Failed(k, ei) => ParseOutcome::Fail(k, ei),
        ParseStep::OutOfFuel => ParseOutcome::Fail(ParseErrorKind::UnexpectedToken, 0),
    }
}

proof fn lemma_atom_fuel(t: Seq<Token>, i: int, depth: int, f1: nat, f2: nat)
    requires
        0 <= i <= t.len(),
        f1 >= 4 * (t.len() - i) + 2,
        f2 >= 4 * (t.len() - i) + 2,
    ensures
        p_atom(t, i, depth, f1) == p_atom(t, i, depth, f2),
        !(p_atom(t, i, depth, f1) is OutOfFuel),
        p_atom(t, i, depth, f1) matches ParseStep::Parsed(v, j) ==> i < j <= t.len(),
    decreases t.len() - i, 0int,
{
    if 0 <= i < t.len() && t[i] is ParOpen {
        lemma_alt_fuel(t, i + 1, depth + 1, (f1 - 1) as nat, (f2 - 1) as nat);
    }
}

proof fn lemma_star_fuel(t: Seq<Token>, i: int, depth: int, f1: nat, f2: nat)
    requires
        0 <= i <= t.len(),
        f1 >= 4 * (t.len() - i) + 3,
        f2 >= 4 * (t.len() - i) + 3,
    ensures
        p_star(t, i, depth, f1) == p_star(t, i, depth, f2),
        !(p_star(t, i, depth, f1) is OutOfFuel),
        p_star(t, i, depth, f1) matches ParseStep::Parsed(v, j) ==> i < j <= t.len(),
    decreases t.len() - i, 1int,
{
    lemma_atom_fuel(t, i, depth, (f1 - 1) as nat, (f2 - 1) as nat);
}

proof fn lemma_cat_fuel(t: Seq<Token>, i: int, depth: int, f1: nat, f2: nat)
    requires
        0 <= i <= t.len(),
        f1 >= 4 * (t.len() - i) + 4,
        f2 >= 4 * (t.len() - i) + 4,
    ensures
        p_cat(t, i, depth, f1) == p_cat(t, i, depth, f2),
        !(p_cat(t, i, depth, f1) is OutOfFuel),
        p_cat(t, i, depth, f1) matches ParseStep::Parsed(v, j) ==> i < j <= t.len(),
    decreases t.len() - i, 2int,
{
    lemma_star_fuel(t, i, depth, (f1 - 1) as nat, (f2 - 1) as nat);
    match p_star(t, i, depth, (f1 - 1) as nat) {
        ParseStep::Parsed(v, j) => {
            if j < t.len() && !(t[j] is ParClose) && !(t[j] is Or) && !(t[j] is Kleene) {
                lemma_cat_fuel(t, j, depth, (f1 - 1) as nat, (f2 - 1) as nat);
            }
        },
        _ => {},
    }
}

proof fn lemma_alt_fuel(t: Seq<Token>, i: int, depth: int, f1: nat, f2: nat)
    requires
        0 <= i <= t.len(),
        f1 >= 4 * (t.len() - i) + 5,
        f2 >= 4 * (t.len() - i) + 5,
    ensures
        p_alt(t, i, depth, f1) == p_alt(t, i, depth, f2),
        !(p_alt(t, i, depth, f1) is OutOfFuel),
        p_alt(t, i, depth, f1) matches ParseStep::Parsed(v, j) ==> i < j <= t.len(),
    decreases t.len() - i, 3int,
{
    lemma_cat_fuel(t, i, depth, (f1 - 1) as nat, (f2 - 1) as nat);
    match p_cat(t, i, depth, (f1 - 1) as nat) {
        ParseStep::Parsed(v, j) => {
            if j < t.len() && t[j] is Or && !(j + 1 < t.len() && t[j + 1] is Or) {
                lemma_alt_fuel(t, j + 1, depth, (f1 - 1) as nat, (f2 - 1) as nat);
            }
        },
        _ => {},
    }
}

/// The total number of states across a stack of fragments.
pub open spec fn stack_states(s: Seq<Nfa>) -> int
    decreases s.len(),
{
    if s.len() == 0 {
        0
    } else {
        stack_states(s.drop_last()) + s.last()@.states.len()
    }
}

proof fn lemma_stack_states_push(s: Seq<Nfa>, x: Nfa)
    ensures
        stack_states(s.push(x)) == stack_states(s) + x@.states.len(),
{
    assert(s.push(x).drop_last() =~= s);
}

proof fn lemma_stack_states_nonneg(s: Seq<Nfa>)
    ensures
        stack_states(s) >= 0,
    decreases s.len(),
{
    if s.len() > 0 {
        lemma_stack_states_nonneg(s.drop_last());
    }
}

/// Grammar-driven NFA assembly over a token sequence.
pub struct Parser<'a> {
    pub tokens: &'a Vec<Token>,
    pub nfa_stack: Vec<Nfa>,
    pub index: usize,
}

impl<'a> Parser<'a> {
    /// Well-formedness: the position is inside the token sequence, the
    /// sequence is short enough that every fragment's states fit in the
    /// state type, every stacked fragment is well formed and nonempty, and
    /// the stacked fragments together hold at most four states per consumed
    /// token.
    pub open spec fn wf(self) -> bool {
        &&& self.index <= self.tokens@.len()
        &&& self.tokens@.len() <= 0x0800_0000
        &&& forall|i: int|
            0 <= i < self.nfa_stack@.len() ==> (#[trigger] self.nfa_stack@[i])@.wf()
                && self.nfa_stack@[i]@.states.len() > 0
        &&& stack_states(self.nfa_stack@) + 2 * self.nfa_stack@.len() <= 4 * self.index
    }

    pub fn new(t: &Vec<Token>) -> (p: Parser)
        requires
            t@.len() <= 0x0800_0000,
        ensures
            p.wf(),
            p.tokens@ == t@,
            p.nfa_stack@.len() == 0,
            p.index == 0,
    {
        Parser { tokens: t, nfa_stack: Vec::new(), index: 0 }
    }

    fn peek(&self) -> (t: Option<Token>)
        ensures
            t == if self.index < self.tokens@.len() {
                Some(self.tokens@[self.index as int])
            } else {
                None::<Token>
            },
    {
        if self.index < self.tokens.len() {
            Some(self.tokens[self.index])
        } else {
            None
        }
    }

    fn consume(&mut self) -> (t: Option<Token>)
        requires
            old(self).index < old(self).tokens@.len(),
            old(self).tokens@.len() <= 0x0800_0000,
        ensures
            final(self).index == old(self).index + 1,
            final(self).tokens@ == old(self).tokens@,
            final(self).nfa_stack@ == old(self).nfa_stack@,
            t == Some(old(self).tokens@[old(self).index as int]),
    {
        self.index += 1;
        Some(self.tokens[self.index - 1])
    }

    /// Parses a whole token sequence into one NFA, exactly as the grammar
    /// model [`parse_result`] prescribes: a well-formed expression that
    /// consumes every token yields its fragment, anything else yields the
    /// model's failure kind at its token index.
    pub fn parse(&mut self) -> (r: Result<Nfa, ParseError>)
        requires
            old(self).wf(),
            old(self).nfa_stack@.len() == 0,
            old(self).index == 0,
        ensures
            final(self).wf(),
            parse_result(old(self).tokens@) matches ParseOutcome::Done(v) ==> r is Ok
                && r->Ok_0@ == v && v.wf(),
            parse_result(old(self).tokens@) matches ParseOutcome::Fail(k, ei) ==> r is Err
                && r->Err_0.kind == k && r->Err_0.index as int == ei,
    {
        let ghost t = self.tokens@;
        proof {
            lemma_alt_fuel(t, 0, 0, parse_fuel(t), parse_fuel(t));
        }
        let res = self.a(0);
        match res {
            Err(e) => Err(e),
            Ok(()) => {
                if self.index < self.tokens.len() {
                    let kind = match self.tokens[self.index] {
                        Token::ParClose => ParseErrorKind::UnbalancedClose,
                        Token::Kleene => ParseErrorKind::DoubleStar,
                        _ => ParseErrorKind::UnexpectedToken,
                    };
                    Err(ParseError::new(kind, self.index))
                } else {
                    let nfa = self.nfa_stack.pop().unwrap();
                    Ok(nfa)
                }
            },
        }
    }

    /// `A -> B ('|' A)?`: alternation, the lowest precedence.
    fn a(&mut self, depth: usize) -> (r: Result<(), ParseError>)
        requires
            old(self).wf(),
            depth <= old(self).index,
        ensures
            final(self).wf(),
            final(self).tokens@ == old(self).tokens@,
            final(self).index >= old(self).index,
            p_alt(
                old(self).tokens@,
                old(self).index as int,
                depth as int,
                parse_fuel(old(self).tokens@),
            ) matches ParseStep::Parsed(v, j) ==> r is Ok && final(self).nfa_stack@.len() == old(
                self,
            ).nfa_stack@.len() + 1 && final(self).nfa_stack@.take(old(self).nfa_stack@.len() as int)
                == old(self).nfa_stack@ && final(self).nfa_stack@.last()@ == v && final(self).index
                as int == j,
            p_alt(
                old(self).tokens@,
                old(self).index as int,
                depth as int,
                parse_fuel(old(self).tokens@),
            ) matches ParseStep::Failed(k, ei) ==> r is Err && r->Err_0.kind == k
                && r->Err_0.index as int == ei,
        decreases old(self).tokens@.len() - old(self).index, 3int,
    {
        let ghost t = self.tokens@;
        let ghost i0 = self.index as int;
        let ghost fl = parse_fuel(t);
        proof {
            lemma_alt_fuel(t, i0, depth as int, fl, fl);
            lemma_cat_fuel(t, i0, depth as int, (fl - 1) as nat, fl);
        }
        let res = self.b(depth);
        if let Err(e) = res {
            return Err(e);
        }
        let ghost j = self.index as int;
        if let Some(tok) = self.peek() {
            if tok == Token::Or {
                if self.index + 1 < self.tokens.len() {
                    if self.tokens[self.index + 1] == Token::Or {
                        return Err(ParseError::new(ParseErrorKind::DoubleBar, self.index + 1));
                    }
                }
                self.consume();
                proof {
                    lemma_alt_fuel(t, j + 1, depth as int, (fl - 1) as nat, fl);
                }
                let res2 = self.a(depth);
                if let Err(e) = res2 {
                    return Err(e);
                }
                let ghost pre_pop = self.nfa_stack@;
                let op2 = self.nfa_stack.pop().unwrap();
                let mut op1 = self.nfa_stack.pop().unwrap();
                proof {
                    assert(pre_pop.drop_last().drop_last().push(op1).push(op2) =~= pre_pop);
                    lemma_stack_states_push(pre_pop.drop_last().drop_last().push(op1), op2);
                    lemma_stack_states_push(pre_pop.drop_last().drop_last(), op1);
                    lemma_stack_states_nonneg(pre_pop.drop_last().drop_last());
                }
                op1.or(&op2);
                let ghost pre_push = self.nfa_stack@;
                let ghost op1g = op1;
                self.nfa_stack.push(op1);
                proof {
                    lemma_stack_states_push(pre_push, op1g);
                    assert(self.nfa_stack@.take(old(self).nfa_stack@.len() as int)
                        =~= old(self).nfa_stack@);
                }
            }
        }
        Ok(())
    }

    /// `B -> C B?`: concatenation by juxtaposition.
    fn b(&mut self, depth: usize) -> (r: Result<(), ParseError>)
        requires
            old(self).wf(),
            depth <= old(self).index,
        ensures
            final(self).wf(),
            final(self).tokens@ == old(self).tokens@,
            final(self).index >= old(self).index,
            p_cat(
                old(self).tokens@,
                old(self).index as int,
                depth as int,
                parse_fuel(old(self).tokens@),
            ) matches ParseStep::Parsed(v, j) ==> r is Ok && final(self).nfa_stack@.len() == old(
                self,
            ).nfa_stack@.len() + 1 && final(self).nfa_stack@.take(old(self).nfa_stack@.len() as int)
                == old(self).nfa_stack@ && final(self).nfa_stack@.last()@ == v && final(self).index
                as int == j,
            p_cat(
                old(self).tokens@,
                old(self).index as int,
                depth as int,
                parse_fuel(old(self).tokens@),
            ) matches ParseStep::Failed(k, ei) ==> r is Err && r->Err_0.kind == k
                && r->Err_0.index as int == ei,
        decreases old(self).tokens@.len() - old(self).index, 2int,
    {
        let ghost t = self.tokens@;
        let ghost i0 = self.index as int;
        let ghost fl = parse_fuel(t);
        proof {
            lemma_cat_fuel(t, i0, depth as int, fl, fl);
            lemma_star_fuel(t, i0, depth as int, (fl - 1) as nat, fl);
        }
        let res = self.c(depth);
        if let Err(e) = res {
            return Err(e);
        }
        let ghost j = self.index as int;
        if let Some(tok) = self.peek() {
            if tok != Token::ParClose && tok != Token::Or && tok != Token::Kleene {
                proof {
                    lemma_cat_fuel(t, j, depth as int, (fl - 1) as nat, fl);
                }
                let res2 = self.b(depth);
                if let Err(e) = res2 {
                    return Err(e);
                }
                let ghost pre_pop = self.nfa_stack@;
                let op2 = self.nfa_stack.pop().unwrap();
                let mut op1 = self.nfa_stack.pop().unwrap();
                proof {
                    assert(pre_pop.drop_last().drop_last().push(op1).push(op2) =~= pre_pop);
                    lemma_stack_states_push(pre_pop.drop_last().drop_last().push(op1), op2);
                    lemma_stack_states_push(pre_pop.drop_last().drop_last(), op1);
                    lemma_stack_states_nonneg(pre_pop.drop_last().drop_last());
                }
                op1.concatenate(&op2);
                let ghost pre_push = self.nfa_stack@;
                let ghost op1g = op1;
                self.nfa_stack.push(op1);
                proof {
                    lemma_stack_states_push(pre_push, op1g);
                    assert(self.nfa_stack@.take(old(self).nfa_stack@.len() as int)
                        =~= old(self).nfa_stack@);
                }
            }
        }
        Ok(())
    }

    /// `C -> D '*'?`: Kleene closure, the highest operator precedence.
    fn c(&mut self, depth: usize) -> (r: Result<(), ParseError>)
        requires
            old(self).wf(),
            depth <= old(self).index,
        ensures
            final(self).wf(),
            final(self).tokens@ == old(self).tokens@,
            final(self).index >= old(self).index,
            p_star(
                old(self).tokens@,
                old(self).index as int,
                depth as int,
                parse_fuel(old(self).tokens@),
            ) matches ParseStep::Parsed(v, j) ==> r is Ok && final(self).nfa_stack@.len() == old(
                self,
            ).nfa_stack@.len() + 1 && final(self).nfa_stack@.take(old(self).nfa_stack@.len() as int)
                == old(self).nfa_stack@ && final(self).nfa_stack@.last()@ == v && final(self).index
                as int == j,
            p_star(
                old(self).tokens@,
                old(self).index as int,
                depth as int,
                parse_fuel(old(self).tokens@),
            ) matches ParseStep::Failed(k, ei) ==> r is Err && r->Err_0.kind == k
                && r->Err_0.index as int == ei,
        decreases old(self).tokens@.len() - old(self).index, 1int,
    {
        let ghost t = self.tokens@;
        let ghost i0 = self.index as int;
        let ghost fl = parse_fuel(t);
        proof {
            lemma_star_fuel(t, i0, depth as int, fl, fl);
            lemma_atom_fuel(t, i0, depth as int, (fl - 1) as nat, fl);
        }
        let res = self.d(depth);
        if let Err(e) = res {
            return Err(e);
        }
        if let Some(tok) = self.peek() {
            if tok == Token::Kleene {
                self.consume();
                let ghost pre_pop = self.nfa_stack@;
                let mut op1 = self.nfa_stack.pop().unwrap();
                proof {
                    assert(pre_pop.drop_last().push(op1) =~= pre_pop);
                    lemma_stack_states_push(pre_pop.drop_last(), op1);
                    lemma_stack_states_nonneg(pre_pop.drop_last());
                }
                op1.kleene();
                let ghost pre_push = self.nfa_stack@;
                let ghost op1g = op1;
                self.nfa_stack.push(op1);
                proof {
                    lemma_stack_states_push(pre_push, op1g);
                    assert(self.nfa_stack@.take(old(self).nfa_stack@.len() as int)
                        =~= old(self).nfa_stack@);
                }
            }
        }
        Ok(())
    }

    /// `D -> '(' A ')' | <char>`: an atom.
    fn d(&mut self, depth: usize) -> (r: Result<(), ParseError>)
        requires
            old(self).wf(),
            depth <= old(self).index,
        ensures
            final(self).wf(),
            final(self).tokens@ == old(self).tokens@,
            final(self).index >= old(self).index,
            p_atom(
                old(self).tokens@,
                old(self).index as int,
                depth as int,
                parse_fuel(old(self).tokens@),
            ) matches ParseStep::Parsed(v, j) ==> r is Ok && final(self).nfa_stack@.len() == old(
                self,
            ).nfa_stack@.len() + 1 && final(self).nfa_stack@.take(old(self).nfa_stack@.len() as int)
                == old(self).nfa_stack@ && final(self).nfa_stack@.last()@ == v && final(self).index
                as int == j,
            p_atom(
                old(self).tokens@,
                old(self).index as int,
                depth as int,
                parse_fuel(old(self).tokens@),
            ) matches ParseStep::Failed(k, ei) ==> r is Err && r->Err_0.kind == k
                && r->Err_0.index as int == ei,
        decreases old(self).tokens@.len() - old(self).index, 0int,
    {
        let ghost t = self.tokens@;
        let ghost i0 = self.index as int;
        let ghost fl = parse_fuel(t);
        proof {
            lemma_atom_fuel(t, i0, depth as int, fl, fl);
        }
        match self.peek() {
            Some(Token::ParOpen) => {
                self.consume();
                proof {
                    lemma_alt_fuel(t, i0 + 1, depth as int + 1, (fl - 1) as nat, fl);
                }
                let res = self.a(depth + 1);
                if let Err(e) = res {
                    return Err(e);
                }
                match self.peek() {
                    Some(Token::ParClose) => {
                        self.consume();
                        Ok(())
                    },
                    _ => Err(ParseError::new(ParseErrorKind::UnterminatedGroup, self.index)),
                }
            },
            Some(Token::Char(c)) => {
                self.consume();
                let lit = Nfa::new(c);
                let ghost litg = lit;
                let ghost pre_push = self.nfa_stack@;
                self.nfa_stack.push(lit);
                proof {
                    lemma_stack_states_push(pre_push, litg);
                    assert(self.nfa_stack@.take(old(self).nfa_stack@.len() as int)
                        =~= old(self).nfa_stack@);
                }
                Ok(())
            },
            Some(Token::ParClose) => {
                if depth == 0 {
                    Err(ParseError::new(ParseErrorKind::UnbalancedClose, self.index))
                } else {
                    Err(ParseError::new(ParseErrorKind::UnexpectedToken, self.index))
                }
            },
            _ => Err(ParseError::new(ParseErrorKind::UnexpectedToken, self.index)),
        }
    }
}

} // verus!
