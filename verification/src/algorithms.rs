//! The character front end: compiles a regular-expression string into an
//! NFA by normalizing escapes into literal-character tokens and running the
//! grammar parser over the result, so both front ends share one grammar
//! semantics.

use vstd::prelude::*;
use crate::error::ParseError;
use crate::lexer::Token;
use crate::nfa::Nfa;
use crate::parser::{parse_result, ParseOutcome, Parser};

verus! {

/// The token sequence of a regular-expression string, with `/` escapes
/// already resolved: `/` turns the following character into a literal
/// token whatever its operator meaning; a trailing `/` with nothing to
/// escape is dropped.
pub open spec fn lex_spec(s: Seq<char>, i: int) -> Seq<Token>
    decreases s.len() - i,
{
    if i < 0 || i >= s.len() {
        Seq::empty()
    } else if s[i] == '/' {
        if i + 1 < s.len() {
            seq![Token::Char(s[i + 1])] + lex_spec(s, i + 2)
        } else {
            Seq::empty()
        }
    } else {
        seq![crate::lexer::token_of(s[i])] + lex_spec(s, i + 1)
    }
}

/// Compiles a regular expression into an NFA under the grammar of the
/// parser: the input is tokenized with escapes resolved ([`lex_spec`]) and
/// the result is exactly what [`parse_result`] prescribes for those tokens.
/// An empty input is rejected as an unexpected token at position 0.  Error
/// indices count tokens (an escaped character is one token).  The length
/// bound keeps every state identifier within the state type.
pub fn re_to_nfa(re: &str) -> (r: Result<Nfa, ParseError>)
    requires
        re@.len() <= 0x0800_0000,
    ensures
        parse_result(lex_spec(re@, 0)) matches ParseOutcome::Done(v) ==> r is Ok && r->Ok_0@ == v
            && v.wf(),
        parse_result(lex_spec(re@, 0)) matches ParseOutcome::Fail(k, ei) ==> r is Err
            && r->Err_0.kind == k && r->Err_0.index as int == ei,
{
    let ghost s = re@;
    let n = re.unicode_len();
    let mut tokens: Vec<Token> = Vec::new();
    let mut i: usize = 0;
    while i < n
        invariant
            s == re@,
            n == s.len(),
            s.len() <= 0x0800_0000,
            i <= n,
            tokens@.len() <= i,
            lex_spec(s, 0) == tokens@ + lex_spec(s, i as int),
        decreases n - i,
    {
        let ghost tokens0 = tokens@;
        let c = re.get_char(i);
        proof {
            assert(s[i as int] == c);
        }
        if c == '/' {
            if i + 1 < n {
                let c2 = re.get_char(i + 1);
                proof {
                    assert(s[i as int + 1] == c2);
                }
                tokens.push(Token::Char(c2));
                proof {
                    assert(lex_spec(s, i as int) =~= seq![Token::Char(c2)] + lex_spec(
                        s,
                        i as int + 2,
                    ));
                    assert(tokens0 + lex_spec(s, i as int) =~= tokens@ + lex_spec(s, i as int + 2));
                }
                i += 2;
            } else {
                proof {
                    assert(lex_spec(s, i as int) =~= Seq::<Token>::empty());
                    assert(tokens0 + lex_spec(s, i as int) =~= tokens@ + lex_spec(s, n as int));
                }
                i += 1;
            }
        } else {
            match c {
                '|' => tokens.push(Token::Or),
                '*' => tokens.push(Token::Kleene),
                '(' => tokens.push(Token::ParOpen),
                ')' => tokens.push(Token::ParClose),
                _ => tokens.push(Token::Char(c)),
            }
            proof {
                assert(tokens@.last() == crate::lexer::token_of(c));
                assert(lex_spec(s, i as int) =~= seq![crate::lexer::token_of(c)] + lex_spec(
                    s,
                    i as int + 1,
                ));
                assert(tokens0 + lex_spec(s, i as int) =~= tokens@ + lex_spec(s, i as int + 1));
            }
            i += 1;
        }
    }
    proof {
        assert(lex_spec(s, n as int) =~= Seq::<Token>::empty());
        assert(tokens@ + lex_spec(s, n as int) =~= tokens@);
        assert(tokens@ == lex_spec(s, 0));
    }
    let mut parser = Parser::new(&tokens);
    parser.parse()
}

} // verus!
