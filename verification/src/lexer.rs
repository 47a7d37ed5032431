use vstd::prelude::*;

use vstd::string::StrSliceExecFns;

use crate::ast::{InterpreterError, Token};
use crate::machine::Program;

verus! {

/// The instruction a source character stands for; any other character maps to
/// `Unknown` and is dropped by the lexer.
pub open spec fn token_of(c: char) -> Token {
    if c == '>' {
        Token::MoveRight
    } else if c == '<' {
        Token::MoveLeft
    } else if c == '+' {
        Token::Increment
    } else if c == '-' {
        Token::Decrement
    } else if c == '.' {
        Token::Output
    } else if c == ',' {
        Token::Input
    } else if c == '[' {
        Token::LoopStart
    } else if c == ']' {
        Token::LoopEnd
    } else if c == '#' {
        Token::Debug
    } else {
        Token::Unknown
    }
}

/// The token sequence of a source text: one token per recognized character,
/// in source order, unrecognized characters silently dropped.
pub open spec fn spec_tokenize(s: Seq<char>) -> Seq<Token>
    decreases s.len(),
{
    if s.len() == 0 {
        Seq::empty()
    } else {
        let rest = spec_tokenize(s.drop_last());
        if token_of(s.last()) == Token::Unknown {
            rest
        } else {
            rest.push(token_of(s.last()))
        }
    }
}

pub proof fn lemma_tokenize_props(s: Seq<char>)
    ensures
        spec_tokenize(s).len() <= s.len(),
        forall|i: int|
            0 <= i < spec_tokenize(s).len() ==> #[trigger] spec_tokenize(s)[i] != Token::Unknown,
    decreases s.len(),
{
    if s.len() > 0 {
        lemma_tokenize_props(s.drop_last());
    }
}

impl Program {
    /// Maps each source character to its token and drops the unrecognized
    /// ones. Lexing cannot fail.
    pub fn tokenize(source: &str) -> (r: Result<Vec<Token>, InterpreterError>)
        ensures
            r matches Ok(ts) && ts@ == spec_tokenize(source@),
    {
        let n: usize = source.unicode_len();
        let mut ts: Vec<Token> = Vec::new();
        let mut i: usize = 0;
        while i < n
            invariant
                n == source@.len(),
                i <= n,
                ts@ == spec_tokenize(source@.take(i as int)),
            decreases n - i,
        {
            let c: char = source.get_char(i);
            let t: Token = match c {
                '>' => Token::MoveRight,
                '<' => Token::MoveLeft,
                '+' => Token::Increment,
                '-' => Token::Decrement,
                '.' => Token::Output,
                ',' => Token::Input,
                '[' => Token::LoopStart,
                ']' => Token::LoopEnd,
                '#' => Token::Debug,
                _ => Token::Unknown,
            };
            proof {
                let cur = source@.take(i + 1);
                assert(cur.drop_last() =~= source@.take(i as int));
                assert(cur.last() == source@[i as int]);
                assert(t == token_of(source@[i as int]));
            }
            if t != Token::Unknown {
                ts.push(t);
            }
            i = i + 1;
        }
        proof {
            assert(source@.take(n as int) =~= source@);
        }
        Ok(ts)
    }
}

} // verus!
