//! The lexer: turns source text into the ordered sequence of command
//! tokens, dropping every character that is not one of the eight
//! command symbols.

use vstd::prelude::*;
use vstd::string::StrSliceExecFns;

verus! {

/// One of the eight primitive commands of the language.
#[derive(Clone, Copy, Debug, PartialEq, Eq, Structural)]
pub enum Token {
    /// `>`: move the data pointer one cell to the right.
    IncPointer,
    /// `<`: move the data pointer one cell to the left.
    DecPointer,
    /// `+`: increment the current cell, wrapping modulo 256.
    Inc,
    /// `-`: decrement the current cell, wrapping modulo 256.
    Dec,
    /// `.`: emit the current cell as one output byte.
    Write,
    /// `,`: read one input byte into the current cell.
    Read,
    /// `[`: begin a loop.
    LoopBegin,
    /// `]`: end a loop.
    LoopEnd,
}

/// The token a character lexes to, or `None` for every character that
/// is not one of the eight command symbols.
pub open spec fn token_of_char(c: char) -> Option<Token> {
    if c == '>' {
        Some(Token::IncPointer)
    } else if c == '<' {
        Some(Token::DecPointer)
    } else if c == '+' {
        Some(Token::Inc)
    } else if c == '-' {
        Some(Token::Dec)
    } else if c == '.' {
        Some(Token::Write)
    } else if c == ',' {
        Some(Token::Read)
    } else if c == '[' {
        Some(Token::LoopBegin)
    } else if c == ']' {
        Some(Token::LoopEnd)
    } else {
        None
    }
}

/// Whether a character is one of the eight command symbols.
pub open spec fn is_command_char(c: char) -> bool {
    token_of_char(c) is Some
}

/// The token sequence of a source text: one token per command
/// character, in source order, and nothing for any other character.
pub open spec fn lex_spec(s: Seq<char>) -> Seq<Token>
    decreases s.len(),
{
    if s.len() == 0 {
        Seq::empty()
    } else {
        lex_spec(s.drop_last()) + (match token_of_char(s.last()) {
            Some(t) => seq![t],
            None => Seq::empty(),
        })
    }
}

/// Lexing keeps exactly the command characters: the token sequence is
/// the recognized characters filtered out of the source in order, each
/// mapped to its token. Empty or symbol-free input yields an empty
/// token sequence.
pub proof fn lemma_lex_is_filter_map(s: Seq<char>)
    ensures
        lex_spec(s) == s.filter(|c: char| is_command_char(c)).map_values(
            |c: char| token_of_char(c).unwrap(),
        ),
    decreases s.len(),
{
    reveal(Seq::filter);
    let pred = |c: char| is_command_char(c);
    let f = |c: char| token_of_char(c).unwrap();
    if s.len() == 0 {
        assert(s.filter(pred) =~= Seq::<char>::empty());
        assert(s.filter(pred).map_values(f) =~= Seq::<Token>::empty());
    } else {
        lemma_lex_is_filter_map(s.drop_last());
        if pred(s.last()) {
            assert(s.filter(pred) == s.drop_last().filter(pred).push(s.last()));
            assert(s.filter(pred).map_values(f) =~= s.drop_last().filter(pred).map_values(f).push(
                f(s.last()),
            ));
            assert(lex_spec(s) =~= lex_spec(s.drop_last()).push(f(s.last())));
        } else {
            assert(s.filter(pred) == s.drop_last().filter(pred));
            assert(lex_spec(s) =~= lex_spec(s.drop_last()));
        }
    }
}

/// Converts a source text into its token sequence. Characters outside
/// the eight command symbols are dropped silently; lexing cannot fail.
pub fn lex(source: &str) -> (tokens: Vec<Token>)
    ensures
        tokens@ == lex_spec(source@),
{
    let mut tokens: Vec<Token> = Vec::new();
    let n = source.unicode_len();
    let mut i: usize = 0;
    while i < n
        invariant
            n == source@.len(),
            i <= n,
            tokens@ == lex_spec(source@.take(i as int)),
        decreases n - i,
    {
        let ch = source.get_char(i);
        let token: Option<Token> = if ch == '>' {
            Some(Token::IncPointer)
        } else if ch == '<' {
            Some(Token::DecPointer)
        } else if ch == '+' {
            Some(Token::Inc)
        } else if ch == '-' {
            Some(Token::Dec)
        } else if ch == '.' {
            Some(Token::Write)
        } else if ch == ',' {
            Some(Token::Read)
        } else if ch == '[' {
            Some(Token::LoopBegin)
        } else if ch == ']' {
            Some(Token::LoopEnd)
        } else {
            None
        };
        match token {
            Some(op) => tokens.push(op),
            None => (),
        }
        i = i + 1;
        proof {
            let t = source@.take(i as int);
            assert(t.drop_last() =~= source@.take(i as int - 1));
            assert(t.last() == source@[i as int - 1]);
        }
    }
    proof {
        assert(source@.take(n as int) =~= source@);
    }
    tokens
}

} // verus!
