use tapelang::lexer::{lex, Token};

#[test]
fn lex_all_eight_symbols() {
    let tokens = lex("><+-.,[]");
    assert_eq!(
        tokens,
        vec![
            Token::IncPointer,
            Token::DecPointer,
            Token::Inc,
            Token::Dec,
            Token::Write,
            Token::Read,
            Token::LoopBegin,
            Token::LoopEnd,
        ]
    );
}

#[test]
fn lex_drops_unrecognized_characters() {
    let tokens = lex("a + b - c\n# comment [x]\t");
    assert_eq!(
        tokens,
        vec![
            Token::Inc,
            Token::Dec,
            Token::LoopBegin,
            Token::LoopEnd,
        ]
    );
}

#[test]
fn lex_empty_input_yields_no_tokens() {
    let tokens = lex("");
    assert_eq!(tokens, vec![]);
}

#[test]
fn lex_symbol_free_input_yields_no_tokens() {
    let tokens = lex("hello world");
    assert_eq!(tokens, vec![]);
}

#[test]
fn lex_keeps_source_order() {
    let tokens = lex("+[-]");
    assert_eq!(
        tokens,
        vec![Token::Inc, Token::LoopBegin, Token::Dec, Token::LoopEnd]
    );
}
