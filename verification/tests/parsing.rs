use tapelang::lexer::lex;
use tapelang::parser::{parse, Instruction, ParseError};

#[test]
fn parse_bare_close_is_unmatched_close() {
    let tokens = lex("]");
    assert_eq!(parse(&tokens), Err(ParseError::UnmatchedClose(0)));
}

#[test]
fn parse_bare_open_is_unmatched_open() {
    let tokens = lex("[");
    assert_eq!(parse(&tokens), Err(ParseError::UnmatchedOpen(0)));
}

#[test]
fn parse_open_open_close_is_unmatched_open() {
    let tokens = lex("[[]");
    assert_eq!(parse(&tokens), Err(ParseError::UnmatchedOpen(0)));
}

#[test]
fn parse_open_close_close_is_unmatched_close() {
    let tokens = lex("[]]");
    assert_eq!(parse(&tokens), Err(ParseError::UnmatchedClose(2)));
}

#[test]
fn parse_empty_input_is_empty_program() {
    let tokens = lex("");
    assert_eq!(parse(&tokens), Ok(vec![]));
}

#[test]
fn parse_basic_commands_in_order() {
    let tokens = lex("><+-.,");
    assert_eq!(
        parse(&tokens),
        Ok(vec![
            Instruction::IncPointer,
            Instruction::DecPointer,
            Instruction::Inc,
            Instruction::Dec,
            Instruction::Write,
            Instruction::Read,
        ])
    );
}

#[test]
fn parse_empty_loop() {
    let tokens = lex("[]");
    assert_eq!(parse(&tokens), Ok(vec![Instruction::Loop(vec![])]));
}

#[test]
fn parse_nested_loops() {
    let tokens = lex("+[>[-]<]");
    assert_eq!(
        parse(&tokens),
        Ok(vec![
            Instruction::Inc,
            Instruction::Loop(vec![
                Instruction::IncPointer,
                Instruction::Loop(vec![Instruction::Dec]),
                Instruction::DecPointer,
            ]),
        ])
    );
}

#[test]
fn parse_unmatched_open_reports_outermost() {
    let tokens = lex("[][[]");
    assert_eq!(parse(&tokens), Err(ParseError::UnmatchedOpen(2)));
}

fn count_nodes(instructions: &Vec<Instruction>) -> usize {
    let mut total = 0;
    for instruction in instructions {
        total += 1;
        if let Instruction::Loop(body) = instruction {
            total += count_nodes(body);
        }
    }
    total
}

#[test]
fn parse_node_count_matches_tokens() {
    // one node per non-bracket token plus one per loop-begin:
    // `+[+[-]]` has 3 non-bracket tokens and 2 loop-begins, so 5 nodes
    let tokens = lex("+[+[-]]");
    let program = parse(&tokens).unwrap();
    assert_eq!(count_nodes(&program), 5);
}
