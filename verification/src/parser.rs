//! The parser: turns the flat token sequence into a tree of
//! instructions, with each loop body as a nested subtree, and rejects
//! malformed bracket nesting.

use vstd::prelude::*;
use crate::lexer::Token;

verus! {

/// One node of the instruction tree. The six basic commands carry no
/// payload; a `Loop` owns the ordered sequence of instructions of its
/// body.
#[derive(Debug, PartialEq, Eq)]
pub enum Instruction {
    /// Move the data pointer one cell to the right.
    IncPointer,
    /// Move the data pointer one cell to the left.
    DecPointer,
    /// Increment the current cell, wrapping modulo 256.
    Inc,
    /// Decrement the current cell, wrapping modulo 256.
    Dec,
    /// Emit the current cell as one output byte.
    Write,
    /// Read one input byte into the current cell.
    Read,
    /// Run the body while the current cell is nonzero.
    Loop(Vec<Instruction>),
}

/// The mathematical shape of an instruction tree: the same seven
/// variants, with loop bodies as sequences.
#[verifier::ext_equal]
pub enum InstView {
    IncPointer,
    DecPointer,
    Inc,
    Dec,
    Write,
    Read,
    Loop(Seq<InstView>),
}

/// The abstract tree of one instruction.
pub open spec fn view_inst(ins: Instruction) -> InstView
    decreases ins,
{
    match ins {
        Instruction::IncPointer => InstView::IncPointer,
        Instruction::DecPointer => InstView::DecPointer,
        Instruction::Inc => InstView::Inc,
        Instruction::Dec => InstView::Dec,
        Instruction::Write => InstView::Write,
        Instruction::Read => InstView::Read,
        Instruction::Loop(body) => InstView::Loop(view_insts_from(body@, 0)),
    }
}

/// The abstract trees of the instructions of `v` from index `i` on.
pub open spec fn view_insts_from(v: Seq<Instruction>, i: int) -> Seq<InstView>
    decreases v, v.len() - i,
{
    if i < 0 || i >= v.len() {
        Seq::empty()
    } else {
        seq![view_inst(v[i])] + view_insts_from(v, i + 1)
    }
}

/// The abstract trees of a sequence of instructions.
pub open spec fn view_insts(v: Seq<Instruction>) -> Seq<InstView> {
    view_insts_from(v, 0)
}

proof fn lemma_view_insts_from(v: Seq<Instruction>, i: int)
    requires
        0 <= i <= v.len(),
    ensures
        view_insts_from(v, i).len() == v.len() - i,
        forall|k: int|
            0 <= k < v.len() - i ==> view_insts_from(v, i)[k] == view_inst(v[i + k]),
    decreases v.len() - i,
{
    if i < v.len() {
        lemma_view_insts_from(v, i + 1);
    }
}

/// The view of a sequence of instructions is its instructions' views,
/// in order.
pub proof fn lemma_view_insts(v: Seq<Instruction>)
    ensures
        view_insts(v).len() == v.len(),
        forall|k: int| 0 <= k < v.len() ==> view_insts(v)[k] == view_inst(v[k]),
{
    lemma_view_insts_from(v, 0);
}

/// Appending an instruction appends its view.
pub proof fn lemma_view_insts_push(v: Seq<Instruction>, x: Instruction)
    ensures
        view_insts(v.push(x)) == view_insts(v).push(view_inst(x)),
{
    lemma_view_insts(v);
    lemma_view_insts(v.push(x));
    assert(view_insts(v.push(x)) =~= view_insts(v).push(view_inst(x)));
}

/// A malformed bracket nesting, with the index of the offending token.
#[derive(Clone, Copy, Debug, PartialEq, Eq, Structural)]
pub enum ParseError {
    /// A loop-end token with no open loop; holds its token index.
    UnmatchedClose(usize),
    /// A loop-begin token never closed; holds the token index of the
    /// outermost such token.
    UnmatchedOpen(usize),
}

/// One scan step of the parser over `tokens`, at index `i`, at bracket
/// nesting `depth`, where `loop_start` is the index of the loop-begin
/// token that opened the current outermost loop and `acc` holds the
/// instructions built so far. Tokens inside an open loop are skipped
/// here and handed to a recursive scan of the exact bracketed range
/// once its matching loop-end is found.
pub open spec fn parse_scan(
    tokens: Seq<Token>,
    i: int,
    depth: int,
    loop_start: int,
    acc: Seq<InstView>,
) -> Result<Seq<InstView>, ParseError>
    decreases tokens.len(), tokens.len() - i,
{
    if i < 0 || i >= tokens.len() {
        if depth == 0 {
            Ok(acc)
        } else {
            Err(ParseError::UnmatchedOpen(loop_start as usize))
        }
    } else if depth == 0 {
        match tokens[i] {
            Token::IncPointer => parse_scan(tokens, i + 1, 0, loop_start, acc.push(InstView::IncPointer)),
            Token::DecPointer => parse_scan(tokens, i + 1, 0, loop_start, acc.push(InstView::DecPointer)),
            Token::Inc => parse_scan(tokens, i + 1, 0, loop_start, acc.push(InstView::Inc)),
            Token::Dec => parse_scan(tokens, i + 1, 0, loop_start, acc.push(InstView::Dec)),
            Token::Write => parse_scan(tokens, i + 1, 0, loop_start, acc.push(InstView::Write)),
            Token::Read => parse_scan(tokens, i + 1, 0, loop_start, acc.push(InstView::Read)),
            Token::LoopBegin => parse_scan(tokens, i + 1, 1, i, acc),
            Token::LoopEnd => Err(ParseError::UnmatchedClose(i as usize)),
        }
    } else {
        match tokens[i] {
            Token::LoopBegin => parse_scan(tokens, i + 1, depth + 1, loop_start, acc),
            Token::LoopEnd => {
                if depth == 1 {
                    if 0 <= loop_start && loop_start < i {
                        match parse_scan(tokens.subrange(loop_start + 1, i), 0, 0, 0, Seq::empty()) {
                            Ok(body) => parse_scan(
                                tokens,
                                i + 1,
                                0,
                                loop_start,
                                acc.push(InstView::Loop(body)),
                            ),
                            Err(e) => Err(e),
                        }
                    } else {
                        // never reached from a scan that starts at index 0
                        // with depth 0; mapped to an error for totality
                        Err(ParseError::UnmatchedClose(i as usize))
                    }
                } else {
                    parse_scan(tokens, i + 1, depth - 1, loop_start, acc)
                }
            },
            _ => parse_scan(tokens, i + 1, depth, loop_start, acc),
        }
    }
}

/// What a token sequence parses to: the instruction trees of the
/// program, or the error of the first malformed bracket.
pub open spec fn parse_spec(tokens: Seq<Token>) -> Result<Seq<InstView>, ParseError> {
    parse_scan(tokens, 0, 0, 0, Seq::empty())
}

/// The net bracket nesting of `t` over indices `a .. b`, starting at
/// depth `d`: `Some` of the final depth if the depth never goes below
/// zero, `None` if a loop-end ever arrives at depth zero.
pub open spec fn depth_run(t: Seq<Token>, a: int, b: int, d: int) -> Option<int>
    decreases b - a,
{
    if a >= b {
        Some(d)
    } else {
        match t[a] {
            Token::LoopBegin => depth_run(t, a + 1, b, d + 1),
            Token::LoopEnd => if d >= 1 {
                depth_run(t, a + 1, b, d - 1)
            } else {
                None
            },
            _ => depth_run(t, a + 1, b, d),
        }
    }
}

/// A token sequence is balanced when scanning it keeps the bracket
/// nesting depth at or above zero throughout and brings it back to
/// zero at the end.
pub open spec fn balanced(t: Seq<Token>) -> bool {
    depth_run(t, 0, t.len() as int, 0) == Some(0int)
}

proof fn lemma_depth_run_extend(t: Seq<Token>, a: int, b: int, d: int)
    requires
        0 <= a <= b < t.len(),
    ensures
        depth_run(t, a, b + 1, d) == (match depth_run(t, a, b, d) {
            Some(x) => (match t[b] {
                Token::LoopBegin => Some(x + 1),
                Token::LoopEnd => if x >= 1 {
                    Some(x - 1)
                } else {
                    None
                },
                _ => Some(x),
            }),
            None => None::<int>,
        }),
    decreases b - a,
{
    if a >= b {
        reveal_with_fuel(depth_run, 2);
    } else {
        match t[a] {
            Token::LoopBegin => lemma_depth_run_extend(t, a + 1, b, d + 1),
            Token::LoopEnd => {
                if d >= 1 {
                    lemma_depth_run_extend(t, a + 1, b, d - 1);
                }
            },
            _ => lemma_depth_run_extend(t, a + 1, b, d),
        }
    }
}

proof fn lemma_depth_run_shift(t: Seq<Token>, a: int, b: int, j: int, d: int)
    requires
        0 <= a <= b <= t.len(),
        0 <= j <= b - a,
    ensures
        depth_run(t.subrange(a, b), j, b - a, d) == depth_run(t, a + j, b, d),
    decreases b - a - j,
{
    if j < b - a {
        assert(t.subrange(a, b)[j] == t[a + j]);
        match t[a + j] {
            Token::LoopBegin => lemma_depth_run_shift(t, a, b, j + 1, d + 1),
            Token::LoopEnd => {
                if d >= 1 {
                    lemma_depth_run_shift(t, a, b, j + 1, d - 1);
                }
            },
            _ => lemma_depth_run_shift(t, a, b, j + 1, d),
        }
    }
}

proof fn lemma_scan_ok_iff_balanced(
    t: Seq<Token>,
    i: int,
    depth: int,
    loop_start: int,
    acc: Seq<InstView>,
)
    requires
        0 <= i <= t.len(),
        depth >= 0,
        depth > 0 ==> 0 <= loop_start < i && t[loop_start] == Token::LoopBegin && depth_run(
            t,
            loop_start + 1,
            i,
            0,
        ) == Some(depth - 1),
    ensures
        parse_scan(t, i, depth, loop_start, acc) is Ok <==> depth_run(t, i, t.len() as int, depth)
            == Some(0int),
    decreases t.len(), t.len() - i,
{
    if i >= t.len() {
        // end of input: success exactly when no loop is still open
    } else {
        match t[i] {
            Token::LoopBegin => {
                if depth == 0 {
                    lemma_scan_ok_iff_balanced(t, i + 1, 1, i, acc);
                } else {
                    lemma_depth_run_extend(t, loop_start + 1, i, 0);
                    lemma_scan_ok_iff_balanced(t, i + 1, depth + 1, loop_start, acc);
                }
            },
            Token::LoopEnd => {
                if depth == 0 {
                    // unmatched close; the depth scan fails here too
                } else if depth == 1 {
                    let sub = t.subrange(loop_start + 1, i);
                    lemma_scan_ok_iff_balanced(sub, 0, 0, 0, Seq::empty());
                    lemma_depth_run_shift(t, loop_start + 1, i, 0, 0);
                    assert(parse_scan(sub, 0, 0, 0, Seq::empty()) is Ok);
                    let body = parse_scan(sub, 0, 0, 0, Seq::empty()).unwrap();
                    lemma_scan_ok_iff_balanced(
                        t,
                        i + 1,
                        0,
                        loop_start,
                        acc.push(InstView::Loop(body)),
                    );
                } else {
                    lemma_depth_run_extend(t, loop_start + 1, i, 0);
                    lemma_scan_ok_iff_balanced(t, i + 1, depth - 1, loop_start, acc);
                }
            },
            _ => {
                if depth == 0 {
                    let iv = (match t[i] {
                        Token::IncPointer => InstView::IncPointer,
                        Token::DecPointer => InstView::DecPointer,
                        Token::Inc => InstView::Inc,
                        Token::Dec => InstView::Dec,
                        Token::Write => InstView::Write,
                        Token::Read => InstView::Read,
                        _ => InstView::Inc,
                    });
                    lemma_scan_ok_iff_balanced(t, i + 1, 0, loop_start, acc.push(iv));
                } else {
                    lemma_depth_run_extend(t, loop_start + 1, i, 0);
                    lemma_scan_ok_iff_balanced(t, i + 1, depth, loop_start, acc);
                }
            },
        }
    }
}

/// Parsing is deterministic and total on balanced token sequences, and
/// rejects every other sequence: it returns a program exactly when the
/// brackets are balanced.
pub proof fn lemma_parse_ok_iff_balanced(t: Seq<Token>)
    ensures
        parse_spec(t) is Ok <==> balanced(t),
{
    lemma_scan_ok_iff_balanced(t, 0, 0, 0, Seq::empty());
}

/// The tokens an instruction tree prints back to: one token per basic
/// command, and a loop-begin, the body's tokens, then a loop-end for
/// each loop node.
pub open spec fn tokens_of_inst(iv: InstView) -> Seq<Token>
    decreases iv,
{
    match iv {
        InstView::IncPointer => seq![Token::IncPointer],
        InstView::DecPointer => seq![Token::DecPointer],
        InstView::Inc => seq![Token::Inc],
        InstView::Dec => seq![Token::Dec],
        InstView::Write => seq![Token::Write],
        InstView::Read => seq![Token::Read],
        InstView::Loop(body) => seq![Token::LoopBegin] + tokens_of_insts_from(body, 0) + seq![
            Token::LoopEnd,
        ],
    }
}

/// The tokens the instructions of `p` from index `i` on print back to.
pub open spec fn tokens_of_insts_from(p: Seq<InstView>, i: int) -> Seq<Token>
    decreases p, p.len() - i,
{
    if i < 0 || i >= p.len() {
        Seq::empty()
    } else {
        tokens_of_inst(p[i]) + tokens_of_insts_from(p, i + 1)
    }
}

/// The tokens an instruction sequence prints back to.
pub open spec fn tokens_of_insts(p: Seq<InstView>) -> Seq<Token> {
    tokens_of_insts_from(p, 0)
}

proof fn lemma_tokens_of_push(p: Seq<InstView>, x: InstView, i: int)
    requires
        0 <= i <= p.len(),
    ensures
        tokens_of_insts_from(p.push(x), i) == tokens_of_insts_from(p, i) + tokens_of_inst(x),
    decreases p.len() - i,
{
    if i == p.len() {
        reveal_with_fuel(tokens_of_insts_from, 2);
        assert(tokens_of_insts_from(p.push(x), i) =~= tokens_of_inst(x));
        assert(tokens_of_insts_from(p, i) + tokens_of_inst(x) =~= tokens_of_inst(x));
    } else {
        lemma_tokens_of_push(p, x, i + 1);
        assert(p.push(x)[i] == p[i]);
        assert(tokens_of_inst(p[i]) + (tokens_of_insts_from(p, i + 1) + tokens_of_inst(x)) =~= (
        tokens_of_inst(p[i]) + tokens_of_insts_from(p, i + 1)) + tokens_of_inst(x));
    }
}

proof fn lemma_scan_round_trip(
    t: Seq<Token>,
    i: int,
    depth: int,
    loop_start: int,
    acc: Seq<InstView>,
)
    requires
        0 <= i <= t.len(),
        depth >= 0,
        depth > 0 ==> 0 <= loop_start < i && t[loop_start] == Token::LoopBegin,
    ensures
        parse_scan(t, i, depth, loop_start, acc) matches Ok(p) ==> tokens_of_insts(p)
            == tokens_of_insts(acc) + (if depth == 0 {
            t.skip(i)
        } else {
            t.skip(loop_start)
        }),
    decreases t.len(), t.len() - i,
{
    if i >= t.len() {
        if depth == 0 {
            assert(tokens_of_insts(acc) + t.skip(i) =~= tokens_of_insts(acc));
        }
    } else {
        match t[i] {
            Token::LoopBegin => {
                if depth == 0 {
                    lemma_scan_round_trip(t, i + 1, 1, i, acc);
                } else {
                    lemma_scan_round_trip(t, i + 1, depth + 1, loop_start, acc);
                }
            },
            Token::LoopEnd => {
                if depth == 0 {
                    // parse fails; nothing to show
                } else if depth == 1 {
                    let sub = t.subrange(loop_start + 1, i);
                    lemma_scan_round_trip(sub, 0, 0, 0, Seq::empty());
                    if let Ok(body) = parse_scan(sub, 0, 0, 0, Seq::empty()) {
                        assert(tokens_of_insts(body) =~= tokens_of_insts(Seq::empty())
                            + sub.skip(0));
                        assert(tokens_of_insts(body) =~= sub);
                        let acc2 = acc.push(InstView::Loop(body));
                        lemma_tokens_of_push(acc, InstView::Loop(body), 0);
                        lemma_scan_round_trip(t, i + 1, 0, loop_start, acc2);
                        if let Ok(p) = parse_scan(t, i + 1, 0, loop_start, acc2) {
                            assert(tokens_of_insts(acc2) == tokens_of_insts(acc)
                                + tokens_of_inst(InstView::Loop(body)));
                            assert(t.skip(loop_start) =~= seq![Token::LoopBegin] + sub + seq![
                                Token::LoopEnd,
                            ] + t.skip(i + 1));
                            assert(tokens_of_insts(acc) + (seq![Token::LoopBegin] + sub + seq![
                                Token::LoopEnd,
                            ]) + t.skip(i + 1) =~= tokens_of_insts(acc) + t.skip(loop_start));
                        }
                    }
                } else {
                    lemma_scan_round_trip(t, i + 1, depth - 1, loop_start, acc);
                }
            },
            _ => {
                if depth == 0 {
                    let iv = (match t[i] {
                        Token::IncPointer => InstView::IncPointer,
                        Token::DecPointer => InstView::DecPointer,
                        Token::Inc => InstView::Inc,
                        Token::Dec => InstView::Dec,
                        Token::Write => InstView::Write,
                        Token::Read => InstView::Read,
                        _ => InstView::Inc,
                    });
                    assert(tokens_of_inst(iv) =~= seq![t[i]]);
                    lemma_tokens_of_push(acc, iv, 0);
                    lemma_scan_round_trip(t, i + 1, 0, loop_start, acc.push(iv));
                    if let Ok(p) = parse_scan(t, i + 1, 0, loop_start, acc.push(iv)) {
                        assert(t.skip(i) =~= seq![t[i]] + t.skip(i + 1));
                        assert(tokens_of_insts(acc) + seq![t[i]] + t.skip(i + 1)
                            =~= tokens_of_insts(acc) + t.skip(i));
                    }
                } else {
                    lemma_scan_round_trip(t, i + 1, depth, loop_start, acc);
                }
            },
        }
    }
}

/// Printing a parsed program back gives the token sequence unchanged:
/// every loop-begin has exactly one tree node, and that node's child
/// sequence covers exactly the tokens strictly between the loop-begin
/// and its matching loop-end.
pub proof fn lemma_parse_round_trip(t: Seq<Token>)
    ensures
        parse_spec(t) matches Ok(p) ==> tokens_of_insts(p) == t,
{
    lemma_scan_round_trip(t, 0, 0, 0, Seq::empty());
    if let Ok(p) = parse_spec(t) {
        assert(tokens_of_insts(Seq::empty()) + t.skip(0) =~= t);
    }
}

/// Whether a token is one of the six non-bracket commands.
pub open spec fn is_basic_token(tk: Token) -> bool {
    tk != Token::LoopBegin && tk != Token::LoopEnd
}

/// How many non-bracket tokens `t` holds from index `i` on.
pub open spec fn count_basic_from(t: Seq<Token>, i: int) -> nat
    decreases t.len() - i,
{
    if i < 0 || i >= t.len() {
        0
    } else {
        (if is_basic_token(t[i]) {
            1nat
        } else {
            0nat
        }) + count_basic_from(t, i + 1)
    }
}

/// How many loop-begin tokens `t` holds from index `i` on.
pub open spec fn count_begin_from(t: Seq<Token>, i: int) -> nat
    decreases t.len() - i,
{
    if i < 0 || i >= t.len() {
        0
    } else {
        (if t[i] == Token::LoopBegin {
            1nat
        } else {
            0nat
        }) + count_begin_from(t, i + 1)
    }
}

/// How many non-bracket tokens a token sequence holds.
pub open spec fn count_basic(t: Seq<Token>) -> nat {
    count_basic_from(t, 0)
}

/// How many loop-begin tokens a token sequence holds.
pub open spec fn count_begin(t: Seq<Token>) -> nat {
    count_begin_from(t, 0)
}

proof fn lemma_count_shift(a: Seq<Token>, b: Seq<Token>, k: int)
    requires
        0 <= k <= b.len(),
    ensures
        count_basic_from(a + b, a.len() + k) == count_basic_from(b, k),
        count_begin_from(a + b, a.len() + k) == count_begin_from(b, k),
    decreases b.len() - k,
{
    if k < b.len() {
        assert((a + b)[a.len() + k] == b[k]);
        lemma_count_shift(a, b, k + 1);
    }
}

proof fn lemma_count_concat(a: Seq<Token>, b: Seq<Token>, j: int)
    requires
        0 <= j <= a.len(),
    ensures
        count_basic_from(a + b, j) == count_basic_from(a, j) + count_basic(b),
        count_begin_from(a + b, j) == count_begin_from(a, j) + count_begin(b),
    decreases a.len() - j,
{
    if j == a.len() {
        lemma_count_shift(a, b, 0);
    } else {
        assert((a + b)[j] == a[j]);
        lemma_count_concat(a, b, j + 1);
    }
}

/// The number of tree nodes of one instruction, each loop node counted
/// once and its children counted for themselves.
pub open spec fn node_count_of(iv: InstView) -> nat
    decreases iv,
{
    match iv {
        InstView::Loop(body) => 1 + node_count_from(body, 0),
        _ => 1,
    }
}

/// The number of tree nodes of the instructions of `p` from `i` on.
pub open spec fn node_count_from(p: Seq<InstView>, i: int) -> nat
    decreases p, p.len() - i,
{
    if i < 0 || i >= p.len() {
        0
    } else {
        node_count_of(p[i]) + node_count_from(p, i + 1)
    }
}

/// The total number of tree nodes of an instruction sequence.
pub open spec fn node_count(p: Seq<InstView>) -> nat {
    node_count_from(p, 0)
}

proof fn lemma_node_count_inst(iv: InstView)
    ensures
        node_count_of(iv) == count_basic(tokens_of_inst(iv)) + count_begin(tokens_of_inst(iv)),
    decreases iv,
{
    reveal_with_fuel(count_basic_from, 3);
    reveal_with_fuel(count_begin_from, 3);
    match iv {
        InstView::Loop(body) => {
            lemma_node_count_seq(body, 0);
            let open_tok = seq![Token::LoopBegin];
            let close_tok = seq![Token::LoopEnd];
            let inner = tokens_of_insts_from(body, 0);
            lemma_count_concat(open_tok + inner, close_tok, 0);
            lemma_count_concat(open_tok, inner, 0);
            assert(tokens_of_inst(iv) == open_tok + inner + close_tok);
        },
        _ => {},
    }
}

proof fn lemma_node_count_seq(p: Seq<InstView>, i: int)
    requires
        0 <= i <= p.len(),
    ensures
        node_count_from(p, i) == count_basic(tokens_of_insts_from(p, i)) + count_begin(
            tokens_of_insts_from(p, i),
        ),
    decreases p, p.len() - i,
{
    if i >= p.len() {
    } else {
        lemma_node_count_inst(p[i]);
        lemma_node_count_seq(p, i + 1);
        lemma_count_concat(tokens_of_inst(p[i]), tokens_of_insts_from(p, i + 1), 0);
    }
}

/// A parsed program has exactly one tree node per non-bracket token
/// plus one per loop-begin token: each loop node counts once, and its
/// children count for their own tokens.
pub proof fn lemma_parse_node_count(t: Seq<Token>)
    ensures
        parse_spec(t) matches Ok(p) ==> node_count(p) == count_basic(t) + count_begin(t),
{
    lemma_parse_round_trip(t);
    if let Ok(p) = parse_spec(t) {
        lemma_node_count_seq(p, 0);
    }
}

/// Copies the tokens of `v` with index in `from .. to`.
fn subvec(v: &Vec<Token>, from: usize, to: usize) -> (r: Vec<Token>)
    requires
        from <= to <= v@.len(),
    ensures
        r@ == v@.subrange(from as int, to as int),
{
    let mut r: Vec<Token> = Vec::new();
    let mut k: usize = from;
    while k < to
        invariant
            from <= k <= to <= v@.len(),
            r@ == v@.subrange(from as int, k as int),
        decreases to - k,
    {
        r.push(v[k]);
        k = k + 1;
        proof {
            assert(v@.subrange(from as int, k as int) =~= v@.subrange(
                from as int,
                k as int - 1,
            ).push(v@[k as int - 1]));
        }
    }
    r
}

/// Builds the instruction tree of a token sequence, or reports the
/// first malformed bracket: a loop-end with no open loop, with its
/// index, or an unclosed loop-begin, with the index of the outermost
/// one.
pub fn parse(tokens: &Vec<Token>) -> (r: Result<Vec<Instruction>, ParseError>)
    ensures
        (r matches Ok(program) ==> parse_spec(tokens@) == Ok::<Seq<InstView>, ParseError>(
            view_insts(program@),
        )),
        (r matches Err(e) ==> parse_spec(tokens@) == Err::<Seq<InstView>, ParseError>(e)),
    decreases tokens@.len(),
{
    let mut program: Vec<Instruction> = Vec::new();
    let mut loop_stack: usize = 0;
    let mut loop_start: usize = 0;
    let n = tokens.len();
    let mut i: usize = 0;
    while i < n
        invariant
            n == tokens@.len(),
            i <= n,
            loop_stack <= i,
            loop_stack > 0 ==> loop_start < i,
            parse_scan(
                tokens@,
                i as int,
                loop_stack as int,
                loop_start as int,
                view_insts(program@),
            ) == parse_spec(tokens@),
        decreases n - i,
    {
        let ghost pre_insts = program@;
        let ghost pre = view_insts(program@);
        let t = tokens[i];
        if loop_stack == 0 {
            match t {
                Token::IncPointer => {
                    program.push(Instruction::IncPointer);
                    proof {
                        lemma_view_insts_push(pre_insts, Instruction::IncPointer);
                    }
                },
                Token::DecPointer => {
                    program.push(Instruction::DecPointer);
                    proof {
                        lemma_view_insts_push(pre_insts, Instruction::DecPointer);
                    }
                },
                Token::Inc => {
                    program.push(Instruction::Inc);
                    proof {
                        lemma_view_insts_push(pre_insts, Instruction::Inc);
                    }
                },
                Token::Dec => {
                    program.push(Instruction::Dec);
                    proof {
                        lemma_view_insts_push(pre_insts, Instruction::Dec);
                    }
                },
                Token::Write => {
                    program.push(Instruction::Write);
                    proof {
                        lemma_view_insts_push(pre_insts, Instruction::Write);
                    }
                },
                Token::Read => {
                    program.push(Instruction::Read);
                    proof {
                        lemma_view_insts_push(pre_insts, Instruction::Read);
                    }
                },
                Token::LoopBegin => {
                    loop_start = i;
                    loop_stack = 1;
                },
                Token::LoopEnd => {
                    return Err(ParseError::UnmatchedClose(i));
                },
            }
        } else {
            match t {
                Token::LoopBegin => {
                    loop_stack = loop_stack + 1;
                },
                Token::LoopEnd => {
                    loop_stack = loop_stack - 1;
                    if loop_stack == 0 {
                        let sub = subvec(tokens, loop_start + 1, i);
                        match parse(&sub) {
                            Ok(body) => {
                                proof {
                                    lemma_view_insts_push(
                                        program@,
                                        Instruction::Loop(body),
                                    );
                                }
                                let ghost bv = view_insts(body@);
                                program.push(Instruction::Loop(body));
                                proof {
                                    assert(view_insts(program@) == pre.push(
                                        InstView::Loop(bv),
                                    ));
                                }
                            },
                            Err(e) => {
                                return Err(e);
                            },
                        }
                    }
                },
                _ => {},
            }
        }
        i = i + 1;
    }
    if loop_stack != 0 {
        return Err(ParseError::UnmatchedOpen(loop_start));
    }
    Ok(program)
}

} // verus!
