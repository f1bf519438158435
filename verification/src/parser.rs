use vstd::prelude::*;

use crate::ast::{Program, SpecStmt, Statement, count_stmt, count_stmts, stmt_view, stmts_view};
use crate::lexer::{
    Lexer, LexerError, Token, accepted_char, lex_ok, reports_first_bad_char, token_seq,
};

verus! {

/// Errors of the parsing phase, strictly layered: a lexer failure is wrapped,
/// a close-loop token without an open scope and an open-loop token never
/// closed are reported structurally.
#[derive(Debug, PartialEq, Eq)]
pub enum ParseError {
    LexerFailure(LexerError),
    UnexpectedClosingBracket,
    UnclosedOpeningBracket,
}

/// Signed bracket contribution of one token: open-loop counts one, close-loop
/// counts minus one, every other token counts nothing.
pub open spec fn bracket_delta(t: Token) -> int {
    match t {
        Token::LeftBracket => 1,
        Token::RightBracket => -1,
        _ => 0,
    }
}

/// Open-loop minus close-loop tokens over a whole token sequence.
pub open spec fn bracket_excess(toks: Seq<Token>) -> int
    decreases toks.len(),
{
    if toks.len() == 0 {
        0
    } else {
        bracket_delta(toks[0]) + bracket_excess(toks.drop_first())
    }
}

/// Some prefix holds more close-loop than open-loop tokens.
pub open spec fn has_close_violation(toks: Seq<Token>) -> bool {
    exists|i: int| 0 <= i <= toks.len() && bracket_excess(#[trigger] toks.take(i)) < 0
}

/// Every open-loop token is matched: no prefix over-closes and the whole
/// sequence opens exactly as many loops as it closes.
pub open spec fn balanced(toks: Seq<Token>) -> bool {
    !has_close_violation(toks) && bracket_excess(toks) == 0
}

/// The statement denoted by a non-bracket token; meaningless on brackets,
/// which the parser handles structurally.
pub open spec fn token_stmt(t: Token) -> SpecStmt {
    match t {
        Token::GreaterThan => SpecStmt::IncPtr,
        Token::LessThan => SpecStmt::DecPtr,
        Token::Plus => SpecStmt::IncVal,
        Token::Minus => SpecStmt::DecVal,
        Token::Dot => SpecStmt::Output,
        Token::Comma => SpecStmt::Input,
        _ => SpecStmt::IncPtr,
    }
}

/// The bracket-matching parse, one token at a time, over a stack of open
/// scopes: one scope per nesting level, each holding the statements parsed so
/// far at that level, the bottom scope being the program body. A non-bracket
/// token is appended to the innermost scope; an open-loop token pushes a new
/// empty scope; a close-loop token pops the innermost scope and appends it to
/// its parent as one loop statement, and fails when only the bottom scope is
/// left. At the end of input, anything but the bottom scope alone means an
/// open-loop token was never closed. (The empty-stack case never arises: the
/// parse starts with the bottom scope and pushes more than it pops.)
pub open spec fn parse_tokens(toks: Seq<Token>, stack: Seq<Seq<SpecStmt>>) -> Result<
    Seq<SpecStmt>,
    ParseError,
>
    decreases toks.len(),
{
    if stack.len() == 0 {
        Err(ParseError::UnexpectedClosingBracket)
    } else if toks.len() == 0 {
        if stack.len() == 1 {
            Ok(stack[0])
        } else {
            Err(ParseError::UnclosedOpeningBracket)
        }
    } else {
        let t = toks[0];
        let rest = toks.drop_first();
        match t {
            Token::LeftBracket => parse_tokens(rest, stack.push(Seq::empty())),
            Token::RightBracket => {
                if stack.len() < 2 {
                    Err(ParseError::UnexpectedClosingBracket)
                } else {
                    let body = stack.last();
                    let popped = stack.drop_last();
                    parse_tokens(
                        rest,
                        popped.update(
                            popped.len() - 1,
                            popped.last().push(SpecStmt::Loop(body)),
                        ),
                    )
                }
            },
            _ => parse_tokens(
                rest,
                stack.update(stack.len() - 1, stack.last().push(token_stmt(t))),
            ),
        }
    }
}

/// The parse of a whole token sequence, started with the bottom scope alone.
pub open spec fn spec_parse(toks: Seq<Token>) -> Result<Seq<SpecStmt>, ParseError> {
    parse_tokens(toks, seq![Seq::<SpecStmt>::empty()])
}

/// The models of the scopes of an executable parser stack.
pub open spec fn abs_stack(stack: Seq<Vec<Statement>>) -> Seq<Seq<SpecStmt>> {
    stack.map(|i: int, v: Vec<Statement>| stmts_view(v@))
}

/// Appends one statement to the innermost scope.
fn push_top(stack: &mut Vec<Vec<Statement>>, s: Statement)
    requires
        old(stack)@.len() >= 1,
    ensures
        final(stack)@.len() == old(stack)@.len(),
        abs_stack(final(stack)@) == abs_stack(old(stack)@).update(
            old(stack)@.len() - 1,
            abs_stack(old(stack)@).last().push(stmt_view(s)),
        ),
{
    let ghost st0 = stack@;
    let mut top = stack.pop().unwrap();
    top.push(s);
    proof {
        crate::ast::lemma_stmts_view_push(st0.last()@, s);
    }
    stack.push(top);
    proof {
        assert(abs_stack(stack@) =~= abs_stack(st0).update(
            st0.len() - 1,
            abs_stack(st0).last().push(stmt_view(s)),
        ));
    }
}

/// Lexes the source and parses the token sequence by bracket matching: a
/// single left-to-right pass over the tokens, using a stack of open scopes.
/// Succeeds exactly when lexing succeeds and the brackets balance, and then
/// returns the program whose model the specification-level parse gives.
pub fn parse(source: &str) -> (r: Result<Program, ParseError>)
    ensures
        match r {
            Ok(prog) => lex_ok(source@) && spec_parse(token_seq(source@)) == Ok::<
                Seq<SpecStmt>,
                ParseError,
            >(stmts_view(prog.body@)),
            Err(e) => match e {
                ParseError::LexerFailure(le) => !lex_ok(source@) && reports_first_bad_char(
                    source@,
                    le,
                ),
                _ => lex_ok(source@) && spec_parse(token_seq(source@)) == Err::<
                    Seq<SpecStmt>,
                    ParseError,
                >(e),
            },
        },
{
    let lexer = match Lexer::new(source) {
        Ok(lx) => lx,
        Err(e) => {
            return Err(ParseError::LexerFailure(e));
        },
    };
    let toks = lexer.tokens;
    let ghost tseq = token_seq(source@);
    let mut stack: Vec<Vec<Statement>> = Vec::new();
    stack.push(Vec::new());
    proof {
        assert(tseq.skip(0) =~= tseq);
        assert(abs_stack(stack@) =~= seq![Seq::<SpecStmt>::empty()]);
    }
    let n = toks.len();
    let mut i: usize = 0;
    while i < n
        invariant
            lex_ok(source@),
            tseq == token_seq(source@),
            n == toks@.len(),
            toks@ == tseq,
            i <= n,
            stack@.len() >= 1,
            parse_tokens(tseq.skip(i as int), abs_stack(stack@)) == spec_parse(tseq),
        decreases n - i,
    {
        let ghost pre_rest = tseq.skip(i as int);
        let ghost old_abs = abs_stack(stack@);
        proof {
            assert(pre_rest.len() == n - i);
            assert(pre_rest[0] == tseq[i as int]);
            assert(pre_rest.drop_first() =~= tseq.skip(i as int + 1));
        }
        let t = toks[i];
        match t {
            Token::GreaterThan => push_top(&mut stack, Statement::IncPtrStmt),
            Token::LessThan => push_top(&mut stack, Statement::DecPtrStmt),
            Token::Plus => push_top(&mut stack, Statement::IncValStmt),
            Token::Minus => push_top(&mut stack, Statement::DecValStmt),
            Token::Dot => push_top(&mut stack, Statement::OutputStmt),
            Token::Comma => push_top(&mut stack, Statement::InputStmt),
            Token::LeftBracket => {
                stack.push(Vec::new());
                proof {
                    assert(stmts_view(Seq::<Statement>::empty()) =~= Seq::<SpecStmt>::empty());
                    assert(abs_stack(stack@) =~= old_abs.push(Seq::<SpecStmt>::empty()));
                }
            },
            Token::RightBracket => {
                if stack.len() < 2 {
                    proof {
                        assert(parse_tokens(pre_rest, old_abs) == Err::<Seq<SpecStmt>, ParseError>(
                            ParseError::UnexpectedClosingBracket,
                        ));
                    }
                    return Err(ParseError::UnexpectedClosingBracket);
                }
                let body = stack.pop().unwrap();
                proof {
                    assert(abs_stack(stack@) =~= old_abs.drop_last());
                    assert(stmts_view(body@) == old_abs.last());
                }
                push_top(&mut stack, Statement::BracketsStmt(body));
                proof {
                    assert(stmt_view(Statement::BracketsStmt(body)) == SpecStmt::Loop(
                        old_abs.last(),
                    ));
                    assert(abs_stack(stack@) == old_abs.drop_last().update(
                        old_abs.drop_last().len() - 1,
                        old_abs.drop_last().last().push(SpecStmt::Loop(old_abs.last())),
                    ));
                }
            },
        }
        proof {
            assert(parse_tokens(pre_rest, old_abs) == parse_tokens(
                tseq.skip(i as int + 1),
                abs_stack(stack@),
            ));
        }
        i = i + 1;
    }
    proof {
        assert(tseq.skip(n as int) =~= Seq::<Token>::empty());
    }
    if stack.len() > 1 {
        return Err(ParseError::UnclosedOpeningBracket);
    }
    let body = stack.pop().unwrap();
    Ok(Program { body })
}

/// Number of open-loop tokens.
pub open spec fn count_opens(toks: Seq<Token>) -> nat
    decreases toks.len(),
{
    if toks.len() == 0 {
        0
    } else {
        (if toks[0] is LeftBracket {
            1nat
        } else {
            0nat
        }) + count_opens(toks.drop_first())
    }
}

/// Number of close-loop tokens.
pub open spec fn count_closes(toks: Seq<Token>) -> nat
    decreases toks.len(),
{
    if toks.len() == 0 {
        0
    } else {
        (if toks[0] is RightBracket {
            1nat
        } else {
            0nat
        }) + count_closes(toks.drop_first())
    }
}

/// Number of non-bracket tokens.
pub open spec fn count_plain(toks: Seq<Token>) -> nat
    decreases toks.len(),
{
    if toks.len() == 0 {
        0
    } else {
        (if toks[0] is LeftBracket || toks[0] is RightBracket {
            0nat
        } else {
            1nat
        }) + count_plain(toks.drop_first())
    }
}

/// The bracket excess is opens minus closes.
pub proof fn lemma_excess_counts(toks: Seq<Token>)
    ensures
        bracket_excess(toks) == count_opens(toks) - count_closes(toks),
    decreases toks.len(),
{
    if toks.len() > 0 {
        lemma_excess_counts(toks.drop_first());
    }
}

/// Shifting one token off the front shifts every nonempty prefix.
proof fn lemma_excess_take_shift(toks: Seq<Token>, i: int)
    requires
        1 <= i <= toks.len(),
    ensures
        bracket_excess(toks.take(i)) == bracket_delta(toks[0]) + bracket_excess(
            toks.drop_first().take(i - 1),
        ),
{
    assert(toks.take(i)[0] == toks[0]);
    assert(toks.take(i).drop_first() =~= toks.drop_first().take(i - 1));
}

/// How the bracket-matching parse ends, for any starting stack: a prefix that
/// would pop past the bottom of the stack gives the unexpected-close error; a
/// final nesting depth above one gives the unclosed-open error; a final depth
/// of exactly one, never having popped past the bottom, succeeds.
proof fn lemma_parse_tokens_outcome(toks: Seq<Token>, stack: Seq<Seq<SpecStmt>>)
    requires
        stack.len() >= 1,
    ensures
        (exists|i: int|
            0 <= i <= toks.len() && bracket_excess(#[trigger] toks.take(i)) <= -(
            stack.len() as int)) ==> parse_tokens(toks, stack) == Err::<Seq<SpecStmt>, ParseError>(
            ParseError::UnexpectedClosingBracket,
        ),
        (forall|i: int|
            0 <= i <= toks.len() ==> bracket_excess(#[trigger] toks.take(i)) > -(
            stack.len() as int)) && stack.len() + bracket_excess(toks) > 1 ==> parse_tokens(
            toks,
            stack,
        ) == Err::<Seq<SpecStmt>, ParseError>(ParseError::UnclosedOpeningBracket),
        (forall|i: int|
            0 <= i <= toks.len() ==> bracket_excess(#[trigger] toks.take(i)) > -(
            stack.len() as int)) && stack.len() + bracket_excess(toks) == 1 ==> parse_tokens(
            toks,
            stack,
        ) is Ok,
    decreases toks.len(),
{
    if toks.len() == 0 {
        assert(toks.take(0) =~= toks);
    } else {
        let t = toks[0];
        let rest = toks.drop_first();
        let d = bracket_delta(t);
        assert(toks.take(0) =~= Seq::<Token>::empty());
        assert(toks.take(1).drop_first() =~= Seq::<Token>::empty());
        assert(toks.take(1)[0] == t);
        assert(toks.take(1).len() == 1);
        assert(bracket_excess(Seq::<Token>::empty()) == 0);
        assert(bracket_excess(toks.take(1)) == bracket_delta(toks.take(1)[0]) + bracket_excess(
            toks.take(1).drop_first(),
        ));
        assert(bracket_excess(toks.take(1)) == d);
        if t is RightBracket && stack.len() == 1 {
            // the parse fails at once, and the one-token prefix witnesses it
            assert(bracket_excess(toks.take(1)) <= -(stack.len() as int));
        } else {
            let next = if t is LeftBracket {
                stack.push(Seq::<SpecStmt>::empty())
            } else if t is RightBracket {
                let popped = stack.drop_last();
                popped.update(popped.len() - 1, popped.last().push(SpecStmt::Loop(stack.last())))
            } else {
                stack.update(stack.len() - 1, stack.last().push(token_stmt(t)))
            };
            assert(next.len() == stack.len() + d);
            assert(parse_tokens(toks, stack) == parse_tokens(rest, next));
            lemma_parse_tokens_outcome(rest, next);
            // each prefix of `rest` corresponds to a one-longer prefix of `toks`
            assert forall|i: int| 0 <= i <= rest.len() implies bracket_excess(
                #[trigger] rest.take(i),
            ) == bracket_excess(toks.take(i + 1)) - d by {
                lemma_excess_take_shift(toks, i + 1);
            }
            if exists|i: int|
                0 <= i <= toks.len() && bracket_excess(#[trigger] toks.take(i)) <= -(
                stack.len() as int) {
                let i = choose|i: int|
                    0 <= i <= toks.len() && bracket_excess(#[trigger] toks.take(i)) <= -(
                    stack.len() as int);
                assert(i >= 1);
                assert(bracket_excess(rest.take(i - 1)) <= -(next.len() as int));
            }
            if forall|i: int|
                0 <= i <= toks.len() ==> bracket_excess(#[trigger] toks.take(i)) > -(
                stack.len() as int) {
                assert forall|i: int| 0 <= i <= rest.len() implies bracket_excess(
                    #[trigger] rest.take(i),
                ) > -(next.len() as int) by {
                    assert(bracket_excess(toks.take(i + 1)) > -(stack.len() as int));
                }
            }
        }
    }
}

/// Total statement count over the scopes of a parser stack.
pub open spec fn stack_count(stack: Seq<Seq<SpecStmt>>) -> nat
    decreases stack.len(),
{
    if stack.len() == 0 {
        0
    } else {
        count_stmts(stack[0]) + stack_count(stack.drop_first())
    }
}

/// Pushing one scope adds its count.
proof fn lemma_stack_count_push(stack: Seq<Seq<SpecStmt>>, v: Seq<SpecStmt>)
    ensures
        stack_count(stack.push(v)) == stack_count(stack) + count_stmts(v),
    decreases stack.len(),
{
    assert(stack_count(stack.push(v)) == count_stmts(stack.push(v)[0]) + stack_count(
        stack.push(v).drop_first(),
    ));
    if stack.len() == 0 {
        assert(stack.push(v)[0] == v);
        assert(stack.push(v).drop_first() =~= Seq::<Seq<SpecStmt>>::empty());
        assert(stack_count(Seq::<Seq<SpecStmt>>::empty()) == 0);
    } else {
        assert(stack.push(v)[0] == stack[0]);
        assert(stack.push(v).drop_first() =~= stack.drop_first().push(v));
        lemma_stack_count_push(stack.drop_first(), v);
    }
}

/// What a successful parse counts: every statement on the stack, every
/// non-bracket token still to come, and every close-loop token still to come
/// (each of which wraps one scope into one loop node).
proof fn lemma_parse_tokens_count(toks: Seq<Token>, stack: Seq<Seq<SpecStmt>>)
    requires
        stack.len() >= 1,
        parse_tokens(toks, stack) is Ok,
    ensures
        count_stmts(parse_tokens(toks, stack)->Ok_0) == stack_count(stack) + count_plain(toks)
            + count_closes(toks),
    decreases toks.len(),
{
    if toks.len() == 0 {
        assert(stack.drop_first() =~= Seq::<Seq<SpecStmt>>::empty());
        assert(stack_count(Seq::<Seq<SpecStmt>>::empty()) == 0);
    } else {
        let t = toks[0];
        let rest = toks.drop_first();
        assert(count_plain(toks) == (if toks[0] is LeftBracket || toks[0] is RightBracket {
            0nat
        } else {
            1nat
        }) + count_plain(rest));
        assert(count_closes(toks) == (if toks[0] is RightBracket {
            1nat
        } else {
            0nat
        }) + count_closes(rest));
        if t is LeftBracket {
            let next = stack.push(Seq::<SpecStmt>::empty());
            lemma_stack_count_push(stack, Seq::<SpecStmt>::empty());
            assert(count_stmts(Seq::<SpecStmt>::empty()) == 0);
            assert(stack_count(next) == stack_count(stack));
            lemma_parse_tokens_count(rest, next);
        } else if t is RightBracket {
            let popped = stack.drop_last();
            let folded = popped.last().push(SpecStmt::Loop(stack.last()));
            let next = popped.update(popped.len() - 1, folded);
            assert(next =~= popped.drop_last().push(folded));
            assert(popped =~= popped.drop_last().push(popped.last()));
            assert(stack =~= popped.push(stack.last()));
            lemma_stack_count_push(popped.drop_last(), folded);
            lemma_stack_count_push(popped.drop_last(), popped.last());
            lemma_stack_count_push(popped, stack.last());
            crate::ast::lemma_count_stmts_push(popped.last(), SpecStmt::Loop(stack.last()));
            assert(count_stmt(SpecStmt::Loop(stack.last())) == 1 + count_stmts(stack.last()));
            assert(stack_count(next) == stack_count(stack) + 1);
            lemma_parse_tokens_count(rest, next);
        } else {
            let folded = stack.last().push(token_stmt(t));
            let next = stack.update(stack.len() - 1, folded);
            assert(next =~= stack.drop_last().push(folded));
            assert(stack =~= stack.drop_last().push(stack.last()));
            lemma_stack_count_push(stack.drop_last(), folded);
            lemma_stack_count_push(stack.drop_last(), stack.last());
            crate::ast::lemma_count_stmts_push(stack.last(), token_stmt(t));
            assert(count_stmt(token_stmt(t)) == 1);
            assert(stack_count(next) == stack_count(stack) + 1);
            lemma_parse_tokens_count(rest, next);
        }
    }
}

/// A lexable source whose brackets balance parses successfully, and the
/// program's statement count — counting nested loop bodies recursively —
/// equals its number of non-bracket tokens plus its number of matched bracket
/// pairs, which is one per open-loop token.
pub proof fn lemma_balanced_source_parses(s: Seq<char>)
    requires
        forall|i: int| 0 <= i < s.len() ==> accepted_char(#[trigger] s[i]),
        balanced(token_seq(s)),
    ensures
        spec_parse(token_seq(s)) is Ok,
        count_stmts(spec_parse(token_seq(s))->Ok_0) == count_plain(token_seq(s)) + count_opens(
            token_seq(s),
        ),
{
    let toks = token_seq(s);
    let init = seq![Seq::<SpecStmt>::empty()];
    lemma_parse_tokens_outcome(toks, init);
    assert forall|i: int| 0 <= i <= toks.len() implies bracket_excess(#[trigger] toks.take(i)) > -(
    init.len() as int) by {
        assert(!(bracket_excess(toks.take(i)) < 0));
    }
    assert(toks.take(toks.len() as int) =~= toks);
    lemma_parse_tokens_count(toks, init);
    assert(init.drop_first() =~= Seq::<Seq<SpecStmt>>::empty());
    assert(stack_count(Seq::<Seq<SpecStmt>>::empty()) == 0);
    assert(count_stmts(init[0]) == 0);
    assert(stack_count(init) == count_stmts(init[0]) + stack_count(init.drop_first()));
    assert(stack_count(init) == 0);
    lemma_excess_counts(toks);
}

/// A lexable source with, at some point, more close-loop than open-loop
/// tokens parses to the unexpected-closing-bracket error.
pub proof fn lemma_excess_close_rejected(s: Seq<char>)
    requires
        forall|i: int| 0 <= i < s.len() ==> accepted_char(#[trigger] s[i]),
        exists|i: int|
            0 <= i <= token_seq(s).len() && count_closes(#[trigger] token_seq(s).take(i))
                > count_opens(token_seq(s).take(i)),
    ensures
        spec_parse(token_seq(s)) == Err::<Seq<SpecStmt>, ParseError>(
            ParseError::UnexpectedClosingBracket,
        ),
{
    let toks = token_seq(s);
    let init = seq![Seq::<SpecStmt>::empty()];
    let i = choose|i: int|
        0 <= i <= toks.len() && count_closes(#[trigger] toks.take(i)) > count_opens(toks.take(i));
    lemma_excess_counts(toks.take(i));
    assert(bracket_excess(toks.take(i)) <= -(init.len() as int));
    lemma_parse_tokens_outcome(toks, init);
}

/// A lexable source that opens more loops than it closes, never over-closing
/// along the way, parses to the unclosed-opening-bracket error.
pub proof fn lemma_unclosed_open_rejected(s: Seq<char>)
    requires
        forall|i: int| 0 <= i < s.len() ==> accepted_char(#[trigger] s[i]),
        forall|i: int|
            0 <= i <= token_seq(s).len() ==> count_closes(#[trigger] token_seq(s).take(i))
                <= count_opens(token_seq(s).take(i)),
        count_opens(token_seq(s)) > count_closes(token_seq(s)),
    ensures
        spec_parse(token_seq(s)) == Err::<Seq<SpecStmt>, ParseError>(
            ParseError::UnclosedOpeningBracket,
        ),
{
    let toks = token_seq(s);
    let init = seq![Seq::<SpecStmt>::empty()];
    lemma_parse_tokens_outcome(toks, init);
    assert forall|i: int| 0 <= i <= toks.len() implies bracket_excess(#[trigger] toks.take(i)) > -(
    init.len() as int) by {
        lemma_excess_counts(toks.take(i));
    }
    lemma_excess_counts(toks);
}

/// The parse of a token sequence succeeds exactly when its brackets balance:
/// no prefix closes more loops than it opened, and every opened loop closes.
pub proof fn lemma_parse_succeeds_iff_balanced(toks: Seq<Token>)
    ensures
        spec_parse(toks) is Ok <==> balanced(toks),
{
    let init = seq![Seq::<SpecStmt>::empty()];
    lemma_parse_tokens_outcome(toks, init);
    assert(toks.take(toks.len() as int) =~= toks);
    if balanced(toks) {
        assert forall|i: int| 0 <= i <= toks.len() implies bracket_excess(
            #[trigger] toks.take(i),
        ) > -(init.len() as int) by {
            assert(!(bracket_excess(toks.take(i)) < 0));
        }
        assert(spec_parse(toks) is Ok);
    }
    if spec_parse(toks) is Ok {
        if has_close_violation(toks) {
            let i = choose|i: int|
                0 <= i <= toks.len() && bracket_excess(#[trigger] toks.take(i)) < 0;
            assert(bracket_excess(toks.take(i)) <= -(init.len() as int));
            assert(false);
        }
        if bracket_excess(toks) != 0 {
            assert(bracket_excess(toks.take(toks.len() as int)) >= 0);
            assert(init.len() + bracket_excess(toks) > 1);
            assert(false);
        }
    }
}

/// Parsing is deterministic, so parsing the same source twice yields
/// structurally equal trees: the contract of `parse` pins each program's
/// model to `spec_parse` of the source's tokens, and the model is the whole
/// structure of the tree.
pub proof fn lemma_parse_idempotent(s: Seq<char>, p1: Program, p2: Program)
    requires
        spec_parse(token_seq(s)) == Ok::<Seq<SpecStmt>, ParseError>(stmts_view(p1.body@)),
        spec_parse(token_seq(s)) == Ok::<Seq<SpecStmt>, ParseError>(stmts_view(p2.body@)),
    ensures
        stmts_view(p1.body@) == stmts_view(p2.body@),
{
}

} // verus!
