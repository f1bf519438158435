use vstd::prelude::*;
use vstd::string::StrSliceExecFns;

verus! {

/// One token per recognized source symbol, in source order.
#[derive(Debug, PartialEq, Eq, Clone, Copy)]
pub enum Token {
    GreaterThan,
    LessThan,
    Plus,
    Minus,
    Dot,
    Comma,
    LeftBracket,
    RightBracket,
}

/// Reported when the source holds a character that is neither one of the
/// eight instruction symbols nor whitespace. `position` is the zero-based
/// character offset of the offending character; lexing is fail-fast, so the
/// first such character (scanning left to right) is the one reported.
#[derive(Debug, PartialEq, Eq)]
pub struct LexerError {
    pub message: String,
    pub position: usize,
}

/// Holds a source text together with its token sequence.
pub struct Lexer<'a> {
    pub source: &'a str,
    pub tokens: Vec<Token>,
}

/// The eight instruction symbols.
pub open spec fn is_symbol(c: char) -> bool {
    c == '>' || c == '<' || c == '+' || c == '-' || c == '.' || c == ',' || c == '[' || c == ']'
}

/// Whitespace: skipped silently, contributing no token.
pub open spec fn is_skipped(c: char) -> bool {
    c == ' ' || c == '\t' || c == '\n' || c == '\r'
}

/// A character the lexer accepts: an instruction symbol or whitespace.
pub open spec fn accepted_char(c: char) -> bool {
    is_symbol(c) || is_skipped(c)
}

/// Lexing succeeds exactly when every character is accepted.
pub open spec fn lex_ok(s: Seq<char>) -> bool {
    forall|i: int| 0 <= i < s.len() ==> accepted_char(#[trigger] s[i])
}

/// The token denoted by an instruction symbol.
pub open spec fn char_token(c: char) -> Token {
    if c == '>' {
        Token::GreaterThan
    } else if c == '<' {
        Token::LessThan
    } else if c == '+' {
        Token::Plus
    } else if c == '-' {
        Token::Minus
    } else if c == '.' {
        Token::Dot
    } else if c == ',' {
        Token::Comma
    } else if c == '[' {
        Token::LeftBracket
    } else {
        Token::RightBracket
    }
}

/// The token sequence of a source text: its instruction symbols, in order,
/// with whitespace contributing nothing. Meaningful when `lex_ok` holds.
pub open spec fn token_seq(s: Seq<char>) -> Seq<Token>
    decreases s.len(),
{
    if s.len() == 0 {
        Seq::empty()
    } else {
        token_seq(s.drop_last()) + (if is_symbol(s.last()) {
            seq![char_token(s.last())]
        } else {
            Seq::empty()
        })
    }
}

/// Holds when `e` reports the first unaccepted character of `s`.
pub open spec fn reports_first_bad_char(s: Seq<char>, e: LexerError) -> bool {
    &&& e.position < s.len()
    &&& !accepted_char(s[e.position as int])
    &&& forall|j: int| 0 <= j < e.position ==> accepted_char(#[trigger] s[j])
}

/// Relies on the `format!` macro of std to render the offending character
/// into the diagnostic text; the contract claims nothing of the text.
#[verifier::external_body]
fn unexpected_token_message(c: char) -> String {
    format!("unexpected token '{}'", c)
}

/// Maps every instruction symbol to its token, skips whitespace, and fails
/// on the first character that is neither, reporting its offset.
pub fn tokenize(source: &str) -> (r: Result<Vec<Token>, LexerError>)
    ensures
        match r {
            Ok(tokens) => lex_ok(source@) && tokens@ == token_seq(source@),
            Err(e) => !lex_ok(source@) && reports_first_bad_char(source@, e),
        },
{
    let n = source.unicode_len();
    let mut tokens: Vec<Token> = Vec::new();
    let mut i: usize = 0;
    while i < n
        invariant
            n == source@.len(),
            i <= n,
            tokens@ == token_seq(source@.take(i as int)),
            forall|j: int| 0 <= j < i ==> accepted_char(#[trigger] source@[j]),
        decreases n - i,
    {
        let c = source.get_char(i);
        if c == '>' {
            tokens.push(Token::GreaterThan);
        } else if c == '<' {
            tokens.push(Token::LessThan);
        } else if c == '+' {
            tokens.push(Token::Plus);
        } else if c == '-' {
            tokens.push(Token::Minus);
        } else if c == '.' {
            tokens.push(Token::Dot);
        } else if c == ',' {
            tokens.push(Token::Comma);
        } else if c == '[' {
            tokens.push(Token::LeftBracket);
        } else if c == ']' {
            tokens.push(Token::RightBracket);
        } else if c == ' ' || c == '\t' || c == '\n' || c == '\r' {
            // whitespace: no token
        } else {
            let e = LexerError { message: unexpected_token_message(c), position: i };
            assert(!accepted_char(source@[i as int]));
            return Err(e);
        }
        proof {
            let pre = source@.take(i as int);
            let cur = source@.take(i + 1 as int);
            assert(cur.drop_last() =~= pre);
            assert(cur.last() == source@[i as int]);
            if is_symbol(source@[i as int]) {
                assert(tokens@ =~= token_seq(pre) + seq![char_token(source@[i as int])]);
            } else {
                assert(token_seq(cur) =~= token_seq(pre));
            }
        }
        i = i + 1;
    }
    proof {
        assert(source@.take(n as int) =~= source@);
    }
    Ok(tokens)
}

impl<'a> Lexer<'a> {
    /// Tokenizes `source` eagerly; on success the `tokens` field holds the
    /// full token sequence of the source.
    pub fn new(source: &'a str) -> (r: Result<Lexer<'a>, LexerError>)
        ensures
            match r {
                Ok(lx) => lx.source@ == source@ && lex_ok(source@) && lx.tokens@ == token_seq(
                    source@,
                ),
                Err(e) => !lex_ok(source@) && reports_first_bad_char(source@, e),
            },
    {
        match tokenize(source) {
            Ok(tokens) => Ok(Lexer { source, tokens }),
            Err(e) => Err(e),
        }
    }
}

} // verus!
