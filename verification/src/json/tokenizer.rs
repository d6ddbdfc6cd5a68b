//! Splits JSON text into tokens.
//!
//! The tokenizer reads the text one character at a time. Strings run from
//! a quote to the next unescaped quote; a backslash escapes the next
//! character (`\n` stands for a newline). Literals (bools, numbers, null)
//! are maximal runs of the characters `a`-`z`, `0`-`9`, `-`, `+`, `.` and
//! `E`. A literal may not run straight into `{`: an object that starts
//! right after a literal, with no separator, is an error (the comma is
//! missing). Whitespace separates tokens; any other character is
//! punctuation or an error. Lines count from 0 and columns from 1.
use crate::json::errors::{JSONError, SpecJSONError};
use crate::json::structs::{tokens_view, JSONToken, SpecToken, SpecTokenData, TokenMetaData};
use vstd::prelude::*;

verus! {

/// Characters that make up literals.
pub open spec fn is_literal_char(c: char) -> bool {
    ('a' <= c && c <= 'z') || ('0' <= c && c <= '9') || c == '-' || c == '+' || c == '.' || c
        == 'E'
}

/// The character that an escaped `c` stands for.
pub open spec fn escaped_char(c: char) -> char {
    if c == 'n' {
        '\n'
    } else {
        c
    }
}

/// The characters with the Unicode `White_Space` property.
pub open spec fn is_white_space(c: char) -> bool {
    let n = c as u32;
    ||| 0x09 <= n <= 0x0D
    ||| n == 0x20
    ||| n == 0x85
    ||| n == 0xA0
    ||| n == 0x1680
    ||| 0x2000 <= n <= 0x200A
    ||| n == 0x2028
    ||| n == 0x2029
    ||| n == 0x202F
    ||| n == 0x205F
    ||| n == 0x3000
}

/// The token that a punctuation character stands for.
pub open spec fn punctuation(c: char) -> Option<SpecToken> {
    if c == '[' {
        Some(SpecToken::BracketOpen)
    } else if c == ']' {
        Some(SpecToken::BracketClose)
    } else if c == '{' {
        Some(SpecToken::CurlyOpen)
    } else if c == '}' {
        Some(SpecToken::CurlyClose)
    } else if c == ':' {
        Some(SpecToken::Colon)
    } else if c == ',' {
        Some(SpecToken::Comma)
    } else {
        None
    }
}

/// The state of the tokenizer between two characters.
pub struct LexState {
    pub in_quotes: bool,
    pub escaped: bool,
    pub is_literal: bool,
    /// Position of the last character read.
    pub line: int,
    pub col: int,
    /// Position where the pending string or literal starts.
    pub cur_line: int,
    pub cur_col: int,
    /// The pending string or literal.
    pub cur: Seq<char>,
    pub tokens: Seq<SpecTokenData>,
}

pub open spec fn lex_initial() -> LexState {
    LexState {
        in_quotes: false,
        escaped: false,
        is_literal: false,
        line: 0,
        col: 0,
        cur_line: 0,
        cur_col: 0,
        cur: Seq::empty(),
        tokens: Seq::empty(),
    }
}

/// Reads `c` outside a string and outside a literal.
pub open spec fn lex_start(s: LexState, c: char) -> Result<LexState, SpecJSONError> {
    if is_literal_char(c) {
        Ok(LexState { cur_line: s.line, cur_col: s.col, is_literal: true, cur: seq![c], ..s })
    } else if c == '"' {
        Ok(LexState { cur_line: s.line, cur_col: s.col, in_quotes: true, cur: Seq::empty(), ..s })
    } else if is_white_space(c) {
        Ok(s)
    } else {
        match punctuation(c) {
            Some(t) => Ok(
                LexState {
                    tokens: s.tokens.push(SpecTokenData { line: s.line, col: s.col, token: t }),
                    ..s
                },
            ),
            None => Err(
                SpecJSONError::TokenizerError {
                    message: "Invalid char: "@ + seq![c],
                    line: s.line,
                    col: s.col,
                },
            ),
        }
    }
}

/// Reads one character.
pub open spec fn lex_step(s0: LexState, c: char) -> Result<LexState, SpecJSONError> {
    let s = if c == '\n' {
        LexState { line: s0.line + 1, col: 0, ..s0 }
    } else {
        LexState { col: s0.col + 1, ..s0 }
    };
    if s.in_quotes {
        if s.escaped {
            Ok(LexState { cur: s.cur.push(escaped_char(c)), escaped: false, ..s })
        } else if c == '"' {
            Ok(
                LexState {
                    tokens: s.tokens.push(
                        SpecTokenData {
                            line: s.cur_line,
                            col: s.cur_col,
                            token: SpecToken::Str(s.cur),
                        },
                    ),
                    cur: Seq::empty(),
                    in_quotes: false,
                    ..s
                },
            )
        } else if c == '\\' {
            Ok(LexState { escaped: true, ..s })
        } else {
            Ok(LexState { cur: s.cur.push(c), ..s })
        }
    } else if s.is_literal {
        if is_literal_char(c) {
            Ok(LexState { cur: s.cur.push(c), ..s })
        } else if c == '{' {
            Err(
                SpecJSONError::TokenizerError {
                    message: "Invalid char: "@ + seq![c],
                    line: s.line,
                    col: s.col,
                },
            )
        } else {
            lex_start(
                LexState {
                    tokens: s.tokens.push(
                        SpecTokenData {
                            line: s.cur_line,
                            col: s.cur_col,
                            token: SpecToken::Literal(s.cur),
                        },
                    ),
                    cur: Seq::empty(),
                    is_literal: false,
                    ..s
                },
                c,
            )
        }
    } else {
        lex_start(s, c)
    }
}

/// Reads all of `chars`, stopping at the first error.
pub open spec fn lex_run(chars: Seq<char>) -> Result<LexState, SpecJSONError>
    decreases chars.len(),
{
    if chars.len() == 0 {
        Ok(lex_initial())
    } else {
        match lex_run(chars.drop_last()) {
            Ok(s) => lex_step(s, chars.last()),
            Err(e) => Err(e),
        }
    }
}

/// Ends the text: a pending literal becomes a token, a pending string is an
/// error.
pub open spec fn lex_finish(s: LexState) -> Result<Seq<SpecTokenData>, SpecJSONError> {
    if s.cur.len() > 0 {
        if s.in_quotes {
            Err(
                SpecJSONError::TokenizerError {
                    message: "Unclosed string"@,
                    line: s.cur_line,
                    col: s.cur_col,
                },
            )
        } else if s.is_literal {
            Ok(
                s.tokens.push(
                    SpecTokenData {
                        line: s.cur_line,
                        col: s.cur_col,
                        token: SpecToken::Literal(s.cur),
                    },
                ),
            )
        } else {
            Err(
                SpecJSONError::TokenizerError {
                    message: "Unknown parsing error"@,
                    line: s.line,
                    col: s.col,
                },
            )
        }
    } else {
        Ok(s.tokens)
    }
}

/// The tokens of a text, or the error that stops the tokenizer.
pub open spec fn tokenize_spec(chars: Seq<char>) -> Result<Seq<SpecTokenData>, SpecJSONError> {
    match lex_run(chars) {
        Ok(s) => lex_finish(s),
        Err(e) => Err(e),
    }
}

/// Whether `c` has the Unicode `White_Space` property, as `char::is_whitespace`
/// decides.
fn char_is_whitespace(c: char) -> (r: bool)
    ensures
        r == is_white_space(c),
{
    let n = c as u32;
    (0x09 <= n && n <= 0x0D) || n == 0x20 || n == 0x85 || n == 0xA0 || n == 0x1680 || (0x2000
        <= n && n <= 0x200A) || n == 0x2028 || n == 0x2029 || n == 0x202F || n == 0x205F || n
        == 0x3000
}

/// `String::push`, which appends one character.
#[verifier::external_body]
fn push_char(s: &mut String, c: char)
    ensures
        final(s)@ == old(s)@.push(c),
{
    s.push(c)
}

fn is_valid_literal_char(c: char) -> (r: bool)
    ensures
        r == is_literal_char(c),
{
    ('a' <= c && c <= 'z') || ('0' <= c && c <= '9') || c == '-' || c == '+' || c == '.' || c
        == 'E'
}

fn get_escaped_char(c: char) -> (r: char)
    ensures
        r == escaped_char(c),
{
    match c {
        'n' => '\n',
        _ => c,
    }
}

/// Once the tokenizer has stopped with an error, the rest of the text does
/// not change the error.
proof fn lemma_lex_run_error_persists(chars: Seq<char>, k: int)
    requires
        0 <= k <= chars.len(),
        lex_run(chars.take(k)) is Err,
    ensures
        lex_run(chars) == lex_run(chars.take(k)),
    decreases chars.len() - k,
{
    if k < chars.len() {
        assert(chars.take(k + 1).drop_last() =~= chars.take(k));
        lemma_lex_run_error_persists(chars, k + 1);
    } else {
        assert(chars.take(k) =~= chars);
    }
}

proof fn lemma_tokens_view_push(ts: Seq<TokenMetaData>, t: TokenMetaData)
    ensures
        tokens_view(ts.push(t)) == tokens_view(ts).push(t@),
{
    assert(tokens_view(ts.push(t)) =~= tokens_view(ts).push(t@));
}

/// Tokenize the raw text into JSON tokens.
pub fn tokenize(raw: &str) -> (r: Result<Vec<TokenMetaData>, JSONError>)
    requires
        raw@.len() <= i32::MAX,
    ensures
        match r {
            Ok(ts) => tokenize_spec(raw@) == Ok::<_, SpecJSONError>(tokens_view(ts@)),
            Err(e) => tokenize_spec(raw@) == Err::<Seq<SpecTokenData>, _>(e@),
        },
{
    let mut in_quotes = false;
    let mut escaped = false;
    let mut is_literal = false;
    let mut line: i32 = 0;
    let mut col: i32 = 0;
    let mut cur_line: i32 = 0;
    let mut cur_col: i32 = 0;
    let mut cur = String::new();
    let mut tokens: Vec<TokenMetaData> = Vec::new();
    let ghost chars = raw@;
    let mut n: usize = 0;
    assert(chars.take(0) =~= Seq::<char>::empty());
    assert(tokens_view(tokens@) =~= Seq::<SpecTokenData>::empty());
    assert(cur@ =~= Seq::<char>::empty());
    for c in it: raw.chars()
        invariant
            chars == raw@,
            chars.len() <= i32::MAX,
            it.seq() == chars,
            n == it.index(),
            0 <= line <= n,
            0 <= col <= n,
            0 <= cur_line <= n,
            0 <= cur_col <= n,
            lex_run(chars.take(n as int)) == Ok::<_, SpecJSONError>(
                LexState {
                    in_quotes,
                    escaped,
                    is_literal,
                    line: line as int,
                    col: col as int,
                    cur_line: cur_line as int,
                    cur_col: cur_col as int,
                    cur: cur@,
                    tokens: tokens_view(tokens@),
                },
            ),
    {
        assert(chars.take(n + 1).drop_last() =~= chars.take(n as int));
        assert(chars.take(n + 1).last() == c);
        if c == '\n' {
            line = line + 1;
            col = 0;
        } else {
            col = col + 1;
        }
        let mut start = false;
        if in_quotes {
            if escaped {
                push_char(&mut cur, get_escaped_char(c));
                escaped = false;
            } else if c == '"' {
                let s = cur;
                cur = String::new();
                let t = TokenMetaData { line: cur_line, col: cur_col, token: JSONToken::String(s) };
                proof {
                    lemma_tokens_view_push(tokens@, t);
                }
                tokens.push(t);
                in_quotes = false;
            } else if c == '\\' {
                escaped = true;
            } else {
                push_char(&mut cur, c);
            }
        } else if is_literal {
            if is_valid_literal_char(c) {
                push_char(&mut cur, c);
            } else if c == '{' {
                let mut message = String::from_str("Invalid char: ");
                push_char(&mut message, c);
                proof {
                    reveal_strlit("Invalid char: ");
                }
                assert(message@ =~= "Invalid char: "@ + seq![c]);
                assert(lex_run(chars.take(n + 1)) is Err);
                proof {
                    lemma_lex_run_error_persists(chars, n + 1);
                }
                return Err(JSONError::TokenizerError { message, line, col });
            } else {
                let s = cur;
                cur = String::new();
                let t = TokenMetaData { line: cur_line, col: cur_col, token: JSONToken::Literal(s) };
                proof {
                    lemma_tokens_view_push(tokens@, t);
                }
                tokens.push(t);
                is_literal = false;
                start = true;
            }
        } else {
            start = true;
        }
        if start {
            if is_valid_literal_char(c) {
                cur_line = line;
                cur_col = col;
                is_literal = true;
                cur = String::new();
                push_char(&mut cur, c);
                assert(cur@ =~= seq![c]);
            } else if c == '"' {
                cur_line = line;
                cur_col = col;
                in_quotes = true;
                cur = String::new();
            } else if char_is_whitespace(c) {
            } else {
                let token = match c {
                    '[' => JSONToken::BracketOpen,
                    ']' => JSONToken::BracketClose,
                    '{' => JSONToken::CurlyOpen,
                    '}' => JSONToken::CurlyClose,
                    ':' => JSONToken::Colon,
                    ',' => JSONToken::Comma,
                    _ => {
                        let mut message = String::from_str("Invalid char: ");
                        push_char(&mut message, c);
                        proof {
                            reveal_strlit("Invalid char: ");
                        }
                        assert(message@ =~= "Invalid char: "@ + seq![c]);
                        assert(lex_run(chars.take(n + 1)) is Err);
                        proof {
                            lemma_lex_run_error_persists(chars, n + 1);
                        }
                        return Err(JSONError::TokenizerError { message, line, col });
                    },
                };
                let t = TokenMetaData { line, col, token };
                proof {
                    lemma_tokens_view_push(tokens@, t);
                }
                tokens.push(t);
            }
        }
        n = n + 1;
    }
    assert(chars.take(n as int) =~= chars);
    if !cur.as_str().is_empty() {
        if in_quotes {
            Err(
                JSONError::TokenizerError {
                    message: String::from_str("Unclosed string"),
                    line: cur_line,
                    col: cur_col,
                },
            )
        } else if is_literal {
            let t = TokenMetaData { line: cur_line, col: cur_col, token: JSONToken::Literal(cur) };
            proof {
                lemma_tokens_view_push(tokens@, t);
            }
            tokens.push(t);
            Ok(tokens)
        } else {
            Err(
                JSONError::TokenizerError {
                    line,
                    col,
                    message: String::from_str("Unknown parsing error"),
                },
            )
        }
    } else {
        Ok(tokens)
    }
}

/// Between tokens: not inside a string, a literal or an escape.
pub open spec fn between_tokens(s: LexState) -> bool {
    !s.in_quotes && !s.is_literal && !s.escaped
}

/// Reading an opening quote between tokens and then `x`, which holds no
/// quote and no backslash, leaves the tokenizer inside a string that holds
/// the first `k` characters of `x`, with the tokens as they were.
proof fn lemma_lex_string_body(a: Seq<char>, x: Seq<char>, k: int)
    requires
        lex_run(a) is Ok,
        between_tokens(lex_run(a)->Ok_0),
        0 <= k <= x.len(),
        forall|i: int| 0 <= i < x.len() ==> x[i] != '"' && x[i] != '\\',
    ensures
        ({
            let s0 = lex_run(a)->Ok_0;
            let c = a + seq!['"'] + x;
            &&& lex_run(c.take(a.len() + 1 + k)) is Ok
            &&& lex_run(c.take(a.len() + 1 + k))->Ok_0.in_quotes
            &&& !lex_run(c.take(a.len() + 1 + k))->Ok_0.escaped
            &&& !lex_run(c.take(a.len() + 1 + k))->Ok_0.is_literal
            &&& lex_run(c.take(a.len() + 1 + k))->Ok_0.cur == x.take(k)
            &&& lex_run(c.take(a.len() + 1 + k))->Ok_0.tokens == s0.tokens
            &&& lex_run(c.take(a.len() + 1 + k))->Ok_0.cur_line == s0.line
            &&& lex_run(c.take(a.len() + 1 + k))->Ok_0.cur_col == s0.col + 1
        }),
    decreases k,
{
    let c = a + seq!['"'] + x;
    let n = a.len() + 1 + k;
    if k == 0 {
        assert(c.take(n).drop_last() =~= a);
        assert(c.take(n).last() == '"');
        assert(x.take(0) =~= Seq::<char>::empty());
    } else {
        lemma_lex_string_body(a, x, k - 1);
        assert(c.take(n).drop_last() =~= c.take(n - 1));
        assert(c.take(n).last() == x[k - 1]);
        assert(x.take(k) =~= x.take(k - 1).push(x[k - 1]));
    }
}

/// A string literal read between tokens, with no quote or backslash inside,
/// adds exactly one string token, holding its text (empty or not) at the
/// position of its opening quote, and ends between tokens again.
pub proof fn lemma_lex_string_token(a: Seq<char>, x: Seq<char>)
    requires
        lex_run(a) is Ok,
        between_tokens(lex_run(a)->Ok_0),
        forall|i: int| 0 <= i < x.len() ==> x[i] != '"' && x[i] != '\\',
    ensures
        ({
            let s0 = lex_run(a)->Ok_0;
            let t = a + seq!['"'] + x + seq!['"'];
            &&& lex_run(t) is Ok
            &&& between_tokens(lex_run(t)->Ok_0)
            &&& lex_run(t)->Ok_0.cur.len() == 0
            &&& lex_run(t)->Ok_0.tokens == s0.tokens.push(
                SpecTokenData { line: s0.line, col: s0.col + 1, token: SpecToken::Str(x) },
            )
        }),
{
    let c = a + seq!['"'] + x;
    let t = c + seq!['"'];
    lemma_lex_string_body(a, x, x.len() as int);
    assert(c.take((a.len() + 1 + x.len()) as int) =~= c);
    assert(x.take(x.len() as int) =~= x);
    assert(t.drop_last() =~= c);
}

/// A text that is one string literal, with no quote or backslash inside,
/// gives exactly one string token, even when the string is empty.
pub proof fn lemma_tokenize_single_string(x: Seq<char>)
    requires
        forall|i: int| 0 <= i < x.len() ==> x[i] != '"' && x[i] != '\\',
    ensures
        tokenize_spec(seq!['"'] + x + seq!['"']) == Ok::<_, SpecJSONError>(
            seq![SpecTokenData { line: 0, col: 1, token: SpecToken::Str(x) }],
        ),
{
    let e = Seq::<char>::empty();
    assert(lex_run(e) == Ok::<_, SpecJSONError>(lex_initial()));
    lemma_lex_string_token(e, x);
    assert(e + seq!['"'] + x + seq!['"'] =~= seq!['"'] + x + seq!['"']);
    assert(Seq::<SpecTokenData>::empty().push(
        SpecTokenData { line: 0, col: 1, token: SpecToken::Str(x) },
    ) =~= seq![SpecTokenData { line: 0, col: 1, token: SpecToken::Str(x) }]);
}

} // verus!
