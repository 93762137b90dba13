//! The COSY lexer: characters to tokens with positions.
use vstd::prelude::*;
use crate::text::{push_char, str_eq};

verus! {

/// A lexical token.
#[derive(Debug, Clone, PartialEq)]
pub enum Token {
    LeftBrace,
    RightBrace,
    LeftBracket,
    RightBracket,
    Colon,
    Comma,
    Newline,
    Null,
    True,
    False,
    Integer(i64),
    /// A float literal, held as the text it was written with.
    Float(String),
    String(String),
    Identifier(String),
    /// The text of a `//` comment, without the slashes and surrounding blanks.
    Comment(String),
    Eof,
}

/// Mathematical model of a token.
pub enum Tok {
    LeftBrace,
    RightBrace,
    LeftBracket,
    RightBracket,
    Colon,
    Comma,
    Newline,
    Null,
    True,
    False,
    Integer(i64),
    Float(Seq<char>),
    Str(Seq<char>),
    Ident(Seq<char>),
    Comment(Seq<char>),
    Eof,
}

impl View for Token {
    type V = Tok;

    open spec fn view(&self) -> Tok {
        match self {
            Token::LeftBrace => Tok::LeftBrace,
            Token::RightBrace => Tok::RightBrace,
            Token::LeftBracket => Tok::LeftBracket,
            Token::RightBracket => Tok::RightBracket,
            Token::Colon => Tok::Colon,
            Token::Comma => Tok::Comma,
            Token::Newline => Tok::Newline,
            Token::Null => Tok::Null,
            Token::True => Tok::True,
            Token::False => Tok::False,
            Token::Integer(i) => Tok::Integer(*i),
            Token::Float(t) => Tok::Float(t@),
            Token::String(s) => Tok::Str(s@),
            Token::Identifier(s) => Tok::Ident(s@),
            Token::Comment(s) => Tok::Comment(s@),
            Token::Eof => Tok::Eof,
        }
    }
}

/// A line and column, both counted from 1.
#[derive(Debug, Clone, Copy, PartialEq)]
pub struct Position {
    pub line: usize,
    pub column: usize,
}

impl Position {
    pub fn new(line: usize, column: usize) -> (p: Position)
        ensures
            p.line == line,
            p.column == column,
    {
        Position { line, column }
    }
}

/// A token and the position where it starts.
#[derive(Debug, Clone, PartialEq)]
pub struct TokenWithPos {
    pub token: Token,
    pub pos: Position,
}

impl TokenWithPos {
    pub fn new(token: Token, pos: Position) -> (t: TokenWithPos)
        ensures
            t.token == token,
            t.pos == pos,
    {
        TokenWithPos { token, pos }
    }
}

/// A lexical error with its position.
#[derive(Debug, Clone, PartialEq)]
pub struct LexError {
    pub message: String,
    pub line: usize,
    pub column: usize,
}

pub open spec fn is_digit(c: char) -> bool {
    '0' <= c && c <= '9'
}

pub open spec fn is_ident_start(c: char) -> bool {
    ('a' <= c && c <= 'z') || ('A' <= c && c <= 'Z') || c == '_'
}

pub open spec fn is_ident_char(c: char) -> bool {
    is_ident_start(c) || is_digit(c)
}

pub open spec fn is_blank(c: char) -> bool {
    c == ' ' || c == '\t' || c == '\r'
}

/// The line of the character at index `i` (counted from 1).
pub open spec fn line_at(cs: Seq<char>, i: int) -> int
    decreases i,
{
    if i <= 0 {
        1
    } else {
        line_at(cs, i - 1) + (if cs[i - 1] == '\n' {
            1int
        } else {
            0int
        })
    }
}

/// The column of the character at index `i` (counted from 1).
pub open spec fn col_at(cs: Seq<char>, i: int) -> int
    decreases i,
{
    if i <= 0 {
        1
    } else if cs[i - 1] == '\n' {
        1
    } else {
        col_at(cs, i - 1) + 1
    }
}

pub proof fn lemma_pos_bounds(cs: Seq<char>, i: int)
    requires
        0 <= i,
    ensures
        1 <= line_at(cs, i) <= i + 1,
        1 <= col_at(cs, i) <= i + 1,
    decreases i,
{
    if i > 0 {
        lemma_pos_bounds(cs, i - 1);
    }
}

/// The end of the run of digits starting at `j`.
pub open spec fn digits_end(cs: Seq<char>, j: int) -> int
    decreases cs.len() - j,
{
    if 0 <= j < cs.len() && is_digit(cs[j]) {
        digits_end(cs, j + 1)
    } else {
        j
    }
}

/// The value of a sequence of decimal digits.
pub open spec fn digits_value(s: Seq<char>) -> nat
    decreases s.len(),
{
    if s.len() == 0 {
        0
    } else {
        digits_value(s.drop_last()) * 10 + ((s.last() as nat) - ('0' as nat)) as nat
    }
}

pub proof fn lemma_digits_end(cs: Seq<char>, j: int)
    requires
        0 <= j <= cs.len(),
    ensures
        j <= digits_end(cs, j) <= cs.len(),
        forall|k: int| j <= k < digits_end(cs, j) ==> is_digit(#[trigger] cs[k]),
        digits_end(cs, j) < cs.len() ==> !is_digit(cs[digits_end(cs, j)]),
    decreases cs.len() - j,
{
    if j < cs.len() && is_digit(cs[j]) {
        lemma_digits_end(cs, j + 1);
    }
}

/// Outcome of scanning one token.
pub enum Scan {
    /// The token and the index just past it.
    Done(Tok, int),
    /// An error message and the index it refers to.
    Fail(Seq<char>, int),
}

/// Scan a number starting at `i` (a `-` or a digit).
///
/// `-`? digits, then optionally `.` digits, then optionally `e`/`E`, a sign
/// and digits. With a fraction or an exponent it is a float, kept as its
/// text; otherwise an integer, which must fit in 64 signed bits.
pub open spec fn scan_number(cs: Seq<char>, i: int) -> Scan {
    let neg = cs[i] == '-';
    let j0 = if neg {
        i + 1
    } else {
        i
    };
    let d1 = digits_end(cs, j0);
    if d1 == j0 {
        Scan::Fail("Invalid number: expected a digit"@, j0)
    } else {
        let has_frac = d1 < cs.len() && cs[d1] == '.';
        let d2 = if has_frac {
            digits_end(cs, d1 + 1)
        } else {
            d1
        };
        if has_frac && d2 == d1 + 1 {
            Scan::Fail("Invalid number: expected a digit after '.'"@, d1 + 1)
        } else {
            let has_exp = d2 < cs.len() && (cs[d2] == 'e' || cs[d2] == 'E');
            let k = if has_exp {
                if d2 + 1 < cs.len() && (cs[d2 + 1] == '+' || cs[d2 + 1] == '-') {
                    d2 + 2
                } else {
                    d2 + 1
                }
            } else {
                d2
            };
            let d3 = if has_exp {
                digits_end(cs, k)
            } else {
                d2
            };
            if has_exp && d3 == k {
                Scan::Fail("Invalid number: expected a digit in the exponent"@, k)
            } else if has_frac || has_exp {
                Scan::Done(Tok::Float(cs.subrange(i, d3)), d3)
            } else {
                let mag = digits_value(cs.subrange(j0, d1));
                let v: int = if neg {
                    -mag
                } else {
                    mag as int
                };
                if i64::MIN <= v && v <= i64::MAX {
                    Scan::Done(Tok::Integer(v as i64), d1)
                } else {
                    Scan::Fail("Integer out of range"@, i)
                }
            }
        }
    }
}

/// The index of the first character at or after `j` that is not a digit.
fn skip_digits(cs: &Vec<char>, j: usize) -> (r: usize)
    requires
        j <= cs@.len(),
    ensures
        r == digits_end(cs@, j as int),
{
    proof {
        lemma_digits_end(cs@, j as int);
    }
    let mut k = j;
    while k < cs.len() && '0' <= cs[k] && cs[k] <= '9'
        invariant
            j <= k <= cs@.len(),
            digits_end(cs@, k as int) == digits_end(cs@, j as int),
        decreases cs@.len() - k,
    {
        k = k + 1;
    }
    k
}

/// The value of the digits `cs[a..b]`, or `None` when it exceeds `limit`.
fn digits_to_u64(cs: &Vec<char>, a: usize, b: usize, limit: u64) -> (r: Option<u64>)
    requires
        a <= b <= cs@.len(),
        forall|k: int| a <= k < b ==> is_digit(#[trigger] cs@[k]),
    ensures
        match r {
            Some(v) => v == digits_value(cs@.subrange(a as int, b as int)) && v <= limit,
            None => digits_value(cs@.subrange(a as int, b as int)) > limit,
        },
{
    let mut acc: u64 = 0;
    let mut k = a;
    assert(cs@.subrange(a as int, a as int) =~= Seq::<char>::empty());
    while k < b
        invariant
            a <= k <= b <= cs@.len(),
            forall|m: int| a <= m < b ==> is_digit(#[trigger] cs@[m]),
            acc == digits_value(cs@.subrange(a as int, k as int)),
            acc <= limit,
        decreases b - k,
    {
        let d = (cs[k] as u32 - '0' as u32) as u64;
        assert(cs@.subrange(a as int, k + 1).drop_last() =~= cs@.subrange(a as int, k as int));
        assert(cs@.subrange(a as int, k + 1).last() == cs@[k as int]);
        if d > limit || acc > (limit - d) / 10 {
            proof {
                lemma_digits_monotone(cs@.subrange(a as int, b as int), (k + 1 - a) as int);
                assert(cs@.subrange(a as int, b as int).take((k + 1 - a) as int) =~= cs@.subrange(
                    a as int,
                    k + 1,
                ));
            }
            return None;
        }
        acc = acc * 10 + d;
        k = k + 1;
    }
    Some(acc)
}

pub proof fn lemma_digits_monotone(s: Seq<char>, n: int)
    requires
        0 <= n <= s.len(),
        forall|k: int| 0 <= k < s.len() ==> is_digit(#[trigger] s[k]),
    ensures
        digits_value(s.take(n)) <= digits_value(s),
    decreases s.len() - n,
{
    if n < s.len() {
        lemma_digits_monotone(s, n + 1);
        assert(s.take(n + 1).drop_last() =~= s.take(n));
    } else {
        assert(s.take(n) =~= s);
    }
}

} // verus!

verus! {

/// Whether an exec scan result agrees with a scan in the model.
pub open spec fn scan_agrees(r: Result<(Token, usize), (String, usize)>, s: Scan) -> bool {
    match r {
        Ok((t, j)) => s matches Scan::Done(st, sj) && t@ == st && j == sj,
        Err((m, j)) => s matches Scan::Fail(sm, sj) && m@ == sm && j == sj,
    }
}

fn scan_number_at(cs: &Vec<char>, i: usize) -> (r: Result<(Token, usize), (String, usize)>)
    requires
        i < cs@.len(),
        cs@[i as int] == '-' || is_digit(cs@[i as int]),
    ensures
        scan_agrees(r, scan_number(cs@, i as int)),
{
    let n = cs.len();
    let neg = cs[i] == '-';
    let j0 = if neg { i + 1 } else { i };
    let d1 = skip_digits(cs, j0);
    proof {
        lemma_digits_end(cs@, j0 as int);
    }
    if d1 == j0 {
        return Err((String::from_str("Invalid number: expected a digit"), j0));
    }
    let has_frac = d1 < cs.len() && cs[d1] == '.';
    let d2 = if has_frac { skip_digits(cs, d1 + 1) } else { d1 };
    if has_frac && d2 == d1 + 1 {
        return Err((String::from_str("Invalid number: expected a digit after '.'"), d1 + 1));
    }
    proof {
        if has_frac {
            lemma_digits_end(cs@, d1 + 1);
        }
    }
    let has_exp = d2 < cs.len() && (cs[d2] == 'e' || cs[d2] == 'E');
    let k = if has_exp {
        if d2 + 1 < cs.len() && (cs[d2 + 1] == '+' || cs[d2 + 1] == '-') {
            d2 + 2
        } else {
            d2 + 1
        }
    } else {
        d2
    };
    let d3 = if has_exp { skip_digits(cs, k) } else { d2 };
    proof {
        if has_exp {
            lemma_digits_end(cs@, k as int);
        }
    }
    if has_exp && d3 == k {
        return Err((String::from_str("Invalid number: expected a digit in the exponent"), k));
    }
    if has_frac || has_exp {
        return Ok((Token::Float(crate::text::string_from(cs, i, d3)), d3));
    }
    let limit: u64 = if neg { 9223372036854775808u64 } else { 9223372036854775807u64 };
    match digits_to_u64(cs, j0, d1, limit) {
        Some(mag) => {
            let v: i64 = if neg {
                if mag == 9223372036854775808u64 {
                    i64::MIN
                } else {
                    -(mag as i64)
                }
            } else {
                mag as i64
            };
            Ok((Token::Integer(v), d1))
        },
        None => Err((String::from_str("Integer out of range"), i)),
    }
}

} // verus!

verus! {

/// The value of the first binding of `name` in `env`.
pub open spec fn env_lookup(env: Seq<(Seq<char>, Seq<char>)>, name: Seq<char>) -> Option<Seq<char>>
    decreases env.len(),
{
    if env.len() == 0 {
        None
    } else if env[0].0 == name {
        Some(env[0].1)
    } else {
        env_lookup(env.drop_first(), name)
    }
}

/// The model of an environment given as name/value pairs.
pub open spec fn env_model(env: Seq<(String, String)>) -> Seq<(Seq<char>, Seq<char>)> {
    env.map_values(|p: (String, String)| (p.0@, p.1@))
}

/// The character an escape sequence `\c` stands for.
pub open spec fn escape_of(c: char) -> Option<char> {
    if c == 'n' {
        Some('\n')
    } else if c == 't' {
        Some('\t')
    } else if c == 'r' {
        Some('\r')
    } else if c == '\\' {
        Some('\\')
    } else if c == '"' {
        Some('"')
    } else if c == '$' {
        Some('$')
    } else {
        None
    }
}

/// The index of the first `}` at or after `j`, or the length.
pub open spec fn brace_end(cs: Seq<char>, j: int) -> int
    decreases cs.len() - j,
{
    if 0 <= j < cs.len() && cs[j] != '}' {
        brace_end(cs, j + 1)
    } else {
        j
    }
}

/// The index of the first newline at or after `j`, or the length.
pub open spec fn line_end(cs: Seq<char>, j: int) -> int
    decreases cs.len() - j,
{
    if 0 <= j < cs.len() && cs[j] != '\n' {
        line_end(cs, j + 1)
    } else {
        j
    }
}

/// The end of the run of identifier characters starting at `j`.
pub open spec fn ident_end(cs: Seq<char>, j: int) -> int
    decreases cs.len() - j,
{
    if 0 <= j < cs.len() && is_ident_char(cs[j]) {
        ident_end(cs, j + 1)
    } else {
        j
    }
}

pub proof fn lemma_brace_end(cs: Seq<char>, j: int)
    requires
        0 <= j <= cs.len(),
    ensures
        j <= brace_end(cs, j) <= cs.len(),
        brace_end(cs, j) < cs.len() ==> cs[brace_end(cs, j)] == '}',
    decreases cs.len() - j,
{
    if j < cs.len() && cs[j] != '}' {
        lemma_brace_end(cs, j + 1);
    }
}

pub proof fn lemma_line_end(cs: Seq<char>, j: int)
    requires
        0 <= j <= cs.len(),
    ensures
        j <= line_end(cs, j) <= cs.len(),
    decreases cs.len() - j,
{
    if j < cs.len() && cs[j] != '\n' {
        lemma_line_end(cs, j + 1);
    }
}

pub proof fn lemma_ident_end(cs: Seq<char>, j: int)
    requires
        0 <= j <= cs.len(),
    ensures
        j <= ident_end(cs, j) <= cs.len(),
    decreases cs.len() - j,
{
    if j < cs.len() && is_ident_char(cs[j]) {
        lemma_ident_end(cs, j + 1);
    }
}

/// Blanks removed from the front.
pub open spec fn trim_front(s: Seq<char>) -> Seq<char>
    decreases s.len(),
{
    if s.len() > 0 && is_blank(s[0]) {
        trim_front(s.drop_first())
    } else {
        s
    }
}

/// Blanks removed from the back.
pub open spec fn trim_back(s: Seq<char>) -> Seq<char>
    decreases s.len(),
{
    if s.len() > 0 && is_blank(s.last()) {
        trim_back(s.drop_last())
    } else {
        s
    }
}

/// Scan the rest of a string literal whose opening quote is at `start`;
/// `acc` holds the characters decoded so far and `j` is the next index.
pub open spec fn scan_string_body(
    cs: Seq<char>,
    env: Seq<(Seq<char>, Seq<char>)>,
    start: int,
    j: int,
    acc: Seq<char>,
) -> Scan
    decreases cs.len() - j,
{
    if j < 0 || j >= cs.len() {
        Scan::Fail("Unterminated string"@, start)
    } else if cs[j] == '"' {
        Scan::Done(Tok::Str(acc), j + 1)
    } else if cs[j] == '\\' {
        if j + 1 >= cs.len() {
            Scan::Fail("Unterminated string"@, start)
        } else {
            match escape_of(cs[j + 1]) {
                Some(e) => scan_string_body(cs, env, start, j + 2, acc.push(e)),
                None => Scan::Fail("Invalid escape sequence '\\"@.push(cs[j + 1]) + "'"@, j),
            }
        }
    } else if cs[j] == '$' && j + 1 < cs.len() && cs[j + 1] == '{' {
        let e = brace_end(cs, j + 2);
        if e >= cs.len() {
            Scan::Fail("Unterminated environment variable reference"@, j)
        } else {
            let name = cs.subrange(j + 2, e);
            match env_lookup(env, name) {
                Some(val) => if e + 1 > j {
                    scan_string_body(cs, env, start, e + 1, acc + val)
                } else {
                    Scan::Fail("Unterminated environment variable reference"@, j)
                },
                None => Scan::Fail("Environment variable '"@ + name + "' not found"@, j),
            }
        }
    } else {
        scan_string_body(cs, env, start, j + 1, acc.push(cs[j]))
    }
}

/// The token an environment variable's value stands for when it is written
/// outside a string: a number, a boolean, or else the text itself.
pub open spec fn infer_env_token(val: Seq<char>) -> Tok {
    if val == "true"@ {
        Tok::True
    } else if val == "false"@ {
        Tok::False
    } else if val.len() > 0 && (val[0] == '-' || is_digit(val[0])) && (scan_number(val, 0) matches Scan::Done(
        t,
        end,
    ) && end == val.len()) {
        match scan_number(val, 0) {
            Scan::Done(t, _) => t,
            _ => Tok::Str(val),
        }
    } else {
        Tok::Str(val)
    }
}

/// Scan the token that starts with the character at `i` (not a blank).
pub open spec fn scan_token(cs: Seq<char>, env: Seq<(Seq<char>, Seq<char>)>, i: int) -> Scan {
    let c = cs[i];
    if c == '\n' {
        Scan::Done(Tok::Newline, i + 1)
    } else if c == '{' {
        Scan::Done(Tok::LeftBrace, i + 1)
    } else if c == '}' {
        Scan::Done(Tok::RightBrace, i + 1)
    } else if c == '[' {
        Scan::Done(Tok::LeftBracket, i + 1)
    } else if c == ']' {
        Scan::Done(Tok::RightBracket, i + 1)
    } else if c == ':' {
        Scan::Done(Tok::Colon, i + 1)
    } else if c == ',' {
        Scan::Done(Tok::Comma, i + 1)
    } else if c == '/' && i + 1 < cs.len() && cs[i + 1] == '/' {
        let e = line_end(cs, i + 2);
        Scan::Done(Tok::Comment(trim_back(trim_front(cs.subrange(i + 2, e)))), e)
    } else if c == '"' {
        scan_string_body(cs, env, i, i + 1, Seq::empty())
    } else if c == '-' || is_digit(c) {
        scan_number(cs, i)
    } else if is_ident_start(c) {
        let e = ident_end(cs, i);
        let w = cs.subrange(i, e);
        if w == "null"@ {
            Scan::Done(Tok::Null, e)
        } else if w == "true"@ {
            Scan::Done(Tok::True, e)
        } else if w == "false"@ {
            Scan::Done(Tok::False, e)
        } else {
            Scan::Done(Tok::Ident(w), e)
        }
    } else if c == '$' && i + 1 < cs.len() && cs[i + 1] == '{' {
        let e = brace_end(cs, i + 2);
        if e >= cs.len() {
            Scan::Fail("Unterminated environment variable reference"@, i)
        } else {
            let name = cs.subrange(i + 2, e);
            match env_lookup(env, name) {
                Some(val) => Scan::Done(infer_env_token(val), e + 1),
                None => Scan::Fail("Environment variable '"@ + name + "' not found"@, i),
            }
        }
    } else {
        Scan::Fail("Unexpected character '"@.push(c) + "'"@, i)
    }
}

/// Tokens (each with the index where it starts) of `cs` from index `i` on,
/// ending with `Eof`; or the first error's message and index.
pub open spec fn lex_from(cs: Seq<char>, env: Seq<(Seq<char>, Seq<char>)>, i: int) -> Result<
    Seq<(Tok, int)>,
    (Seq<char>, int),
>
    decreases cs.len() - i,
{
    if i < 0 || i >= cs.len() {
        Ok(seq![(Tok::Eof, cs.len() as int)])
    } else if is_blank(cs[i]) {
        lex_from(cs, env, i + 1)
    } else {
        match scan_token(cs, env, i) {
            Scan::Done(t, j) => if i < j <= cs.len() {
                match lex_from(cs, env, j) {
                    Ok(rest) => Ok(seq![(t, i)] + rest),
                    Err(e) => Err(e),
                }
            } else {
                Err(("Internal lexer error"@, i))
            },
            Scan::Fail(m, k) => Err((m, k)),
        }
    }
}

/// The tokens of the whole input, or the first error.
pub open spec fn lex(cs: Seq<char>, env: Seq<(Seq<char>, Seq<char>)>) -> Result<
    Seq<(Tok, int)>,
    (Seq<char>, int),
> {
    if cs.len() >= usize::MAX {
        Err(("Input too long"@, 0))
    } else {
        lex_from(cs, env, 0)
    }
}

} // verus!

verus! {

/// Whether `c` is an ASCII letter, an ASCII digit or `_`.
pub open spec fn word_char(c: char) -> bool {
    ('a' <= c && c <= 'z') || ('A' <= c && c <= 'Z') || ('0' <= c && c <= '9') || c == '_'
}

proof fn lemma_ident_run(cs: Seq<char>, j: int, e: int)
    requires
        0 <= j <= e <= cs.len(),
        forall|m: int| j <= m < e ==> word_char(#[trigger] cs[m]),
        e == cs.len() || !word_char(cs[e]),
    ensures
        ident_end(cs, j) == e,
    decreases e - j,
{
    if j < e {
        lemma_ident_run(cs, j + 1, e);
    }
}

/// An identifier runs to the first character that is not an ASCII letter,
/// digit or `_`: a word that starts with a letter or `_` and is not a
/// keyword lexes as one identifier token holding the whole word, followed by
/// the tokens of the rest of the text.
pub proof fn lemma_lex_identifier(cs: Seq<char>, env: Seq<(Seq<char>, Seq<char>)>, i: int, e: int)
    requires
        0 <= i < e <= cs.len(),
        ('a' <= cs[i] && cs[i] <= 'z') || ('A' <= cs[i] && cs[i] <= 'Z') || cs[i] == '_',
        forall|m: int| i <= m < e ==> word_char(#[trigger] cs[m]),
        e == cs.len() || !word_char(cs[e]),
        cs.subrange(i, e) != "null"@,
        cs.subrange(i, e) != "true"@,
        cs.subrange(i, e) != "false"@,
    ensures
        lex_from(cs, env, i) == match lex_from(cs, env, e) {
            Ok(rest) => Ok(seq![(Tok::Ident(cs.subrange(i, e)), i)] + rest),
            Err(x) => Err(x),
        },
{
    lemma_ident_run(cs, i, e);
}

/// A whole text that is one such word lexes as exactly that identifier.
pub proof fn lemma_lex_word(w: Seq<char>, env: Seq<(Seq<char>, Seq<char>)>)
    requires
        0 < w.len() < usize::MAX,
        ('a' <= w[0] && w[0] <= 'z') || ('A' <= w[0] && w[0] <= 'Z') || w[0] == '_',
        forall|m: int| 0 <= m < w.len() ==> word_char(#[trigger] w[m]),
        w != "null"@,
        w != "true"@,
        w != "false"@,
    ensures
        lex(w, env) == Ok::<Seq<(Tok, int)>, (Seq<char>, int)>(
            seq![(Tok::Ident(w), 0int), (Tok::Eof, w.len() as int)],
        ),
{
    assert(w.subrange(0, w.len() as int) =~= w);
    lemma_lex_identifier(w, env, 0, w.len() as int);
    assert(seq![(Tok::Ident(w), 0int)] + seq![(Tok::Eof, w.len() as int)] =~= seq![
        (Tok::Ident(w), 0int),
        (Tok::Eof, w.len() as int),
    ]);
}

pub proof fn lemma_scan_number_progress(cs: Seq<char>, i: int)
    requires
        0 <= i < cs.len(),
        cs[i] == '-' || is_digit(cs[i]),
    ensures
        scan_number(cs, i) matches Scan::Done(_, e) ==> i < e <= cs.len(),
        scan_number(cs, i) matches Scan::Fail(_, k) ==> i <= k <= cs.len(),
{
    let j0 = if cs[i] == '-' { i + 1 } else { i };
    lemma_digits_end(cs, j0);
    let d1 = digits_end(cs, j0);
    if d1 < cs.len() && cs[d1] == '.' {
        lemma_digits_end(cs, d1 + 1);
    }
    let has_frac = d1 < cs.len() && cs[d1] == '.';
    let d2 = if has_frac { digits_end(cs, d1 + 1) } else { d1 };
    if d2 < cs.len() && (cs[d2] == 'e' || cs[d2] == 'E') {
        if d2 + 1 < cs.len() && (cs[d2 + 1] == '+' || cs[d2 + 1] == '-') {
            lemma_digits_end(cs, d2 + 2);
        } else {
            lemma_digits_end(cs, d2 + 1);
        }
    }
}

pub proof fn lemma_scan_string_progress(
    cs: Seq<char>,
    env: Seq<(Seq<char>, Seq<char>)>,
    start: int,
    j: int,
    acc: Seq<char>,
)
    requires
        0 <= start < j,
        start < cs.len(),
    ensures
        scan_string_body(cs, env, start, j, acc) matches Scan::Done(_, e) ==> j < e <= cs.len(),
        scan_string_body(cs, env, start, j, acc) matches Scan::Fail(_, k) ==> start <= k <= cs.len(),
    decreases cs.len() - j,
{
    if j < cs.len() {
        if cs[j] == '"' {
        } else if cs[j] == '\\' {
            if j + 1 < cs.len() {
                if let Some(e) = escape_of(cs[j + 1]) {
                    lemma_scan_string_progress(cs, env, start, j + 2, acc.push(e));
                }
            }
        } else if cs[j] == '$' && j + 1 < cs.len() && cs[j + 1] == '{' {
            lemma_brace_end(cs, j + 2);
            let e = brace_end(cs, j + 2);
            if e < cs.len() {
                let name = cs.subrange(j + 2, e);
                if let Some(val) = env_lookup(env, name) {
                    lemma_scan_string_progress(cs, env, start, e + 1, acc + val);
                }
            }
        } else {
            lemma_scan_string_progress(cs, env, start, j + 1, acc.push(cs[j]));
        }
    }
}

pub proof fn lemma_scan_token_progress(cs: Seq<char>, env: Seq<(Seq<char>, Seq<char>)>, i: int)
    requires
        0 <= i < cs.len(),
    ensures
        scan_token(cs, env, i) matches Scan::Done(_, e) ==> i < e <= cs.len(),
        scan_token(cs, env, i) matches Scan::Fail(_, k) ==> i <= k <= cs.len(),
{
    let c = cs[i];
    if c == '/' && i + 1 < cs.len() && cs[i + 1] == '/' {
        lemma_line_end(cs, i + 2);
    } else if c == '"' {
        lemma_scan_string_progress(cs, env, i, i + 1, Seq::empty());
    } else if c == '-' || is_digit(c) {
        lemma_scan_number_progress(cs, i);
    } else if is_ident_start(c) {
        lemma_ident_end(cs, i + 1);
        assert(ident_end(cs, i) == ident_end(cs, i + 1));
    } else if c == '$' && i + 1 < cs.len() && cs[i + 1] == '{' {
        lemma_brace_end(cs, i + 2);
    }
}

/// The value bound to `name` in `env` (first binding wins).
pub fn lookup_env<'a>(env: &'a Vec<(String, String)>, name: &String) -> (r: Option<&'a String>)
    ensures
        match env_lookup(env_model(env@), name@) {
            Some(v) => r matches Some(s) && s@ == v,
            None => r is None,
        },
{
    let ghost m = env_model(env@);
    let mut k: usize = 0;
    assert(m.skip(0) =~= m);
    while k < env.len()
        invariant
            0 <= k <= env@.len(),
            m == env_model(env@),
            m.len() == env@.len(),
            env_lookup(m, name@) == env_lookup(m.skip(k as int), name@),
        decreases env@.len() - k,
    {
        let ghost rest = m.skip(k as int);
        assert(rest[0] == (env@[k as int].0@, env@[k as int].1@));
        if str_eq(env[k].0.as_str(), name.as_str()) {
            return Some(&env[k].1);
        }
        assert(rest.drop_first() =~= m.skip(k + 1));
        k = k + 1;
    }
    None
}

} // verus!

verus! {

/// The index of the first `}` at or after `j`, or the length.
fn find_brace(cs: &Vec<char>, j: usize) -> (r: usize)
    requires
        j <= cs@.len(),
    ensures
        r == brace_end(cs@, j as int),
{
    proof {
        lemma_brace_end(cs@, j as int);
    }
    let mut k = j;
    while k < cs.len() && cs[k] != '}'
        invariant
            j <= k <= cs@.len(),
            brace_end(cs@, k as int) == brace_end(cs@, j as int),
        decreases cs@.len() - k,
    {
        k = k + 1;
    }
    k
}

/// The message for a missing environment variable.
fn missing_env_message(name: &String) -> (m: String)
    ensures
        m@ == "Environment variable '"@ + name@ + "' not found"@,
{
    let mut m = String::from_str("Environment variable '");
    m.append(name.as_str());
    m.append("' not found");
    m
}

/// Scan a string literal whose opening quote is at `start`.
fn scan_string_at(cs: &Vec<char>, env: &Vec<(String, String)>, start: usize) -> (r: Result<
    (Token, usize),
    (String, usize),
>)
    requires
        start < cs@.len() < usize::MAX,
    ensures
        scan_agrees(r, scan_string_body(cs@, env_model(env@), start as int, start + 1, Seq::empty())),
{
    let ghost envm = env_model(env@);
    let ghost goal = scan_string_body(cs@, envm, start as int, start + 1, Seq::empty());
    let mut acc = String::new();
    let mut j = start + 1;
    loop
        invariant
            start < j <= cs@.len() + 1,
            cs@.len() < usize::MAX,
            envm == env_model(env@),
            goal == scan_string_body(cs@, envm, start as int, j as int, acc@),
            goal == scan_string_body(cs@, env_model(env@), start as int, start + 1, Seq::empty()),
        decreases cs@.len() + 1 - j,
    {
        if j >= cs.len() {
            return Err((String::from_str("Unterminated string"), start));
        }
        let c = cs[j];
        if c == '"' {
            return Ok((Token::String(acc), j + 1));
        } else if c == '\\' {
            if j + 1 >= cs.len() {
                return Err((String::from_str("Unterminated string"), start));
            }
            let e = cs[j + 1];
            let decoded: Option<char> = if e == 'n' {
                Some('\n')
            } else if e == 't' {
                Some('\t')
            } else if e == 'r' {
                Some('\r')
            } else if e == '\\' {
                Some('\\')
            } else if e == '"' {
                Some('"')
            } else if e == '$' {
                Some('$')
            } else {
                None
            };
            assert(decoded == escape_of(e));
            match decoded {
                Some(d) => {
                    push_char(&mut acc, d);
                    j = j + 2;
                },
                None => {
                    return Err((crate::text::concat_char("Invalid escape sequence '\\", e, "'"), j));
                },
            }
        } else if c == '$' && j + 1 < cs.len() && cs[j + 1] == '{' {
            let e = find_brace(cs, j + 2);
            proof {
                lemma_brace_end(cs@, j + 2);
            }
            if e >= cs.len() {
                return Err((String::from_str("Unterminated environment variable reference"), j));
            }
            let name = crate::text::string_from(cs, j + 2, e);
            match lookup_env(env, &name) {
                Some(val) => {
                    acc.append(val.as_str());
                    j = e + 1;
                },
                None => {
                    return Err((missing_env_message(&name), j));
                },
            }
        } else {
            push_char(&mut acc, c);
            j = j + 1;
        }
    }
}

} // verus!

verus! {

fn scan_ident_at(cs: &Vec<char>, i: usize) -> (r: Result<(Token, usize), (String, usize)>)
    requires
        i < cs@.len(),
        is_ident_start(cs@[i as int]),
    ensures
        scan_agrees(r, scan_token(cs@, Seq::empty(), i as int)),
        r is Ok,
{
    proof {
        lemma_ident_end(cs@, i as int);
    }
    let mut e = i;
    while e < cs.len() && (('a' <= cs[e] && cs[e] <= 'z') || ('A' <= cs[e] && cs[e] <= 'Z') || cs[e]
        == '_' || ('0' <= cs[e] && cs[e] <= '9'))
        invariant
            i <= e <= cs@.len(),
            ident_end(cs@, e as int) == ident_end(cs@, i as int),
        decreases cs@.len() - e,
    {
        e = e + 1;
    }
    let w = crate::text::string_from(cs, i, e);
    if str_eq(w.as_str(), "null") {
        Ok((Token::Null, e))
    } else if str_eq(w.as_str(), "true") {
        Ok((Token::True, e))
    } else if str_eq(w.as_str(), "false") {
        Ok((Token::False, e))
    } else {
        Ok((Token::Identifier(w), e))
    }
}

fn is_blank_char(c: char) -> (b: bool)
    ensures
        b == is_blank(c),
{
    c == ' ' || c == '\t' || c == '\r'
}

fn scan_comment_at(cs: &Vec<char>, i: usize) -> (r: Result<(Token, usize), (String, usize)>)
    requires
        i + 1 < cs@.len(),
        cs@[i as int] == '/',
        cs@[i + 1] == '/',
    ensures
        scan_agrees(r, scan_token(cs@, Seq::empty(), i as int)),
        r is Ok,
{
    let n = cs.len();
    let ghost s = cs@;
    proof {
        lemma_line_end(s, i + 2);
    }
    let mut e = i + 2;
    while e < cs.len() && cs[e] != '\n'
        invariant
            i + 2 <= e <= s.len(),
            s == cs@,
            line_end(s, e as int) == line_end(s, i + 2),
        decreases s.len() - e,
    {
        e = e + 1;
    }
    let mut a = i + 2;
    while a < e && is_blank_char(cs[a])
        invariant
            i + 2 <= a <= e <= s.len(),
            s == cs@,
            trim_front(s.subrange(i + 2, e as int)) == trim_front(s.subrange(a as int, e as int)),
        decreases e - a,
    {
        assert(s.subrange(a as int, e as int).drop_first() =~= s.subrange(a + 1, e as int));
        a = a + 1;
    }
    assert(trim_front(s.subrange(a as int, e as int)) == s.subrange(a as int, e as int));
    let mut b = e;
    while b > a && is_blank_char(cs[b - 1])
        invariant
            i + 2 <= a <= b <= e <= s.len(),
            s == cs@,
            trim_back(s.subrange(a as int, e as int)) == trim_back(s.subrange(a as int, b as int)),
        decreases b - a,
    {
        assert(s.subrange(a as int, b as int).drop_last() =~= s.subrange(a as int, b - 1));
        b = b - 1;
    }
    assert(trim_back(s.subrange(a as int, b as int)) == s.subrange(a as int, b as int));
    Ok((Token::Comment(crate::text::string_from(cs, a, b)), e))
}

/// The token an environment variable's value stands for outside a string.
fn infer_env_value(val: &String) -> (t: Token)
    ensures
        t@ == infer_env_token(val@),
{
    if str_eq(val.as_str(), "true") {
        return Token::True;
    }
    if str_eq(val.as_str(), "false") {
        return Token::False;
    }
    let vc = crate::text::chars_of(val.as_str());
    if vc.len() > 0 && (vc[0] == '-' || ('0' <= vc[0] && vc[0] <= '9')) {
        match scan_number_at(&vc, 0) {
            Ok((t, end)) => {
                if end == vc.len() {
                    return t;
                }
            },
            Err(_) => {},
        }
    }
    Token::String(val.clone())
}

fn scan_env_at(cs: &Vec<char>, env: &Vec<(String, String)>, i: usize) -> (r: Result<
    (Token, usize),
    (String, usize),
>)
    requires
        i + 1 < cs@.len(),
        cs@[i as int] == '$',
        cs@[i + 1] == '{',
    ensures
        scan_agrees(r, scan_token(cs@, env_model(env@), i as int)),
{
    let n = cs.len();
    let e = find_brace(cs, i + 2);
    proof {
        lemma_brace_end(cs@, i + 2);
    }
    if e >= cs.len() {
        return Err((String::from_str("Unterminated environment variable reference"), i));
    }
    let name = crate::text::string_from(cs, i + 2, e);
    match lookup_env(env, &name) {
        Some(val) => Ok((infer_env_value(val), e + 1)),
        None => Err((missing_env_message(&name), i)),
    }
}

/// Scan the token that starts at `i` (not a blank).
fn scan_token_at(cs: &Vec<char>, env: &Vec<(String, String)>, i: usize) -> (r: Result<
    (Token, usize),
    (String, usize),
>)
    requires
        i < cs@.len() < usize::MAX,
    ensures
        scan_agrees(r, scan_token(cs@, env_model(env@), i as int)),
{
    let c = cs[i];
    if c == '\n' {
        Ok((Token::Newline, i + 1))
    } else if c == '{' {
        Ok((Token::LeftBrace, i + 1))
    } else if c == '}' {
        Ok((Token::RightBrace, i + 1))
    } else if c == '[' {
        Ok((Token::LeftBracket, i + 1))
    } else if c == ']' {
        Ok((Token::RightBracket, i + 1))
    } else if c == ':' {
        Ok((Token::Colon, i + 1))
    } else if c == ',' {
        Ok((Token::Comma, i + 1))
    } else if c == '/' && i + 1 < cs.len() && cs[i + 1] == '/' {
        scan_comment_at(cs, i)
    } else if c == '"' {
        scan_string_at(cs, env, i)
    } else if c == '-' || ('0' <= c && c <= '9') {
        scan_number_at(cs, i)
    } else if ('a' <= c && c <= 'z') || ('A' <= c && c <= 'Z') || c == '_' {
        scan_ident_at(cs, i)
    } else if c == '$' && i + 1 < cs.len() && cs[i + 1] == '{' {
        scan_env_at(cs, env, i)
    } else {
        Err((crate::text::concat_char("Unexpected character '", c, "'"), i))
    }
}

} // verus!

verus! {

/// Whether exec tokens carry the model tokens at the positions of their indices.
pub open spec fn tokens_agree(cs: Seq<char>, toks: Seq<TokenWithPos>, model: Seq<(Tok, int)>) -> bool {
    &&& toks.len() == model.len()
    &&& forall|k: int|
        0 <= k < toks.len() ==> {
            &&& (#[trigger] toks[k]).token@ == model[k].0
            &&& toks[k].pos.line == line_at(cs, model[k].1)
            &&& toks[k].pos.column == col_at(cs, model[k].1)
        }
}

/// Whether an exec lexing result agrees with the model's.
pub open spec fn lex_agrees(
    cs: Seq<char>,
    r: Result<Vec<TokenWithPos>, LexError>,
    s: Result<Seq<(Tok, int)>, (Seq<char>, int)>,
) -> bool {
    match r {
        Ok(v) => s matches Ok(m) && tokens_agree(cs, v@, m),
        Err(e) => s matches Err((msg, k)) && e.message@ == msg && e.line == line_at(cs, k)
            && e.column == col_at(cs, k),
    }
}

/// The COSY lexer over an input text and an environment for `${NAME}`
/// references.
pub struct Lexer {
    pub chars: Vec<char>,
    pub env: Vec<(String, String)>,
}

/// The line and column of index `k`, counting on from index `i` at
/// `line`/`col`.
fn advance_pos(cs: &Vec<char>, i: usize, k: usize, line: usize, col: usize) -> (r: (usize, usize))
    requires
        i <= k <= cs@.len() < usize::MAX,
        line == line_at(cs@, i as int),
        col == col_at(cs@, i as int),
    ensures
        r.0 == line_at(cs@, k as int),
        r.1 == col_at(cs@, k as int),
{
    let mut j = i;
    let mut l = line;
    let mut c = col;
    while j < k
        invariant
            i <= j <= k <= cs@.len() < usize::MAX,
            l == line_at(cs@, j as int),
            c == col_at(cs@, j as int),
        decreases k - j,
    {
        proof {
            lemma_pos_bounds(cs@, j as int);
        }
        if cs[j] == '\n' {
            l = l + 1;
            c = 1;
        } else {
            c = c + 1;
        }
        j = j + 1;
    }
    (l, c)
}

impl Lexer {
    /// A lexer over `input` with an empty environment.
    pub fn new(input: &str) -> (l: Lexer)
        ensures
            l.chars@ == input@,
            l.env@.len() == 0,
    {
        Lexer { chars: crate::text::chars_of(input), env: Vec::new() }
    }

    /// A lexer over `input` that resolves `${NAME}` references in `env`.
    pub fn with_env(input: &str, env: Vec<(String, String)>) -> (l: Lexer)
        ensures
            l.chars@ == input@,
            l.env == env,
    {
        Lexer { chars: crate::text::chars_of(input), env }
    }

    /// Split the input into tokens, ending with `Eof`.
    pub fn tokenize(&self) -> (r: Result<Vec<TokenWithPos>, LexError>)
        ensures
            lex_agrees(self.chars@, r, lex(self.chars@, env_model(self.env@))),
    {
        let cs = &self.chars;
        let env = &self.env;
        let n = cs.len();
        let ghost s = cs@;
        let ghost envm = env_model(env@);
        if n == usize::MAX {
            return Err(LexError { message: String::from_str("Input too long"), line: 1, column: 1 });
        }
        let ghost whole = lex_from(s, envm, 0);
        let ghost mut model: Seq<(Tok, int)> = Seq::empty();
        let mut toks: Vec<TokenWithPos> = Vec::new();
        let mut i: usize = 0;
        let mut line: usize = 1;
        let mut col: usize = 1;
        while i < n
            invariant
                n == s.len() < usize::MAX,
                s == cs@,
                s == self.chars@,
                envm == env_model(env@),
                envm == env_model(self.env@),
                whole == lex_from(s, envm, 0),
                0 <= i <= n,
                line == line_at(s, i as int),
                col == col_at(s, i as int),
                tokens_agree(s, toks@, model),
                match lex_from(s, envm, i as int) {
                    Ok(rest) => whole == Ok::<Seq<(Tok, int)>, (Seq<char>, int)>(model + rest),
                    Err(e) => whole == Err::<Seq<(Tok, int)>, (Seq<char>, int)>(e),
                },
            decreases n - i,
        {
            proof {
                lemma_pos_bounds(s, i as int);
            }
            let c = cs[i];
            if is_blank_char(c) {
                col = col + 1;
                i = i + 1;
            } else {
                proof {
                    lemma_scan_token_progress(s, envm, i as int);
                }
                match scan_token_at(cs, env, i) {
                    Ok((t, j)) => {
                        let ghost tm = t@;
                        toks.push(TokenWithPos { token: t, pos: Position { line, column: col } });
                        proof {
                            let old_model = model;
                            model = model.push((tm, i as int));
                            assert(seq![(tm, i as int)] + lex_from(s, envm, j as int)->Ok_0 =~= seq![(tm, i as int)] + lex_from(s, envm, j as int)->Ok_0);
                            if let Ok(rest) = lex_from(s, envm, j as int) {
                                assert(old_model + (seq![(tm, i as int)] + rest) =~= model + rest);
                            }
                        }
                        let (l2, c2) = advance_pos(cs, i, j, line, col);
                        line = l2;
                        col = c2;
                        i = j;
                    },
                    Err((m, k)) => {
                        assert(lex_from(s, envm, i as int) == Err::<Seq<(Tok, int)>, (Seq<char>, int)>(
                            (m@, k as int),
                        ));
                        let (l2, c2) = advance_pos(cs, i, k, line, col);
                        return Err(LexError { message: m, line: l2, column: c2 });
                    },
                }
            }
        }
        proof {
            lemma_pos_bounds(s, i as int);
        }
        toks.push(TokenWithPos { token: Token::Eof, pos: Position { line, column: col } });
        proof {
            model = model.push((Tok::Eof, n as int));
        }
        Ok(toks)
    }
}

} // verus!
