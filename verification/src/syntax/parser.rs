//! The COSY parser: tokens to a value, keeping comments and key order.
use vstd::prelude::*;
use crate::syntax::lexer::{Lexer, LexError, Position, Tok, Token, TokenWithPos, env_model, lex, lex_agrees};
use crate::value::{Node, ObjectMap, Shape, Value, ValueKind, insert_entry, strings_model, well_keyed,
    distinct_keys, lemma_insert_entry_well_keyed};
use crate::text::{int_text, push_int};
use crate::error::CosynError;
use crate::syntax::lexer::{line_at, col_at, tokens_agree};

verus! {

/// How a token is named in messages.
pub open spec fn describe(t: Tok) -> Seq<char> {
    match t {
        Tok::LeftBrace => "'{'"@,
        Tok::RightBrace => "'}'"@,
        Tok::LeftBracket => "'['"@,
        Tok::RightBracket => "']'"@,
        Tok::Colon => "':'"@,
        Tok::Comma => "','"@,
        Tok::Newline => "newline"@,
        Tok::Null => "null"@,
        Tok::True => "true"@,
        Tok::False => "false"@,
        Tok::Integer(i) => int_text(i as int),
        Tok::Float(t) => t,
        Tok::Str(s) => "\""@ + s + "\""@,
        Tok::Ident(s) => s,
        Tok::Comment(_) => "comment"@,
        Tok::Eof => "end of input"@,
    }
}

/// The model of a token sequence: each token with its line and column.
pub open spec fn tokens_model(toks: Seq<TokenWithPos>) -> Seq<(Tok, int, int)> {
    toks.map_values(|t: TokenWithPos| (t.token@, t.pos.line as int, t.pos.column as int))
}

/// The token at `p`, or `Eof` past the end.
pub open spec fn tok_at(toks: Seq<(Tok, int, int)>, p: int) -> Tok {
    if 0 <= p < toks.len() {
        toks[p].0
    } else {
        Tok::Eof
    }
}

/// The position reported for index `p`: the token's, or line 1, column 1
/// past the end.
pub open spec fn pos_at(toks: Seq<(Tok, int, int)>, p: int) -> (int, int) {
    if 0 <= p < toks.len() {
        (toks[p].1, toks[p].2)
    } else {
        (1, 1)
    }
}

/// An error with `msg` at the position of index `p`.
pub open spec fn err_at<A>(toks: Seq<(Tok, int, int)>, p: int, msg: Seq<char>) -> Result<A, (Seq<char>, int, int)> {
    Err((msg, pos_at(toks, p).0, pos_at(toks, p).1))
}

/// Skip newlines and comments from `p`: the comments seen, whether a newline
/// was seen, and the index of the next other token.
pub open spec fn skip_trivia(toks: Seq<(Tok, int, int)>, p: int) -> (Seq<Seq<char>>, bool, int)
    decreases toks.len() - p,
{
    if 0 <= p < toks.len() {
        match toks[p].0 {
            Tok::Newline => {
                let r = skip_trivia(toks, p + 1);
                (r.0, true, r.2)
            },
            Tok::Comment(c) => {
                let r = skip_trivia(toks, p + 1);
                (seq![c] + r.0, r.1, r.2)
            },
            _ => (Seq::empty(), false, p),
        }
    } else {
        (Seq::empty(), false, p)
    }
}

pub proof fn lemma_skip_trivia(toks: Seq<(Tok, int, int)>, p: int)
    requires
        0 <= p <= toks.len(),
    ensures
        p <= skip_trivia(toks, p).2 <= toks.len(),
        !(tok_at(toks, skip_trivia(toks, p).2) is Newline),
        !(tok_at(toks, skip_trivia(toks, p).2) is Comment),
    decreases toks.len() - p,
{
    if p < toks.len() {
        lemma_skip_trivia(toks, p + 1);
    }
}

/// The comments and separator seen after an element: trivia, then an optional
/// comma followed by more trivia. Returns the comments, whether a separator
/// (newline or comma) was seen, and the next index.
pub open spec fn skip_separator(toks: Seq<(Tok, int, int)>, p: int) -> (Seq<Seq<char>>, bool, int) {
    let (c, nl, q) = skip_trivia(toks, p);
    if tok_at(toks, q) is Comma {
        let (c2, _, q2) = skip_trivia(toks, q + 1);
        (c + c2, true, q2)
    } else {
        (c, nl, q)
    }
}

pub proof fn lemma_skip_separator(toks: Seq<(Tok, int, int)>, p: int)
    requires
        0 <= p <= toks.len(),
    ensures
        p <= skip_separator(toks, p).2 <= toks.len(),
{
    lemma_skip_trivia(toks, p);
    let q = skip_trivia(toks, p).2;
    if tok_at(toks, q) is Comma {
        lemma_skip_trivia(toks, q + 1);
    }
}

/// Parse a value at `p`, with `leading` comments already collected.
pub open spec fn parse_value_at(toks: Seq<(Tok, int, int)>, p: int, leading: Seq<Seq<char>>) -> Result<
    (Node, int),
    (Seq<char>, int, int),
>
    decreases toks.len() - p, 0int,
{
    if p < 0 || p > toks.len() {
        err_at(toks, p, "Internal parser error"@)
    } else {
        proof {
            lemma_skip_trivia(toks, p);
        }
        let (c, _, q) = skip_trivia(toks, p);
        let lead = leading + c;
        match tok_at(toks, q) {
            Tok::Null => Ok((Node { shape: Shape::Null, comments: lead }, q + 1)),
            Tok::True => Ok((Node { shape: Shape::Bool(true), comments: lead }, q + 1)),
            Tok::False => Ok((Node { shape: Shape::Bool(false), comments: lead }, q + 1)),
            Tok::Integer(i) => Ok((Node { shape: Shape::Integer(i), comments: lead }, q + 1)),
            Tok::Float(t) => Ok((Node { shape: Shape::Float(t), comments: lead }, q + 1)),
            Tok::Str(s) => Ok((Node { shape: Shape::Str(s), comments: lead }, q + 1)),
            Tok::LeftBrace => parse_object_items(toks, q + 1, lead, Seq::empty(), Seq::empty()),
            Tok::LeftBracket => parse_array_items(toks, q + 1, lead, Seq::empty(), Seq::empty()),
            t => err_at(toks, q, "Expected value, found "@ + describe(t)),
        }
    }
}

/// Parse the rest of an object from `p`: `entries` so far and `pending`
/// comments for the next entry's value.
pub open spec fn parse_object_items(
    toks: Seq<(Tok, int, int)>,
    p: int,
    lead: Seq<Seq<char>>,
    entries: Seq<(Seq<char>, Node)>,
    pending: Seq<Seq<char>>,
) -> Result<(Node, int), (Seq<char>, int, int)>
    decreases toks.len() - p, 1int,
{
    if p < 0 || p > toks.len() {
        err_at(toks, p, "Internal parser error"@)
    } else {
        proof {
            lemma_skip_trivia(toks, p);
        }
        let (c, _, q) = skip_trivia(toks, p);
        let pend = pending + c;
        let key = match tok_at(toks, q) {
            Tok::Ident(k) => Some(k),
            Tok::Str(k) => Some(k),
            _ => None,
        };
        if tok_at(toks, q) is RightBrace {
            Ok((Node { shape: Shape::Object(entries), comments: lead }, q + 1))
        } else if key is None {
            err_at(
                toks,
                q,
                "Expected object key (identifier or string), found "@ + describe(tok_at(toks, q)),
            )
        } else if !(tok_at(toks, q + 1) is Colon) {
            err_at(toks, q + 1, "Expected ':' after object key"@)
        } else {
            match parse_value_at(toks, q + 2, pend) {
                Err(e) => Err(e),
                Ok((v, r)) => {
                    let entries2 = insert_entry(entries, key->0, v);
                    if 0 <= r <= toks.len() {
                        proof {
                            lemma_skip_separator(toks, r);
                        }
                        let (pend2, sep, r2) = skip_separator(toks, r);
                        if tok_at(toks, r2) is RightBrace {
                            Ok((Node { shape: Shape::Object(entries2), comments: lead }, r2 + 1))
                        } else if !sep {
                            err_at(
                                toks,
                                r2,
                                "Expected ',' or '}' in object, found "@ + describe(tok_at(toks, r2)),
                            )
                        } else if p < r2 {
                            parse_object_items(toks, r2, lead, entries2, pend2)
                        } else {
                            err_at(toks, r2, "Internal parser error"@)
                        }
                    } else {
                        err_at(toks, r, "Internal parser error"@)
                    }
                },
            }
        }
    }
}

/// Parse the rest of an array from `p`: `items` so far and `pending`
/// comments for the next item.
pub open spec fn parse_array_items(
    toks: Seq<(Tok, int, int)>,
    p: int,
    lead: Seq<Seq<char>>,
    items: Seq<Node>,
    pending: Seq<Seq<char>>,
) -> Result<(Node, int), (Seq<char>, int, int)>
    decreases toks.len() - p, 1int,
{
    if p < 0 || p > toks.len() {
        err_at(toks, p, "Internal parser error"@)
    } else {
        proof {
            lemma_skip_trivia(toks, p);
        }
        let (c, _, q) = skip_trivia(toks, p);
        let pend = pending + c;
        if tok_at(toks, q) is RightBracket {
            Ok((Node { shape: Shape::Array(items), comments: lead }, q + 1))
        } else {
            match parse_value_at(toks, q, pend) {
                Err(e) => Err(e),
                Ok((v, r)) => {
                    let items2 = items.push(v);
                    if 0 <= r <= toks.len() {
                        proof {
                            lemma_skip_separator(toks, r);
                        }
                        let (pend2, sep, r2) = skip_separator(toks, r);
                        if tok_at(toks, r2) is RightBracket {
                            Ok((Node { shape: Shape::Array(items2), comments: lead }, r2 + 1))
                        } else if !sep {
                            err_at(
                                toks,
                                r2,
                                "Expected ',' or ']' in array, found "@ + describe(tok_at(toks, r2)),
                            )
                        } else if p < r2 {
                            parse_array_items(toks, r2, lead, items2, pend2)
                        } else {
                            err_at(toks, r2, "Internal parser error"@)
                        }
                    } else {
                        err_at(toks, r, "Internal parser error"@)
                    }
                },
            }
        }
    }
}

/// Parse a whole document: one value, surrounded by newlines and comments,
/// then the end of the tokens.
pub open spec fn parse_document(toks: Seq<(Tok, int, int)>) -> Result<Node, (Seq<char>, int, int)> {
    parse_document_from(toks, 0)
}

/// Parsing a whole document from token index `start`: one value, then
/// nothing but newlines and comments. Past the last token there is no value.
pub open spec fn parse_document_from(toks: Seq<(Tok, int, int)>, start: int) -> Result<
    Node,
    (Seq<char>, int, int),
> {
    if start > toks.len() {
        err_at(toks, start, "Expected value, found "@ + describe(Tok::Eof))
    } else {
        let (c, _, q) = skip_trivia(toks, start);
        match parse_value_at(toks, q, c) {
            Err(e) => Err(e),
            Ok((v, r)) => {
                let (_, _, r2) = skip_trivia(toks, r);
                if tok_at(toks, r2) is Eof {
                    Ok(v)
                } else {
                    err_at(toks, r2, "Unexpected tokens after value"@)
                }
            },
        }
    }
}

} // verus!

verus! {

pub proof fn lemma_parse_value_progress(toks: Seq<(Tok, int, int)>, p: int, leading: Seq<Seq<char>>)
    ensures
        parse_value_at(toks, p, leading) matches Ok((_, r)) ==> p < r <= toks.len(),
    decreases toks.len() - p, 0int,
{
    if 0 <= p <= toks.len() {
        lemma_skip_trivia(toks, p);
        let (c, _, q) = skip_trivia(toks, p);
        let lead = leading + c;
        match tok_at(toks, q) {
            Tok::LeftBrace => lemma_object_progress(toks, q + 1, lead, Seq::empty(), Seq::empty()),
            Tok::LeftBracket => lemma_array_progress(toks, q + 1, lead, Seq::empty(), Seq::empty()),
            _ => {},
        }
    }
}

pub proof fn lemma_object_progress(
    toks: Seq<(Tok, int, int)>,
    p: int,
    lead: Seq<Seq<char>>,
    entries: Seq<(Seq<char>, Node)>,
    pending: Seq<Seq<char>>,
)
    ensures
        parse_object_items(toks, p, lead, entries, pending) matches Ok((_, r)) ==> p < r <= toks.len(),
    decreases toks.len() - p, 1int,
{
    if 0 <= p <= toks.len() {
        lemma_skip_trivia(toks, p);
        let (c, _, q) = skip_trivia(toks, p);
        let pend = pending + c;
        let key = match tok_at(toks, q) {
            Tok::Ident(k) => Some(k),
            Tok::Str(k) => Some(k),
            _ => None,
        };
        if !(tok_at(toks, q) is RightBrace) && key is Some && tok_at(toks, q + 1) is Colon {
            lemma_parse_value_progress(toks, q + 2, pend);
            if let Ok((v, r)) = parse_value_at(toks, q + 2, pend) {
                lemma_skip_separator(toks, r);
                let (pend2, sep, r2) = skip_separator(toks, r);
                let entries2 = insert_entry(entries, key->0, v);
                if p < r2 {
                    lemma_object_progress(toks, r2, lead, entries2, pend2);
                }
            }
        }
    }
}

pub proof fn lemma_array_progress(
    toks: Seq<(Tok, int, int)>,
    p: int,
    lead: Seq<Seq<char>>,
    items: Seq<Node>,
    pending: Seq<Seq<char>>,
)
    ensures
        parse_array_items(toks, p, lead, items, pending) matches Ok((_, r)) ==> p < r <= toks.len(),
    decreases toks.len() - p, 1int,
{
    if 0 <= p <= toks.len() {
        lemma_skip_trivia(toks, p);
        let (c, _, q) = skip_trivia(toks, p);
        let pend = pending + c;
        if !(tok_at(toks, q) is RightBracket) {
            lemma_parse_value_progress(toks, q, pend);
            if let Ok((v, r)) = parse_value_at(toks, q, pend) {
                lemma_skip_separator(toks, r);
                let (pend2, sep, r2) = skip_separator(toks, r);
                if p < r2 {
                    lemma_array_progress(toks, r2, lead, items.push(v), pend2);
                }
            }
        }
    }
}

/// Parsing a value gives a well-keyed value: an object that names a key
/// twice keeps its first place with the last value.
pub proof fn lemma_parse_value_well_keyed(toks: Seq<(Tok, int, int)>, p: int, leading: Seq<Seq<char>>)
    ensures
        parse_value_at(toks, p, leading) matches Ok((n, _)) ==> well_keyed(n),
    decreases toks.len() - p, 0int,
{
    if 0 <= p <= toks.len() {
        lemma_skip_trivia(toks, p);
        let (c, _, q) = skip_trivia(toks, p);
        let lead = leading + c;
        match tok_at(toks, q) {
            Tok::LeftBrace => lemma_object_well_keyed(toks, q + 1, lead, Seq::empty(), Seq::empty()),
            Tok::LeftBracket => lemma_array_well_keyed(toks, q + 1, lead, Seq::empty(), Seq::empty()),
            _ => {},
        }
    }
}

pub proof fn lemma_object_well_keyed(
    toks: Seq<(Tok, int, int)>,
    p: int,
    lead: Seq<Seq<char>>,
    entries: Seq<(Seq<char>, Node)>,
    pending: Seq<Seq<char>>,
)
    requires
        distinct_keys(entries),
        forall|i: int| 0 <= i < entries.len() ==> well_keyed(#[trigger] entries[i].1),
    ensures
        parse_object_items(toks, p, lead, entries, pending) matches Ok((n, _)) ==> well_keyed(n),
    decreases toks.len() - p, 1int,
{
    if 0 <= p <= toks.len() {
        lemma_skip_trivia(toks, p);
        let (c, _, q) = skip_trivia(toks, p);
        let pend = pending + c;
        let key = match tok_at(toks, q) {
            Tok::Ident(k) => Some(k),
            Tok::Str(k) => Some(k),
            _ => None,
        };
        if !(tok_at(toks, q) is RightBrace) && key is Some && tok_at(toks, q + 1) is Colon {
            lemma_parse_value_well_keyed(toks, q + 2, pend);
            lemma_parse_value_progress(toks, q + 2, pend);
            if let Ok((v, r)) = parse_value_at(toks, q + 2, pend) {
                lemma_skip_separator(toks, r);
                let (pend2, sep, r2) = skip_separator(toks, r);
                let entries2 = insert_entry(entries, key->0, v);
                lemma_insert_entry_well_keyed(entries, key->0, v);
                if p < r2 {
                    lemma_object_well_keyed(toks, r2, lead, entries2, pend2);
                }
            }
        }
    }
}

pub proof fn lemma_array_well_keyed(
    toks: Seq<(Tok, int, int)>,
    p: int,
    lead: Seq<Seq<char>>,
    items: Seq<Node>,
    pending: Seq<Seq<char>>,
)
    requires
        forall|i: int| 0 <= i < items.len() ==> well_keyed(#[trigger] items[i]),
    ensures
        parse_array_items(toks, p, lead, items, pending) matches Ok((n, _)) ==> well_keyed(n),
    decreases toks.len() - p, 1int,
{
    if 0 <= p <= toks.len() {
        lemma_skip_trivia(toks, p);
        let (c, _, q) = skip_trivia(toks, p);
        let pend = pending + c;
        if !(tok_at(toks, q) is RightBracket) {
            lemma_parse_value_well_keyed(toks, q, pend);
            lemma_parse_value_progress(toks, q, pend);
            if let Ok((v, r)) = parse_value_at(toks, q, pend) {
                lemma_skip_separator(toks, r);
                let (pend2, sep, r2) = skip_separator(toks, r);
                let items2 = items.push(v);
                assert forall|i: int| 0 <= i < items2.len() implies well_keyed(#[trigger] items2[i]) by {
                    if i < items.len() {
                        assert(items2[i] == items[i]);
                    }
                }
                if p < r2 {
                    lemma_array_well_keyed(toks, r2, lead, items2, pend2);
                }
            }
        }
    }
}

} // verus!

verus! {

/// A parse error with the position of the offending token.
#[derive(Debug, Clone, PartialEq)]
pub struct ParseError {
    pub message: String,
    pub line: usize,
    pub column: usize,
}

impl ParseError {
    /// "Parse error at line L, column C: message".
    pub fn to_string(&self) -> (s: String)
        ensures
            s@ == crate::error::located_text("Parse error"@, self.line as nat, self.column as nat, self.message@),
    {
        crate::error::located("Parse error", self.line, self.column, &self.message)
    }
}

/// Whether an exec parse result agrees with a result in the model.
pub open spec fn parse_agrees(r: Result<Value, ParseError>, s: Result<Node, (Seq<char>, int, int)>) -> bool {
    match r {
        Ok(v) => s matches Ok(n) && v@ == n,
        Err(e) => s matches Err((m, l, c)) && e.message@ == m && e.line == l && e.column == c,
    }
}

/// Whether an exec result and final position agree with a step of the model.
pub open spec fn step_agrees(
    r: Result<Value, ParseError>,
    pos: int,
    s: Result<(Node, int), (Seq<char>, int, int)>,
) -> bool {
    match r {
        Ok(v) => s matches Ok((n, q)) && v@ == n && pos == q,
        Err(e) => s matches Err((m, l, c)) && e.message@ == m && e.line == l && e.column == c,
    }
}

/// A copy of a token.
pub fn copy_token(t: &Token) -> (r: Token)
    ensures
        r@ == t@,
{
    match t {
        Token::LeftBrace => Token::LeftBrace,
        Token::RightBrace => Token::RightBrace,
        Token::LeftBracket => Token::LeftBracket,
        Token::RightBracket => Token::RightBracket,
        Token::Colon => Token::Colon,
        Token::Comma => Token::Comma,
        Token::Newline => Token::Newline,
        Token::Null => Token::Null,
        Token::True => Token::True,
        Token::False => Token::False,
        Token::Integer(i) => Token::Integer(*i),
        Token::Float(s) => Token::Float(s.clone()),
        Token::String(s) => Token::String(s.clone()),
        Token::Identifier(s) => Token::Identifier(s.clone()),
        Token::Comment(s) => Token::Comment(s.clone()),
        Token::Eof => Token::Eof,
    }
}

impl Token {
    /// How this token is named in messages.
    pub fn describe(&self) -> (s: String)
        ensures
            s@ == describe(self@),
    {
        match self {
            Token::LeftBrace => String::from_str("'{'"),
            Token::RightBrace => String::from_str("'}'"),
            Token::LeftBracket => String::from_str("'['"),
            Token::RightBracket => String::from_str("']'"),
            Token::Colon => String::from_str("':'"),
            Token::Comma => String::from_str("','"),
            Token::Newline => String::from_str("newline"),
            Token::Null => String::from_str("null"),
            Token::True => String::from_str("true"),
            Token::False => String::from_str("false"),
            Token::Integer(i) => {
                let mut s = String::new();
                push_int(&mut s, *i);
                assert(s@ =~= int_text(*i as int));
                s
            },
            Token::Float(t) => t.clone(),
            Token::String(t) => {
                let mut s = String::from_str("\"");
                s.append(t.as_str());
                s.append("\"");
                s
            },
            Token::Identifier(t) => t.clone(),
            Token::Comment(_) => String::from_str("comment"),
            Token::Eof => String::from_str("end of input"),
        }
    }
}

/// A message made of a prefix and a token's description.
fn message_with(prefix: &str, t: &Token) -> (m: String)
    ensures
        m@ == prefix@ + describe(t@),
{
    let mut m = String::from_str(prefix);
    let d = t.describe();
    m.append(d.as_str());
    m
}

/// The COSY parser: a token sequence and the current index in it.
pub struct Parser {
    pub tokens: Vec<TokenWithPos>,
    pub position: usize,
}

impl Parser {
    /// Create a new parser from tokens.
    pub fn new(tokens: Vec<TokenWithPos>) -> (p: Parser)
        ensures
            p.tokens == tokens,
            p.position == 0,
    {
        Parser { tokens, position: 0 }
    }

    /// Whether every token has been consumed.
    pub fn is_at_end(&self) -> (b: bool)
        ensures
            b == (self.position >= self.tokens@.len()),
    {
        self.position >= self.tokens.len()
    }

    /// The current token (`Eof` past the end).
    pub fn current_token(&self) -> (t: Token)
        ensures
            t@ == tok_at(tokens_model(self.tokens@), self.position as int),
    {
        if self.is_at_end() {
            Token::Eof
        } else {
            copy_token(&self.tokens[self.position].token)
        }
    }

    /// The position of the current token (line 1, column 1 past the end).
    pub fn current_position(&self) -> (p: Position)
        ensures
            (p.line as int, p.column as int) == pos_at(tokens_model(self.tokens@), self.position as int),
    {
        if self.is_at_end() {
            Position::new(1, 1)
        } else {
            self.tokens[self.position].pos
        }
    }

    /// Move to the next token, unless past the end.
    pub fn advance(&mut self)
        ensures
            final(self).tokens == old(self).tokens,
            final(self).position == if old(self).position < tokens_model(old(self).tokens@).len() {
                old(self).position + 1
            } else {
                old(self).position as int
            },
    {
        if self.position < self.tokens.len() {
            self.position = self.position + 1;
        }
    }

    /// An error with `message` at the current position.
    pub fn error_at_current(&self, message: String) -> (e: ParseError)
        ensures
            e.message == message,
            (e.line as int, e.column as int) == pos_at(tokens_model(self.tokens@), self.position as int),
    {
        let pos = self.current_position();
        ParseError { message, line: pos.line, column: pos.column }
    }

    /// Consume a punctuation token of the same kind as `expected`, or fail with
    /// `message` at the current position.
    pub fn expect(&mut self, expected: Token, message: &str) -> (r: Result<(), ParseError>)
        requires
            old(self).position <= tokens_model(old(self).tokens@).len(),
        ensures
            final(self).tokens == old(self).tokens,
            final(self).position <= final(self).tokens@.len(),
            ({
                let cur = tok_at(tokens_model(old(self).tokens@), old(self).position as int);
                let ok = (expected is LeftBrace || expected is RightBrace || expected is LeftBracket
                    || expected is RightBracket || expected is Colon) && cur == expected@;
                &&& ok ==> r is Ok && final(self).position == old(self).position + 1
                &&& !ok ==> (r matches Err(e) && e.message@ == message@ && (e.line as int, e.column as int)
                    == pos_at(tokens_model(old(self).tokens@), old(self).position as int))
            }),
    {
        let current = self.current_token();
        let matches = match (&current, &expected) {
            (Token::LeftBrace, Token::LeftBrace) => true,
            (Token::RightBrace, Token::RightBrace) => true,
            (Token::LeftBracket, Token::LeftBracket) => true,
            (Token::RightBracket, Token::RightBracket) => true,
            (Token::Colon, Token::Colon) => true,
            _ => false,
        };
        if matches {
            self.advance();
            Ok(())
        } else {
            Err(self.error_at_current(String::from_str(message)))
        }
    }

    /// Consume newlines and comments, collecting the comments and noting
    /// whether a newline was seen.
    pub fn consume_newlines_and_comments_captured(&mut self) -> (r: (Vec<String>, bool))
        requires
            old(self).position <= tokens_model(old(self).tokens@).len(),
        ensures
            final(self).tokens == old(self).tokens,
            ({
                let (c, nl, q) = skip_trivia(tokens_model(old(self).tokens@), old(self).position as int);
                &&& strings_model(r.0@) == c
                &&& r.1 == nl
                &&& final(self).position == q
            }),
            final(self).position <= final(self).tokens@.len(),
    {
        let ghost toks = tokens_model(self.tokens@);
        let ghost p0 = self.position as int;
        let mut comments: Vec<String> = Vec::new();
        let mut has_newline = false;
        proof {
            lemma_skip_trivia(toks, p0);
        }
        loop
            invariant
                tokens_model(self.tokens@) == toks,
                self.tokens == old(self).tokens,
                p0 == old(self).position,
                p0 <= self.position <= toks.len(),
                skip_trivia(toks, p0).2 == skip_trivia(toks, self.position as int).2,
                skip_trivia(toks, p0).0 == strings_model(comments@) + skip_trivia(
                    toks,
                    self.position as int,
                ).0,
                skip_trivia(toks, p0).1 == (has_newline || skip_trivia(toks, self.position as int).1),
            ensures
                self.tokens == old(self).tokens,
                skip_trivia(toks, p0).2 == self.position,
                skip_trivia(toks, p0).0 == strings_model(comments@),
                skip_trivia(toks, p0).1 == has_newline,
                self.position <= toks.len(),
            decreases toks.len() - self.position,
        {
            let t = self.current_token();
            match t {
                Token::Newline => {
                    has_newline = true;
                    self.advance();
                },
                Token::Comment(c) => {
                    let ghost before = comments@;
                    comments.push(c);
                    proof {
                        assert(strings_model(comments@) =~= strings_model(before).push(c@));
                        assert(strings_model(before).push(c@) + skip_trivia(toks, self.position + 1).0
                            =~= strings_model(before) + (seq![c@] + skip_trivia(
                            toks,
                            self.position + 1,
                        ).0));
                    }
                    self.advance();
                },
                _ => {
                    assert(skip_trivia(toks, self.position as int) == (
                        Seq::<Seq<char>>::empty(),
                        false,
                        self.position as int,
                    ));
                    assert(strings_model(comments@) + Seq::<Seq<char>>::empty() =~= strings_model(
                        comments@,
                    ));
                    break ;
                },
            }
        }
        (comments, has_newline)
    }
}

} // verus!

verus! {

impl Parser {
    /// Whether the current token is `}`.
    fn at_right_brace(&self) -> (b: bool)
        ensures
            b == (tok_at(tokens_model(self.tokens@), self.position as int) is RightBrace),
    {
        match self.current_token() {
            Token::RightBrace => true,
            _ => false,
        }
    }

    /// Whether the current token is `]`.
    fn at_right_bracket(&self) -> (b: bool)
        ensures
            b == (tok_at(tokens_model(self.tokens@), self.position as int) is RightBracket),
    {
        match self.current_token() {
            Token::RightBracket => true,
            _ => false,
        }
    }

    /// Whether the current token is `,`.
    fn at_comma(&self) -> (b: bool)
        ensures
            b == (tok_at(tokens_model(self.tokens@), self.position as int) is Comma),
    {
        match self.current_token() {
            Token::Comma => true,
            _ => false,
        }
    }

    /// Consume the trivia and the optional comma after an element.
    fn consume_separator(&mut self) -> (r: (Vec<String>, bool))
        requires
            old(self).position <= tokens_model(old(self).tokens@).len(),
        ensures
            final(self).tokens == old(self).tokens,
            ({
                let (c, sep, q) = skip_separator(tokens_model(old(self).tokens@), old(self).position as int);
                &&& strings_model(r.0@) == c
                &&& r.1 == sep
                &&& final(self).position == q
            }),
            final(self).position <= final(self).tokens@.len(),
    {
        let ghost toks = tokens_model(self.tokens@);
        let ghost p0 = self.position as int;
        let (comments, nl) = self.consume_newlines_and_comments_captured();
        let mut pending = comments;
        let mut has_sep = nl;
        if self.at_comma() {
            self.advance();
            has_sep = true;
            let (more, _) = self.consume_newlines_and_comments_captured();
            let ghost before = pending@;
            let mut more = more;
            pending.append(&mut more);
            proof {
                assert(strings_model(pending@) =~= strings_model(before) + skip_trivia(
                    toks,
                    skip_trivia(toks, p0).2 + 1,
                ).0);
            }
        }
        (pending, has_sep)
    }

    /// Parse a value at the current position, with `leading` comments already
    /// collected.
    fn parse_value(&mut self, leading: Vec<String>) -> (r: Result<Value, ParseError>)
        requires
            old(self).position <= tokens_model(old(self).tokens@).len(),
        ensures
            final(self).tokens == old(self).tokens,
            step_agrees(
                r,
                final(self).position as int,
                parse_value_at(tokens_model(old(self).tokens@), old(self).position as int, strings_model(leading@)),
            ),
        decreases tokens_model(old(self).tokens@).len() - old(self).position, 0int,
    {
        let ghost toks = tokens_model(self.tokens@);
        let ghost p0 = self.position as int;
        let mut leading = leading;
        let ghost lead0 = leading@;
        let (comments, _) = self.consume_newlines_and_comments_captured();
        let mut comments = comments;
        leading.append(&mut comments);
        proof {
            assert(strings_model(leading@) =~= strings_model(lead0) + skip_trivia(toks, p0).0);
            lemma_skip_trivia(toks, p0);
        }
        let t = self.current_token();
        match t {
            Token::Null => {
                self.advance();
                Ok(Value::with_comments(ValueKind::Null, leading))
            },
            Token::True => {
                self.advance();
                Ok(Value::with_comments(ValueKind::Bool(true), leading))
            },
            Token::False => {
                self.advance();
                Ok(Value::with_comments(ValueKind::Bool(false), leading))
            },
            Token::Integer(i) => {
                self.advance();
                Ok(Value::with_comments(ValueKind::Integer(i), leading))
            },
            Token::Float(f) => {
                self.advance();
                Ok(Value::with_comments(ValueKind::Float(f), leading))
            },
            Token::String(s) => {
                self.advance();
                Ok(Value::with_comments(ValueKind::String(s), leading))
            },
            Token::LeftBrace => self.parse_object(leading),
            Token::LeftBracket => self.parse_array(leading),
            other => Err(self.error_at_current(message_with("Expected value, found ", &other))),
        }
    }

    /// Parse an object starting at its `{`.
    fn parse_object(&mut self, leading: Vec<String>) -> (r: Result<Value, ParseError>)
        requires
            old(self).position < tokens_model(old(self).tokens@).len(),
            tok_at(tokens_model(old(self).tokens@), old(self).position as int) is LeftBrace,
        ensures
            final(self).tokens == old(self).tokens,
            step_agrees(
                r,
                final(self).position as int,
                parse_object_items(
                    tokens_model(old(self).tokens@),
                    old(self).position + 1,
                    strings_model(leading@),
                    Seq::empty(),
                    Seq::empty(),
                ),
            ),
        decreases tokens_model(old(self).tokens@).len() - old(self).position - 1, 1int,
    {
        let ghost toks = tokens_model(self.tokens@);
        let ghost p0 = self.position as int;
        let ghost lead = strings_model(leading@);
        match self.expect(Token::LeftBrace, "Expected '{' to start object") {
            Ok(()) => {},
            Err(e) => {
                return Err(e);
            },
        }
        let mut object = ObjectMap::new();
        let mut pending: Vec<String> = Vec::new();
        let ghost goal = parse_object_items(toks, p0 + 1, lead, Seq::empty(), Seq::empty());
        assert(strings_model(pending@) =~= Seq::empty());
        loop
            invariant
                tokens_model(self.tokens@) == toks,
                self.tokens == old(self).tokens,
                toks == tokens_model(old(self).tokens@),
                p0 == old(self).position,
                lead == strings_model(leading@),
                p0 + 1 <= self.position <= toks.len(),
                goal == parse_object_items(toks, p0 + 1, lead, Seq::empty(), Seq::empty()),
                goal == parse_object_items(
                    toks,
                    self.position as int,
                    lead,
                    object@,
                    strings_model(pending@),
                ),
            decreases toks.len() - self.position,
        {
            let ghost p = self.position as int;
            let ghost pend_before = pending@;
            let ghost obj_before = object@;
            let (comments, _) = self.consume_newlines_and_comments_captured();
            let mut comments = comments;
            pending.append(&mut comments);
            proof {
                lemma_skip_trivia(toks, p);
                assert(strings_model(pending@) =~= strings_model(pend_before) + skip_trivia(toks, p).0);
            }
            let ghost q = self.position as int;
            if self.at_right_brace() {
                self.advance();
                return Ok(Value::with_comments(ValueKind::Object(object), leading));
            }
            let key = match self.current_token() {
                Token::Identifier(s) => {
                    self.advance();
                    s
                },
                Token::String(s) => {
                    self.advance();
                    s
                },
                token => {
                    return Err(
                        self.error_at_current(
                            message_with("Expected object key (identifier or string), found ", &token),
                        ),
                    );
                },
            };
            match self.expect(Token::Colon, "Expected ':' after object key") {
                Ok(()) => {},
                Err(e) => {
                    return Err(e);
                },
            }
            let ghost pend_model = strings_model(pending@);
            let value = match self.parse_value(pending) {
                Ok(v) => v,
                Err(e) => {
                    return Err(e);
                },
            };
            let ghost r = self.position as int;
            let ghost key_model = key@;
            let ghost v_model = value@;
            proof {
                lemma_parse_value_progress(toks, q + 2, pend_model);
                lemma_skip_separator(toks, r);
                assert(tok_at(toks, q) == Tok::Ident(key_model) || tok_at(toks, q) == Tok::Str(
                    key_model,
                ));
                assert(parse_value_at(toks, q + 2, pend_model) == Ok::<
                    (Node, int),
                    (Seq<char>, int, int),
                >((v_model, r)));
            }
            object.insert(key, value);
            let (sep_comments, has_sep) = self.consume_separator();
            pending = sep_comments;
            if self.at_right_brace() {
                self.advance();
                return Ok(Value::with_comments(ValueKind::Object(object), leading));
            }
            if !has_sep {
                let cur = self.current_token();
                return Err(self.error_at_current(message_with("Expected ',' or '}' in object, found ", &cur)));
            }
            proof {
                assert(object@ == insert_entry(obj_before, key_model, v_model));
                assert(skip_separator(toks, r) == (strings_model(pending@), true, self.position as int));
                assert(p < self.position);
            }
        }
    }

    /// Parse an array starting at its `[`.
    fn parse_array(&mut self, leading: Vec<String>) -> (r: Result<Value, ParseError>)
        requires
            old(self).position < tokens_model(old(self).tokens@).len(),
            tok_at(tokens_model(old(self).tokens@), old(self).position as int) is LeftBracket,
        ensures
            final(self).tokens == old(self).tokens,
            step_agrees(
                r,
                final(self).position as int,
                parse_array_items(
                    tokens_model(old(self).tokens@),
                    old(self).position + 1,
                    strings_model(leading@),
                    Seq::empty(),
                    Seq::empty(),
                ),
            ),
        decreases tokens_model(old(self).tokens@).len() - old(self).position - 1, 1int,
    {
        let ghost toks = tokens_model(self.tokens@);
        let ghost p0 = self.position as int;
        let ghost lead = strings_model(leading@);
        match self.expect(Token::LeftBracket, "Expected '[' to start array") {
            Ok(()) => {},
            Err(e) => {
                return Err(e);
            },
        }
        let mut array: Vec<Value> = Vec::new();
        let mut pending: Vec<String> = Vec::new();
        let ghost goal = parse_array_items(toks, p0 + 1, lead, Seq::empty(), Seq::empty());
        assert(strings_model(pending@) =~= Seq::empty());
        assert(crate::value::values_model(array@) =~= Seq::empty());
        loop
            invariant
                tokens_model(self.tokens@) == toks,
                self.tokens == old(self).tokens,
                toks == tokens_model(old(self).tokens@),
                p0 == old(self).position,
                lead == strings_model(leading@),
                p0 + 1 <= self.position <= toks.len(),
                goal == parse_array_items(toks, p0 + 1, lead, Seq::empty(), Seq::empty()),
                goal == parse_array_items(
                    toks,
                    self.position as int,
                    lead,
                    crate::value::values_model(array@),
                    strings_model(pending@),
                ),
            decreases toks.len() - self.position,
        {
            let ghost p = self.position as int;
            let ghost pend_before = pending@;
            let ghost arr_before = crate::value::values_model(array@);
            let (comments, _) = self.consume_newlines_and_comments_captured();
            let mut comments = comments;
            pending.append(&mut comments);
            proof {
                lemma_skip_trivia(toks, p);
                assert(strings_model(pending@) =~= strings_model(pend_before) + skip_trivia(toks, p).0);
            }
            let ghost q = self.position as int;
            if self.at_right_bracket() {
                self.advance();
                return Ok(Value::with_comments(ValueKind::Array(array), leading));
            }
            let ghost pend_model = strings_model(pending@);
            let value = match self.parse_value(pending) {
                Ok(v) => v,
                Err(e) => {
                    return Err(e);
                },
            };
            let ghost r = self.position as int;
            let ghost v_model = value@;
            proof {
                lemma_parse_value_progress(toks, q, pend_model);
                crate::value::lemma_values_model_push(array@, value);
                lemma_skip_separator(toks, r);
                assert(parse_value_at(toks, q, pend_model) == Ok::<
                    (Node, int),
                    (Seq<char>, int, int),
                >((v_model, r)));
            }
            array.push(value);
            let (sep_comments, has_sep) = self.consume_separator();
            pending = sep_comments;
            if self.at_right_bracket() {
                self.advance();
                return Ok(Value::with_comments(ValueKind::Array(array), leading));
            }
            if !has_sep {
                let cur = self.current_token();
                return Err(self.error_at_current(message_with("Expected ',' or ']' in array, found ", &cur)));
            }
            proof {
                assert(crate::value::values_model(array@) == arr_before.push(v_model));
                assert(skip_separator(toks, r) == (strings_model(pending@), true, self.position as int));
                assert(p < self.position);
            }
        }
    }

    /// Parse a complete COSY document.
    pub fn parse(&mut self) -> (r: Result<Value, ParseError>)
        ensures
            final(self).tokens == old(self).tokens,
            parse_agrees(r, parse_document_from(tokens_model(old(self).tokens@), old(self).position as int)),
    {
        let ghost toks = tokens_model(self.tokens@);
        let ghost p0 = self.position as int;
        if self.position > self.tokens.len() {
            return Err(self.error_at_current(message_with("Expected value, found ", &Token::Eof)));
        }
        let (root_comments, _) = self.consume_newlines_and_comments_captured();
        let value = match self.parse_value(root_comments) {
            Ok(v) => v,
            Err(e) => {
                return Err(e);
            },
        };
        proof {
            lemma_skip_trivia(toks, p0);
            lemma_parse_value_progress(toks, skip_trivia(toks, p0).2, skip_trivia(toks, p0).0);
        }
        let _ = self.consume_newlines_and_comments_captured();
        match self.current_token() {
            Token::Eof => Ok(value),
            _ => Err(self.error_at_current(String::from_str("Unexpected tokens after value"))),
        }
    }
}

} // verus!

verus! {

/// Lexer tokens (each with its start index) given the line and column of
/// that index.
pub open spec fn positioned(cs: Seq<char>, m: Seq<(Tok, int)>) -> Seq<(Tok, int, int)> {
    m.map_values(|e: (Tok, int)| (e.0, line_at(cs, e.1), col_at(cs, e.1)))
}

/// The outcome of reading a COSY text.
pub enum ReadOutcome {
    Parsed(Node),
    LexFailed(Seq<char>, int, int),
    ParseFailed(Seq<char>, int, int),
}

/// Reading a text: lex it (resolving `${NAME}` in `env`), then parse the
/// tokens as one document.
pub open spec fn read_text(cs: Seq<char>, env: Seq<(Seq<char>, Seq<char>)>) -> ReadOutcome {
    match lex(cs, env) {
        Err((m, k)) => ReadOutcome::LexFailed(m, line_at(cs, k), col_at(cs, k)),
        Ok(toks) => match parse_document(positioned(cs, toks)) {
            Ok(n) => ReadOutcome::Parsed(n),
            Err((m, l, c)) => ReadOutcome::ParseFailed(m, l, c),
        },
    }
}

/// Whether an exec reading result agrees with the model's outcome.
pub open spec fn read_agrees(r: Result<Value, CosynError>, o: ReadOutcome) -> bool {
    match o {
        ReadOutcome::Parsed(n) => r matches Ok(v) && v@ == n,
        ReadOutcome::LexFailed(m, l, c) => r matches Err(CosynError::Lex(e)) && e.message@ == m
            && e.line == l && e.column == c,
        ReadOutcome::ParseFailed(m, l, c) => r matches Err(CosynError::Parse(e)) && e.message@
            == m && e.line == l && e.column == c,
    }
}

/// Parse COSY text, resolving `${NAME}` references in `env`.
pub fn from_str_with_env(input: &str, env: Vec<(String, String)>) -> (r: Result<Value, CosynError>)
    ensures
        read_agrees(r, read_text(input@, env_model(env@))),
{
    let lexer = Lexer::with_env(input, env);
    let tokens = match lexer.tokenize() {
        Ok(t) => t,
        Err(e) => {
            return Err(CosynError::Lex(e));
        },
    };
    let ghost m = lex(input@, env_model(lexer.env@))->Ok_0;
    proof {
        assert(tokens_model(tokens@) =~= positioned(input@, m));
    }
    let mut parser = Parser::new(tokens);
    match parser.parse() {
        Ok(v) => Ok(v),
        Err(e) => Err(CosynError::Parse(e)),
    }
}

/// Parse COSY text. A `${NAME}` reference is resolved against an empty
/// environment, so it fails to lex; `from_str_with_env` takes the
/// environment to resolve such references in.
pub fn from_str(input: &str) -> (r: Result<Value, CosynError>)
    ensures
        read_agrees(r, read_text(input@, Seq::empty())),
{
    let env: Vec<(String, String)> = Vec::new();
    proof {
        assert(env_model(env@) =~= Seq::empty());
    }
    from_str_with_env(input, env)
}

/// Every object read from text has distinct keys: a key written twice keeps
/// its first place and takes the last value.
pub proof fn lemma_read_well_keyed(cs: Seq<char>, env: Seq<(Seq<char>, Seq<char>)>)
    ensures
        read_text(cs, env) matches ReadOutcome::Parsed(n) ==> well_keyed(n),
{
    if let Ok(toks) = lex(cs, env) {
        let t = positioned(cs, toks);
        lemma_skip_trivia(t, 0);
        let (c, _, q) = skip_trivia(t, 0);
        lemma_parse_value_well_keyed(t, q, c);
    }
}

} // verus!
