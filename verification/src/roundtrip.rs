//! Reading back what was written: the text that the serializer makes of a
//! value lexes and parses to that same value.
//!
//! The proof goes through the tokens of the serialized text. `value_toks`
//! names the kinds of those tokens; one half shows that the parser turns
//! them into the value, the other that the lexer turns the text into them.
use vstd::prelude::*;
use crate::value::{Node, Shape, well_keyed, distinct_keys, find_key, insert_entry, lemma_find_key};
use crate::syntax::lexer::{Tok, Scan, lex_from, scan_token, is_blank, is_digit, is_ident_start,
    is_ident_char, line_end, ident_end, trim_front, trim_back, scan_string_body, escape_of,
    scan_number, digits_end, digits_value, lemma_digits_end, lemma_line_end, lemma_scan_token_progress,
    infer_env_token};
use crate::text::{nat_text, int_text, digit_char};
use crate::serde::serializer::{escape_char, escape_text, ser_value, ser_shape, comment_lines,
    indent_text, line_sep, inline_sep, array_lines, array_inline, object_lines, object_inline};
use crate::syntax::parser::{tok_at, skip_trivia, skip_separator, parse_value_at, parse_object_items,
    parse_array_items, parse_document, positioned, read_text, ReadOutcome};
use crate::syntax::lexer::lex;
use crate::syntax::parser::{lemma_skip_trivia, lemma_skip_separator, lemma_parse_value_progress};
use crate::serde::serializer::SerializeOptions;

verus! {


// ---------------------------------------------------------------------------
// The tokens of serialized text
// ---------------------------------------------------------------------------

/// The tokens of comment lines: each comment, then the end of its line.
pub open spec fn comment_toks(cs: Seq<Seq<char>>) -> Seq<Tok>
    decreases cs.len(),
{
    if cs.len() == 0 {
        Seq::empty()
    } else {
        comment_toks(cs.drop_last()) + seq![Tok::Comment(cs.last()), Tok::Newline]
    }
}

/// The tokens after element `i` of `len`: a comma between elements (and
/// after the last with trailing commas), and a line end in multi-line layout.
pub open spec fn sep_toks(i: int, len: int, nl: bool, o: SerializeOptions) -> Seq<Tok> {
    (if i < len - 1 || o.trailing_commas {
        seq![Tok::Comma]
    } else {
        Seq::empty()
    }) + (if nl {
        seq![Tok::Newline]
    } else {
        Seq::empty()
    })
}

/// The tokens of a serialized value: its comment lines, then its data.
pub open spec fn value_toks(n: Node, o: SerializeOptions) -> Seq<Tok> {
    comment_toks(n.comments) + shape_toks(n.shape, o)
}

/// Whether an array of `len` items is written one item per line.
pub open spec fn items_multiline(len: int, o: SerializeOptions) -> bool {
    o.use_newlines && len > 1
}

/// The tokens of a value's data.
pub open spec fn shape_toks(s: Shape, o: SerializeOptions) -> Seq<Tok>
    decreases s, 1int,
{
    match s {
        Shape::Null => seq![Tok::Null],
        Shape::Bool(b) => if b {
            seq![Tok::True]
        } else {
            seq![Tok::False]
        },
        Shape::Integer(i) => seq![Tok::Integer(i)],
        Shape::Float(t) => seq![Tok::Float(t)],
        Shape::Str(t) => seq![Tok::Str(t)],
        Shape::Array(items) => if items.len() == 0 {
            seq![Tok::LeftBracket, Tok::RightBracket]
        } else {
            let nl = items_multiline(items.len() as int, o);
            seq![Tok::LeftBracket] + (if nl {
                seq![Tok::Newline]
            } else {
                Seq::empty()
            }) + items_toks(items, items.len() as int, nl, o) + seq![Tok::RightBracket]
        },
        Shape::Object(es) => if es.len() == 0 {
            seq![Tok::LeftBrace, Tok::RightBrace]
        } else {
            seq![Tok::LeftBrace] + (if o.use_newlines {
                seq![Tok::Newline]
            } else {
                Seq::empty()
            }) + entries_toks(es, es.len() as int, o.use_newlines, o) + seq![Tok::RightBrace]
        },
    }
}

/// The tokens of the first `k` items of an array.
pub open spec fn items_toks(items: Seq<Node>, k: int, nl: bool, o: SerializeOptions) -> Seq<Tok>
    decreases items, k,
{
    if k <= 0 || k > items.len() {
        Seq::empty()
    } else {
        items_toks(items, k - 1, nl, o) + item_toks(items, k - 1, nl, o)
    }
}

/// The tokens of item `i` of an array, with its separator.
pub open spec fn item_toks(items: Seq<Node>, i: int, nl: bool, o: SerializeOptions) -> Seq<Tok>
    decreases items, 0int,
{
    if 0 <= i < items.len() {
        comment_toks(items[i].comments) + shape_toks(items[i].shape, o) + sep_toks(
            i,
            items.len() as int,
            nl,
            o,
        )
    } else {
        Seq::empty()
    }
}

/// The tokens of the first `k` entries of an object.
pub open spec fn entries_toks(es: Seq<(Seq<char>, Node)>, k: int, nl: bool, o: SerializeOptions) -> Seq<
    Tok,
>
    decreases es, k,
{
    if k <= 0 || k > es.len() {
        Seq::empty()
    } else {
        entries_toks(es, k - 1, nl, o) + entry_toks(es, k - 1, nl, o)
    }
}

/// The tokens of entry `i` of an object, with its separator.
pub open spec fn entry_toks(es: Seq<(Seq<char>, Node)>, i: int, nl: bool, o: SerializeOptions) -> Seq<Tok>
    decreases es, 0int,
{
    if 0 <= i < es.len() {
        comment_toks(es[i].1.comments) + seq![Tok::Ident(es[i].0), Tok::Colon] + shape_toks(
            es[i].1.shape,
            o,
        ) + sep_toks(i, es.len() as int, nl, o)
    } else {
        Seq::empty()
    }
}

// ---------------------------------------------------------------------------
// Token sequences laid out in the parser's input
// ---------------------------------------------------------------------------

/// The tokens from index `p` on have the kinds `k`.
pub open spec fn toks_at(t: Seq<(Tok, int, int)>, p: int, k: Seq<Tok>) -> bool {
    &&& 0 <= p
    &&& p + k.len() <= t.len()
    &&& forall|j: int| 0 <= j < k.len() ==> tok_at(t, p + j) == #[trigger] k[j]
}

proof fn lemma_toks_at_split(t: Seq<(Tok, int, int)>, p: int, a: Seq<Tok>, b: Seq<Tok>)
    requires
        toks_at(t, p, a + b),
    ensures
        toks_at(t, p, a),
        toks_at(t, p + a.len(), b),
{
    assert forall|j: int| 0 <= j < a.len() implies tok_at(t, p + j) == #[trigger] a[j] by {
        assert((a + b)[j] == a[j]);
    }
    assert forall|j: int| 0 <= j < b.len() implies tok_at(t, (p + a.len()) + j) == #[trigger] b[j] by {
        assert((a + b)[a.len() + j] == b[j]);
        assert(p + (a.len() + j) == (p + a.len()) + j);
    }
}

proof fn lemma_toks_at_index(t: Seq<(Tok, int, int)>, p: int, k: Seq<Tok>, j: int)
    requires
        toks_at(t, p, k),
        0 <= j < k.len(),
    ensures
        tok_at(t, p + j) == k[j],
{
}

/// A token that `skip_trivia` stops at.
pub open spec fn is_trivia(t: Tok) -> bool {
    t is Newline || t is Comment
}

proof fn lemma_comment_toks_len(cs: Seq<Seq<char>>)
    ensures
        comment_toks(cs).len() == 2 * cs.len(),
    decreases cs.len(),
{
    if cs.len() > 0 {
        lemma_comment_toks_len(cs.drop_last());
    }
}

/// The comment tokens read from the front.
proof fn lemma_comment_toks_front(cs: Seq<Seq<char>>)
    requires
        cs.len() > 0,
    ensures
        comment_toks(cs) == seq![Tok::Comment(cs[0]), Tok::Newline] + comment_toks(cs.drop_first()),
    decreases cs.len(),
{
    if cs.len() > 1 {
        lemma_comment_toks_front(cs.drop_last());
        assert(cs.drop_last().drop_first() =~= cs.drop_first().drop_last());
        assert(cs.drop_first().last() == cs.last());
    } else {
        assert(cs.drop_first() =~= Seq::<Seq<char>>::empty());
        assert(cs.drop_last() =~= Seq::<Seq<char>>::empty());
    }
}

/// Skipping over comment lines collects their comments.
proof fn lemma_skip_comments(t: Seq<(Tok, int, int)>, p: int, cs: Seq<Seq<char>>)
    requires
        toks_at(t, p, comment_toks(cs)),
        !is_trivia(tok_at(t, p + comment_toks(cs).len())),
    ensures
        skip_trivia(t, p) == (cs, cs.len() > 0, p + comment_toks(cs).len()),
    decreases cs.len(),
{
    lemma_comment_toks_len(cs);
    if cs.len() == 0 {
        if 0 <= p < t.len() {
            assert(tok_at(t, p) == t[p].0);
        }
        assert(cs =~= Seq::<Seq<char>>::empty());
    } else {
        lemma_comment_toks_front(cs);
        let rest = cs.drop_first();
        let head = seq![Tok::Comment(cs[0]), Tok::Newline];
        lemma_toks_at_split(t, p, head, comment_toks(rest));
        lemma_toks_at_index(t, p, head, 0);
        lemma_toks_at_index(t, p, head, 1);
        lemma_comment_toks_len(rest);
        assert(comment_toks(cs).len() == 2 + comment_toks(rest).len());
        lemma_skip_comments(t, p + 2, rest);
        assert(tok_at(t, p) == t[p].0);
        assert(tok_at(t, p + 1) == t[p + 1].0);
        assert(seq![cs[0]] + rest =~= cs);
        let r2 = skip_trivia(t, p + 2);
        assert(r2 == (rest, rest.len() > 0, p + 2 + comment_toks(rest).len()));
        assert(t[p + 1].0 == Tok::Newline);
        assert(skip_trivia(t, p + 1) == (r2.0, true, r2.2));
        assert(t[p].0 == Tok::Comment(cs[0]));
        assert(skip_trivia(t, p) == (seq![cs[0]] + r2.0, true, r2.2));
    }
}

/// A line end in multi-line layout, nothing otherwise.
pub open spec fn newline_if(nl: bool) -> Seq<Tok> {
    if nl {
        seq![Tok::Newline]
    } else {
        Seq::empty()
    }
}

/// Skipping a line end and then comment lines collects the comments.
proof fn lemma_skip_newline_comments(t: Seq<(Tok, int, int)>, p: int, nl: bool, cs: Seq<Seq<char>>)
    requires
        toks_at(t, p, newline_if(nl) + comment_toks(cs)),
        !is_trivia(tok_at(t, p + newline_if(nl).len() + comment_toks(cs).len())),
    ensures
        skip_trivia(t, p) == (cs, nl || cs.len() > 0, p + newline_if(nl).len() + comment_toks(cs).len()),
{
    lemma_toks_at_split(t, p, newline_if(nl), comment_toks(cs));
    lemma_skip_comments(t, p + newline_if(nl).len(), cs);
    if nl {
        lemma_toks_at_index(t, p, newline_if(nl), 0);
        assert(t[p].0 == Tok::Newline);
    }
}

/// Past a separator that precedes another element: the comments of the next
/// element are collected, and the separator counts.
proof fn lemma_skip_separator_more(t: Seq<(Tok, int, int)>, r: int, nl: bool, cs: Seq<Seq<char>>)
    requires
        toks_at(t, r, seq![Tok::Comma] + newline_if(nl) + comment_toks(cs)),
        !is_trivia(tok_at(t, r + 1 + newline_if(nl).len() + comment_toks(cs).len())),
    ensures
        skip_separator(t, r) == (cs, true, r + 1 + newline_if(nl).len() + comment_toks(cs).len()),
{
    let rest = newline_if(nl) + comment_toks(cs);
    assert(seq![Tok::Comma] + newline_if(nl) + comment_toks(cs) =~= seq![Tok::Comma] + rest);
    lemma_toks_at_split(t, r, seq![Tok::Comma], rest);
    lemma_toks_at_index(t, r, seq![Tok::Comma], 0);
    assert(t[r].0 == Tok::Comma);
    assert(skip_trivia(t, r) == (Seq::<Seq<char>>::empty(), false, r));
    lemma_skip_newline_comments(t, r + 1, nl, cs);
    assert(Seq::<Seq<char>>::empty() + cs =~= cs);
}

/// Past the separator of the last element, up to the closing token.
proof fn lemma_skip_separator_last(t: Seq<(Tok, int, int)>, r: int, comma: bool, nl: bool, closer: Tok)
    requires
        toks_at(
            t,
            r,
            (if comma {
                seq![Tok::Comma]
            } else {
                Seq::empty()
            }) + newline_if(nl) + seq![closer],
        ),
        closer is RightBrace || closer is RightBracket,
    ensures
        skip_separator(t, r).2 == r + (if comma {
            1int
        } else {
            0int
        }) + newline_if(nl).len(),
{
    let c = if comma {
        seq![Tok::Comma]
    } else {
        Seq::<Tok>::empty()
    };
    assert(c + newline_if(nl) + seq![closer] =~= c + (newline_if(nl) + seq![closer]));
    lemma_toks_at_split(t, r, c, newline_if(nl) + seq![closer]);
    let r1 = r + c.len();
    lemma_toks_at_split(t, r1, newline_if(nl), seq![closer]);
    lemma_toks_at_index(t, r1 + newline_if(nl).len(), seq![closer], 0);
    assert(comment_toks(Seq::<Seq<char>>::empty()) =~= Seq::<Tok>::empty());
    assert(newline_if(nl) + comment_toks(Seq::<Seq<char>>::empty()) =~= newline_if(nl));
    assert(toks_at(t, r1, newline_if(nl) + comment_toks(Seq::<Seq<char>>::empty())));
    lemma_skip_newline_comments(t, r1, nl, Seq::empty());
    if comma {
        lemma_toks_at_index(t, r, c, 0);
        assert(t[r].0 == Tok::Comma);
        assert(skip_trivia(t, r) == (Seq::<Seq<char>>::empty(), false, r));
    } else {
        assert(skip_trivia(t, r).2 == r1 + newline_if(nl).len());
    }
}

/// The data's tokens start with a token that is neither trivia nor a
/// closing bracket.
proof fn lemma_shape_toks_first(s: Shape, o: SerializeOptions)
    ensures
        shape_toks(s, o).len() > 0,
        !is_trivia(shape_toks(s, o)[0]),
        !(shape_toks(s, o)[0] is RightBracket),
        !(shape_toks(s, o)[0] is RightBrace),
        !(shape_toks(s, o)[0] is Comma),
{
}

proof fn lemma_items_toks_piece(
    t: Seq<(Tok, int, int)>,
    base: int,
    items: Seq<Node>,
    k: int,
    m: int,
    nl: bool,
    o: SerializeOptions,
)
    requires
        toks_at(t, base, items_toks(items, m, nl, o)),
        0 <= k < m <= items.len(),
    ensures
        toks_at(t, base + items_toks(items, k, nl, o).len(), item_toks(items, k, nl, o)),
        items_toks(items, k + 1, nl, o).len() == items_toks(items, k, nl, o).len() + item_toks(
            items,
            k,
            nl,
            o,
        ).len(),
    decreases m,
{
    lemma_toks_at_split(t, base, items_toks(items, m - 1, nl, o), item_toks(items, m - 1, nl, o));
    if k < m - 1 {
        lemma_items_toks_piece(t, base, items, k, m - 1, nl, o);
    }
}

proof fn lemma_entries_toks_piece(
    t: Seq<(Tok, int, int)>,
    base: int,
    es: Seq<(Seq<char>, Node)>,
    k: int,
    m: int,
    nl: bool,
    o: SerializeOptions,
)
    requires
        toks_at(t, base, entries_toks(es, m, nl, o)),
        0 <= k < m <= es.len(),
    ensures
        toks_at(t, base + entries_toks(es, k, nl, o).len(), entry_toks(es, k, nl, o)),
        entries_toks(es, k + 1, nl, o).len() == entries_toks(es, k, nl, o).len() + entry_toks(
            es,
            k,
            nl,
            o,
        ).len(),
    decreases m,
{
    lemma_toks_at_split(t, base, entries_toks(es, m - 1, nl, o), entry_toks(es, m - 1, nl, o));
    if k < m - 1 {
        lemma_entries_toks_piece(t, base, es, k, m - 1, nl, o);
    }
}

proof fn lemma_toks_at_join(t: Seq<(Tok, int, int)>, p: int, a: Seq<Tok>, b: Seq<Tok>)
    requires
        toks_at(t, p, a),
        toks_at(t, p + a.len(), b),
    ensures
        toks_at(t, p, a + b),
{
    assert forall|j: int| 0 <= j < (a + b).len() implies tok_at(t, p + j) == #[trigger] (a + b)[j] by {
        if j < a.len() {
            lemma_toks_at_index(t, p, a, j);
        } else {
            lemma_toks_at_index(t, p + a.len(), b, j - a.len());
            assert(p + a.len() + (j - a.len()) == p + j);
        }
    }
}

/// Parsing the tokens of a value's data gives that data, with the comments
/// gathered before it.
pub proof fn lemma_parse_shape(
    t: Seq<(Tok, int, int)>,
    q: int,
    lead: Seq<Seq<char>>,
    s: Shape,
    o: SerializeOptions,
)
    requires
        well_keyed(Node { shape: s, comments: Seq::empty() }),
        toks_at(t, q, shape_toks(s, o)),
    ensures
        parse_value_at(t, q, lead) == Ok::<(Node, int), (Seq<char>, int, int)>(
            (Node { shape: s, comments: lead }, q + shape_toks(s, o).len()),
        ),
    decreases s, 2int,
{
    let st = shape_toks(s, o);
    lemma_shape_toks_first(s, o);
    lemma_toks_at_index(t, q, st, 0);
    assert(t[q].0 == st[0]);
    assert(skip_trivia(t, q) == (Seq::<Seq<char>>::empty(), false, q));
    assert(lead + Seq::<Seq<char>>::empty() =~= lead);
    match s {
        Shape::Array(_) => lemma_parse_array_shape(t, q, lead, s, o),
        Shape::Object(_) => lemma_parse_object_shape(t, q, lead, s, o),
        _ => {},
    }
}

#[verifier::spinoff_prover]
#[verifier::rlimit(40)]
proof fn lemma_parse_array_shape(
    t: Seq<(Tok, int, int)>,
    q: int,
    lead: Seq<Seq<char>>,
    s: Shape,
    o: SerializeOptions,
)
    requires
        s is Array,
        well_keyed(Node { shape: s, comments: Seq::empty() }),
        toks_at(t, q, shape_toks(s, o)),
        skip_trivia(t, q) == (Seq::<Seq<char>>::empty(), false, q),
    ensures
        parse_value_at(t, q, lead) == Ok::<(Node, int), (Seq<char>, int, int)>(
            (Node { shape: s, comments: lead }, q + shape_toks(s, o).len()),
        ),
    decreases s, 1int,
{
    let st = shape_toks(s, o);
    assert(lead + Seq::<Seq<char>>::empty() =~= lead);
    let items = s->Array_0;
    let len = items.len() as int;
    assert(s == Shape::Array(items));
    lemma_toks_at_index(t, q, st, 0);
    assert(t[q].0 == Tok::LeftBracket);
    assert(tok_at(t, q) == Tok::LeftBracket);
    if len == 0 {
        lemma_toks_at_index(t, q, st, 1);
        assert(t[q + 1].0 == Tok::RightBracket);
        assert(skip_trivia(t, q + 1) == (Seq::<Seq<char>>::empty(), false, q + 1));
        assert(items =~= Seq::<Node>::empty());
    } else {
        let nl = items_multiline(len, o);
        let it = items_toks(items, len, nl, o);
        assert(st =~= seq![Tok::LeftBracket] + (newline_if(nl) + (it + seq![Tok::RightBracket])));
        lemma_toks_at_split(t, q, seq![Tok::LeftBracket], newline_if(nl) + (it + seq![Tok::RightBracket]));
        lemma_toks_at_split(t, q + 1, newline_if(nl), it + seq![Tok::RightBracket]);
        let base = q + 1 + newline_if(nl).len();
        lemma_toks_at_split(t, base, it, seq![Tok::RightBracket]);
        lemma_items_toks_piece(t, base, items, 0, len, nl, o);
        assert(items_toks(items, 0, nl, o).len() == 0);
        let c0 = items[0].comments;
        let s0 = items[0].shape;
        let piece = item_toks(items, 0, nl, o);
        assert(piece =~= comment_toks(c0) + (shape_toks(s0, o) + sep_toks(0, len, nl, o)));
        lemma_toks_at_split(t, base, comment_toks(c0), shape_toks(s0, o) + sep_toks(0, len, nl, o));
        lemma_toks_at_split(t, base + comment_toks(c0).len(), shape_toks(s0, o), sep_toks(0, len, nl, o));
        lemma_shape_toks_first(s0, o);
        lemma_toks_at_index(t, base + comment_toks(c0).len(), shape_toks(s0, o), 0);
        lemma_toks_at_join(t, q + 1, newline_if(nl), comment_toks(c0));
        lemma_skip_newline_comments(t, q + 1, nl, c0);
        assert(Seq::<Seq<char>>::empty() + c0 =~= c0);
        assert(items.take(0) =~= Seq::<Node>::empty());
        lemma_parse_items_from(t, q + 1, lead, items, 0, Seq::empty(), nl, o, base);
    }

}

#[verifier::spinoff_prover]
#[verifier::rlimit(40)]
proof fn lemma_parse_object_shape(
    t: Seq<(Tok, int, int)>,
    q: int,
    lead: Seq<Seq<char>>,
    s: Shape,
    o: SerializeOptions,
)
    requires
        s is Object,
        well_keyed(Node { shape: s, comments: Seq::empty() }),
        toks_at(t, q, shape_toks(s, o)),
        skip_trivia(t, q) == (Seq::<Seq<char>>::empty(), false, q),
    ensures
        parse_value_at(t, q, lead) == Ok::<(Node, int), (Seq<char>, int, int)>(
            (Node { shape: s, comments: lead }, q + shape_toks(s, o).len()),
        ),
    decreases s, 1int,
{
    let st = shape_toks(s, o);
    assert(lead + Seq::<Seq<char>>::empty() =~= lead);
    let es = s->Object_0;
    let len = es.len() as int;
    assert(s == Shape::Object(es));
    lemma_toks_at_index(t, q, st, 0);
    assert(t[q].0 == Tok::LeftBrace);
    assert(tok_at(t, q) == Tok::LeftBrace);
    if len == 0 {
        lemma_toks_at_index(t, q, st, 1);
        assert(t[q + 1].0 == Tok::RightBrace);
        assert(skip_trivia(t, q + 1) == (Seq::<Seq<char>>::empty(), false, q + 1));
        assert(es =~= Seq::<(Seq<char>, Node)>::empty());
    } else {
        let nl = o.use_newlines;
        let et = entries_toks(es, len, nl, o);
        assert(st =~= seq![Tok::LeftBrace] + (newline_if(nl) + (et + seq![Tok::RightBrace])));
        lemma_toks_at_split(t, q, seq![Tok::LeftBrace], newline_if(nl) + (et + seq![Tok::RightBrace]));
        lemma_toks_at_split(t, q + 1, newline_if(nl), et + seq![Tok::RightBrace]);
        let base = q + 1 + newline_if(nl).len();
        lemma_toks_at_split(t, base, et, seq![Tok::RightBrace]);
        lemma_entries_toks_piece(t, base, es, 0, len, nl, o);
        assert(entries_toks(es, 0, nl, o).len() == 0);
        let c0 = es[0].1.comments;
        let piece = entry_toks(es, 0, nl, o);
        let tail = seq![Tok::Ident(es[0].0), Tok::Colon] + shape_toks(es[0].1.shape, o) + sep_toks(
            0,
            len,
            nl,
            o,
        );
        assert(piece =~= comment_toks(c0) + tail);
        lemma_toks_at_split(t, base, comment_toks(c0), tail);
        lemma_toks_at_index(t, base + comment_toks(c0).len(), tail, 0);
        lemma_toks_at_join(t, q + 1, newline_if(nl), comment_toks(c0));
        lemma_skip_newline_comments(t, q + 1, nl, c0);
        assert(Seq::<Seq<char>>::empty() + c0 =~= c0);
        assert(es.take(0) =~= Seq::<(Seq<char>, Node)>::empty());
        lemma_parse_entries_from(t, q + 1, lead, es, 0, Seq::empty(), nl, o, base);
    }

}

/// Parsing an array's items from item `k` on, with the items before it
/// parsed: `s` is where the parser stands and `pd` the comments it holds
/// for item `k`.
#[verifier::spinoff_prover]
#[verifier::rlimit(40)]
proof fn lemma_parse_items_from(
    t: Seq<(Tok, int, int)>,
    s: int,
    lead: Seq<Seq<char>>,
    items: Seq<Node>,
    k: int,
    pd: Seq<Seq<char>>,
    nl: bool,
    o: SerializeOptions,
    base: int,
)
    requires
        0 <= k < items.len(),
        forall|j: int| 0 <= j < items.len() ==> well_keyed(#[trigger] items[j]),
        toks_at(t, base, items_toks(items, items.len() as int, nl, o) + seq![Tok::RightBracket]),
        0 <= s <= t.len(),
        skip_trivia(t, s).2 == base + items_toks(items, k, nl, o).len() + comment_toks(
            items[k].comments,
        ).len(),
        pd + skip_trivia(t, s).0 == items[k].comments,
    ensures
        parse_array_items(t, s, lead, items.take(k), pd) == Ok::<(Node, int), (Seq<char>, int, int)>(
            (
                Node { shape: Shape::Array(items), comments: lead },
                base + items_toks(items, items.len() as int, nl, o).len() + 1,
            ),
        ),
    decreases items, items.len() - k,
{
    let len = items.len() as int;
    let all = items_toks(items, len, nl, o);
    lemma_toks_at_split(t, base, all, seq![Tok::RightBracket]);
    lemma_items_toks_piece(t, base, items, k, len, nl, o);
    let pos = base + items_toks(items, k, nl, o).len();
    let ck = items[k].comments;
    let sk = items[k].shape;
    let sep = sep_toks(k, len, nl, o);
    assert(item_toks(items, k, nl, o) =~= comment_toks(ck) + (shape_toks(sk, o) + sep));
    lemma_toks_at_split(t, pos, comment_toks(ck), shape_toks(sk, o) + sep);
    let q = pos + comment_toks(ck).len();
    lemma_toks_at_split(t, q, shape_toks(sk, o), sep);
    lemma_shape_toks_first(sk, o);
    lemma_toks_at_index(t, q, shape_toks(sk, o), 0);
    crate::syntax::parser::lemma_skip_trivia(t, s);
    assert(well_keyed(Node { shape: sk, comments: Seq::empty() }));
    lemma_parse_shape(t, q, ck, sk, o);
    assert(Node { shape: sk, comments: ck } == items[k]);
    assert(items.take(k).push(items[k]) =~= items.take(k + 1));
    let r = q + shape_toks(sk, o).len();
    if k < len - 1 {
        lemma_items_toks_piece(t, base, items, k + 1, len, nl, o);
        let pos2 = base + items_toks(items, k + 1, nl, o).len();
        let c2 = items[k + 1].comments;
        let s2 = items[k + 1].shape;
        assert(item_toks(items, k + 1, nl, o) =~= comment_toks(c2) + (shape_toks(s2, o) + sep_toks(
            k + 1,
            len,
            nl,
            o,
        )));
        lemma_toks_at_split(t, pos2, comment_toks(c2), shape_toks(s2, o) + sep_toks(k + 1, len, nl, o));
        let q2 = pos2 + comment_toks(c2).len();
        lemma_toks_at_split(t, q2, shape_toks(s2, o), sep_toks(k + 1, len, nl, o));
        lemma_shape_toks_first(s2, o);
        lemma_toks_at_index(t, q2, shape_toks(s2, o), 0);
        assert(sep =~= seq![Tok::Comma] + newline_if(nl));
        lemma_toks_at_join(t, r, sep, comment_toks(c2));
        lemma_skip_separator_more(t, r, nl, c2);
        assert(t[q2].0 == shape_toks(s2, o)[0]);
        assert(skip_trivia(t, q2) == (Seq::<Seq<char>>::empty(), false, q2));
        assert(c2 + Seq::<Seq<char>>::empty() =~= c2);
        lemma_parse_items_from(t, q2, lead, items, k + 1, c2, nl, o, base);
    } else {
        let comma = o.trailing_commas;
        assert(sep =~= (if comma {
            seq![Tok::Comma]
        } else {
            Seq::empty()
        }) + newline_if(nl));
        assert(r + sep.len() == base + all.len());
        lemma_toks_at_join(t, r, sep, seq![Tok::RightBracket]);
        lemma_skip_separator_last(t, r, comma, nl, Tok::RightBracket);
        lemma_toks_at_index(t, base + all.len(), seq![Tok::RightBracket], 0);
        assert(items.take(k + 1) =~= items);
    }
}

/// Parsing an object's entries from entry `k` on, with the entries before
/// it parsed: `s` is where the parser stands and `pd` the comments it holds
/// for entry `k`.
#[verifier::spinoff_prover]
#[verifier::rlimit(40)]
proof fn lemma_parse_entries_from(
    t: Seq<(Tok, int, int)>,
    s: int,
    lead: Seq<Seq<char>>,
    es: Seq<(Seq<char>, Node)>,
    k: int,
    pd: Seq<Seq<char>>,
    nl: bool,
    o: SerializeOptions,
    base: int,
)
    requires
        0 <= k < es.len(),
        distinct_keys(es),
        forall|j: int| 0 <= j < es.len() ==> well_keyed(#[trigger] es[j].1),
        toks_at(t, base, entries_toks(es, es.len() as int, nl, o) + seq![Tok::RightBrace]),
        0 <= s <= t.len(),
        skip_trivia(t, s).2 == base + entries_toks(es, k, nl, o).len() + comment_toks(
            es[k].1.comments,
        ).len(),
        pd + skip_trivia(t, s).0 == es[k].1.comments,
    ensures
        parse_object_items(t, s, lead, es.take(k), pd) == Ok::<(Node, int), (Seq<char>, int, int)>(
            (
                Node { shape: Shape::Object(es), comments: lead },
                base + entries_toks(es, es.len() as int, nl, o).len() + 1,
            ),
        ),
    decreases es, es.len() - k,
{
    let len = es.len() as int;
    let all = entries_toks(es, len, nl, o);
    lemma_toks_at_split(t, base, all, seq![Tok::RightBrace]);
    lemma_entries_toks_piece(t, base, es, k, len, nl, o);
    let pos = base + entries_toks(es, k, nl, o).len();
    let ck = es[k].1.comments;
    let sk = es[k].1.shape;
    let key = es[k].0;
    let sep = sep_toks(k, len, nl, o);
    let kc = seq![Tok::Ident(key), Tok::Colon];
    assert(entry_toks(es, k, nl, o) =~= comment_toks(ck) + (kc + (shape_toks(sk, o) + sep)));
    lemma_toks_at_split(t, pos, comment_toks(ck), kc + (shape_toks(sk, o) + sep));
    let q = pos + comment_toks(ck).len();
    lemma_toks_at_split(t, q, kc, shape_toks(sk, o) + sep);
    lemma_toks_at_index(t, q, kc, 0);
    lemma_toks_at_index(t, q, kc, 1);
    lemma_toks_at_split(t, q + 2, shape_toks(sk, o), sep);
    crate::syntax::parser::lemma_skip_trivia(t, s);
    assert(well_keyed(Node { shape: sk, comments: Seq::empty() }));
    lemma_parse_shape(t, q + 2, ck, sk, o);
    assert(Node { shape: sk, comments: ck } == es[k].1);
    lemma_find_key(es.take(k), key);
    assert forall|j: int| 0 <= j < k implies #[trigger] es.take(k)[j].0 != key by {
        assert(es.take(k)[j] == es[j]);
    }
    assert(insert_entry(es.take(k), key, es[k].1) =~= es.take(k + 1));
    let r = q + 2 + shape_toks(sk, o).len();
    if k < len - 1 {
        lemma_entries_toks_piece(t, base, es, k + 1, len, nl, o);
        let pos2 = base + entries_toks(es, k + 1, nl, o).len();
        let c2 = es[k + 1].1.comments;
        let tail2 = seq![Tok::Ident(es[k + 1].0), Tok::Colon] + shape_toks(es[k + 1].1.shape, o)
            + sep_toks(k + 1, len, nl, o);
        assert(entry_toks(es, k + 1, nl, o) =~= comment_toks(c2) + tail2);
        lemma_toks_at_split(t, pos2, comment_toks(c2), tail2);
        let q2 = pos2 + comment_toks(c2).len();
        lemma_toks_at_index(t, q2, tail2, 0);
        assert(sep =~= seq![Tok::Comma] + newline_if(nl));
        lemma_toks_at_join(t, r, sep, comment_toks(c2));
        lemma_skip_separator_more(t, r, nl, c2);
        assert(t[q2].0 == Tok::Ident(es[k + 1].0));
        assert(skip_trivia(t, q2) == (Seq::<Seq<char>>::empty(), false, q2));
        assert(c2 + Seq::<Seq<char>>::empty() =~= c2);
        lemma_parse_entries_from(t, q2, lead, es, k + 1, c2, nl, o, base);
    } else {
        let comma = o.trailing_commas;
        assert(sep =~= (if comma {
            seq![Tok::Comma]
        } else {
            Seq::empty()
        }) + newline_if(nl));
        assert(r + sep.len() == base + all.len());
        lemma_toks_at_join(t, r, sep, seq![Tok::RightBrace]);
        lemma_skip_separator_last(t, r, comma, nl, Tok::RightBrace);
        lemma_toks_at_index(t, base + all.len(), seq![Tok::RightBrace], 0);
        assert(es.take(k + 1) =~= es);
    }
}

// ---------------------------------------------------------------------------
// Lexing serialized text
// ---------------------------------------------------------------------------

/// The kinds of lexed tokens.
pub open spec fn kinds(r: Seq<(Tok, int)>) -> Seq<Tok> {
    r.map_values(|x: (Tok, int)| x.0)
}

/// Lexing from `i` gives the kinds `k`, then what lexing from `j` gives
/// (or the same error).
pub open spec fn lexes_as(
    cs: Seq<char>,
    env: Seq<(Seq<char>, Seq<char>)>,
    i: int,
    k: Seq<Tok>,
    j: int,
) -> bool {
    match lex_from(cs, env, j) {
        Ok(rest) => lex_from(cs, env, i) matches Ok(all) && kinds(all) == k + kinds(rest),
        Err(e) => lex_from(cs, env, i) == Err::<Seq<(Tok, int)>, (Seq<char>, int)>(e),
    }
}

/// The text `w` stands at index `i` of `cs`.
pub open spec fn text_at(cs: Seq<char>, i: int, w: Seq<char>) -> bool {
    &&& 0 <= i
    &&& i + w.len() <= cs.len()
    &&& forall|j: int| 0 <= j < w.len() ==> cs[i + j] == #[trigger] w[j]
}

proof fn lemma_text_at_split(cs: Seq<char>, i: int, a: Seq<char>, b: Seq<char>)
    requires
        text_at(cs, i, a + b),
    ensures
        text_at(cs, i, a),
        text_at(cs, i + a.len(), b),
{
    assert forall|j: int| 0 <= j < a.len() implies cs[i + j] == #[trigger] a[j] by {
        assert((a + b)[j] == a[j]);
    }
    assert forall|j: int| 0 <= j < b.len() implies cs[(i + a.len()) + j] == #[trigger] b[j] by {
        assert((a + b)[a.len() + j] == b[j]);
        assert(i + (a.len() + j) == (i + a.len()) + j);
    }
}

proof fn lemma_text_at_index(cs: Seq<char>, i: int, w: Seq<char>, j: int)
    requires
        text_at(cs, i, w),
        0 <= j < w.len(),
    ensures
        cs[i + j] == w[j],
{
}

proof fn lemma_lexes_as_trans(
    cs: Seq<char>,
    env: Seq<(Seq<char>, Seq<char>)>,
    i: int,
    k1: Seq<Tok>,
    j: int,
    k2: Seq<Tok>,
    m: int,
)
    requires
        lexes_as(cs, env, i, k1, j),
        lexes_as(cs, env, j, k2, m),
    ensures
        lexes_as(cs, env, i, k1 + k2, m),
{
    match lex_from(cs, env, m) {
        Ok(rest) => {
            assert(k1 + (k2 + kinds(rest)) =~= (k1 + k2) + kinds(rest));
        },
        Err(e) => {},
    }
}

proof fn lemma_lexes_as_refl(cs: Seq<char>, env: Seq<(Seq<char>, Seq<char>)>, i: int)
    ensures
        lexes_as(cs, env, i, Seq::empty(), i),
{
    match lex_from(cs, env, i) {
        Ok(rest) => {
            assert(Seq::<Tok>::empty() + kinds(rest) =~= kinds(rest));
        },
        Err(e) => {},
    }
}

/// All characters of `w` are blanks.
pub open spec fn all_blank(w: Seq<char>) -> bool {
    forall|j: int| 0 <= j < w.len() ==> is_blank(#[trigger] w[j])
}

/// Blanks are skipped.
proof fn lemma_lex_blanks(cs: Seq<char>, env: Seq<(Seq<char>, Seq<char>)>, i: int, w: Seq<char>)
    requires
        text_at(cs, i, w),
        all_blank(w),
    ensures
        lexes_as(cs, env, i, Seq::empty(), i + w.len()),
    decreases w.len(),
{
    if w.len() == 0 {
        lemma_lexes_as_refl(cs, env, i);
    } else {
        lemma_text_at_index(cs, i, w, 0);
        assert(is_blank(w[0]));
        lemma_text_at_split(cs, i, seq![w[0]], w.drop_first());
        assert(seq![w[0]] + w.drop_first() =~= w);
        assert(all_blank(w.drop_first())) by {
            assert forall|j: int| 0 <= j < w.drop_first().len() implies is_blank(#[trigger] w.drop_first()[j]) by {
                assert(w.drop_first()[j] == w[j + 1]);
            }
        }
        lemma_lex_blanks(cs, env, i + 1, w.drop_first());
        assert(lex_from(cs, env, i) == lex_from(cs, env, i + 1));
    }
}

/// One token scanned at `i`, where no blank stands.
proof fn lemma_lex_one(cs: Seq<char>, env: Seq<(Seq<char>, Seq<char>)>, i: int, t: Tok, j: int)
    requires
        0 <= i < cs.len(),
        !is_blank(cs[i]),
        scan_token(cs, env, i) == Scan::Done(t, j),
        i < j <= cs.len(),
    ensures
        lexes_as(cs, env, i, seq![t], j),
{
    match lex_from(cs, env, j) {
        Ok(rest) => {
            let all = seq![(t, i)] + rest;
            assert(lex_from(cs, env, i) == Ok::<Seq<(Tok, int)>, (Seq<char>, int)>(all));
            assert(kinds(all) =~= seq![t] + kinds(rest));
        },
        Err(e) => {},
    }
}

/// A character that is a token of its own.
pub open spec fn punct_tok(c: char) -> Option<Tok> {
    if c == '\n' {
        Some(Tok::Newline)
    } else if c == '{' {
        Some(Tok::LeftBrace)
    } else if c == '}' {
        Some(Tok::RightBrace)
    } else if c == '[' {
        Some(Tok::LeftBracket)
    } else if c == ']' {
        Some(Tok::RightBracket)
    } else if c == ':' {
        Some(Tok::Colon)
    } else if c == ',' {
        Some(Tok::Comma)
    } else {
        None
    }
}

proof fn lemma_lex_punct(cs: Seq<char>, env: Seq<(Seq<char>, Seq<char>)>, i: int, c: char)
    requires
        0 <= i < cs.len(),
        cs[i] == c,
        punct_tok(c) is Some,
    ensures
        lexes_as(cs, env, i, seq![punct_tok(c)->Some_0], i + 1),
{
    lemma_lex_one(cs, env, i, punct_tok(c)->Some_0, i + 1);
}

/// Text made of blanks and characters that are tokens of their own lexes to
/// those tokens.
pub open spec fn punct_toks(w: Seq<char>) -> Seq<Tok>
    decreases w.len(),
{
    if w.len() == 0 {
        Seq::empty()
    } else {
        punct_toks(w.drop_last()) + (match punct_tok(w.last()) {
            Some(t) => seq![t],
            None => Seq::empty(),
        })
    }
}

/// Each character is a blank or a token of its own.
pub open spec fn plain_layout(w: Seq<char>) -> bool {
    forall|j: int| 0 <= j < w.len() ==> is_blank(#[trigger] w[j]) || punct_tok(w[j]) is Some
}

proof fn lemma_lex_layout(cs: Seq<char>, env: Seq<(Seq<char>, Seq<char>)>, i: int, w: Seq<char>)
    requires
        text_at(cs, i, w),
        plain_layout(w),
    ensures
        lexes_as(cs, env, i, punct_toks(w), i + w.len()),
    decreases w.len(),
{
    if w.len() == 0 {
        lemma_lexes_as_refl(cs, env, i);
    } else {
        let a = w.drop_last();
        let c = w.last();
        assert(a + seq![c] =~= w);
        lemma_text_at_split(cs, i, a, seq![c]);
        assert(plain_layout(a)) by {
            assert forall|j: int| 0 <= j < a.len() implies is_blank(#[trigger] a[j]) || punct_tok(a[j]) is Some by {
                assert(a[j] == w[j]);
            }
        }
        lemma_lex_layout(cs, env, i, a);
        lemma_text_at_index(cs, i + a.len(), seq![c], 0);
        assert(is_blank(w[w.len() - 1]) || punct_tok(w[w.len() - 1]) is Some);
        if is_blank(c) {
            lemma_lex_blanks(cs, env, i + a.len(), seq![c]);
            assert(punct_toks(w) =~= punct_toks(a) + Seq::empty());
            lemma_lexes_as_trans(cs, env, i, punct_toks(a), i + a.len(), Seq::empty(), i + w.len());
        } else {
            lemma_lex_punct(cs, env, i + a.len(), c);
            lemma_lexes_as_trans(cs, env, i, punct_toks(a), i + a.len(), seq![punct_tok(c)->Some_0], i + w.len());
        }
    }
}

/// A comment that reads back as written: one line, without blanks at
/// either end.
pub open spec fn clean_comment(c: Seq<char>) -> bool {
    &&& forall|k: int| 0 <= k < c.len() ==> #[trigger] c[k] != '\n'
    &&& c.len() > 0 ==> !is_blank(c[0]) && !is_blank(c.last())
}

proof fn lemma_line_end_at(cs: Seq<char>, j: int, e: int)
    requires
        0 <= j <= e <= cs.len(),
        forall|k: int| j <= k < e ==> #[trigger] cs[k] != '\n',
        e == cs.len() || cs[e] == '\n',
    ensures
        line_end(cs, j) == e,
    decreases e - j,
{
    if j < e {
        lemma_line_end_at(cs, j + 1, e);
    }
}

/// A comment written as "// " and its text, before a line end.
proof fn lemma_lex_comment(cs: Seq<char>, env: Seq<(Seq<char>, Seq<char>)>, i: int, c: Seq<char>)
    requires
        text_at(cs, i, "// "@ + c),
        clean_comment(c),
        i + 3 + c.len() < cs.len(),
        cs[i + 3 + c.len()] == '\n',
    ensures
        lexes_as(cs, env, i, seq![Tok::Comment(c)], i + 3 + c.len()),
{
    reveal_strlit("// ");
    let w = "// "@ + c;
    lemma_text_at_index(cs, i, w, 0);
    lemma_text_at_index(cs, i, w, 1);
    let e = i + 3 + c.len();
    assert forall|k: int| i + 2 <= k < e implies #[trigger] cs[k] != '\n' by {
        lemma_text_at_index(cs, i, w, k - i);
        if k > i + 2 {
            assert(w[k - i] == c[k - i - 3]);
        }
    }
    lemma_line_end_at(cs, i + 2, e);
    let body = cs.subrange(i + 2, e);
    assert(body =~= seq![' '] + c) by {
        assert forall|k: int| 0 <= k < body.len() implies body[k] == (seq![' '] + c)[k] by {
            lemma_text_at_index(cs, i, w, k + 2);
        }
    }
    assert(body.drop_first() =~= c);
    assert(trim_front(c) == c);
    assert(trim_front(body) == trim_front(c));
    if c.len() > 0 {
        assert(trim_back(c) == c);
    } else {
        assert(trim_back(c) == c);
    }
    assert(scan_token(cs, env, i) == Scan::Done(Tok::Comment(c), e));
    lemma_lex_one(cs, env, i, Tok::Comment(c), e);
}

/// A comment line, indented by blanks.
proof fn lemma_lex_comment_line(
    cs: Seq<char>,
    env: Seq<(Seq<char>, Seq<char>)>,
    i: int,
    ind: Seq<char>,
    c: Seq<char>,
)
    requires
        text_at(cs, i, ind + "// "@ + c + "\n"@),
        all_blank(ind),
        clean_comment(c),
    ensures
        lexes_as(cs, env, i, seq![Tok::Comment(c), Tok::Newline], i + (ind + "// "@ + c + "\n"@).len()),
{
    reveal_strlit("// ");
    reveal_strlit("\n");
    lemma_text_at_split(cs, i, ind + "// "@ + c, "\n"@);
    assert(ind + "// "@ + c =~= ind + ("// "@ + c));
    lemma_text_at_split(cs, i, ind, "// "@ + c);
    lemma_lex_blanks(cs, env, i, ind);
    let i1 = i + ind.len();
    let e = i1 + 3 + c.len();
    lemma_text_at_index(cs, e, "\n"@, 0);
    lemma_lex_comment(cs, env, i1, c);
    lemma_lex_punct(cs, env, e, '\n');
    lemma_lexes_as_trans(cs, env, i1, seq![Tok::Comment(c)], e, seq![Tok::Newline], e + 1);
    lemma_lexes_as_trans(cs, env, i, Seq::empty(), i1, seq![Tok::Comment(c)] + seq![Tok::Newline], e + 1);
    assert(Seq::<Tok>::empty() + (seq![Tok::Comment(c)] + seq![Tok::Newline]) =~= seq![
        Tok::Comment(c),
        Tok::Newline,
    ]);
}

/// Comment lines, each indented by `ind`.
proof fn lemma_lex_comment_lines(
    cs: Seq<char>,
    env: Seq<(Seq<char>, Seq<char>)>,
    i: int,
    cms: Seq<Seq<char>>,
    ind: Seq<char>,
)
    requires
        text_at(cs, i, comment_lines(cms, ind)),
        all_blank(ind),
        forall|k: int| 0 <= k < cms.len() ==> clean_comment(#[trigger] cms[k]),
    ensures
        lexes_as(
            cs,
            env,
            i,
            comment_toks(cms),
            i + comment_lines(cms, ind).len(),
        ),
    decreases cms.len(),
{
    if cms.len() == 0 {
        lemma_lexes_as_refl(cs, env, i);
    } else {
        let prev = comment_lines(cms.drop_last(), ind);
        let line = ind + "// "@ + cms.last() + "\n"@;
        assert(comment_lines(cms, ind) =~= prev + line);
        lemma_text_at_split(cs, i, prev, line);
        assert forall|k: int| 0 <= k < cms.drop_last().len() implies clean_comment(#[trigger] cms.drop_last()[k]) by {
            assert(cms.drop_last()[k] == cms[k]);
        }
        lemma_lex_comment_lines(cs, env, i, cms.drop_last(), ind);
        assert(clean_comment(cms[cms.len() - 1]));
        lemma_lex_comment_line(cs, env, i + prev.len(), ind, cms.last());
        lemma_lexes_as_trans(
            cs,
            env,
            i,
            comment_toks(cms.drop_last()),
            i + prev.len(),
            seq![Tok::Comment(cms.last()), Tok::Newline],
            i + prev.len() + line.len(),
        );
    }
}

/// A string that reads back as written: no `$` right before a `{`, which
/// would start an environment reference.
pub open spec fn no_interpolation(s: Seq<char>) -> bool {
    forall|k: int| 0 <= k < s.len() - 1 ==> !(#[trigger] s[k] == '$' && s[k + 1] == '{')
}

proof fn lemma_escape_text_concat(a: Seq<char>, b: Seq<char>)
    ensures
        escape_text(a + b) == escape_text(a) + escape_text(b),
    decreases b.len(),
{
    if b.len() == 0 {
        assert(a + b =~= a);
        assert(escape_text(a) + escape_text(b) =~= escape_text(a));
    } else {
        assert((a + b).drop_last() =~= a + b.drop_last());
        assert((a + b).last() == b.last());
        lemma_escape_text_concat(a, b.drop_last());
        assert(escape_text(a) + escape_text(b.drop_last()) + escape_char(b.last()) =~= escape_text(a) + (
        escape_text(b.drop_last()) + escape_char(b.last())));
    }
}

proof fn lemma_escape_text_front(s: Seq<char>)
    requires
        s.len() > 0,
    ensures
        escape_text(s) == escape_char(s[0]) + escape_text(s.drop_first()),
{
    assert(seq![s[0]] + s.drop_first() =~= s);
    lemma_escape_text_concat(seq![s[0]], s.drop_first());
    let one = seq![s[0]];
    assert(one.drop_last() =~= Seq::<char>::empty());
    assert(one.last() == s[0]);
    assert(escape_text(Seq::<char>::empty()) == Seq::<char>::empty());
    assert(escape_text(one) == escape_text(one.drop_last()) + escape_char(one.last()));
    assert(Seq::<char>::empty() + escape_char(s[0]) =~= escape_char(s[0]));
}

proof fn lemma_scan_string(
    cs: Seq<char>,
    env: Seq<(Seq<char>, Seq<char>)>,
    start: int,
    j: int,
    acc: Seq<char>,
    s: Seq<char>,
)
    requires
        text_at(cs, j, escape_text(s) + "\""@),
        no_interpolation(s),
    ensures
        scan_string_body(cs, env, start, j, acc) == Scan::Done(
            Tok::Str(acc + s),
            j + escape_text(s).len() + 1,
        ),
    decreases s.len(),
{
    reveal_strlit("\"");
    if s.len() == 0 {
        assert(escape_text(s) =~= Seq::<char>::empty());
        lemma_text_at_index(cs, j, escape_text(s) + "\""@, 0);
        assert(acc + s =~= acc);
    } else {
        let x = s[0];
        let rest = s.drop_first();
        lemma_escape_text_front(s);
        let ex = escape_char(x);
        assert(escape_text(s) + "\""@ =~= ex + (escape_text(rest) + "\""@));
        lemma_text_at_split(cs, j, ex, escape_text(rest) + "\""@);
        assert(no_interpolation(rest)) by {
            assert forall|k: int| 0 <= k < rest.len() - 1 implies !(#[trigger] rest[k] == '$' && rest[k + 1] == '{') by {
                assert(rest[k] == s[k + 1]);
                assert(rest[k + 1] == s[k + 2]);
            }
        }
        assert(acc.push(x) + rest =~= acc + s);
        reveal_strlit("\\n");
        reveal_strlit("\\t");
        reveal_strlit("\\r");
        reveal_strlit("\\\\");
        reveal_strlit("\\\"");
        if x == '\n' || x == '\t' || x == '\r' || x == '\\' || x == '"' {
            assert(ex.len() == 2);
            lemma_text_at_index(cs, j, ex, 0);
            lemma_text_at_index(cs, j, ex, 1);
            assert(cs[j] == '\\');
            assert(escape_of(cs[j + 1]) == Some(x));
            lemma_scan_string(cs, env, start, j + 2, acc.push(x), rest);
        } else {
            assert(ex == seq![x]);
            lemma_text_at_index(cs, j, ex, 0);
            let after = escape_text(rest) + "\""@;
            lemma_text_at_index(cs, j + 1, after, 0);
            if x == '$' {
                if rest.len() > 0 {
                    lemma_escape_text_front(rest);
                    assert(rest[0] == s[1]);
                    assert(rest[0] != '{');
                    let e0 = escape_char(rest[0]);
                    assert(after[0] == e0[0]);
                    assert(e0[0] != '{');
                } else {
                    assert(after[0] == '"');
                }
            }
            lemma_scan_string(cs, env, start, j + 1, acc.push(x), rest);
        }
    }
}

/// A string literal.
proof fn lemma_lex_string(cs: Seq<char>, env: Seq<(Seq<char>, Seq<char>)>, i: int, s: Seq<char>)
    requires
        text_at(cs, i, "\""@ + escape_text(s) + "\""@),
        no_interpolation(s),
    ensures
        lexes_as(cs, env, i, seq![Tok::Str(s)], i + escape_text(s).len() + 2),
{
    reveal_strlit("\"");
    assert("\""@ + escape_text(s) + "\""@ =~= "\""@ + (escape_text(s) + "\""@));
    lemma_text_at_split(cs, i, "\""@, escape_text(s) + "\""@);
    lemma_text_at_index(cs, i, "\""@, 0);
    lemma_scan_string(cs, env, i, i + 1, Seq::empty(), s);
    assert(Seq::<char>::empty() + s =~= s);
    lemma_lex_one(cs, env, i, Tok::Str(s), i + escape_text(s).len() + 2);
}

/// What may follow a scalar in serialized text: a separator, a line end, a
/// closing bracket, or the end of the text.
pub open spec fn follows_value(cs: Seq<char>, j: int) -> bool {
    j == cs.len() || (0 <= j < cs.len() && (cs[j] == ',' || cs[j] == '\n' || cs[j] == ']' || cs[j]
        == '}'))
}

/// A key that is written bare and reads back as itself: an identifier that
/// is not a keyword.
pub open spec fn plain_key(k: Seq<char>) -> bool {
    &&& k.len() > 0
    &&& is_ident_start(k[0])
    &&& forall|j: int| 0 <= j < k.len() ==> is_ident_char(#[trigger] k[j])
    &&& k != "null"@
    &&& k != "true"@
    &&& k != "false"@
}

proof fn lemma_ident_end_at(cs: Seq<char>, j: int, e: int)
    requires
        0 <= j <= e <= cs.len(),
        forall|k: int| j <= k < e ==> is_ident_char(#[trigger] cs[k]),
        e == cs.len() || !is_ident_char(cs[e]),
    ensures
        ident_end(cs, j) == e,
    decreases e - j,
{
    if j < e {
        lemma_ident_end_at(cs, j + 1, e);
    }
}

/// A word: a keyword, or else an identifier.
pub open spec fn word_tok(w: Seq<char>) -> Tok {
    if w == "null"@ {
        Tok::Null
    } else if w == "true"@ {
        Tok::True
    } else if w == "false"@ {
        Tok::False
    } else {
        Tok::Ident(w)
    }
}

proof fn lemma_lex_word(cs: Seq<char>, env: Seq<(Seq<char>, Seq<char>)>, i: int, w: Seq<char>)
    requires
        text_at(cs, i, w),
        w.len() > 0,
        is_ident_start(w[0]),
        forall|j: int| 0 <= j < w.len() ==> is_ident_char(#[trigger] w[j]),
        i + w.len() == cs.len() || !is_ident_char(cs[i + w.len()]),
    ensures
        lexes_as(cs, env, i, seq![word_tok(w)], i + w.len()),
{
    lemma_text_at_index(cs, i, w, 0);
    assert forall|k: int| i <= k < i + w.len() implies is_ident_char(#[trigger] cs[k]) by {
        lemma_text_at_index(cs, i, w, k - i);
    }
    lemma_ident_end_at(cs, i, i + w.len());
    assert(cs.subrange(i, i + w.len()) =~= w) by {
        assert forall|k: int| 0 <= k < w.len() implies cs.subrange(i, i + w.len())[k] == w[k] by {
            lemma_text_at_index(cs, i, w, k);
        }
    }
    assert(scan_token(cs, env, i) == Scan::Done(word_tok(w), i + w.len()));
    lemma_lex_one(cs, env, i, word_tok(w), i + w.len());
}

proof fn lemma_digit_char(d: nat)
    requires
        d < 10,
    ensures
        is_digit(digit_char(d)),
        (digit_char(d) as nat) - ('0' as nat) == d,
{
    assert(('0' as nat) == 48);
    assert((digit_char(d) as nat) == d + 48);
}

proof fn lemma_nat_text(n: nat)
    ensures
        nat_text(n).len() > 0,
        forall|k: int| 0 <= k < nat_text(n).len() ==> is_digit(#[trigger] nat_text(n)[k]),
        digits_value(nat_text(n)) == n,
    decreases n,
{
    if n < 10 {
        lemma_digit_char(n);
        let w = nat_text(n);
        assert(w.drop_last() =~= Seq::<char>::empty());
        assert(digits_value(w.drop_last()) == 0);
        assert(digits_value(w) == digits_value(w.drop_last()) * 10 + ((w.last() as nat) - ('0' as nat)) as nat);
    } else {
        lemma_nat_text(n / 10);
        lemma_digit_char(n % 10);
        let w = nat_text(n);
        assert(w.drop_last() =~= nat_text(n / 10));
        assert(w.last() == digit_char(n % 10));
        assert(n == (n / 10) * 10 + n % 10) by (nonlinear_arith);
        assert(digits_value(w) == digits_value(w.drop_last()) * 10 + ((w.last() as nat) - ('0' as nat)) as nat);
        assert forall|k: int| 0 <= k < w.len() implies is_digit(#[trigger] w[k]) by {
            if k < w.len() - 1 {
                assert(w[k] == nat_text(n / 10)[k]);
            }
        }
    }
}

proof fn lemma_digits_end_run(cs: Seq<char>, j: int, e: int)
    requires
        0 <= j <= e <= cs.len(),
        forall|k: int| j <= k < e ==> is_digit(#[trigger] cs[k]),
        e == cs.len() || !is_digit(cs[e]),
    ensures
        digits_end(cs, j) == e,
    decreases e - j,
{
    if j < e {
        lemma_digits_end_run(cs, j + 1, e);
    }
}

/// An integer written in decimal.
proof fn lemma_lex_int(cs: Seq<char>, env: Seq<(Seq<char>, Seq<char>)>, i: int, v: i64)
    requires
        text_at(cs, i, int_text(v as int)),
        follows_value(cs, i + int_text(v as int).len()),
    ensures
        lexes_as(cs, env, i, seq![Tok::Integer(v)], i + int_text(v as int).len()),
{
    let w = int_text(v as int);
    let m: nat = if v < 0 {
        (-v) as nat
    } else {
        v as nat
    };
    lemma_nat_text(m);
    let digits = nat_text(m);
    let j0 = if v < 0 {
        i + 1
    } else {
        i
    };
    assert(w == if v < 0 {
        seq!['-'] + digits
    } else {
        digits
    });
    assert forall|k: int| j0 <= k < i + w.len() implies is_digit(#[trigger] cs[k]) by {
        lemma_text_at_index(cs, i, w, k - i);
        if v < 0 {
            assert(w[k - i] == digits[k - i - 1]);
        }
    }
    let e = i + w.len();
    lemma_digits_end_run(cs, j0, e);
    lemma_text_at_index(cs, i, w, 0);
    if v < 0 {
        assert(cs[i] == '-');
    } else {
        assert(is_digit(cs[i]));
    }
    assert(cs.subrange(j0, e) =~= digits) by {
        assert forall|k: int| 0 <= k < digits.len() implies cs.subrange(j0, e)[k] == digits[k] by {
            lemma_text_at_index(cs, i, w, j0 - i + k);
        }
    }
    assert(scan_number(cs, i) == Scan::Done(Tok::Integer(v), e));
    assert(scan_token(cs, env, i) == Scan::Done(Tok::Integer(v), e));
    lemma_lex_one(cs, env, i, Tok::Integer(v), e);
}

/// A float text that reads back as itself: the number scanner takes all of
/// it as a float.
pub open spec fn float_text(t: Seq<char>) -> bool {
    &&& t.len() > 0
    &&& (t[0] == '-' || is_digit(t[0]))
    &&& scan_number(t, 0) == Scan::Done(Tok::Float(t), t.len() as int)
}

proof fn lemma_digits_end_shift(cs: Seq<char>, t: Seq<char>, i: int, x: int)
    requires
        text_at(cs, i, t),
        follows_value(cs, i + t.len()),
        0 <= x <= t.len(),
    ensures
        digits_end(cs, i + x) == i + digits_end(t, x),
    decreases t.len() - x,
{
    if x < t.len() {
        lemma_text_at_index(cs, i, t, x);
        if is_digit(t[x]) {
            lemma_digits_end_shift(cs, t, i, x + 1);
        }
    }
}

/// What the number scanner sees past a float text, where a separator,
/// bracket or line end follows: none of `.`, `e`, `E`, `+`, `-` or a digit.
proof fn lemma_follower(cs: Seq<char>, t: Seq<char>, i: int, y: int)
    requires
        text_at(cs, i, t),
        follows_value(cs, i + t.len()),
        0 <= y <= t.len(),
    ensures
        (i + y < cs.len() && cs[i + y] == '.') == (y < t.len() && t[y] == '.'),
        (i + y < cs.len() && (cs[i + y] == 'e' || cs[i + y] == 'E')) == (y < t.len() && (t[y] == 'e'
            || t[y] == 'E')),
        (i + y < cs.len() && (cs[i + y] == '+' || cs[i + y] == '-')) == (y < t.len() && (t[y] == '+'
            || t[y] == '-')),
{
    if y < t.len() {
        lemma_text_at_index(cs, i, t, y);
    }
}

/// A float, written as its text.
proof fn lemma_lex_float(cs: Seq<char>, env: Seq<(Seq<char>, Seq<char>)>, i: int, t: Seq<char>)
    requires
        text_at(cs, i, t),
        float_text(t),
        follows_value(cs, i + t.len()),
    ensures
        lexes_as(cs, env, i, seq![Tok::Float(t)], i + t.len()),
{
    lemma_text_at_index(cs, i, t, 0);
    let neg = t[0] == '-';
    let j0 = if neg {
        1int
    } else {
        0int
    };
    lemma_digits_end(t, j0);
    lemma_digits_end_shift(cs, t, i, j0);
    let d1 = digits_end(t, j0);
    lemma_follower(cs, t, i, d1);
    let has_frac = d1 < t.len() && t[d1] == '.';
    if has_frac {
        lemma_digits_end(t, d1 + 1);
        lemma_digits_end_shift(cs, t, i, d1 + 1);
    }
    let d2 = if has_frac {
        digits_end(t, d1 + 1)
    } else {
        d1
    };
    lemma_follower(cs, t, i, d2);
    let has_exp = d2 < t.len() && (t[d2] == 'e' || t[d2] == 'E');
    if has_exp {
        lemma_follower(cs, t, i, d2 + 1);
    }
    let k = if has_exp {
        if d2 + 1 < t.len() && (t[d2 + 1] == '+' || t[d2 + 1] == '-') {
            d2 + 2
        } else {
            d2 + 1
        }
    } else {
        d2
    };
    if has_exp {
        lemma_digits_end(t, k);
        lemma_digits_end_shift(cs, t, i, k);
    }
    assert(cs.subrange(i, i + t.len()) =~= t) by {
        assert forall|q: int| 0 <= q < t.len() implies cs.subrange(i, i + t.len())[q] == t[q] by {
            lemma_text_at_index(cs, i, t, q);
        }
    }
    assert(scan_number(cs, i) == Scan::Done(Tok::Float(t), i + t.len()));
    assert(scan_token(cs, env, i) == Scan::Done(Tok::Float(t), i + t.len()));
    lemma_lex_one(cs, env, i, Tok::Float(t), i + t.len());
}

/// A value that the serializer writes so that it reads back as itself:
/// comments on one line without blanks at either end, strings without an
/// environment reference, floats as float texts, keys that are bare
/// identifiers, and no key twice in an object.
pub open spec fn writable(n: Node) -> bool
    decreases n,
{
    &&& forall|k: int| 0 <= k < n.comments.len() ==> clean_comment(#[trigger] n.comments[k])
    &&& match n.shape {
        Shape::Float(t) => float_text(t),
        Shape::Str(t) => no_interpolation(t),
        Shape::Array(items) => forall|i: int| 0 <= i < items.len() ==> writable(#[trigger] items[i]),
        Shape::Object(es) => distinct_keys(es) && forall|i: int|
            0 <= i < es.len() ==> plain_key(#[trigger] es[i].0) && writable(es[i].1),
        _ => true,
    }
}

/// A writable value has distinct keys throughout.
pub proof fn lemma_writable_well_keyed(n: Node)
    requires
        writable(n),
    ensures
        well_keyed(n),
    decreases n,
{
    match n.shape {
        Shape::Array(items) => {
            assert forall|i: int| 0 <= i < items.len() implies well_keyed(#[trigger] items[i]) by {
                lemma_writable_well_keyed(items[i]);
            }
        },
        Shape::Object(es) => {
            assert forall|i: int| 0 <= i < es.len() implies well_keyed(#[trigger] es[i].1) by {
                let k = es[i].0;
                assert(plain_key(k) && writable(es[i].1));
                lemma_writable_well_keyed(es[i].1);
            }
        },
        _ => {},
    }
}

proof fn lemma_indent_blank(level: nat, o: SerializeOptions)
    ensures
        all_blank(indent_text(level, o)),
{
    let w = indent_text(level, o);
    assert forall|j: int| 0 <= j < w.len() implies is_blank(#[trigger] w[j]) by {}
}

/// Layout text made of the given characters.
proof fn lemma_lex_literal(
    cs: Seq<char>,
    env: Seq<(Seq<char>, Seq<char>)>,
    i: int,
    w: Seq<char>,
    k: Seq<Tok>,
)
    requires
        text_at(cs, i, w),
        plain_layout(w),
        punct_toks(w) == k,
    ensures
        lexes_as(cs, env, i, k, i + w.len()),
{
    lemma_lex_layout(cs, env, i, w);
}

proof fn lemma_sep_layout(i: int, len: int, o: SerializeOptions)
    ensures
        plain_layout(line_sep(i, len, o)),
        punct_toks(line_sep(i, len, o)) == sep_toks(i, len, true, o),
        plain_layout(inline_sep(i, len, o)),
        punct_toks(inline_sep(i, len, o)) == sep_toks(i, len, false, o),
        line_sep(i, len, o).len() > 0,
        follows_value(line_sep(i, len, o), 0),
        inline_sep(i, len, o).len() > 0 ==> follows_value(inline_sep(i, len, o), 0),
        inline_sep(i, len, o).len() == 0 ==> !(i < len - 1 || o.trailing_commas),
{
    reveal_strlit(",\n");
    reveal_strlit("\n");
    reveal_strlit(", ");
    reveal_strlit(",");
    reveal_with_fuel(punct_toks, 3);
    let a = line_sep(i, len, o);
    let b = inline_sep(i, len, o);
    assert(",\n"@.drop_last() =~= seq![',']);
    assert(", "@.drop_last() =~= seq![',']);
    assert(seq![','].drop_last() =~= Seq::<char>::empty());
    assert("\n"@.drop_last() =~= Seq::<char>::empty());
    assert(sep_toks(i, len, true, o) =~= punct_toks(a));
    assert(sep_toks(i, len, false, o) =~= punct_toks(b));
}

proof fn lemma_layout1(a: char)
    requires
        punct_tok(a) is Some,
    ensures
        plain_layout(seq![a]),
        punct_toks(seq![a]) == seq![punct_tok(a)->Some_0],
{
    let w = seq![a];
    assert(w.drop_last() =~= Seq::<char>::empty());
    assert(w.last() == a);
    assert(punct_toks(Seq::<char>::empty()) == Seq::<Tok>::empty());
    assert(punct_toks(w) == punct_toks(w.drop_last()) + seq![punct_tok(a)->Some_0]);
    assert(punct_toks(w) =~= seq![punct_tok(a)->Some_0]);
    assert(plain_layout(w)) by {
        assert forall|j: int| 0 <= j < w.len() implies is_blank(#[trigger] w[j]) || punct_tok(w[j]) is Some by {
            assert(w[j] == a);
        }
    }
}

proof fn lemma_layout2(a: char, b: char)
    requires
        punct_tok(a) is Some,
        punct_tok(b) is Some,
    ensures
        plain_layout(seq![a, b]),
        punct_toks(seq![a, b]) == seq![punct_tok(a)->Some_0, punct_tok(b)->Some_0],
{
    let w = seq![a, b];
    assert(w.drop_last() =~= seq![a]);
    assert(w.last() == b);
    lemma_layout1(a);
    assert(punct_toks(w) == punct_toks(w.drop_last()) + seq![punct_tok(b)->Some_0]);
    assert(punct_toks(w) =~= seq![punct_tok(a)->Some_0, punct_tok(b)->Some_0]);
    assert(plain_layout(w)) by {
        assert forall|j: int| 0 <= j < w.len() implies is_blank(#[trigger] w[j]) || punct_tok(w[j]) is Some by {
            if j == 0 {
                assert(w[j] == a);
            } else {
                assert(w[j] == b);
            }
        }
    }
}

/// The keyword numbered `which`: `null`, `true` or `false`.
pub open spec fn keyword(which: int) -> (Seq<char>, Tok) {
    if which == 0 {
        ("null"@, Tok::Null)
    } else if which == 1 {
        ("true"@, Tok::True)
    } else {
        ("false"@, Tok::False)
    }
}

proof fn lemma_lex_keyword(cs: Seq<char>, env: Seq<(Seq<char>, Seq<char>)>, i: int, w: Seq<char>, which: int)
    requires
        w == keyword(which).0,
        text_at(cs, i, w),
        i + w.len() == cs.len() || !is_ident_char(cs[i + w.len()]),
    ensures
        lexes_as(cs, env, i, seq![keyword(which).1], i + w.len()),
{
    reveal_strlit("null");
    reveal_strlit("true");
    reveal_strlit("false");
    assert(w.len() > 0);
    assert forall|j: int| 0 <= j < w.len() implies is_ident_char(#[trigger] w[j]) by {}
    lemma_lex_word(cs, env, i, w);
    assert("null"@[0] != "true"@[0]);
    assert("null"@[0] != "false"@[0]);
    assert("true"@[0] != "false"@[0]);
    assert(word_tok(w) == keyword(which).1);
}

/// A value's text lexes to its tokens.
#[verifier::spinoff_prover]
proof fn lemma_lex_value(
    cs: Seq<char>,
    env: Seq<(Seq<char>, Seq<char>)>,
    i: int,
    n: Node,
    level: nat,
    o: SerializeOptions,
)
    requires
        writable(n),
        text_at(cs, i, ser_value(n, level, o)),
        follows_value(cs, i + ser_value(n, level, o).len()),
    ensures
        lexes_as(cs, env, i, value_toks(n, o), i + ser_value(n, level, o).len()),
    decreases n, 3int,
{
    let cl = comment_lines(n.comments, indent_text(level, o));
    let sh = ser_shape(n.shape, level, o);
    lemma_text_at_split(cs, i, cl, sh);
    lemma_indent_blank(level, o);
    lemma_lex_comment_lines(cs, env, i, n.comments, indent_text(level, o));
    assert(writable(Node { shape: n.shape, comments: Seq::empty() }));
    lemma_lex_shape(cs, env, i + cl.len(), n.shape, level, o);
    lemma_lexes_as_trans(
        cs,
        env,
        i,
        comment_toks(n.comments),
        i + cl.len(),
        shape_toks(n.shape, o),
        i + cl.len() + sh.len(),
    );
}

/// A value's data lexes to its tokens.
#[verifier::spinoff_prover]
proof fn lemma_lex_shape(
    cs: Seq<char>,
    env: Seq<(Seq<char>, Seq<char>)>,
    i: int,
    s: Shape,
    level: nat,
    o: SerializeOptions,
)
    requires
        writable(Node { shape: s, comments: Seq::empty() }),
        text_at(cs, i, ser_shape(s, level, o)),
        follows_value(cs, i + ser_shape(s, level, o).len()),
    ensures
        lexes_as(cs, env, i, shape_toks(s, o), i + ser_shape(s, level, o).len()),
    decreases s, 2int,
{
    reveal_strlit("null");
    reveal_strlit("true");
    reveal_strlit("false");
    let w = ser_shape(s, level, o);
    assert(i + w.len() == cs.len() || !is_ident_char(cs[i + w.len()]));
    match s {
        Shape::Null => {
            reveal_strlit("null");
            assert(w == keyword(0).0);
            lemma_lex_keyword(cs, env, i, w, 0);
            assert(keyword(0).1 == Tok::Null);
            assert(shape_toks(s, o) =~= seq![keyword(0).1]);
        },
        Shape::Bool(b) => {
            if b {
                lemma_lex_keyword(cs, env, i, w, 1);
            } else {
                lemma_lex_keyword(cs, env, i, w, 2);
            }
        },
        Shape::Integer(v) => {
            lemma_lex_int(cs, env, i, v);
        },
        Shape::Float(t) => {
            lemma_lex_float(cs, env, i, t);
        },
        Shape::Str(t) => {
            reveal_strlit("\"");
            assert(w.len() == escape_text(t).len() + 2);
            lemma_lex_string(cs, env, i, t);
        },
        Shape::Array(_) => {
            lemma_lex_array(cs, env, i, s, level, o);
        },
        Shape::Object(_) => {
            lemma_lex_object(cs, env, i, s, level, o);
        },
    }
}

#[verifier::spinoff_prover]
#[verifier::rlimit(40)]
proof fn lemma_lex_array(
    cs: Seq<char>,
    env: Seq<(Seq<char>, Seq<char>)>,
    i: int,
    s: Shape,
    level: nat,
    o: SerializeOptions,
)
    requires
        s is Array,
        writable(Node { shape: s, comments: Seq::empty() }),
        text_at(cs, i, ser_shape(s, level, o)),
        follows_value(cs, i + ser_shape(s, level, o).len()),
    ensures
        lexes_as(cs, env, i, shape_toks(s, o), i + ser_shape(s, level, o).len()),
    decreases s, 1int,
{
    reveal_strlit("[]");
    reveal_strlit("[\n");
    reveal_strlit("[");
    reveal_strlit("]");
    reveal_with_fuel(punct_toks, 3);
    let items = s->Array_0;
    assert(s == Shape::Array(items));
    let len = items.len() as int;
    let w = ser_shape(s, level, o);
    assert forall|k: int| 0 <= k < len implies writable(#[trigger] items[k]) by {}
    if len == 0 {
        lemma_layout2('[', ']');
        assert(w == seq!['[', ']']);
        lemma_lex_literal(cs, env, i, w, shape_toks(s, o));
    } else if o.use_newlines && len > 1 {
        let al = array_lines(items, len, level + 1, o);
        let ind = indent_text(level, o);
        assert(w == "[\n"@ + al + ind + "]"@);
        lemma_text_at_split(cs, i, "[\n"@ + al + ind, "]"@);
        lemma_text_at_split(cs, i, "[\n"@ + al, ind);
        lemma_text_at_split(cs, i, "[\n"@, al);
        lemma_layout2('[', '\n');
        assert("[\n"@ == seq!['[', '\n']);
        lemma_lex_literal(cs, env, i, "[\n"@, seq![Tok::LeftBracket, Tok::Newline]);
        let i1 = i + 2;
        lemma_lex_array_lines(cs, env, i1, items, len, level + 1, o);
        let i2 = i1 + al.len();
        lemma_indent_blank(level, o);
        lemma_lex_blanks(cs, env, i2, ind);
        let i3 = i2 + ind.len();
        lemma_layout1(']');
        assert("]"@ == seq![']']);
        lemma_lex_literal(cs, env, i3, "]"@, seq![Tok::RightBracket]);
        let it = items_toks(items, len, true, o);
        lemma_lexes_as_trans(cs, env, i, seq![Tok::LeftBracket, Tok::Newline], i1, it, i2);
        lemma_lexes_as_trans(cs, env, i, seq![Tok::LeftBracket, Tok::Newline] + it, i2, Seq::empty(), i3);
        lemma_lexes_as_trans(
            cs,
            env,
            i,
            seq![Tok::LeftBracket, Tok::Newline] + it + Seq::empty(),
            i3,
            seq![Tok::RightBracket],
            i3 + 1,
        );
        assert(seq![Tok::LeftBracket, Tok::Newline] + it + Seq::empty() + seq![Tok::RightBracket] =~= shape_toks(s, o));
    } else {
        let ai = array_inline(items, len, level, o);
        assert(w == "["@ + ai + "]"@);
        lemma_text_at_split(cs, i, "["@ + ai, "]"@);
        lemma_text_at_split(cs, i, "["@, ai);
        lemma_layout1('[');
        assert("["@ == seq!['[']);
        lemma_layout1(']');
        assert("]"@ == seq![']']);
        lemma_lex_literal(cs, env, i, "["@, seq![Tok::LeftBracket]);
        let i1 = i + 1;
        let i2 = i1 + ai.len();
        lemma_text_at_index(cs, i2, "]"@, 0);
        lemma_lex_array_inline(cs, env, i1, items, len, level, o);
        lemma_lex_literal(cs, env, i2, "]"@, seq![Tok::RightBracket]);
        let it = items_toks(items, len, false, o);
        lemma_lexes_as_trans(cs, env, i, seq![Tok::LeftBracket], i1, it, i2);
        lemma_lexes_as_trans(cs, env, i, seq![Tok::LeftBracket] + it, i2, seq![Tok::RightBracket], i2 + 1);
        assert(seq![Tok::LeftBracket] + it + seq![Tok::RightBracket] =~= shape_toks(s, o));
    }
}

#[verifier::spinoff_prover]
#[verifier::rlimit(40)]
proof fn lemma_lex_object(
    cs: Seq<char>,
    env: Seq<(Seq<char>, Seq<char>)>,
    i: int,
    s: Shape,
    level: nat,
    o: SerializeOptions,
)
    requires
        s is Object,
        writable(Node { shape: s, comments: Seq::empty() }),
        text_at(cs, i, ser_shape(s, level, o)),
        follows_value(cs, i + ser_shape(s, level, o).len()),
    ensures
        lexes_as(cs, env, i, shape_toks(s, o), i + ser_shape(s, level, o).len()),
    decreases s, 1int,
{
    reveal_strlit("{}");
    reveal_strlit("{\n");
    reveal_strlit("{");
    reveal_strlit("}");
    reveal_with_fuel(punct_toks, 3);
    let es = s->Object_0;
    assert(s == Shape::Object(es));
    let len = es.len() as int;
    let w = ser_shape(s, level, o);
    if len == 0 {
        lemma_layout2('{', '}');
        assert(w == seq!['{', '}']);
        lemma_lex_literal(cs, env, i, w, shape_toks(s, o));
    } else if o.use_newlines {
        let ol = object_lines(es, len, level + 1, o);
        let ind = indent_text(level, o);
        assert(w == "{\n"@ + ol + ind + "}"@);
        lemma_text_at_split(cs, i, "{\n"@ + ol + ind, "}"@);
        lemma_text_at_split(cs, i, "{\n"@ + ol, ind);
        lemma_text_at_split(cs, i, "{\n"@, ol);
        lemma_layout2('{', '\n');
        assert("{\n"@ == seq!['{', '\n']);
        lemma_lex_literal(cs, env, i, "{\n"@, seq![Tok::LeftBrace, Tok::Newline]);
        let i1 = i + 2;
        lemma_lex_object_lines(cs, env, i1, es, len, level + 1, o);
        let i2 = i1 + ol.len();
        lemma_indent_blank(level, o);
        lemma_lex_blanks(cs, env, i2, ind);
        let i3 = i2 + ind.len();
        lemma_layout1('}');
        assert("}"@ == seq!['}']);
        lemma_lex_literal(cs, env, i3, "}"@, seq![Tok::RightBrace]);
        let et = entries_toks(es, len, true, o);
        lemma_lexes_as_trans(cs, env, i, seq![Tok::LeftBrace, Tok::Newline], i1, et, i2);
        lemma_lexes_as_trans(cs, env, i, seq![Tok::LeftBrace, Tok::Newline] + et, i2, Seq::empty(), i3);
        lemma_lexes_as_trans(
            cs,
            env,
            i,
            seq![Tok::LeftBrace, Tok::Newline] + et + Seq::empty(),
            i3,
            seq![Tok::RightBrace],
            i3 + 1,
        );
        assert(seq![Tok::LeftBrace, Tok::Newline] + et + Seq::empty() + seq![Tok::RightBrace] =~= shape_toks(s, o));
    } else {
        let oi = object_inline(es, len, level, o);
        assert(w == "{"@ + oi + "}"@);
        lemma_text_at_split(cs, i, "{"@ + oi, "}"@);
        lemma_text_at_split(cs, i, "{"@, oi);
        lemma_layout1('{');
        assert("{"@ == seq!['{']);
        lemma_layout1('}');
        assert("}"@ == seq!['}']);
        lemma_lex_literal(cs, env, i, "{"@, seq![Tok::LeftBrace]);
        let i1 = i + 1;
        let i2 = i1 + oi.len();
        lemma_text_at_index(cs, i2, "}"@, 0);
        lemma_lex_object_inline(cs, env, i1, es, len, level, o);
        lemma_lex_literal(cs, env, i2, "}"@, seq![Tok::RightBrace]);
        let et = entries_toks(es, len, false, o);
        lemma_lexes_as_trans(cs, env, i, seq![Tok::LeftBrace], i1, et, i2);
        lemma_lexes_as_trans(cs, env, i, seq![Tok::LeftBrace] + et, i2, seq![Tok::RightBrace], i2 + 1);
        assert(seq![Tok::LeftBrace] + et + seq![Tok::RightBrace] =~= shape_toks(s, o));
    }
}

#[verifier::spinoff_prover]
#[verifier::rlimit(40)]
proof fn lemma_lex_array_lines(
    cs: Seq<char>,
    env: Seq<(Seq<char>, Seq<char>)>,
    i: int,
    items: Seq<Node>,
    k: int,
    level: nat,
    o: SerializeOptions,
)
    requires
        0 <= k <= items.len(),
        forall|j: int| 0 <= j < items.len() ==> writable(#[trigger] items[j]),
        text_at(cs, i, array_lines(items, k, level, o)),
    ensures
        lexes_as(cs, env, i, items_toks(items, k, true, o), i + array_lines(items, k, level, o).len()),
    decreases items, k,
{
    if k == 0 {
        lemma_lexes_as_refl(cs, env, i);
    } else {
        let len = items.len() as int;
        let prev = array_lines(items, k - 1, level, o);
        let ind = indent_text(level, o);
        let sv = ser_value(items[k - 1], level, o);
        let sep = line_sep(k - 1, len, o);
        assert(array_lines(items, k, level, o) == prev + ind + sv + sep);
        lemma_text_at_split(cs, i, prev + ind + sv, sep);
        lemma_text_at_split(cs, i, prev + ind, sv);
        lemma_text_at_split(cs, i, prev, ind);
        lemma_lex_array_lines(cs, env, i, items, k - 1, level, o);
        let i1 = i + prev.len();
        lemma_indent_blank(level, o);
        lemma_lex_blanks(cs, env, i1, ind);
        let i2 = i1 + ind.len();
        let i3 = i2 + sv.len();
        lemma_sep_layout(k - 1, len, o);
        lemma_text_at_index(cs, i3, sep, 0);
        lemma_lex_value(cs, env, i2, items[k - 1], level, o);
        lemma_lex_literal(cs, env, i3, sep, sep_toks(k - 1, len, true, o));
        let pt = items_toks(items, k - 1, true, o);
        let vt = value_toks(items[k - 1], o);
        let st = sep_toks(k - 1, len, true, o);
        lemma_lexes_as_trans(cs, env, i, pt, i1, Seq::empty(), i2);
        lemma_lexes_as_trans(cs, env, i, pt + Seq::empty(), i2, vt, i3);
        lemma_lexes_as_trans(cs, env, i, pt + Seq::empty() + vt, i3, st, i3 + sep.len());
        assert(item_toks(items, k - 1, true, o) =~= vt + st);
        assert(pt + Seq::empty() + vt + st =~= items_toks(items, k, true, o));
    }
}

#[verifier::spinoff_prover]
#[verifier::rlimit(40)]
proof fn lemma_lex_array_inline(
    cs: Seq<char>,
    env: Seq<(Seq<char>, Seq<char>)>,
    i: int,
    items: Seq<Node>,
    k: int,
    level: nat,
    o: SerializeOptions,
)
    requires
        0 <= k <= items.len(),
        forall|j: int| 0 <= j < items.len() ==> writable(#[trigger] items[j]),
        text_at(cs, i, array_inline(items, k, level, o)),
        k == items.len() ==> follows_value(cs, i + array_inline(items, k, level, o).len()),
    ensures
        lexes_as(cs, env, i, items_toks(items, k, false, o), i + array_inline(items, k, level, o).len()),
    decreases items, k,
{
    if k == 0 {
        lemma_lexes_as_refl(cs, env, i);
    } else {
        let len = items.len() as int;
        let prev = array_inline(items, k - 1, level, o);
        let sv = ser_value(items[k - 1], level, o);
        let sep = inline_sep(k - 1, len, o);
        assert(array_inline(items, k, level, o) == prev + sv + sep);
        lemma_text_at_split(cs, i, prev + sv, sep);
        lemma_text_at_split(cs, i, prev, sv);
        lemma_lex_array_inline(cs, env, i, items, k - 1, level, o);
        let i1 = i + prev.len();
        let i2 = i1 + sv.len();
        lemma_sep_layout(k - 1, len, o);
        if sep.len() > 0 {
            lemma_text_at_index(cs, i2, sep, 0);
        }
        lemma_lex_value(cs, env, i1, items[k - 1], level, o);
        lemma_lex_literal(cs, env, i2, sep, sep_toks(k - 1, len, false, o));
        let pt = items_toks(items, k - 1, false, o);
        let vt = value_toks(items[k - 1], o);
        let st = sep_toks(k - 1, len, false, o);
        lemma_lexes_as_trans(cs, env, i, pt, i1, vt, i2);
        lemma_lexes_as_trans(cs, env, i, pt + vt, i2, st, i2 + sep.len());
        assert(item_toks(items, k - 1, false, o) =~= vt + st);
        assert(pt + vt + st =~= items_toks(items, k, false, o));
    }
}

/// An entry's key and the colon after it.
proof fn lemma_lex_key(cs: Seq<char>, env: Seq<(Seq<char>, Seq<char>)>, i: int, key: Seq<char>)
    requires
        plain_key(key),
        text_at(cs, i, key + ": "@),
    ensures
        lexes_as(cs, env, i, seq![Tok::Ident(key), Tok::Colon], i + key.len() + 2),
{
    reveal_strlit(": ");
    reveal_with_fuel(punct_toks, 3);
    lemma_text_at_split(cs, i, key, ": "@);
    lemma_text_at_index(cs, i + key.len(), ": "@, 0);
    assert(!is_ident_char(':'));
    lemma_lex_word(cs, env, i, key);
    assert(word_tok(key) == Tok::Ident(key));
    assert(": "@.drop_last() =~= seq![':']);
    assert(seq![':'].drop_last() =~= Seq::<char>::empty());
    lemma_lex_literal(cs, env, i + key.len(), ": "@, seq![Tok::Colon]);
    lemma_lexes_as_trans(cs, env, i, seq![Tok::Ident(key)], i + key.len(), seq![Tok::Colon], i + key.len() + 2);
    assert(seq![Tok::Ident(key)] + seq![Tok::Colon] =~= seq![Tok::Ident(key), Tok::Colon]);
}

#[verifier::spinoff_prover]
#[verifier::rlimit(40)]
proof fn lemma_lex_object_lines(
    cs: Seq<char>,
    env: Seq<(Seq<char>, Seq<char>)>,
    i: int,
    es: Seq<(Seq<char>, Node)>,
    k: int,
    level: nat,
    o: SerializeOptions,
)
    requires
        0 <= k <= es.len(),
        forall|j: int| 0 <= j < es.len() ==> plain_key(#[trigger] es[j].0) && writable(es[j].1),
        text_at(cs, i, object_lines(es, k, level, o)),
    ensures
        lexes_as(cs, env, i, entries_toks(es, k, true, o), i + object_lines(es, k, level, o).len()),
    decreases es, k,
{
    if k == 0 {
        lemma_lexes_as_refl(cs, env, i);
    } else {
        let len = es.len() as int;
        let e = es[k - 1];
        assert(plain_key(e.0) && writable(e.1));
        let prev = object_lines(es, k - 1, level, o);
        let ind = indent_text(level, o);
        let cl = comment_lines(e.1.comments, ind);
        reveal_strlit(": ");
        let kc = e.0 + ": "@;
        let sh = ser_shape(e.1.shape, level, o);
        let sep = line_sep(k - 1, len, o);
        assert(object_lines(es, k, level, o) =~= prev + cl + ind + kc + sh + sep);
        lemma_text_at_split(cs, i, prev + cl + ind + kc + sh, sep);
        lemma_text_at_split(cs, i, prev + cl + ind + kc, sh);
        lemma_text_at_split(cs, i, prev + cl + ind, kc);
        lemma_text_at_split(cs, i, prev + cl, ind);
        lemma_text_at_split(cs, i, prev, cl);
        lemma_lex_object_lines(cs, env, i, es, k - 1, level, o);
        let i1 = i + prev.len();
        lemma_indent_blank(level, o);
        lemma_lex_comment_lines(cs, env, i1, e.1.comments, ind);
        let i2 = i1 + cl.len();
        lemma_lex_blanks(cs, env, i2, ind);
        let i3 = i2 + ind.len();
        lemma_lex_key(cs, env, i3, e.0);
        let i4 = i3 + kc.len();
        let i5 = i4 + sh.len();
        lemma_sep_layout(k - 1, len, o);
        lemma_text_at_index(cs, i5, sep, 0);
        assert(writable(Node { shape: e.1.shape, comments: Seq::empty() }));
        lemma_lex_shape(cs, env, i4, e.1.shape, level, o);
        lemma_lex_literal(cs, env, i5, sep, sep_toks(k - 1, len, true, o));
        let pt = entries_toks(es, k - 1, true, o);
        let ct = comment_toks(e.1.comments);
        let kt = seq![Tok::Ident(e.0), Tok::Colon];
        let st = shape_toks(e.1.shape, o);
        let pp = sep_toks(k - 1, len, true, o);
        lemma_lexes_as_trans(cs, env, i, pt, i1, ct, i2);
        lemma_lexes_as_trans(cs, env, i, pt + ct, i2, Seq::empty(), i3);
        lemma_lexes_as_trans(cs, env, i, pt + ct + Seq::empty(), i3, kt, i4);
        lemma_lexes_as_trans(cs, env, i, pt + ct + Seq::empty() + kt, i4, st, i5);
        lemma_lexes_as_trans(cs, env, i, pt + ct + Seq::empty() + kt + st, i5, pp, i5 + sep.len());
        assert(entry_toks(es, k - 1, true, o) =~= ct + kt + st + pp);
        assert(pt + ct + Seq::empty() + kt + st + pp =~= entries_toks(es, k, true, o));
    }
}

#[verifier::spinoff_prover]
#[verifier::rlimit(40)]
proof fn lemma_lex_object_inline(
    cs: Seq<char>,
    env: Seq<(Seq<char>, Seq<char>)>,
    i: int,
    es: Seq<(Seq<char>, Node)>,
    k: int,
    level: nat,
    o: SerializeOptions,
)
    requires
        0 <= k <= es.len(),
        forall|j: int| 0 <= j < es.len() ==> plain_key(#[trigger] es[j].0) && writable(es[j].1),
        text_at(cs, i, object_inline(es, k, level, o)),
        k == es.len() ==> follows_value(cs, i + object_inline(es, k, level, o).len()),
    ensures
        lexes_as(cs, env, i, entries_toks(es, k, false, o), i + object_inline(es, k, level, o).len()),
    decreases es, k,
{
    if k == 0 {
        lemma_lexes_as_refl(cs, env, i);
    } else {
        let len = es.len() as int;
        let e = es[k - 1];
        assert(plain_key(e.0) && writable(e.1));
        let prev = object_inline(es, k - 1, level, o);
        let cl = comment_lines(e.1.comments, Seq::empty());
        reveal_strlit(": ");
        let kc = e.0 + ": "@;
        let sh = ser_shape(e.1.shape, level, o);
        let sep = inline_sep(k - 1, len, o);
        assert(object_inline(es, k, level, o) =~= prev + cl + kc + sh + sep);
        lemma_text_at_split(cs, i, prev + cl + kc + sh, sep);
        lemma_text_at_split(cs, i, prev + cl + kc, sh);
        lemma_text_at_split(cs, i, prev + cl, kc);
        lemma_text_at_split(cs, i, prev, cl);
        lemma_lex_object_inline(cs, env, i, es, k - 1, level, o);
        let i1 = i + prev.len();
        assert(all_blank(Seq::<char>::empty()));
        lemma_lex_comment_lines(cs, env, i1, e.1.comments, Seq::empty());
        let i2 = i1 + cl.len();
        lemma_lex_key(cs, env, i2, e.0);
        let i3 = i2 + kc.len();
        let i4 = i3 + sh.len();
        lemma_sep_layout(k - 1, len, o);
        if sep.len() > 0 {
            lemma_text_at_index(cs, i4, sep, 0);
        }
        assert(writable(Node { shape: e.1.shape, comments: Seq::empty() }));
        lemma_lex_shape(cs, env, i3, e.1.shape, level, o);
        lemma_lex_literal(cs, env, i4, sep, sep_toks(k - 1, len, false, o));
        let pt = entries_toks(es, k - 1, false, o);
        let ct = comment_toks(e.1.comments);
        let kt = seq![Tok::Ident(e.0), Tok::Colon];
        let st = shape_toks(e.1.shape, o);
        let pp = sep_toks(k - 1, len, false, o);
        lemma_lexes_as_trans(cs, env, i, pt, i1, ct, i2);
        lemma_lexes_as_trans(cs, env, i, pt + ct, i2, kt, i3);
        lemma_lexes_as_trans(cs, env, i, pt + ct + kt, i3, st, i4);
        lemma_lexes_as_trans(cs, env, i, pt + ct + kt + st, i4, pp, i4 + sep.len());
        assert(entry_toks(es, k - 1, false, o) =~= ct + kt + st + pp);
        assert(pt + ct + kt + st + pp =~= entries_toks(es, k, false, o));
    }
}

// ---------------------------------------------------------------------------
// Reading back what was written
// ---------------------------------------------------------------------------

/// Whatever the options it is written with and whatever the environment,
/// a writable value reads back as itself: the serialized text lexes and
/// parses to the same value, with its comments and its key order.
pub proof fn lemma_read_after_write(n: Node, o: SerializeOptions, env: Seq<(Seq<char>, Seq<char>)>)
    requires
        writable(n),
        ser_value(n, 0, o).len() < usize::MAX,
    ensures
        read_text(ser_value(n, 0, o), env) == ReadOutcome::Parsed(n),
{
    let cs = ser_value(n, 0, o);
    let vt = value_toks(n, o);
    assert(text_at(cs, 0, cs));
    lemma_lex_value(cs, env, 0, n, 0, o);
    let eof = seq![(Tok::Eof, cs.len() as int)];
    assert(lex_from(cs, env, cs.len() as int) == Ok::<Seq<(Tok, int)>, (Seq<char>, int)>(eof));
    assert(kinds(eof) =~= seq![Tok::Eof]);
    let all = lex_from(cs, env, 0)->Ok_0;
    assert(lex(cs, env) == lex_from(cs, env, 0));
    assert(kinds(all) == vt + seq![Tok::Eof]);
    let t = positioned(cs, all);
    assert(t.len() == vt.len() + 1);
    assert forall|j: int| 0 <= j < vt.len() implies tok_at(t, 0 + j) == #[trigger] vt[j] by {
        assert(t[j].0 == all[j].0);
        assert(kinds(all)[j] == all[j].0);
        assert((vt + seq![Tok::Eof])[j] == vt[j]);
    }
    assert(toks_at(t, 0, vt));
    assert(t[vt.len() as int].0 == Tok::Eof) by {
        assert(t[vt.len() as int].0 == all[vt.len() as int].0);
        assert(kinds(all)[vt.len() as int] == all[vt.len() as int].0);
        assert((vt + seq![Tok::Eof])[vt.len() as int] == Tok::Eof);
    }
    let ct = comment_toks(n.comments);
    let st = shape_toks(n.shape, o);
    lemma_toks_at_split(t, 0, ct, st);
    lemma_shape_toks_first(n.shape, o);
    lemma_toks_at_index(t, ct.len() as int, st, 0);
    lemma_skip_comments(t, 0, n.comments);
    lemma_writable_well_keyed(n);
    assert(well_keyed(Node { shape: n.shape, comments: Seq::empty() }));
    lemma_parse_shape(t, ct.len() as int, n.comments, n.shape, o);
    assert(Node { shape: n.shape, comments: n.comments } == n);
    assert(skip_trivia(t, vt.len() as int).2 == vt.len());
}

// ---------------------------------------------------------------------------
// What the lexer produces
// ---------------------------------------------------------------------------

/// A token whose text reads back: a clean comment, or a float text.
pub open spec fn tok_clean(t: Tok) -> bool {
    match t {
        Tok::Comment(c) => clean_comment(c),
        Tok::Float(f) => float_text(f),
        _ => true,
    }
}

proof fn lemma_line_end_no_newline(cs: Seq<char>, j: int)
    requires
        0 <= j <= cs.len(),
    ensures
        forall|k: int| j <= k < line_end(cs, j) ==> #[trigger] cs[k] != '\n',
    decreases cs.len() - j,
{
    if j < cs.len() && cs[j] != '\n' {
        lemma_line_end_no_newline(cs, j + 1);
    }
}

proof fn lemma_trim_front(x: Seq<char>)
    ensures
        trim_front(x).len() <= x.len(),
        forall|j: int|
            0 <= j < trim_front(x).len() ==> #[trigger] trim_front(x)[j] == x[j + (x.len() - trim_front(x).len())],
        trim_front(x).len() > 0 ==> !is_blank(trim_front(x)[0]),
    decreases x.len(),
{
    if x.len() > 0 && is_blank(x[0]) {
        lemma_trim_front(x.drop_first());
    }
}

proof fn lemma_trim_back(y: Seq<char>)
    ensures
        trim_back(y).len() <= y.len(),
        forall|j: int| 0 <= j < trim_back(y).len() ==> #[trigger] trim_back(y)[j] == y[j],
        trim_back(y).len() > 0 ==> !is_blank(trim_back(y).last()),
    decreases y.len(),
{
    if y.len() > 0 && is_blank(y.last()) {
        lemma_trim_back(y.drop_last());
    }
}

/// The text of a comment token is a clean comment.
proof fn lemma_comment_clean(x: Seq<char>)
    requires
        forall|k: int| 0 <= k < x.len() ==> #[trigger] x[k] != '\n',
    ensures
        clean_comment(trim_back(trim_front(x))),
{
    let f = trim_front(x);
    let c = trim_back(f);
    lemma_trim_front(x);
    lemma_trim_back(f);
    assert forall|k: int| 0 <= k < c.len() implies #[trigger] c[k] != '\n' by {
        assert(c[k] == f[k]);
        assert(f[k] == x[k + (x.len() - f.len())]);
    }
    if c.len() > 0 {
        assert(c[0] == f[0]);
    }
}

proof fn lemma_digits_end_within(cs: Seq<char>, i: int, m: int, x: int)
    requires
        0 <= i <= m <= cs.len(),
        0 <= x <= m - i,
        digits_end(cs, i + x) <= m,
    ensures
        digits_end(cs.subrange(i, m), x) == digits_end(cs, i + x) - i,
    decreases m - i - x,
{
    let t = cs.subrange(i, m);
    lemma_digits_end(cs, i + x);
    if x < m - i {
        assert(t[x] == cs[i + x]);
        if is_digit(t[x]) {
            lemma_digits_end_within(cs, i, m, x + 1);
        }
    }
}

/// A float that the number scanner takes from the input is a float text.
proof fn lemma_scanned_float(cs: Seq<char>, i: int, t: Seq<char>, d3: int)
    requires
        0 <= i < cs.len(),
        cs[i] == '-' || is_digit(cs[i]),
        scan_number(cs, i) == Scan::Done(Tok::Float(t), d3),
    ensures
        float_text(t),
{
    let neg = cs[i] == '-';
    let j0 = if neg {
        i + 1
    } else {
        i
    };
    lemma_digits_end(cs, j0);
    let d1 = digits_end(cs, j0);
    let has_frac = d1 < cs.len() && cs[d1] == '.';
    if has_frac {
        lemma_digits_end(cs, d1 + 1);
    }
    let d2 = if has_frac {
        digits_end(cs, d1 + 1)
    } else {
        d1
    };
    let has_exp = d2 < cs.len() && (cs[d2] == 'e' || cs[d2] == 'E');
    let k = if has_exp {
        if d2 + 1 < cs.len() && (cs[d2 + 1] == '+' || cs[d2 + 1] == '-') {
            d2 + 2
        } else {
            d2 + 1
        }
    } else {
        d2
    };
    if has_exp {
        lemma_digits_end(cs, k);
    }
    let e = if has_exp {
        digits_end(cs, k)
    } else {
        d2
    };
    assert(e == d3);
    assert(t == cs.subrange(i, d3));
    assert(d1 <= d2 <= k <= d3);
    assert(i < d3 <= cs.len());
    lemma_digits_end_within(cs, i, d3, j0 - i);
    if has_frac {
        lemma_digits_end_within(cs, i, d3, d1 + 1 - i);
    }
    if has_exp {
        lemma_digits_end_within(cs, i, d3, k - i);
    }
    if d1 < d3 {
        assert(t[d1 - i] == cs[d1]);
    }
    if d2 < d3 {
        assert(t[d2 - i] == cs[d2]);
    }
    if d2 + 1 < d3 {
        assert(t[d2 + 1 - i] == cs[d2 + 1]);
    }
    assert(t[0] == cs[i]);
    assert(t.subrange(0, t.len() as int) =~= t);
    assert(scan_number(t, 0) == Scan::Done(Tok::Float(t), t.len() as int));
}

proof fn lemma_scan_number_kind(cs: Seq<char>, i: int)
    ensures
        scan_number(cs, i) matches Scan::Done(t, _) ==> (t is Float || t is Integer),
{
}

proof fn lemma_scan_string_kind(
    cs: Seq<char>,
    env: Seq<(Seq<char>, Seq<char>)>,
    start: int,
    j: int,
    acc: Seq<char>,
)
    ensures
        scan_string_body(cs, env, start, j, acc) matches Scan::Done(t, _) ==> t is Str,
    decreases cs.len() - j,
{
    if 0 <= j < cs.len() {
        if cs[j] == '"' {
        } else if cs[j] == '\\' {
            if j + 1 < cs.len() {
                if let Some(e) = escape_of(cs[j + 1]) {
                    lemma_scan_string_kind(cs, env, start, j + 2, acc.push(e));
                }
            }
        } else if cs[j] == '$' && j + 1 < cs.len() && cs[j + 1] == '{' {
            crate::syntax::lexer::lemma_brace_end(cs, j + 2);
            let e = crate::syntax::lexer::brace_end(cs, j + 2);
            if e < cs.len() {
                let name = cs.subrange(j + 2, e);
                if let Some(val) = crate::syntax::lexer::env_lookup(env, name) {
                    if e + 1 > j {
                        lemma_scan_string_kind(cs, env, start, e + 1, acc + val);
                    }
                }
            }
        } else {
            lemma_scan_string_kind(cs, env, start, j + 1, acc.push(cs[j]));
        }
    }
}

/// Each token that the scanner produces is clean.
proof fn lemma_scan_clean(cs: Seq<char>, env: Seq<(Seq<char>, Seq<char>)>, i: int)
    requires
        0 <= i < cs.len(),
    ensures
        scan_token(cs, env, i) matches Scan::Done(t, _) ==> tok_clean(t),
{
    let c = cs[i];
    if c == '/' && i + 1 < cs.len() && cs[i + 1] == '/' {
        lemma_line_end(cs, i + 2);
        let e = line_end(cs, i + 2);
        lemma_line_end_no_newline(cs, i + 2);
        let x = cs.subrange(i + 2, e);
        assert forall|k: int| 0 <= k < x.len() implies #[trigger] x[k] != '\n' by {
            assert(x[k] == cs[i + 2 + k]);
        }
        lemma_comment_clean(x);
        assert(scan_token(cs, env, i) == Scan::Done(Tok::Comment(trim_back(trim_front(x))), e));
    } else if c == '"' {
        lemma_scan_string_kind(cs, env, i, i + 1, Seq::empty());
    } else if c == '-' || is_digit(c) {
        lemma_scan_number_kind(cs, i);
        if let Scan::Done(Tok::Float(t), d3) = scan_number(cs, i) {
            lemma_scanned_float(cs, i, t, d3);
        }
    } else if c == '$' && i + 1 < cs.len() && cs[i + 1] == '{' {
        crate::syntax::lexer::lemma_brace_end(cs, i + 2);
        let e = crate::syntax::lexer::brace_end(cs, i + 2);
        if e < cs.len() {
            let name = cs.subrange(i + 2, e);
            if let Some(val) = crate::syntax::lexer::env_lookup(env, name) {
                if val.len() > 0 && (val[0] == '-' || is_digit(val[0])) {
                    lemma_scan_number_kind(val, 0);
                    if let Scan::Done(Tok::Float(f), d) = scan_number(val, 0) {
                        lemma_scanned_float(val, 0, f, d);
                    }
                }
            }
        }
    }
}

/// Every token that lexing produces is clean.
proof fn lemma_lex_from_clean(cs: Seq<char>, env: Seq<(Seq<char>, Seq<char>)>, i: int)
    ensures
        lex_from(cs, env, i) matches Ok(r) ==> forall|k: int| 0 <= k < r.len() ==> tok_clean(#[trigger] r[k].0),
    decreases cs.len() - i,
{
    if 0 <= i < cs.len() {
        if is_blank(cs[i]) {
            lemma_lex_from_clean(cs, env, i + 1);
        } else {
            lemma_scan_clean(cs, env, i);
            if let Scan::Done(t, j) = scan_token(cs, env, i) {
                if i < j <= cs.len() {
                    lemma_lex_from_clean(cs, env, j);
                    if let Ok(rest) = lex_from(cs, env, j) {
                        let r = seq![(t, i)] + rest;
                        assert forall|k: int| 0 <= k < r.len() implies tok_clean(#[trigger] r[k].0) by {
                            if k > 0 {
                                assert(r[k] == rest[k - 1]);
                            }
                        }
                    }
                }
            }
        }
    }
}

// ---------------------------------------------------------------------------
// What the parser produces
// ---------------------------------------------------------------------------

/// Every comment of the value is clean and every float a float text.
pub open spec fn clean_node(n: Node) -> bool
    decreases n,
{
    &&& comments_clean(n.comments)
    &&& match n.shape {
        Shape::Float(t) => float_text(t),
        Shape::Array(items) => forall|i: int| 0 <= i < items.len() ==> clean_node(#[trigger] items[i]),
        Shape::Object(es) => forall|i: int| 0 <= i < es.len() ==> clean_node(#[trigger] es[i].1),
        _ => true,
    }
}

pub open spec fn comments_clean(cms: Seq<Seq<char>>) -> bool {
    forall|k: int| 0 <= k < cms.len() ==> clean_comment(#[trigger] cms[k])
}

pub open spec fn toks_clean(toks: Seq<(Tok, int, int)>) -> bool {
    forall|k: int| 0 <= k < toks.len() ==> tok_clean(#[trigger] toks[k].0)
}

proof fn lemma_comments_clean_concat(a: Seq<Seq<char>>, b: Seq<Seq<char>>)
    requires
        comments_clean(a),
        comments_clean(b),
    ensures
        comments_clean(a + b),
{
    assert forall|k: int| 0 <= k < (a + b).len() implies clean_comment(#[trigger] (a + b)[k]) by {
        if k < a.len() {
            assert((a + b)[k] == a[k]);
        } else {
            assert((a + b)[k] == b[k - a.len()]);
        }
    }
}

proof fn lemma_skip_trivia_clean(toks: Seq<(Tok, int, int)>, p: int)
    requires
        toks_clean(toks),
    ensures
        comments_clean(skip_trivia(toks, p).0),
    decreases toks.len() - p,
{
    if 0 <= p < toks.len() {
        match toks[p].0 {
            Tok::Newline => {
                lemma_skip_trivia_clean(toks, p + 1);
            },
            Tok::Comment(c) => {
                lemma_skip_trivia_clean(toks, p + 1);
                assert(tok_clean(toks[p].0));
                assert(comments_clean(seq![c]));
                lemma_comments_clean_concat(seq![c], skip_trivia(toks, p + 1).0);
            },
            _ => {},
        }
    }
}

proof fn lemma_skip_separator_clean(toks: Seq<(Tok, int, int)>, p: int)
    requires
        toks_clean(toks),
    ensures
        comments_clean(skip_separator(toks, p).0),
{
    lemma_skip_trivia_clean(toks, p);
    let q = skip_trivia(toks, p).2;
    lemma_skip_trivia_clean(toks, q + 1);
    lemma_comments_clean_concat(skip_trivia(toks, p).0, skip_trivia(toks, q + 1).0);
}

/// Parsing clean tokens gives a clean value.
proof fn lemma_parse_value_clean(toks: Seq<(Tok, int, int)>, p: int, leading: Seq<Seq<char>>)
    requires
        toks_clean(toks),
        comments_clean(leading),
    ensures
        parse_value_at(toks, p, leading) matches Ok((n, _)) ==> clean_node(n),
    decreases toks.len() - p, 0int,
{
    if 0 <= p <= toks.len() {
        lemma_skip_trivia(toks, p);
        lemma_skip_trivia_clean(toks, p);
        let (c, _, q) = skip_trivia(toks, p);
        let lead = leading + c;
        lemma_comments_clean_concat(leading, c);
        if 0 <= q < toks.len() {
            assert(tok_clean(toks[q].0));
        }
        match tok_at(toks, q) {
            Tok::LeftBrace => lemma_object_clean(toks, q + 1, lead, Seq::empty(), Seq::empty()),
            Tok::LeftBracket => lemma_array_clean(toks, q + 1, lead, Seq::empty(), Seq::empty()),
            _ => {},
        }
    }
}

proof fn lemma_object_clean(
    toks: Seq<(Tok, int, int)>,
    p: int,
    lead: Seq<Seq<char>>,
    entries: Seq<(Seq<char>, Node)>,
    pending: Seq<Seq<char>>,
)
    requires
        toks_clean(toks),
        comments_clean(lead),
        comments_clean(pending),
        forall|i: int| 0 <= i < entries.len() ==> clean_node(#[trigger] entries[i].1),
    ensures
        parse_object_items(toks, p, lead, entries, pending) matches Ok((n, _)) ==> clean_node(n),
    decreases toks.len() - p, 1int,
{
    if 0 <= p <= toks.len() {
        lemma_skip_trivia(toks, p);
        lemma_skip_trivia_clean(toks, p);
        let (c, _, q) = skip_trivia(toks, p);
        let pend = pending + c;
        lemma_comments_clean_concat(pending, c);
        let key = match tok_at(toks, q) {
            Tok::Ident(k) => Some(k),
            Tok::Str(k) => Some(k),
            _ => None,
        };
        if !(tok_at(toks, q) is RightBrace) && key is Some && tok_at(toks, q + 1) is Colon {
            lemma_parse_value_clean(toks, q + 2, pend);
            lemma_parse_value_progress(toks, q + 2, pend);
            if let Ok((v, r)) = parse_value_at(toks, q + 2, pend) {
                lemma_skip_separator(toks, r);
                lemma_skip_separator_clean(toks, r);
                let (pend2, sep, r2) = skip_separator(toks, r);
                let entries2 = insert_entry(entries, key->0, v);
                lemma_find_key(entries, key->0);
                assert forall|i: int| 0 <= i < entries2.len() implies clean_node(#[trigger] entries2[i].1) by {
                    match find_key(entries, key->0) {
                        Some(j) => {
                            if i != j {
                                assert(entries2[i] == entries[i]);
                            }
                        },
                        None => {
                            if i < entries.len() {
                                assert(entries2[i] == entries[i]);
                            }
                        },
                    }
                }
                if p < r2 {
                    lemma_object_clean(toks, r2, lead, entries2, pend2);
                }
            }
        }
    }
}

proof fn lemma_array_clean(
    toks: Seq<(Tok, int, int)>,
    p: int,
    lead: Seq<Seq<char>>,
    items: Seq<Node>,
    pending: Seq<Seq<char>>,
)
    requires
        toks_clean(toks),
        comments_clean(lead),
        comments_clean(pending),
        forall|i: int| 0 <= i < items.len() ==> clean_node(#[trigger] items[i]),
    ensures
        parse_array_items(toks, p, lead, items, pending) matches Ok((n, _)) ==> clean_node(n),
    decreases toks.len() - p, 1int,
{
    if 0 <= p <= toks.len() {
        lemma_skip_trivia(toks, p);
        lemma_skip_trivia_clean(toks, p);
        let (c, _, q) = skip_trivia(toks, p);
        let pend = pending + c;
        lemma_comments_clean_concat(pending, c);
        if !(tok_at(toks, q) is RightBracket) {
            lemma_parse_value_clean(toks, q, pend);
            lemma_parse_value_progress(toks, q, pend);
            if let Ok((v, r)) = parse_value_at(toks, q, pend) {
                lemma_skip_separator(toks, r);
                lemma_skip_separator_clean(toks, r);
                let (pend2, sep, r2) = skip_separator(toks, r);
                let items2 = items.push(v);
                assert forall|i: int| 0 <= i < items2.len() implies clean_node(#[trigger] items2[i]) by {
                    if i < items.len() {
                        assert(items2[i] == items[i]);
                    }
                }
                if p < r2 {
                    lemma_array_clean(toks, r2, lead, items2, pend2);
                }
            }
        }
    }
}

/// Every key of every object is a bare identifier, and no string holds a
/// `$` right before a `{`.
pub open spec fn plain_text(n: Node) -> bool
    decreases n,
{
    match n.shape {
        Shape::Str(t) => no_interpolation(t),
        Shape::Array(items) => forall|i: int| 0 <= i < items.len() ==> plain_text(#[trigger] items[i]),
        Shape::Object(es) => forall|i: int|
            0 <= i < es.len() ==> plain_key(#[trigger] es[i].0) && plain_text(es[i].1),
        _ => true,
    }
}

proof fn lemma_writable_from_parts(n: Node)
    requires
        clean_node(n),
        well_keyed(n),
        plain_text(n),
    ensures
        writable(n),
    decreases n,
{
    match n.shape {
        Shape::Array(items) => {
            assert forall|i: int| 0 <= i < items.len() implies writable(#[trigger] items[i]) by {
                lemma_writable_from_parts(items[i]);
            }
        },
        Shape::Object(es) => {
            assert forall|i: int| 0 <= i < es.len() implies plain_key(#[trigger] es[i].0) && writable(
                es[i].1,
            ) by {
                let k = es[i].0;
                assert(plain_key(k) && plain_text(es[i].1));
                assert(clean_node(es[i].1));
                assert(well_keyed(es[i].1));
                lemma_writable_from_parts(es[i].1);
            }
        },
        _ => {},
    }
}

/// Every comment of a value read from text is clean, and every float a
/// float text.
pub proof fn lemma_read_clean(cs: Seq<char>, env: Seq<(Seq<char>, Seq<char>)>)
    ensures
        read_text(cs, env) matches ReadOutcome::Parsed(n) ==> clean_node(n),
{
    if let Ok(toks) = lex(cs, env) {
        lemma_lex_from_clean(cs, env, 0);
        let t = positioned(cs, toks);
        assert forall|k: int| 0 <= k < t.len() implies tok_clean(#[trigger] t[k].0) by {
            assert(t[k].0 == toks[k].0);
        }
        lemma_skip_trivia(t, 0);
        lemma_skip_trivia_clean(t, 0);
        let (c, _, q) = skip_trivia(t, 0);
        lemma_parse_value_clean(t, q, c);
    }
}

/// Reading a text, writing the value and reading again gives the value of
/// the first reading, whatever the options and environments, when every key
/// is a bare identifier and no string holds a `$` right before a `{`.
pub proof fn lemma_write_after_read(
    cs: Seq<char>,
    env: Seq<(Seq<char>, Seq<char>)>,
    n: Node,
    o: SerializeOptions,
    env2: Seq<(Seq<char>, Seq<char>)>,
)
    requires
        read_text(cs, env) == ReadOutcome::Parsed(n),
        plain_text(n),
        ser_value(n, 0, o).len() < usize::MAX,
    ensures
        read_text(ser_value(n, 0, o), env2) == ReadOutcome::Parsed(n),
{
    lemma_read_clean(cs, env);
    crate::syntax::parser::lemma_read_well_keyed(cs, env);
    lemma_writable_from_parts(n);
    lemma_read_after_write(n, o, env2);
}

} // verus!
