//! The document model: tokens, lines, and the document itself, together
//! with their mathematical views used in contracts.

use vstd::prelude::*;

verus! {

broadcast use vstd::seq::group_seq_axioms, vstd::std_specs::vec::group_vec_axioms;

/// One unit of inline content: plain text, or a nested emphasis, code or
/// link span. Emphasis and code spans own their child tokens outright.
#[derive(Debug)]
pub enum Token {
    Bold(Vec<Token>),
    Italic(Vec<Token>),
    InlineCode(Vec<Token>),
    Regular(String),
    Link { label: Vec<Token>, url: String },
}

/// One top-level block of the document.
#[derive(Debug)]
pub enum Line {
    Header { level: HeaderLevel, tokens: Vec<Token> },
    Paragraph(Vec<Token>),
    Image { label: Vec<Token>, url: String },
    Blank,
}

/// A header depth, one per leading `#` count from 1 through 6.
#[derive(Debug, PartialEq, Eq, Clone, Copy, Structural)]
pub enum HeaderLevel {
    H1,
    H2,
    H3,
    H4,
    H5,
    H6,
}

/// The ordered sequence of lines produced by a full parse.
pub type Document = Vec<Line>;

/// The mathematical shape of a [`Token`]: text becomes a sequence of
/// characters, and child vectors become sequences.
#[verifier::ext_equal]
pub enum GToken {
    Bold(Seq<GToken>),
    Italic(Seq<GToken>),
    InlineCode(Seq<GToken>),
    Regular(Seq<char>),
    Link { label: Seq<GToken>, url: Seq<char> },
}

/// The mathematical shape of a [`Line`].
#[verifier::ext_equal]
pub enum GLine {
    Header { level: HeaderLevel, tokens: Seq<GToken> },
    Paragraph(Seq<GToken>),
    Image { label: Seq<GToken>, url: Seq<char> },
    Blank,
}

/// The view of one token.
pub open spec fn token_view(t: Token) -> GToken
    decreases t,
{
    match t {
        Token::Bold(ts) => GToken::Bold(tokens_view(ts@)),
        Token::Italic(ts) => GToken::Italic(tokens_view(ts@)),
        Token::InlineCode(ts) => GToken::InlineCode(tokens_view(ts@)),
        Token::Regular(s) => GToken::Regular(s@),
        Token::Link { label, url } => GToken::Link { label: tokens_view(label@), url: url@ },
    }
}

/// The view of a sequence of tokens, element by element.
pub open spec fn tokens_view(ts: Seq<Token>) -> Seq<GToken>
    decreases ts,
{
    Seq::new(ts.len(), |i: int| if 0 <= i < ts.len() {
        token_view(ts[i])
    } else {
        GToken::Regular(Seq::empty())
    })
}

/// The view of one line.
pub open spec fn line_view(l: Line) -> GLine {
    match l {
        Line::Header { level, tokens } => GLine::Header { level, tokens: tokens_view(tokens@) },
        Line::Paragraph(ts) => GLine::Paragraph(tokens_view(ts@)),
        Line::Image { label, url } => GLine::Image { label: tokens_view(label@), url: url@ },
        Line::Blank => GLine::Blank,
    }
}

/// The view of a document: one [`GLine`] per line, in order.
pub open spec fn doc_view(d: Seq<Line>) -> Seq<GLine> {
    Seq::new(d.len(), |i: int| line_view(d[i]))
}

/// Appending a token appends its view.
pub proof fn lemma_tokens_view_push(ts: Seq<Token>, t: Token)
    ensures
        tokens_view(ts.push(t)) == tokens_view(ts).push(token_view(t)),
{
    assert(tokens_view(ts.push(t)) =~= tokens_view(ts).push(token_view(t)));
}

/// Appending a line appends its view.
pub proof fn lemma_doc_view_push(d: Seq<Line>, l: Line)
    ensures
        doc_view(d.push(l)) == doc_view(d).push(line_view(l)),
{
    assert(doc_view(d.push(l)) =~= doc_view(d).push(line_view(l)));
}

/// Structural equality of two tokens: they are equal exactly when their
/// views are equal.
pub fn token_eq(a: &Token, b: &Token) -> (r: bool)
    ensures
        r == (token_view(*a) == token_view(*b)),
    decreases *a,
{
    match a {
        Token::Bold(x) => match b {
            Token::Bold(y) => tokens_eq(x, y),
            _ => false,
        },
        Token::Italic(x) => match b {
            Token::Italic(y) => tokens_eq(x, y),
            _ => false,
        },
        Token::InlineCode(x) => match b {
            Token::InlineCode(y) => tokens_eq(x, y),
            _ => false,
        },
        Token::Regular(x) => match b {
            Token::Regular(y) => *x == *y,
            _ => false,
        },
        Token::Link { label: la, url: ua } => match b {
            Token::Link { label: lb, url: ub } => {
                let lr = tokens_eq(la, lb);
                lr && *ua == *ub
            },
            _ => false,
        },
    }
}

/// Structural equality of two token vectors, element by element.
pub fn tokens_eq(a: &Vec<Token>, b: &Vec<Token>) -> (r: bool)
    ensures
        r == (tokens_view(a@) == tokens_view(b@)),
    decreases *a,
{
    if a.len() != b.len() {
        proof {
            assert(tokens_view(a@).len() != tokens_view(b@).len());
        }
        return false;
    }
    let n = a.len();
    let mut i: usize = 0;
    while i < n
        invariant
            0 <= i <= n,
            n == a@.len(),
            n == b@.len(),
            forall|j: int| 0 <= j < i ==> token_view(a@[j]) == token_view(b@[j]),
        decreases n - i,
    {
        if !token_eq(&a[i], &b[i]) {
            proof {
                assert(tokens_view(a@)[i as int] != tokens_view(b@)[i as int]);
            }
            return false;
        }
        i += 1;
    }
    proof {
        assert(tokens_view(a@) =~= tokens_view(b@));
    }
    true
}

impl PartialEq for Token {
    fn eq(&self, other: &Token) -> (r: bool) {
        token_eq(self, other)
    }
}

impl vstd::std_specs::cmp::PartialEqSpecImpl for Token {
    open spec fn obeys_eq_spec() -> bool {
        true
    }

    open spec fn eq_spec(&self, other: &Token) -> bool {
        token_view(*self) == token_view(*other)
    }
}

impl PartialEq for Line {
    fn eq(&self, other: &Line) -> (r: bool) {
        match (self, other) {
            (
                Line::Header { level: va, tokens: ta },
                Line::Header { level: vb, tokens: tb },
            ) => {
                let lr = *va == *vb;
                lr && tokens_eq(ta, tb)
            },
            (Line::Paragraph(ta), Line::Paragraph(tb)) => tokens_eq(ta, tb),
            (Line::Image { label: la, url: ua }, Line::Image { label: lb, url: ub }) => {
                let lr = tokens_eq(la, lb);
                lr && *ua == *ub
            },
            (Line::Blank, Line::Blank) => true,
            _ => {
                proof {
                    assert(line_view(*self) != line_view(*other));
                }
                false
            },
        }
    }
}

impl vstd::std_specs::cmp::PartialEqSpecImpl for Line {
    open spec fn obeys_eq_spec() -> bool {
        true
    }

    open spec fn eq_spec(&self, other: &Line) -> bool {
        line_view(*self) == line_view(*other)
    }
}

/// A deep copy of a token; the copy has the same view.
pub fn token_clone(t: &Token) -> (r: Token)
    ensures
        token_view(r) == token_view(*t),
    decreases *t,
{
    match t {
        Token::Bold(ts) => Token::Bold(tokens_clone(ts)),
        Token::Italic(ts) => Token::Italic(tokens_clone(ts)),
        Token::InlineCode(ts) => Token::InlineCode(tokens_clone(ts)),
        Token::Regular(s) => Token::Regular(s.clone()),
        Token::Link { label, url } => Token::Link { label: tokens_clone(label), url: url.clone() },
    }
}

/// A deep copy of a token vector; the copy has the same view.
pub fn tokens_clone(ts: &Vec<Token>) -> (r: Vec<Token>)
    ensures
        tokens_view(r@) == tokens_view(ts@),
    decreases *ts,
{
    let n = ts.len();
    let mut out: Vec<Token> = Vec::new();
    let mut i: usize = 0;
    while i < n
        invariant
            0 <= i <= n,
            n == ts@.len(),
            out@.len() == i,
            forall|j: int| 0 <= j < i ==> token_view(out@[j]) == token_view(ts@[j]),
        decreases n - i,
    {
        out.push(token_clone(&ts[i]));
        i += 1;
    }
    proof {
        assert(tokens_view(out@) =~= tokens_view(ts@));
    }
    out
}

impl Clone for Token {
    fn clone(&self) -> (r: Token)
        ensures
            token_view(r) == token_view(*self),
    {
        token_clone(self)
    }
}

impl Clone for Line {
    fn clone(&self) -> (r: Line)
        ensures
            line_view(r) == line_view(*self),
    {
        match self {
            Line::Header { level, tokens } => Line::Header {
                level: *level,
                tokens: tokens_clone(tokens),
            },
            Line::Paragraph(ts) => Line::Paragraph(tokens_clone(ts)),
            Line::Image { label, url } => Line::Image {
                label: tokens_clone(label),
                url: url.clone(),
            },
            Line::Blank => Line::Blank,
        }
    }
}

} // verus!
