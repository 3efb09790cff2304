//! A standalone single-token parser: reads one inline token from the
//! front of a string, with delimiter-matched spans located by
//! first-occurrence search. It is independent of the event pipeline:
//! spans here may span whitespace, a link may carry a reference target
//! or a quoted title, and a compound emphasis is its own token kind.

use vstd::prelude::*;
use vstd::string::{StrSliceExecFns, StringExecFns};

use crate::text::{
    find_char, find_pair, find_space, find_triple, first_idx_of, first_pair_idx, first_space_idx,
    first_triple_idx, has_char, has_pair, has_triple, is_space_char, lemma_first_idx_of,
    lemma_first_pair_idx, lemma_first_space_idx, lemma_first_triple_idx,
};

verus! {

broadcast use vstd::seq::group_seq_axioms, vstd::std_specs::vec::group_vec_axioms;

/// One inline token: emphasis spans over child tokens, literal code
/// words, a plain word, or a link with its target.
#[derive(Debug)]
pub enum Token {
    Strong(Vec<Token>),
    Emphasis(Vec<Token>),
    StrongEmphasis(Vec<Token>),
    InlineCode(Vec<String>),
    Regular(String),
    Link { url: Url, label: Vec<Token> },
}

/// A link target: written in place, optionally with a quoted title, or a
/// named reference.
#[derive(Debug)]
pub enum Url {
    Inline { url: String, title: Option<String> },
    Reference(String),
}

/// The mathematical shape of a [`Token`].
pub enum GTok {
    Strong(Seq<GTok>),
    Emphasis(Seq<GTok>),
    StrongEmphasis(Seq<GTok>),
    InlineCode(Seq<Seq<char>>),
    Regular(Seq<char>),
    Link { url: GUrl, label: Seq<GTok> },
}

/// The mathematical shape of a [`Url`].
pub enum GUrl {
    Inline { url: Seq<char>, title: Option<Seq<char>> },
    Reference(Seq<char>),
}

/// The view of a code span's words.
pub open spec fn strings_view(ws: Seq<String>) -> Seq<Seq<char>> {
    Seq::new(ws.len(), |i: int| ws[i]@)
}

/// The view of one token.
pub open spec fn tok_view(t: Token) -> GTok
    decreases t,
{
    match t {
        Token::Strong(ts) => GTok::Strong(toks_view(ts@)),
        Token::Emphasis(ts) => GTok::Emphasis(toks_view(ts@)),
        Token::StrongEmphasis(ts) => GTok::StrongEmphasis(toks_view(ts@)),
        Token::InlineCode(ws) => GTok::InlineCode(strings_view(ws@)),
        Token::Regular(s) => GTok::Regular(s@),
        Token::Link { url, label } => GTok::Link { url: url_view(url), label: toks_view(label@) },
    }
}

/// The view of a sequence of tokens.
pub open spec fn toks_view(ts: Seq<Token>) -> Seq<GTok>
    decreases ts,
{
    Seq::new(ts.len(), |i: int| if 0 <= i < ts.len() {
        tok_view(ts[i])
    } else {
        GTok::Regular(Seq::empty())
    })
}

/// The view of a link target.
pub open spec fn url_view(u: Url) -> GUrl {
    match u {
        Url::Inline { url, title } => GUrl::Inline {
            url: url@,
            title: match title {
                Some(t) => Some(t@),
                None => None,
            },
        },
        Url::Reference(r) => GUrl::Reference(r@),
    }
}

/// How far a token-list separator reaches at the front of `s`: a run of
/// spaces and tabs, or one line ending.
pub open spec fn sep_len(s: Seq<char>) -> int {
    if s.len() >= 1 && (s[0] == ' ' || s[0] == '\t') {
        spacetab_run(s)
    } else if s.len() >= 1 && s[0] == '\n' {
        1
    } else if s.len() >= 2 && s[0] == '\r' && s[1] == '\n' {
        2
    } else {
        0
    }
}

/// The length of the leading run of spaces and tabs.
pub open spec fn spacetab_run(s: Seq<char>) -> int
    decreases s.len(),
{
    if s.len() >= 1 && (s[0] == ' ' || s[0] == '\t') {
        1 + spacetab_run(s.subrange(1, s.len() as int))
    } else {
        0
    }
}

/// Whether the inline-code parser accepts the front of `s`.
pub open spec fn code_accepts(s: Seq<char>) -> bool {
    s.len() >= 1 && s[0] == '`' && has_char(s.subrange(1, s.len() as int), '`')
}

/// Whether the compound-emphasis parser accepts the front of `s`.
pub open spec fn strong_emph_accepts(s: Seq<char>) -> bool {
    s.len() >= 3 && s[0] == '*' && s[1] == '*' && s[2] == '*' && has_triple(
        s.subrange(3, s.len() as int),
        '*',
        '*',
        '*',
    )
}

/// Whether the strong-emphasis parser accepts the front of `s`.
pub open spec fn strong_accepts(s: Seq<char>) -> bool {
    s.len() >= 2 && s[0] == '*' && s[1] == '*' && has_pair(
        s.subrange(2, s.len() as int),
        '*',
        '*',
    )
}

/// Whether the emphasis parser accepts the front of `s`.
pub open spec fn emph_accepts(s: Seq<char>) -> bool {
    s.len() >= 1 && s[0] == '*' && has_char(s.subrange(1, s.len() as int), '*')
}

/// A position clamped into `0 ..= n`.
pub open spec fn cap_at(u: int, n: int) -> int {
    if u < 0 {
        0
    } else if u > n {
        n
    } else {
        u
    }
}

/// One token read from the front of `s`, with how many characters it
/// used: the first parser that accepts wins, in the fixed order inline
/// code, compound emphasis, strong, emphasis, link, plain word.
pub open spec fn parse_token_spec(s: Seq<char>) -> (GTok, int)
    decreases s.len(), 1int,
    via parse_token_spec_dec
{
    if code_accepts(s) {
        let body = s.subrange(1, s.len() as int);
        let i = first_idx_of(body, '`');
        (GTok::InlineCode(crate::lexer::words_of(body.subrange(0, i))), 2 + i)
    } else if strong_emph_accepts(s) {
        let body = s.subrange(3, s.len() as int);
        let i = first_triple_idx(body, '*', '*', '*');
        (GTok::StrongEmphasis(tokens_list_spec(body.subrange(0, i))), 6 + i)
    } else if strong_accepts(s) {
        let body = s.subrange(2, s.len() as int);
        let i = first_pair_idx(body, '*', '*');
        (GTok::Strong(tokens_list_spec(body.subrange(0, i))), 4 + i)
    } else if emph_accepts(s) {
        let body = s.subrange(1, s.len() as int);
        let i = first_idx_of(body, '*');
        (GTok::Emphasis(tokens_list_spec(body.subrange(0, i))), 2 + i)
    } else {
        match link_spec(s) {
            Some(r) => r,
            None => {
                let j = first_space_idx(s);
                (GTok::Regular(s.subrange(0, j)), j)
            },
        }
    }
}

#[via_fn]
proof fn parse_token_spec_dec(s: Seq<char>) {
    if code_accepts(s) {
    } else if strong_emph_accepts(s) {
        lemma_first_triple_idx(s.subrange(3, s.len() as int), '*', '*', '*');
    } else if strong_accepts(s) {
        lemma_first_pair_idx(s.subrange(2, s.len() as int), '*', '*');
    } else if emph_accepts(s) {
        lemma_first_idx_of(s.subrange(1, s.len() as int), '*');
    }
}

/// A link read from the front of `s`, if its pieces are all present: a
/// bracketed label, then an in-place target closed by a space or `)` and
/// optionally titled, or a bracketed reference target.
pub open spec fn link_spec(s: Seq<char>) -> Option<(GTok, int)>
    decreases s.len(), 0int,
    via link_spec_dec
{
    if s.len() >= 1 && s[0] == '[' && has_char(s.subrange(1, s.len() as int), ']') {
        let i = first_idx_of(s.subrange(1, s.len() as int), ']');
        let label = tokens_list_spec(s.subrange(1, 1 + i));
        let pos = 2 + i;
        let rem = s.subrange(pos, s.len() as int);
        if rem.len() >= 1 && rem[0] == '(' {
            let r1 = rem.subrange(1, rem.len() as int);
            if has_char(r1, ' ') {
                let u = first_idx_of(r1, ' ');
                link_titled(label, r1.subrange(0, u), r1.subrange(u + 1, r1.len() as int), pos + u
                    + 2)
            } else if has_char(r1, ')') {
                let u = first_idx_of(r1, ')');
                link_titled(label, r1.subrange(0, u), r1.subrange(u + 1, r1.len() as int), pos + u
                    + 2)
            } else {
                None
            }
        } else if rem.len() >= 1 && rem[0] == '[' && has_char(rem.subrange(1, rem.len() as int), ']',
        ) {
            let r = first_idx_of(rem.subrange(1, rem.len() as int), ']');
            Some(
                (
                    GTok::Link {
                        url: GUrl::Reference(rem.subrange(1, 1 + r)),
                        label,
                    },
                    pos + r + 2,
                ),
            )
        } else if rem.len() >= 2 && rem[0] == ' ' && rem[1] == '[' && has_char(
            rem.subrange(2, rem.len() as int),
            ']',
        ) {
            let r = first_idx_of(rem.subrange(2, rem.len() as int), ']');
            Some(
                (
                    GTok::Link {
                        url: GUrl::Reference(rem.subrange(2, 2 + r)),
                        label,
                    },
                    pos + r + 3,
                ),
            )
        } else {
            None
        }
    } else {
        None
    }
}

#[via_fn]
proof fn link_spec_dec(s: Seq<char>) {
    if s.len() >= 1 && s[0] == '[' && has_char(s.subrange(1, s.len() as int), ']') {
        lemma_first_idx_of(s.subrange(1, s.len() as int), ']');
    }
}

/// An in-place link target with its optional quoted title: nothing after
/// the target means no title; a quoted title is taken; anything else
/// rejects the link.
pub open spec fn link_titled(label: Seq<GTok>, url: Seq<char>, rem: Seq<char>, used: int) -> Option<
    (GTok, int),
> {
    if rem.len() == 0 {
        Some((GTok::Link { url: GUrl::Inline { url, title: None }, label }, used))
    } else if rem[0] == '"' && has_char(rem.subrange(1, rem.len() as int), '"') {
        let q = first_idx_of(rem.subrange(1, rem.len() as int), '"');
        Some(
            (
                GTok::Link {
                    url: GUrl::Inline { url, title: Some(rem.subrange(1, 1 + q)) },
                    label,
                },
                used,
            ),
        )
    } else {
        None
    }
}

/// The tokens of a whitespace-separated run, each read by
/// [`parse_token_spec`] in turn.
pub open spec fn tokens_list_spec(s: Seq<char>) -> Seq<GTok>
    decreases s.len(), 2int,
{
    let first = parse_token_spec(s);
    let u = cap_at(first.1, s.len() as int);
    seq![first.0] + tokens_rest_spec(s.subrange(u, s.len() as int))
}

/// The tokens after the first: each preceded by a separator, until no
/// separator follows or a token reads nothing.
pub open spec fn tokens_rest_spec(s: Seq<char>) -> Seq<GTok>
    decreases s.len(), 0int,
{
    let k = sep_len(s);
    if k < 1 || k > s.len() {
        Seq::empty()
    } else {
        let r1 = s.subrange(k, s.len() as int);
        let nxt = parse_token_spec(r1);
        let u = cap_at(nxt.1, r1.len() as int);
        if u < 1 {
            Seq::empty()
        } else {
            seq![nxt.0] + tokens_rest_spec(r1.subrange(u, r1.len() as int))
        }
    }
}


/// What the leading space-and-tab run reaches: everything before it is a
/// space or tab, and it stops at the first other character.
proof fn lemma_spacetab_run(s: Seq<char>)
    ensures
        0 <= spacetab_run(s) <= s.len(),
        forall|j: int| 0 <= j < spacetab_run(s) ==> (#[trigger] s[j]) == ' ' || s[j] == '\t',
        spacetab_run(s) < s.len() ==> !(s[spacetab_run(s)] == ' ' || s[spacetab_run(s)] == '\t'),
    decreases s.len(),
{
    if s.len() >= 1 && (s[0] == ' ' || s[0] == '\t') {
        let t = s.subrange(1, s.len() as int);
        lemma_spacetab_run(t);
        assert forall|j: int|
            0 <= j < spacetab_run(s) implies (#[trigger] s[j]) == ' ' || s[j] == '\t' by {
            if j > 0 {
                assert(s[j] == t[j - 1]);
            }
        }
    }
}

/// How far the next token-list separator reaches.
pub fn space_or_line_ending(s: &str) -> (k: usize)
    ensures
        k == sep_len(s@),
{
    let n = s.unicode_len();
    if n >= 1 && (s.get_char(0) == ' ' || s.get_char(0) == '\t') {
        let mut i: usize = 0;
        while i < n && (s.get_char(i) == ' ' || s.get_char(i) == '\t')
            invariant
                0 <= i <= n,
                n == s@.len(),
                forall|j: int| 0 <= j < i ==> (#[trigger] s@[j]) == ' ' || s@[j] == '\t',
            decreases n - i,
        {
            i += 1;
        }
        proof {
            lemma_spacetab_run(s@);
            let f = spacetab_run(s@);
            if f < i {
                assert(!(s@[f] == ' ' || s@[f] == '\t'));
            }
            if i < f {
                assert(s@[i as int] == ' ' || s@[i as int] == '\t');
            }
        }
        i
    } else if n >= 1 && s.get_char(0) == '\n' {
        1
    } else if n >= 2 && s.get_char(0) == '\r' && s.get_char(1) == '\n' {
        2
    } else {
        0
    }
}

/// Reads one plain word: the text up to the first whitespace character.
pub fn parse_word(s: &str) -> (r: (String, usize))
    ensures
        r.0@ == s@.subrange(0, first_space_idx(s@)),
        r.1 == first_space_idx(s@),
{
    let j = find_space(s);
    proof {
        lemma_first_space_idx(s@);
    }
    (String::from_str(s.substring_char(0, j)), j)
}

/// Splits a run of text into its whitespace-separated words.
pub fn parse_words_split_with_space(s: &str) -> (v: Vec<String>)
    ensures
        strings_view(v@) == crate::lexer::words_of(s@),
    decreases s@.len(),
{
    let n = s.unicode_len();
    if n == 0 {
        let v: Vec<String> = Vec::new();
        proof {
            assert(strings_view(v@) =~= crate::lexer::words_of(s@));
        }
        return v;
    }
    if is_space_char(s.get_char(0)) {
        let v = parse_words_split_with_space(s.substring_char(1, n));
        proof {
            assert(strings_view(v@) =~= crate::lexer::words_of(s@));
        }
        return v;
    }
    let j = find_space(s);
    proof {
        lemma_first_space_idx(s@);
    }
    let w = String::from_str(s.substring_char(0, j));
    let mut rest = parse_words_split_with_space(s.substring_char(j, n));
    let mut v: Vec<String> = Vec::new();
    v.push(w);
    v.append(&mut rest);
    proof {
        assert(strings_view(v@) =~= crate::lexer::words_of(s@));
    }
    v
}

/// Tries the inline-code parser on the front of `s`.
pub fn parse_inline_code(s: &str) -> (r: Option<(Token, usize)>)
    ensures
        (r matches Some(p)) == code_accepts(s@),
        (r matches Some(p) ==> ({
            let body = s@.subrange(1, s@.len() as int);
            let i = first_idx_of(body, '`');
            &&& tok_view(p.0) == GTok::InlineCode(crate::lexer::words_of(body.subrange(0, i)))
            &&& p.1 == 2 + i
        })),
{
    let n = s.unicode_len();
    if n >= 1 && s.get_char(0) == '`' {
        let body = s.substring_char(1, n);
        let i = find_char(body, '`');
        proof {
            lemma_first_idx_of(body@, '`');
        }
        if i < n - 1 {
            let words = parse_words_split_with_space(body.substring_char(0, i));
            Some((Token::InlineCode(words), i + 2))
        } else {
            None
        }
    } else {
        None
    }
}

/// Tries the compound-emphasis parser on the front of `s`.
pub fn parse_strong_emphasis(s: &str) -> (r: Option<(Token, usize)>)
    ensures
        (r matches Some(p)) == strong_emph_accepts(s@),
        (r matches Some(p) ==> ({
            let body = s@.subrange(3, s@.len() as int);
            let i = first_triple_idx(body, '*', '*', '*');
            &&& tok_view(p.0) == GTok::StrongEmphasis(tokens_list_spec(body.subrange(0, i)))
            &&& p.1 == 6 + i
        })),
    decreases s@.len(), 4int,
{
    let n = s.unicode_len();
    if n >= 3 && s.get_char(0) == '*' && s.get_char(1) == '*' && s.get_char(2) == '*' {
        let body = s.substring_char(3, n);
        let pr = find_triple(body, '*', '*', '*');
        proof {
            lemma_first_triple_idx(body@, '*', '*', '*');
        }
        if pr.1 {
            let i = pr.0;
            let ts = parse_tokens_split_with_space(body.substring_char(0, i));
            Some((Token::StrongEmphasis(ts), i + 6))
        } else {
            None
        }
    } else {
        None
    }
}

/// Tries the strong-emphasis parser on the front of `s`.
pub fn parse_strong(s: &str) -> (r: Option<(Token, usize)>)
    ensures
        (r matches Some(p)) == strong_accepts(s@),
        (r matches Some(p) ==> ({
            let body = s@.subrange(2, s@.len() as int);
            let i = first_pair_idx(body, '*', '*');
            &&& tok_view(p.0) == GTok::Strong(tokens_list_spec(body.subrange(0, i)))
            &&& p.1 == 4 + i
        })),
    decreases s@.len(), 4int,
{
    let n = s.unicode_len();
    if n >= 2 && s.get_char(0) == '*' && s.get_char(1) == '*' {
        let body = s.substring_char(2, n);
        let pr = find_pair(body, '*', '*');
        proof {
            lemma_first_pair_idx(body@, '*', '*');
        }
        if pr.1 {
            let i = pr.0;
            let ts = parse_tokens_split_with_space(body.substring_char(0, i));
            Some((Token::Strong(ts), i + 4))
        } else {
            None
        }
    } else {
        None
    }
}

/// Tries the emphasis parser on the front of `s`.
pub fn parse_emphasis(s: &str) -> (r: Option<(Token, usize)>)
    ensures
        (r matches Some(p)) == emph_accepts(s@),
        (r matches Some(p) ==> ({
            let body = s@.subrange(1, s@.len() as int);
            let i = first_idx_of(body, '*');
            &&& tok_view(p.0) == GTok::Emphasis(tokens_list_spec(body.subrange(0, i)))
            &&& p.1 == 2 + i
        })),
    decreases s@.len(), 4int,
{
    let n = s.unicode_len();
    if n >= 1 && s.get_char(0) == '*' {
        let body = s.substring_char(1, n);
        let i = find_char(body, '*');
        proof {
            lemma_first_idx_of(body@, '*');
        }
        if i < n - 1 {
            let ts = parse_tokens_split_with_space(body.substring_char(0, i));
            Some((Token::Emphasis(ts), i + 2))
        } else {
            None
        }
    } else {
        None
    }
}

/// Tries the link parser on the front of `s`.
pub fn parse_link(s: &str) -> (r: Option<(Token, usize)>)
    ensures
        (r matches Some(p)) == (link_spec(s@) matches Some(q)),
        (r matches Some(p) ==> (link_spec(s@) matches Some(q) && tok_view(p.0) == q.0 && p.1
            == q.1)),
    decreases s@.len(), 4int,
{
    let n = s.unicode_len();
    if !(n >= 1 && s.get_char(0) == '[') {
        return None;
    }
    let after = s.substring_char(1, n);
    let i = find_char(after, ']');
    proof {
        lemma_first_idx_of(after@, ']');
    }
    if i >= n - 1 {
        return None;
    }
    let label = parse_tokens_split_with_space(s.substring_char(1, 1 + i));
    let pos = 2 + i;
    let rem = s.substring_char(pos, n);
    let rn = n - pos;
    if rn >= 1 && rem.get_char(0) == '(' {
        let r1 = rem.substring_char(1, rn);
        let usp = find_char(r1, ' ');
        proof {
            lemma_first_idx_of(r1@, ' ');
        }
        if usp < rn - 1 {
            let url = String::from_str(r1.substring_char(0, usp));
            let rem2 = r1.substring_char(usp + 1, rn - 1);
            link_title(label, url, rem2, pos + usp + 2)
        } else {
            let upr = find_char(r1, ')');
            proof {
                lemma_first_idx_of(r1@, ')');
            }
            if upr < rn - 1 {
                let url = String::from_str(r1.substring_char(0, upr));
                let rem2 = r1.substring_char(upr + 1, rn - 1);
                link_title(label, url, rem2, pos + upr + 2)
            } else {
                None
            }
        }
    } else if rn >= 1 && rem.get_char(0) == '[' {
        let inner = rem.substring_char(1, rn);
        let rr = find_char(inner, ']');
        proof {
            lemma_first_idx_of(inner@, ']');
        }
        if rr < rn - 1 {
            let name = String::from_str(rem.substring_char(1, 1 + rr));
            Some((Token::Link { url: Url::Reference(name), label }, pos + rr + 2))
        } else {
            None
        }
    } else if rn >= 2 && rem.get_char(0) == ' ' && rem.get_char(1) == '[' {
        let inner = rem.substring_char(2, rn);
        let rr = find_char(inner, ']');
        proof {
            lemma_first_idx_of(inner@, ']');
        }
        if rr < rn - 2 {
            let name = String::from_str(rem.substring_char(2, 2 + rr));
            Some((Token::Link { url: Url::Reference(name), label }, pos + rr + 3))
        } else {
            None
        }
    } else {
        None
    }
}

/// Finishes an in-place link with its optional quoted title.
fn link_title(label: Vec<Token>, url: String, rem: &str, used: usize) -> (r: Option<
    (Token, usize),
>)
    ensures
        (r matches Some(p)) == (link_titled(toks_view(label@), url@, rem@, used as int) matches Some(
            q,
        )),
        (r matches Some(p) ==> (link_titled(toks_view(label@), url@, rem@, used as int) matches Some(
            q,
        ) && tok_view(p.0) == q.0 && p.1 == q.1)),
{
    let n = rem.unicode_len();
    if n == 0 {
        Some((Token::Link { url: Url::Inline { url, title: None }, label }, used))
    } else if rem.get_char(0) == '"' {
        let inner = rem.substring_char(1, n);
        let q = find_char(inner, '"');
        proof {
            lemma_first_idx_of(inner@, '"');
        }
        if q < n - 1 {
            let title = String::from_str(rem.substring_char(1, 1 + q));
            Some((Token::Link { url: Url::Inline { url, title: Some(title) }, label }, used))
        } else {
            None
        }
    } else {
        None
    }
}

/// Reads one token from the front of `s`: the first parser that accepts
/// wins, with a plain word as the fallback.
pub fn parse_token(s: &str) -> (r: (Token, usize))
    ensures
        tok_view(r.0) == parse_token_spec(s@).0,
        r.1 == parse_token_spec(s@).1,
    decreases s@.len(), 5int,
{
    match parse_inline_code(s) {
        Some(p) => p,
        None => match parse_strong_emphasis(s) {
            Some(p) => p,
            None => match parse_strong(s) {
                Some(p) => p,
                None => match parse_emphasis(s) {
                    Some(p) => p,
                    None => match parse_link(s) {
                        Some(p) => p,
                        None => {
                            let (w, j) = parse_word(s);
                            (Token::Regular(w), j)
                        },
                    },
                },
            },
        },
    }
}

/// Splits a run of text into tokens separated by whitespace.
pub fn parse_tokens_split_with_space(s: &str) -> (v: Vec<Token>)
    ensures
        toks_view(v@) == tokens_list_spec(s@),
    decreases s@.len(), 6int,
{
    let n = s.unicode_len();
    let (t0, u0) = parse_token(s);
    let u = if u0 > n {
        n
    } else {
        u0
    };
    let mut rest = parse_tokens_rest(s.substring_char(u, n));
    let mut v: Vec<Token> = Vec::new();
    v.push(t0);
    v.append(&mut rest);
    proof {
        assert(toks_view(v@) =~= tokens_list_spec(s@));
    }
    v
}

/// Reads the tokens after the first, each preceded by a separator.
fn parse_tokens_rest(s: &str) -> (v: Vec<Token>)
    ensures
        toks_view(v@) == tokens_rest_spec(s@),
    decreases s@.len(), 3int,
{
    let n = s.unicode_len();
    let k = space_or_line_ending(s);
    if k < 1 || k > n {
        let v: Vec<Token> = Vec::new();
        proof {
            assert(toks_view(v@) =~= tokens_rest_spec(s@));
        }
        return v;
    }
    let r1 = s.substring_char(k, n);
    let (t, u0) = parse_token(r1);
    let u = if u0 > n - k {
        n - k
    } else {
        u0
    };
    if u < 1 {
        let v: Vec<Token> = Vec::new();
        proof {
            assert(toks_view(v@) =~= tokens_rest_spec(s@));
        }
        return v;
    }
    let mut rest = parse_tokens_rest(r1.substring_char(u, n - k));
    let mut v: Vec<Token> = Vec::new();
    v.push(t);
    v.append(&mut rest);
    proof {
        assert(toks_view(v@) =~= tokens_rest_spec(s@));
    }
    v
}

impl core::str::FromStr for Token {
    type Err = ();

    fn from_str(s: &str) -> Result<Token, ()> {
        let (t, _used) = parse_token(s);
        Ok(t)
    }
}


/// Structural equality of two tokens: they are equal exactly when their
/// views are equal.
pub fn tok_eq(a: &Token, b: &Token) -> (r: bool)
    ensures
        r == (tok_view(*a) == tok_view(*b)),
    decreases *a,
{
    match a {
        Token::Strong(x) => match b {
            Token::Strong(y) => toks_eq(x, y),
            _ => false,
        },
        Token::Emphasis(x) => match b {
            Token::Emphasis(y) => toks_eq(x, y),
            _ => false,
        },
        Token::StrongEmphasis(x) => match b {
            Token::StrongEmphasis(y) => toks_eq(x, y),
            _ => false,
        },
        Token::InlineCode(x) => match b {
            Token::InlineCode(y) => strs_eq(x, y),
            _ => false,
        },
        Token::Regular(x) => match b {
            Token::Regular(y) => *x == *y,
            _ => false,
        },
        Token::Link { url: ua, label: la } => match b {
            Token::Link { url: ub, label: lb } => {
                let ur = url_eq(ua, ub);
                ur && toks_eq(la, lb)
            },
            _ => false,
        },
    }
}

/// Structural equality of two token vectors, element by element.
pub fn toks_eq(a: &Vec<Token>, b: &Vec<Token>) -> (r: bool)
    ensures
        r == (toks_view(a@) == toks_view(b@)),
    decreases *a,
{
    if a.len() != b.len() {
        proof {
            assert(toks_view(a@).len() != toks_view(b@).len());
        }
        return false;
    }
    let n = a.len();
    let mut i: usize = 0;
    while i < n
        invariant
            0 <= i <= n,
            n == a@.len(),
            n == b@.len(),
            forall|j: int| 0 <= j < i ==> tok_view(a@[j]) == tok_view(b@[j]),
        decreases n - i,
    {
        if !tok_eq(&a[i], &b[i]) {
            proof {
                assert(toks_view(a@)[i as int] != toks_view(b@)[i as int]);
            }
            return false;
        }
        i += 1;
    }
    proof {
        assert(toks_view(a@) =~= toks_view(b@));
    }
    true
}

/// Equality of two word vectors, element by element.
pub fn strs_eq(a: &Vec<String>, b: &Vec<String>) -> (r: bool)
    ensures
        r == (strings_view(a@) == strings_view(b@)),
{
    if a.len() != b.len() {
        proof {
            assert(strings_view(a@).len() != strings_view(b@).len());
        }
        return false;
    }
    let n = a.len();
    let mut i: usize = 0;
    while i < n
        invariant
            0 <= i <= n,
            n == a@.len(),
            n == b@.len(),
            forall|j: int| 0 <= j < i ==> a@[j]@ == b@[j]@,
        decreases n - i,
    {
        if !(a[i] == b[i]) {
            proof {
                assert(strings_view(a@)[i as int] != strings_view(b@)[i as int]);
            }
            return false;
        }
        i += 1;
    }
    proof {
        assert(strings_view(a@) =~= strings_view(b@));
    }
    true
}

/// Structural equality of two link targets.
pub fn url_eq(a: &Url, b: &Url) -> (r: bool)
    ensures
        r == (url_view(*a) == url_view(*b)),
{
    match a {
        Url::Inline { url: xa, title: ta } => match b {
            Url::Inline { url: xb, title: tb } => {
                let ur = *xa == *xb;
                let tr = match ta {
                    Some(va) => match tb {
                        Some(vb) => *va == *vb,
                        None => false,
                    },
                    None => match tb {
                        Some(..) => false,
                        None => true,
                    },
                };
                ur && tr
            },
            _ => false,
        },
        Url::Reference(xa) => match b {
            Url::Reference(xb) => *xa == *xb,
            _ => false,
        },
    }
}

impl PartialEq for Token {
    fn eq(&self, other: &Token) -> (r: bool) {
        tok_eq(self, other)
    }
}

impl vstd::std_specs::cmp::PartialEqSpecImpl for Token {
    open spec fn obeys_eq_spec() -> bool {
        true
    }

    open spec fn eq_spec(&self, other: &Token) -> bool {
        tok_view(*self) == tok_view(*other)
    }
}

impl PartialEq for Url {
    fn eq(&self, other: &Url) -> (r: bool) {
        url_eq(self, other)
    }
}

impl vstd::std_specs::cmp::PartialEqSpecImpl for Url {
    open spec fn obeys_eq_spec() -> bool {
        true
    }

    open spec fn eq_spec(&self, other: &Url) -> bool {
        url_view(*self) == url_view(*other)
    }
}

} // verus!
