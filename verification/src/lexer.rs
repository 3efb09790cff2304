//! The lexer: scans raw input line by line and word by word, recognizes
//! line-level and inline constructs, and emits a strictly ordered sequence
//! of primitive events to a collector.
//!
//! Recognition is prefix/suffix based on the raw word, not grammar aware:
//! a word starting with a delimiter opens the matching span, a word ending
//! with it closes the span, and the residual word with the delimiter
//! stripped is re-submitted to the same word scanner. The lexer never
//! validates delimiter balance; the parser's state machine does.

use vstd::prelude::*;
use vstd::string::{StrSliceExecFns, StringExecFns};

use crate::collector::{GEvent, TokenCollector};
use crate::text::{
    is_space_char,
    first_idx_of, first_pair_idx, first_space_idx, has_char, has_pair, is_space,
    lemma_first_idx_of, lemma_first_pair_idx, lemma_first_space_idx, trim_spec,
};

verus! {

broadcast use vstd::seq::group_seq_axioms, vstd::std_specs::vec::group_vec_axioms;

/// Whether the inline-code recognizer claims this word: it begins or ends
/// with a backtick, or ends with a backtick followed by a period.
pub open spec fn code_applies(w: Seq<char>) -> bool {
    ||| (w.len() >= 1 && w[0] == '`')
    ||| (w.len() >= 1 && w[w.len() - 1] == '`')
    ||| (w.len() >= 2 && w[w.len() - 2] == '`' && w[w.len() - 1] == '.')
}

/// The events for a word claimed by the inline-code recognizer. The
/// interior of a code span is emitted literally, never re-scanned.
pub open spec fn code_events(w: Seq<char>) -> Seq<GEvent> {
    if w.len() >= 1 && w[0] == '`' {
        let rest = w.subrange(1, w.len() as int);
        if rest.len() >= 1 && rest[rest.len() - 1] == '`' {
            seq![
                GEvent::BeginInlineCode,
                GEvent::Word(rest.subrange(0, rest.len() - 1)),
                GEvent::EndInlineCode,
            ]
        } else {
            seq![GEvent::BeginInlineCode, GEvent::Word(rest)]
        }
    } else if w.len() >= 1 && w[w.len() - 1] == '`' {
        seq![GEvent::Word(w.subrange(0, w.len() - 1)), GEvent::EndInlineCode]
    } else {
        seq![GEvent::Word(w.subrange(0, w.len() - 2).push('.')), GEvent::EndInlineCode]
    }
}

/// Whether the word opens a bold span: it starts with `**` or `__`.
pub open spec fn bold_open(w: Seq<char>) -> bool {
    w.len() >= 2 && ((w[0] == '*' && w[1] == '*') || (w[0] == '_' && w[1] == '_'))
}

/// Whether the word closes a bold span: it ends with `**` or `__`.
pub open spec fn bold_close(w: Seq<char>) -> bool {
    w.len() >= 2 && ((w[w.len() - 2] == '*' && w[w.len() - 1] == '*') || (w[w.len() - 2] == '_'
        && w[w.len() - 1] == '_'))
}

/// Whether the word closes a bold span with a trailing period.
pub open spec fn bold_close_dot(w: Seq<char>) -> bool {
    w.len() >= 3 && w[w.len() - 1] == '.' && ((w[w.len() - 3] == '*' && w[w.len() - 2] == '*') || (
    w[w.len() - 3] == '_' && w[w.len() - 2] == '_'))
}

/// Whether the bold recognizer claims this word.
pub open spec fn bold_applies(w: Seq<char>) -> bool {
    bold_open(w) || bold_close(w) || bold_close_dot(w)
}

/// Whether the word opens an italic span: it starts with `*` or `_`.
pub open spec fn ital_open(w: Seq<char>) -> bool {
    w.len() >= 1 && (w[0] == '*' || w[0] == '_')
}

/// Whether the word closes an italic span: it ends with `*` or `_`.
pub open spec fn ital_close(w: Seq<char>) -> bool {
    w.len() >= 1 && (w[w.len() - 1] == '*' || w[w.len() - 1] == '_')
}

/// Whether the word closes an italic span with a trailing period.
pub open spec fn ital_close_dot(w: Seq<char>) -> bool {
    w.len() >= 2 && w[w.len() - 1] == '.' && (w[w.len() - 2] == '*' || w[w.len() - 2] == '_')
}

/// Whether the italic recognizer claims this word.
pub open spec fn ital_applies(w: Seq<char>) -> bool {
    ital_open(w) || ital_close(w) || ital_close_dot(w)
}

/// Whether the link recognizer claims this word: it starts with `[` or
/// contains `]`.
pub open spec fn label_applies(w: Seq<char>) -> bool {
    (w.len() >= 1 && w[0] == '[') || has_char(w, ']')
}

/// The events for the text after `](`: the URL closes on a trailing `)`,
/// and a trailing `).` additionally emits a literal period word.
pub open spec fn url_rest_events(u: Seq<char>) -> Seq<GEvent> {
    if u.len() >= 2 && u[u.len() - 2] == ')' && u[u.len() - 1] == '.' {
        seq![GEvent::Url(u.subrange(0, u.len() - 2)), GEvent::Word(seq!['.'])]
    } else if u.len() >= 1 && u[u.len() - 1] == ')' {
        seq![GEvent::Url(u.subrange(0, u.len() - 1))]
    } else {
        Seq::empty()
    }
}

/// The events for the text after `]` when the URL still carries its own
/// parentheses.
pub open spec fn url_paren_events(u: Seq<char>) -> Seq<GEvent> {
    if u.len() >= 3 && u[0] == '(' && u[u.len() - 2] == ')' && u[u.len() - 1] == '.' {
        seq![GEvent::Url(u.subrange(1, u.len() - 2)), GEvent::Word(seq!['.'])]
    } else if u.len() >= 2 && u[0] == '(' && u[u.len() - 1] == ')' {
        seq![GEvent::Url(u.subrange(1, u.len() - 1))]
    } else {
        Seq::empty()
    }
}

/// The events for a word claimed by the inline-code, bold, italic or link
/// recognizer, in that fixed priority order, or a single literal word.
pub open spec fn word_events(w: Seq<char>) -> Seq<GEvent>
    decreases w.len(), 3int,
{
    if code_applies(w) {
        code_events(w)
    } else if bold_applies(w) {
        bold_events(w)
    } else if ital_applies(w) {
        ital_events(w)
    } else if label_applies(w) {
        label_events(w)
    } else {
        seq![GEvent::Word(w)]
    }
}

/// The events for a word claimed by the bold recognizer: open, close, or
/// close with a trailing period, with the residual word re-scanned.
pub open spec fn bold_events(w: Seq<char>) -> Seq<GEvent>
    decreases w.len(), 2int,
{
    if bold_open(w) {
        if bold_close(w) && w.len() >= 4 {
            seq![GEvent::BeginBold] + word_events(w.subrange(2, w.len() - 2)) + seq![
                GEvent::EndBold,
            ]
        } else {
            seq![GEvent::BeginBold] + word_events(w.subrange(2, w.len() as int))
        }
    } else if bold_close(w) {
        word_events(w.subrange(0, w.len() - 2)) + seq![GEvent::EndBold]
    } else if bold_close_dot(w) {
        word_events(w.subrange(0, w.len() - 3).push('.')) + seq![GEvent::EndBold]
    } else {
        seq![GEvent::Word(w)]
    }
}

/// The events for a word claimed by the italic recognizer.
pub open spec fn ital_events(w: Seq<char>) -> Seq<GEvent>
    decreases w.len(), 2int,
{
    if ital_open(w) {
        if ital_close(w) && w.len() >= 2 {
            seq![GEvent::BeginItalic] + word_events(w.subrange(1, w.len() - 1)) + seq![
                GEvent::EndItalic,
            ]
        } else {
            seq![GEvent::BeginItalic] + word_events(w.subrange(1, w.len() as int))
        }
    } else if ital_close(w) {
        word_events(w.subrange(0, w.len() - 1)) + seq![GEvent::EndItalic]
    } else if ital_close_dot(w) {
        word_events(w.subrange(0, w.len() - 2).push('.')) + seq![GEvent::EndItalic]
    } else {
        seq![GEvent::Word(w)]
    }
}

/// The events for a word claimed by the link recognizer: a leading `[`
/// opens a label; `](` resolves label and URL from the same word; a bare
/// `]` closes a label begun in an earlier word.
pub open spec fn label_events(w: Seq<char>) -> Seq<GEvent>
    decreases w.len(), 2int,
    via label_events_dec
{
    if w.len() >= 1 && w[0] == '[' {
        let rest = w.subrange(1, w.len() as int);
        if has_pair(rest, ']', '(') {
            let i = first_pair_idx(rest, ']', '(');
            seq![GEvent::BeginLabel] + word_events(rest.subrange(0, i)) + seq![GEvent::EndLabel]
                + url_rest_events(rest.subrange(i + 2, rest.len() as int))
        } else {
            seq![GEvent::BeginLabel] + word_events(rest)
        }
    } else if has_char(w, ']') {
        let i = first_idx_of(w, ']');
        word_events(w.subrange(0, i)) + seq![GEvent::EndLabel] + url_paren_events(
            w.subrange(i + 1, w.len() as int),
        )
    } else {
        seq![GEvent::Word(w)]
    }
}

#[via_fn]
proof fn label_events_dec(w: Seq<char>) {
    if w.len() >= 1 && w[0] == '[' {
        lemma_first_pair_idx(w.subrange(1, w.len() as int), ']', '(');
    } else if has_char(w, ']') {
        lemma_first_idx_of(w, ']');
    }
}

/// The events for a whitespace-separated run of words, each scanned in
/// order.
pub open spec fn words_events(s: Seq<char>) -> Seq<GEvent>
    decreases s.len(), 4int,
    via words_events_dec
{
    if s.len() == 0 {
        Seq::empty()
    } else if is_space(s[0]) {
        words_events(s.subrange(1, s.len() as int))
    } else {
        let j = first_space_idx(s);
        word_events(s.subrange(0, j)) + words_events(s.subrange(j, s.len() as int))
    }
}

#[via_fn]
proof fn words_events_dec(s: Seq<char>) {
    if s.len() > 0 && !is_space(s[0]) {
        lemma_first_space_idx(s);
    }
}

/// The whitespace-separated words of a run of text, in order, none
/// empty.
pub open spec fn words_of(s: Seq<char>) -> Seq<Seq<char>>
    decreases s.len(),
    via words_of_dec
{
    if s.len() == 0 {
        Seq::empty()
    } else if is_space(s[0]) {
        words_of(s.subrange(1, s.len() as int))
    } else {
        let j = first_space_idx(s);
        seq![s.subrange(0, j)] + words_of(s.subrange(j, s.len() as int))
    }
}

#[via_fn]
proof fn words_of_dec(s: Seq<char>) {
    if s.len() > 0 && !is_space(s[0]) {
        lemma_first_space_idx(s);
    }
}

/// The event, if any, for the introducer word of a header line: a run of
/// one to six `#` characters selects the matching level.
pub open spec fn header_intro_events(w: Seq<char>) -> Seq<GEvent> {
    if w =~= seq!['#'] {
        seq![GEvent::H1]
    } else if w =~= seq!['#', '#'] {
        seq![GEvent::H2]
    } else if w =~= seq!['#', '#', '#'] {
        seq![GEvent::H3]
    } else if w =~= seq!['#', '#', '#', '#'] {
        seq![GEvent::H4]
    } else if w =~= seq!['#', '#', '#', '#', '#'] {
        seq![GEvent::H5]
    } else if w =~= seq!['#', '#', '#', '#', '#', '#'] {
        seq![GEvent::H6]
    } else {
        Seq::empty()
    }
}

/// The events for a trimmed line whose first character is `#`: the first
/// word selects a header level if it is an exact `#` run, and is dropped
/// otherwise; the remaining words are scanned as usual.
pub open spec fn header_events(s: Seq<char>) -> Seq<GEvent> {
    let j = first_space_idx(s);
    header_intro_events(s.subrange(0, j)) + words_events(s.subrange(j, s.len() as int))
}

/// The events for one trimmed line: empty lines emit nothing, `#` starts
/// a header line, `!` an image line, and anything else a word run.
pub open spec fn line_events(s: Seq<char>) -> Seq<GEvent> {
    if s.len() == 0 {
        Seq::empty()
    } else if s[0] == '#' {
        header_events(s)
    } else if s[0] == '!' {
        seq![GEvent::Image] + words_events(s.subrange(1, s.len() as int))
    } else {
        words_events(s)
    }
}

/// The events for a whole input: each newline-separated line is trimmed
/// and scanned, and every line, including an empty one, ends with a line
/// break event. An empty input has no lines.
pub open spec fn text_events(s: Seq<char>) -> Seq<GEvent>
    decreases s.len(),
    via text_events_dec
{
    if s.len() == 0 {
        Seq::empty()
    } else if has_char(s, '\n') {
        let i = first_idx_of(s, '\n');
        line_events(trim_spec(s.subrange(0, i))) + seq![GEvent::LineBreak] + text_events(
            s.subrange(i + 1, s.len() as int),
        )
    } else {
        line_events(trim_spec(s)) + seq![GEvent::LineBreak]
    }
}

#[via_fn]
proof fn text_events_dec(s: Seq<char>) {
    if s.len() > 0 && has_char(s, '\n') {
        lemma_first_idx_of(s, '\n');
    }
}

/// The newline-separated lines of the input, untrimmed: one entry per
/// source line, and none for an empty input.
pub open spec fn lines_of(s: Seq<char>) -> Seq<Seq<char>>
    decreases s.len(),
    via lines_of_dec
{
    if s.len() == 0 {
        Seq::empty()
    } else if has_char(s, '\n') {
        let i = first_idx_of(s, '\n');
        seq![s.subrange(0, i)] + lines_of(s.subrange(i + 1, s.len() as int))
    } else {
        seq![s]
    }
}

#[via_fn]
proof fn lines_of_dec(s: Seq<char>) {
    if s.len() > 0 && has_char(s, '\n') {
        lemma_first_idx_of(s, '\n');
    }
}

/// Scans one word against the inline-code recognizer; on a match the
/// events of [`code_events`] are emitted and `true` is returned.
pub fn lex_inline_code<T: TokenCollector>(c: &mut T, w: &str) -> (r: bool)
    requires
        old(c).inv(),
    ensures
        final(c).inv(),
        r == code_applies(w@),
        r ==> final(c).events() == old(c).events() + code_events(w@),
        !r ==> final(c).events() == old(c).events(),
{
    let n = w.unicode_len();
    if n >= 1 && w.get_char(0) == '`' {
        c.begin_inline_code();
        let rest = w.substring_char(1, n);
        if n >= 2 && rest.get_char(n - 2) == '`' {
            let inner = rest.substring_char(0, n - 2);
            c.word(inner);
            c.end_inline_code();
        } else {
            c.word(rest);
        }
        proof {
            assert(c.events() =~= old(c).events() + code_events(w@));
        }
        true
    } else if n >= 1 && w.get_char(n - 1) == '`' {
        c.word(w.substring_char(0, n - 1));
        c.end_inline_code();
        proof {
            assert(c.events() =~= old(c).events() + code_events(w@));
        }
        true
    } else if n >= 2 && w.get_char(n - 2) == '`' && w.get_char(n - 1) == '.' {
        let t = String::from_str(w.substring_char(0, n - 2)).concat(".");
        c.word(t.as_str());
        c.end_inline_code();
        proof {
            reveal_strlit(".");
            assert(t@ =~= w@.subrange(0, n - 2).push('.'));
            assert(c.events() =~= old(c).events() + code_events(w@));
        }
        true
    } else {
        false
    }
}

/// Scans one word against the bold recognizer; on a match the events of
/// [`bold_events`] are emitted and `true` is returned.
pub fn lex_bold<T: TokenCollector>(c: &mut T, w: &str) -> (r: bool)
    requires
        old(c).inv(),
    ensures
        final(c).inv(),
        r == bold_applies(w@),
        r ==> final(c).events() == old(c).events() + bold_events(w@),
        !r ==> final(c).events() == old(c).events(),
    decreases w@.len(), 2int,
{
    let n = w.unicode_len();
    let opens = n >= 2 && ((w.get_char(0) == '*' && w.get_char(1) == '*') || (w.get_char(0) == '_'
        && w.get_char(1) == '_'));
    let closes = n >= 2 && ((w.get_char(n - 2) == '*' && w.get_char(n - 1) == '*') || (w.get_char(
        n - 2,
    ) == '_' && w.get_char(n - 1) == '_'));
    proof {
        assert(opens == bold_open(w@));
        assert(closes == bold_close(w@));
    }
    if opens {
        c.begin_bold();
        if closes && n >= 4 {
            lex_word(c, w.substring_char(2, n - 2));
            c.end_bold();
        } else {
            lex_word(c, w.substring_char(2, n));
        }
        proof {
            assert(c.events() =~= old(c).events() + bold_events(w@));
        }
        true
    } else if closes {
        lex_word(c, w.substring_char(0, n - 2));
        c.end_bold();
        proof {
            assert(c.events() =~= old(c).events() + bold_events(w@));
        }
        true
    } else if n >= 3 && w.get_char(n - 1) == '.' && ((w.get_char(n - 3) == '*' && w.get_char(
        n - 2,
    ) == '*') || (w.get_char(n - 3) == '_' && w.get_char(n - 2) == '_')) {
        let t = String::from_str(w.substring_char(0, n - 3)).concat(".");
        proof {
            reveal_strlit(".");
            assert(t@ =~= w@.subrange(0, n - 3).push('.'));
        }
        lex_word(c, t.as_str());
        c.end_bold();
        proof {
            assert(c.events() =~= old(c).events() + bold_events(w@));
        }
        true
    } else {
        false
    }
}

/// Scans one word against the italic recognizer; on a match the events of
/// [`ital_events`] are emitted and `true` is returned.
pub fn lex_italic<T: TokenCollector>(c: &mut T, w: &str) -> (r: bool)
    requires
        old(c).inv(),
    ensures
        final(c).inv(),
        r == ital_applies(w@),
        r ==> final(c).events() == old(c).events() + ital_events(w@),
        !r ==> final(c).events() == old(c).events(),
    decreases w@.len(), 2int,
{
    let n = w.unicode_len();
    let opens = n >= 1 && (w.get_char(0) == '*' || w.get_char(0) == '_');
    let closes = n >= 1 && (w.get_char(n - 1) == '*' || w.get_char(n - 1) == '_');
    proof {
        assert(opens == ital_open(w@));
        assert(closes == ital_close(w@));
    }
    if opens {
        c.begin_italic();
        if closes && n >= 2 {
            lex_word(c, w.substring_char(1, n - 1));
            c.end_italic();
        } else {
            lex_word(c, w.substring_char(1, n));
        }
        proof {
            assert(c.events() =~= old(c).events() + ital_events(w@));
        }
        true
    } else if closes {
        lex_word(c, w.substring_char(0, n - 1));
        c.end_italic();
        proof {
            assert(c.events() =~= old(c).events() + ital_events(w@));
        }
        true
    } else if n >= 2 && w.get_char(n - 1) == '.' && (w.get_char(n - 2) == '*' || w.get_char(n - 2)
        == '_') {
        let t = String::from_str(w.substring_char(0, n - 2)).concat(".");
        proof {
            reveal_strlit(".");
            assert(t@ =~= w@.subrange(0, n - 2).push('.'));
        }
        lex_word(c, t.as_str());
        c.end_italic();
        proof {
            assert(c.events() =~= old(c).events() + ital_events(w@));
        }
        true
    } else {
        false
    }
}

/// Scans one word against the link recognizer; on a match the events of
/// [`label_events`] are emitted and `true` is returned.
pub fn lex_label<T: TokenCollector>(c: &mut T, w: &str) -> (r: bool)
    requires
        old(c).inv(),
    ensures
        final(c).inv(),
        r == label_applies(w@),
        r ==> final(c).events() == old(c).events() + label_events(w@),
        !r ==> final(c).events() == old(c).events(),
    decreases w@.len(), 2int,
{
    let n = w.unicode_len();
    if n >= 1 && w.get_char(0) == '[' {
        c.begin_label();
        let rest = w.substring_char(1, n);
        let pr = crate::text::find_pair(rest, ']', '(');
        proof {
            lemma_first_pair_idx(rest@, ']', '(');
        }
        if pr.1 {
            let i = pr.0;
            lex_word(c, rest.substring_char(0, i));
            c.end_label();
            let u = rest.substring_char(i + 2, n - 1);
            let um = u.unicode_len();
            if um >= 2 && u.get_char(um - 2) == ')' && u.get_char(um - 1) == '.' {
                c.url(u.substring_char(0, um - 2));
                c.word(".");
            } else if um >= 1 && u.get_char(um - 1) == ')' {
                c.url(u.substring_char(0, um - 1));
            }
            proof {
                reveal_strlit(".");
                assert("."@ =~= seq!['.']);
                assert(c.events() =~= old(c).events() + label_events(w@));
            }
        } else {
            lex_word(c, rest);
            proof {
                assert(c.events() =~= old(c).events() + label_events(w@));
            }
        }
        true
    } else {
        let i = crate::text::find_char(w, ']');
        proof {
            lemma_first_idx_of(w@, ']');
        }
        if i < n {
            lex_word(c, w.substring_char(0, i));
            c.end_label();
            let u = w.substring_char(i + 1, n);
            let um = u.unicode_len();
            if um >= 3 && u.get_char(0) == '(' && u.get_char(um - 2) == ')' && u.get_char(um - 1)
                == '.' {
                c.url(u.substring_char(1, um - 2));
                c.word(".");
            } else if um >= 2 && u.get_char(0) == '(' && u.get_char(um - 1) == ')' {
                c.url(u.substring_char(1, um - 1));
            }
            proof {
                reveal_strlit(".");
                assert("."@ =~= seq!['.']);
                assert(c.events() =~= old(c).events() + label_events(w@));
            }
            true
        } else {
            false
        }
    }
}

/// Scans one word: the first recognizer that claims it, in the fixed
/// priority order inline code, bold, italic, link, consumes it; otherwise
/// the word is reported verbatim.
pub fn lex_word<T: TokenCollector>(c: &mut T, w: &str)
    requires
        old(c).inv(),
    ensures
        final(c).inv(),
        final(c).events() == old(c).events() + word_events(w@),
    decreases w@.len(), 3int,
{
    if lex_inline_code(c, w) {
    } else if lex_bold(c, w) {
    } else if lex_italic(c, w) {
    } else if lex_label(c, w) {
    } else {
        c.word(w);
        proof {
            assert(c.events() =~= old(c).events() + word_events(w@));
        }
    }
}

/// Scans a whitespace-separated run of words, left to right.
pub fn lex_words<T: TokenCollector>(c: &mut T, s: &str)
    requires
        old(c).inv(),
    ensures
        final(c).inv(),
        final(c).events() == old(c).events() + words_events(s@),
    decreases s@.len(), 4int,
{
    let n = s.unicode_len();
    if n == 0 {
        return ;
    }
    if is_space_char(s.get_char(0)) {
        lex_words(c, s.substring_char(1, n));
        return ;
    }
    let j = crate::text::find_space(s);
    proof {
        lemma_first_space_idx(s@);
    }
    lex_word(c, s.substring_char(0, j));
    lex_words(c, s.substring_char(j, n));
    proof {
        assert(c.events() =~= old(c).events() + words_events(s@));
    }
}

/// Scans a trimmed header line: the introducer word selects a level when
/// it is an exact run of one to six `#` characters, and the remaining
/// words are scanned as usual.
pub fn lex_header<T: TokenCollector>(c: &mut T, line: &str)
    requires
        old(c).inv(),
    ensures
        final(c).inv(),
        final(c).events() == old(c).events() + header_events(line@),
{
    let n = line.unicode_len();
    let j = crate::text::find_space(line);
    proof {
        lemma_first_space_idx(line@);
    }
    let w0 = line.substring_char(0, j);
    let mut k: usize = 0;
    let mut allh = true;
    while k < j
        invariant
            0 <= k <= j,
            j <= n,
            n == line@.len(),
            w0@ == line@.subrange(0, j as int),
            w0@.len() == j,
            allh == (forall|m: int| 0 <= m < k ==> w0@[m] == '#'),
        decreases j - k,
    {
        allh = allh && w0.get_char(k) == '#';
        k += 1;
    }
    if allh && j >= 1 && j <= 6 {
        if j == 1 {
            c.h1();
            proof {
                assert(w0@ =~= seq!['#']);
            }
        } else if j == 2 {
            c.h2();
            proof {
                assert(w0@ =~= seq!['#', '#']);
            }
        } else if j == 3 {
            c.h3();
            proof {
                assert(w0@ =~= seq!['#', '#', '#']);
            }
        } else if j == 4 {
            c.h4();
            proof {
                assert(w0@ =~= seq!['#', '#', '#', '#']);
            }
        } else if j == 5 {
            c.h5();
            proof {
                assert(w0@ =~= seq!['#', '#', '#', '#', '#']);
            }
        } else {
            c.h6();
            proof {
                assert(w0@ =~= seq!['#', '#', '#', '#', '#', '#']);
            }
        }
        proof {
            assert(c.events() =~= old(c).events() + header_intro_events(w0@));
        }
    } else {
        proof {
            if !allh {
                let m = choose|m: int| 0 <= m < j && w0@[m] != '#';
                assert(!(w0@ =~= seq!['#']));
                assert(!(w0@ =~= seq!['#', '#']));
                assert(!(w0@ =~= seq!['#', '#', '#']));
                assert(!(w0@ =~= seq!['#', '#', '#', '#']));
                assert(!(w0@ =~= seq!['#', '#', '#', '#', '#']));
                assert(!(w0@ =~= seq!['#', '#', '#', '#', '#', '#']));
            }
            assert(header_intro_events(w0@) =~= Seq::<GEvent>::empty());
        }
    }
    lex_words(c, line.substring_char(j, n));
    proof {
        assert(c.events() =~= old(c).events() + header_events(line@));
    }
}

/// Scans a trimmed image line: the leading `!` is stripped, an image
/// event is reported, and the remainder is scanned as words.
pub fn lex_image<T: TokenCollector>(c: &mut T, line: &str)
    requires
        old(c).inv(),
        line@.len() >= 1,
    ensures
        final(c).inv(),
        final(c).events() == old(c).events() + seq![GEvent::Image] + words_events(
            line@.subrange(1, line@.len() as int),
        ),
{
    c.image();
    let n = line.unicode_len();
    lex_words(c, line.substring_char(1, n));
    proof {
        assert(c.events() =~= old(c).events() + seq![GEvent::Image] + words_events(
            line@.subrange(1, line@.len() as int),
        ));
    }
}

/// Scans one trimmed line, classified by its first character: `#` starts
/// a header line, `!` an image line, anything else a word run; an empty
/// line reports nothing.
pub fn lex_line<T: TokenCollector>(c: &mut T, line: &str)
    requires
        old(c).inv(),
    ensures
        final(c).inv(),
        final(c).events() == old(c).events() + line_events(line@),
{
    let n = line.unicode_len();
    if n == 0 {
        return ;
    }
    let first = line.get_char(0);
    if first == '#' {
        lex_header(c, line);
    } else if first == '!' {
        lex_image(c, line);
    } else {
        lex_words(c, line);
    }
}

/// Scans a whole input: each newline-separated line is trimmed and
/// scanned, and a line break is reported after every line.
pub fn lex_text<T: TokenCollector>(c: &mut T, input: &str)
    requires
        old(c).inv(),
    ensures
        final(c).inv(),
        final(c).events() == old(c).events() + text_events(input@),
    decreases input@.len(),
{
    let n = input.unicode_len();
    if n == 0 {
        return ;
    }
    let i = crate::text::find_char(input, '\n');
    proof {
        lemma_first_idx_of(input@, '\n');
    }
    if i < n {
        lex_line(c, crate::text::trim_str(input.substring_char(0, i)));
        c.line_break();
        lex_text(c, input.substring_char(i + 1, n));
        proof {
            assert(c.events() =~= old(c).events() + text_events(input@));
        }
    } else {
        lex_line(c, crate::text::trim_str(input));
        c.line_break();
        proof {
            assert(c.events() =~= old(c).events() + text_events(input@));
        }
    }
}

/// The lexer: owns the collector it reports to and scans raw input into
/// it.
pub struct Lexer<T: TokenCollector> {
    collector: T,
}

impl<T: TokenCollector> Lexer<T> {
    /// The full history of events the collector has received.
    pub closed spec fn events(&self) -> Seq<GEvent> {
        self.collector.events()
    }

    /// The collector's own well-formedness condition.
    pub closed spec fn inv(&self) -> bool {
        self.collector.inv()
    }

    /// A lexer reporting to the given collector.
    pub fn new(collector: T) -> (r: Lexer<T>)
        requires
            collector.inv(),
        ensures
            r.inv(),
            r.events() == collector.events(),
    {
        Lexer { collector }
    }

    /// Scans the whole input, reporting exactly the events of
    /// [`text_events`] to the collector, in order.
    pub fn lex(&mut self, input: &str)
        requires
            old(self).inv(),
        ensures
            final(self).inv(),
            final(self).events() == old(self).events() + text_events(input@),
    {
        lex_text(&mut self.collector, input);
    }

    /// Hands the collector back, with everything it has received.
    pub fn into_collector(self) -> (r: T)
        ensures
            r.events() == self.events(),
            self.inv() ==> r.inv(),
    {
        self.collector
    }
}

} // verus!
