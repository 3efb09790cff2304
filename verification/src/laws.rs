//! The pipeline's laws: the shape of the lexer's event stream, that the
//! state machine never aborts on it, and the line-for-line correspondence
//! between the input and the finished document.

use vstd::prelude::*;

use crate::ast::{GLine, GToken};
use crate::builder::{bm_add_text, bm_add_word, bm_end, bm_finish_token, bm_init, g_wrap, BModel, FrameKind};
use crate::collector::GEvent;
use crate::parser::{
    doc_of, lemma_replay_app, lemma_replay_snoc, pm_init, pm_replay, pm_step, PModel, ParserState,
};
use crate::lexer::{
    bold_applies, bold_close, bold_close_dot, bold_events, bold_open, code_applies, code_events,
    header_intro_events, ital_applies, ital_close, ital_close_dot, ital_events, ital_open,
    label_applies, label_events, line_events, lines_of, text_events, url_paren_events,
    url_rest_events, word_events, words_events, words_of,
};
use crate::text::{
    first_idx_of, first_pair_idx, first_space_idx, has_char, has_pair, is_space,
    lemma_first_idx_of, lemma_first_pair_idx, lemma_first_space_idx, lemma_has_char_iff, trim_spec,
};

verus! {

broadcast use vstd::seq::group_seq_axioms, vstd::std_specs::vec::group_vec_axioms;

/// Whether an event is inline content: a word, a URL, or the opening or
/// closing of a span. These are the only events a word scan can emit.
pub open spec fn is_inline_ev(e: GEvent) -> bool {
    match e {
        GEvent::Word(_) => true,
        GEvent::Url(_) => true,
        GEvent::BeginBold => true,
        GEvent::EndBold => true,
        GEvent::BeginItalic => true,
        GEvent::EndItalic => true,
        GEvent::BeginInlineCode => true,
        GEvent::EndInlineCode => true,
        GEvent::BeginLabel => true,
        GEvent::EndLabel => true,
        _ => false,
    }
}

/// Whether an event may open a line's content: a word or the opening of
/// a span. Every word scan starts with one of these.
pub open spec fn is_opener_ev(e: GEvent) -> bool {
    match e {
        GEvent::Word(_) => true,
        GEvent::BeginBold => true,
        GEvent::BeginItalic => true,
        GEvent::BeginInlineCode => true,
        GEvent::BeginLabel => true,
        _ => false,
    }
}

/// A sequence of inline events whose first element, if any, is an opener.
pub open spec fn inline_shaped(es: Seq<GEvent>) -> bool {
    &&& forall|i: int| 0 <= i < es.len() ==> is_inline_ev(#[trigger] es[i])
    &&& es.len() > 0 ==> is_opener_ev(es[0])
}

/// The events of a claimed inline-code word are inline and start with an
/// opener.
proof fn lemma_code_events_shape(w: Seq<char>)
    ensures
        code_events(w).len() >= 1,
        inline_shaped(code_events(w)),
{
}

/// The events of the text after `](` are inline.
proof fn lemma_url_rest_shape(u: Seq<char>)
    ensures
        forall|i: int|
            0 <= i < url_rest_events(u).len() ==> is_inline_ev(#[trigger] url_rest_events(u)[i]),
{
}

/// The events of the text after `]` are inline.
proof fn lemma_url_paren_shape(u: Seq<char>)
    ensures
        forall|i: int|
            0 <= i < url_paren_events(u).len() ==> is_inline_ev(
                #[trigger] url_paren_events(u)[i],
            ),
{
}

/// The events of any word scan are inline, nonempty, and start with an
/// opener.
pub proof fn lemma_word_events_shape(w: Seq<char>)
    ensures
        word_events(w).len() >= 1,
        inline_shaped(word_events(w)),
    decreases w.len(), 3int,
{
    if code_applies(w) {
        lemma_code_events_shape(w);
    } else if bold_applies(w) {
        lemma_bold_events_shape(w);
    } else if ital_applies(w) {
        lemma_ital_events_shape(w);
    } else if label_applies(w) {
        lemma_label_events_shape(w);
    } else {
    }
}

/// The events of a claimed bold word are inline, nonempty, and start
/// with an opener.
proof fn lemma_bold_events_shape(w: Seq<char>)
    ensures
        bold_events(w).len() >= 1,
        inline_shaped(bold_events(w)),
    decreases w.len(), 2int,
{
    if bold_open(w) {
        if bold_close(w) && w.len() >= 4 {
            lemma_word_events_shape(w.subrange(2, w.len() - 2));
        } else {
            lemma_word_events_shape(w.subrange(2, w.len() as int));
        }
    } else if bold_close(w) {
        lemma_word_events_shape(w.subrange(0, w.len() - 2));
    } else if bold_close_dot(w) {
        lemma_word_events_shape(w.subrange(0, w.len() - 3).push('.'));
    } else {
    }
}

/// The events of a claimed italic word are inline, nonempty, and start
/// with an opener.
proof fn lemma_ital_events_shape(w: Seq<char>)
    ensures
        ital_events(w).len() >= 1,
        inline_shaped(ital_events(w)),
    decreases w.len(), 2int,
{
    if ital_open(w) {
        if ital_close(w) && w.len() >= 2 {
            lemma_word_events_shape(w.subrange(1, w.len() - 1));
        } else {
            lemma_word_events_shape(w.subrange(1, w.len() as int));
        }
    } else if ital_close(w) {
        lemma_word_events_shape(w.subrange(0, w.len() - 1));
    } else if ital_close_dot(w) {
        lemma_word_events_shape(w.subrange(0, w.len() - 2).push('.'));
    } else {
    }
}

/// The events of a claimed link word are inline, nonempty, and start
/// with an opener.
proof fn lemma_label_events_shape(w: Seq<char>)
    ensures
        label_events(w).len() >= 1,
        inline_shaped(label_events(w)),
    decreases w.len(), 2int,
{
    if w.len() >= 1 && w[0] == '[' {
        let rest = w.subrange(1, w.len() as int);
        if has_pair(rest, ']', '(') {
            lemma_first_pair_idx(rest, ']', '(');
            let i = first_pair_idx(rest, ']', '(');
            lemma_word_events_shape(rest.subrange(0, i));
            lemma_url_rest_shape(rest.subrange(i + 2, rest.len() as int));
        } else {
            lemma_word_events_shape(rest);
        }
    } else if has_char(w, ']') {
        lemma_first_idx_of(w, ']');
        let i = first_idx_of(w, ']');
        lemma_word_events_shape(w.subrange(0, i));
        lemma_url_paren_shape(w.subrange(i + 1, w.len() as int));
    } else {
    }
}

/// The events of a word run are inline, and start with an opener when
/// there are any.
pub proof fn lemma_words_events_shape(s: Seq<char>)
    ensures
        inline_shaped(words_events(s)),
    decreases s.len(), 4int,
{
    if s.len() == 0 {
    } else if is_space(s[0]) {
        lemma_words_events_shape(s.subrange(1, s.len() as int));
    } else {
        lemma_first_space_idx(s);
        let j = first_space_idx(s);
        lemma_word_events_shape(s.subrange(0, j));
        lemma_words_events_shape(s.subrange(j, s.len() as int));
    }
}

/// Whether two lines have the same shell: the same variant, and for
/// headers the same level. Inline events may extend a line's tokens but
/// never change its shell.
pub open spec fn shell_eq(a: GLine, b: GLine) -> bool {
    match a {
        GLine::Header { level: la, .. } => b matches GLine::Header { level: lb, .. } && la == lb,
        GLine::Paragraph(..) => b matches GLine::Paragraph(..),
        GLine::Image { .. } => b matches GLine::Image { .. },
        GLine::Blank => b == GLine::Blank,
    }
}

/// Depositing a token touches at most the last line's content: the line
/// count, all earlier lines, the last line's shell, and the held label
/// stay.
proof fn lemma_finish_lines(b: BModel, t: GToken)
    ensures
        bm_finish_token(b, t).lines.len() == b.lines.len(),
        forall|i: int|
            0 <= i < b.lines.len() - 1 ==> #[trigger] bm_finish_token(b, t).lines[i]
                == b.lines[i],
        b.lines.len() > 0 ==> shell_eq(b.lines.last(), bm_finish_token(b, t).lines.last()),
        bm_finish_token(b, t).pending == b.pending,
{
}

/// One inline event in a line keeps the parse healthy: the state becomes
/// or stays `Text`, the line count is unchanged, earlier lines are
/// untouched, and the open line keeps its shell.
pub proof fn lemma_inline_step(m: PModel, e: GEvent)
    requires
        !m.failed,
        m.state == ParserState::Header || m.state == ParserState::Text,
        is_inline_ev(e),
        m.state == ParserState::Header ==> is_opener_ev(e),
    ensures
        pm_step(m, e).state == ParserState::Text,
        !pm_step(m, e).failed,
        pm_step(m, e).b.lines.len() == m.b.lines.len(),
        forall|i: int|
            0 <= i < m.b.lines.len() - 1 ==> #[trigger] pm_step(m, e).b.lines[i] == m.b.lines[i],
        m.b.lines.len() > 0 ==> shell_eq(m.b.lines.last(), pm_step(m, e).b.lines.last()),
{
    match e {
        GEvent::Word(t) => {
            lemma_finish_lines(m.b, GToken::Regular(t));
        },
        GEvent::Url(u) => {
            match m.b.pending {
                Some(lab) => {
                    let m1 = BModel { pending: None, ..m.b };
                    lemma_finish_lines(m1, GToken::Link { label: lab, url: u });
                },
                None => {},
            }
        },
        GEvent::EndBold => {
            lemma_end_lines(m.b, FrameKind::Bold);
        },
        GEvent::EndItalic => {
            lemma_end_lines(m.b, FrameKind::Italic);
        },
        GEvent::EndInlineCode => {
            lemma_end_lines(m.b, FrameKind::InlineCode);
        },
        GEvent::EndLabel => {
            lemma_end_lines(m.b, FrameKind::Label);
        },
        _ => {},
    }
}

/// Closing a span touches at most the last line's content.
proof fn lemma_end_lines(b: BModel, kind: FrameKind)
    ensures
        bm_end(b, kind).lines.len() == b.lines.len(),
        forall|i: int|
            0 <= i < b.lines.len() - 1 ==> #[trigger] bm_end(b, kind).lines[i] == b.lines[i],
        b.lines.len() > 0 ==> shell_eq(b.lines.last(), bm_end(b, kind).lines.last()),
{
    if b.frames.len() > 0 && b.frames.last().kind == kind {
        let f = b.frames.last();
        let m1 = BModel { frames: b.frames.drop_last(), ..b };
        if kind == FrameKind::Label {
        } else {
            lemma_finish_lines(m1, g_wrap(kind, f.tokens));
        }
    }
}

/// A run of inline events keeps the parse healthy: no abort, the same
/// line count, earlier lines untouched, and the open line's shell kept.
pub proof fn lemma_inline_replay(m: PModel, es: Seq<GEvent>)
    requires
        !m.failed,
        m.state == ParserState::Header || m.state == ParserState::Text,
        forall|i: int| 0 <= i < es.len() ==> is_inline_ev(#[trigger] es[i]),
        m.state == ParserState::Header && es.len() > 0 ==> is_opener_ev(es[0]),
    ensures
        !pm_replay(m, es).failed,
        pm_replay(m, es).state == if es.len() > 0 {
            ParserState::Text
        } else {
            m.state
        },
        pm_replay(m, es).b.lines.len() == m.b.lines.len(),
        forall|i: int|
            0 <= i < m.b.lines.len() - 1 ==> #[trigger] pm_replay(m, es).b.lines[i]
                == m.b.lines[i],
        m.b.lines.len() > 0 ==> shell_eq(m.b.lines.last(), pm_replay(m, es).b.lines.last()),
    decreases es.len(),
{
    if es.len() > 0 {
        assert(is_inline_ev(es[0]));
        lemma_inline_step(m, es.first());
        let m1 = pm_step(m, es.first());
        assert(forall|i: int|
            0 <= i < es.drop_first().len() ==> is_inline_ev(#[trigger] es.drop_first()[i]));
        lemma_inline_replay(m1, es.drop_first());
    }
}

/// A healthy parser at the start of a line, with nothing open and the
/// given lines already built.
pub open spec fn clean(lines: Seq<GLine>) -> PModel {
    PModel {
        state: ParserState::Start,
        failed: false,
        b: BModel { lines, frames: Seq::empty(), pending: None },
    }
}

/// Two parser models that differ only by a prefix of already-built
/// lines.
pub open spec fn msim(m1: PModel, m2: PModel, pre: Seq<GLine>) -> bool {
    &&& m1.state == m2.state
    &&& m1.failed == m2.failed
    &&& m1.b.frames == m2.b.frames
    &&& m1.b.pending == m2.b.pending
    &&& m1.b.lines == pre + m2.b.lines
}

/// Away from the start state, at least one line is open.
pub open spec fn wf_mid(m: PModel) -> bool {
    m.state != ParserState::Start ==> m.b.lines.len() > 0
}

/// Depositing a token ignores any prefix of already-built lines, as long
/// as a frame or a line is open.
proof fn lemma_finish_sim(b1: BModel, b2: BModel, pre: Seq<GLine>, t: GToken)
    requires
        b1.frames == b2.frames,
        b1.pending == b2.pending,
        b1.lines == pre + b2.lines,
        b2.frames.len() > 0 || b2.lines.len() > 0,
    ensures
        bm_finish_token(b1, t).frames == bm_finish_token(b2, t).frames,
        bm_finish_token(b1, t).pending == bm_finish_token(b2, t).pending,
        bm_finish_token(b1, t).lines == pre + bm_finish_token(b2, t).lines,
{
    if b2.frames.len() > 0 {
    } else {
        let n2 = b2.lines.len();
        assert(b1.lines.last() == b2.lines.last());
        assert(bm_finish_token(b1, t).lines =~= pre + bm_finish_token(b2, t).lines);
    }
}

/// One step of the state machine ignores any prefix of already-built
/// lines.
proof fn lemma_step_sim(m1: PModel, m2: PModel, pre: Seq<GLine>, e: GEvent)
    requires
        msim(m1, m2, pre),
        wf_mid(m2),
    ensures
        msim(pm_step(m1, e), pm_step(m2, e), pre),
        wf_mid(pm_step(m2, e)),
{
    if m2.failed {
        return ;
    }
    match m2.state {
        ParserState::Start => match e {
            GEvent::Word(t) => {
                lemma_finish_sim(
                    bm_add_text(m1.b),
                    bm_add_text(m2.b),
                    pre,
                    GToken::Regular(t),
                );
                assert(bm_add_text(m1.b).lines =~= pre + bm_add_text(m2.b).lines);
                assert(bm_add_word(bm_add_text(m1.b), t).lines =~= pre + bm_add_word(
                    bm_add_text(m2.b),
                    t,
                ).lines);
            },
            _ => {
                assert(pm_step(m1, e).b.lines =~= pre + pm_step(m2, e).b.lines);
            },
        },
        _ => match e {
            GEvent::Word(t) => {
                lemma_finish_sim(m1.b, m2.b, pre, GToken::Regular(t));
                assert(pm_step(m1, e).b.lines =~= pre + pm_step(m2, e).b.lines);
            },
            GEvent::Url(u) => {
                if m2.state == ParserState::Text {
                    match m2.b.pending {
                        Some(lab) => {
                            let c1 = BModel { pending: None, ..m1.b };
                            let c2 = BModel { pending: None, ..m2.b };
                            lemma_finish_sim(c1, c2, pre, GToken::Link { label: lab, url: u });
                            if m2.b.frames.len() == 0 {
                                assert(m1.b.lines.last() == m2.b.lines.last());
                            }
                            assert(pm_step(m1, e).b.lines =~= pre + pm_step(m2, e).b.lines);
                        },
                        None => {},
                    }
                }
            },
            GEvent::EndBold => {
                lemma_end_sim(m1.b, m2.b, pre, FrameKind::Bold);
            },
            GEvent::EndItalic => {
                lemma_end_sim(m1.b, m2.b, pre, FrameKind::Italic);
            },
            GEvent::EndInlineCode => {
                lemma_end_sim(m1.b, m2.b, pre, FrameKind::InlineCode);
            },
            GEvent::EndLabel => {
                lemma_end_sim(m1.b, m2.b, pre, FrameKind::Label);
            },
            _ => {
                assert(pm_step(m1, e).b.lines =~= pre + pm_step(m2, e).b.lines);
            },
        },
    }
}

/// Closing a span ignores any prefix of already-built lines, as long as
/// a line is open.
proof fn lemma_end_sim(b1: BModel, b2: BModel, pre: Seq<GLine>, kind: FrameKind)
    requires
        b1.frames == b2.frames,
        b1.pending == b2.pending,
        b1.lines == pre + b2.lines,
        b2.lines.len() > 0,
    ensures
        bm_end(b1, kind).frames == bm_end(b2, kind).frames,
        bm_end(b1, kind).pending == bm_end(b2, kind).pending,
        bm_end(b1, kind).lines == pre + bm_end(b2, kind).lines,
{
    if b2.frames.len() > 0 && b2.frames.last().kind == kind {
        let f = b2.frames.last();
        let c1 = BModel { frames: b1.frames.drop_last(), ..b1 };
        let c2 = BModel { frames: b2.frames.drop_last(), ..b2 };
        if kind != FrameKind::Label {
            lemma_finish_sim(c1, c2, pre, g_wrap(kind, f.tokens));
        }
    }
}

/// A whole replay of the state machine ignores any prefix of
/// already-built lines.
proof fn lemma_replay_sim(m1: PModel, m2: PModel, pre: Seq<GLine>, es: Seq<GEvent>)
    requires
        msim(m1, m2, pre),
        wf_mid(m2),
    ensures
        msim(pm_replay(m1, es), pm_replay(m2, es), pre),
        wf_mid(pm_replay(m2, es)),
    decreases es.len(),
{
    if es.len() > 0 {
        lemma_step_sim(m1, m2, pre, es.first());
        lemma_replay_sim(pm_step(m1, es.first()), pm_step(m2, es.first()), pre, es.drop_first());
    }
}

/// Replaying a single event is one step.
proof fn lemma_replay_one(m: PModel, e: GEvent)
    ensures
        pm_replay(m, seq![e]) == pm_step(m, e),
{
    lemma_replay_snoc(m, Seq::empty(), e);
    assert(Seq::empty().push(e) =~= seq![e]);
}

/// From the start of a line, a nonempty run of inline events opens
/// exactly one new line and moves to `Text`.
proof fn lemma_words_from_start(m: PModel, es: Seq<GEvent>)
    requires
        m.state == ParserState::Start,
        !m.failed,
        inline_shaped(es),
        es.len() > 0,
    ensures
        !pm_replay(m, es).failed,
        pm_replay(m, es).state == ParserState::Text,
        pm_replay(m, es).b.lines.len() == m.b.lines.len() + 1,
    decreases es.len(),
{
    assert(is_opener_ev(es[0]));
    let m1 = pm_step(m, es.first());
    assert(m1.state == ParserState::Text);
    assert(m1.b.lines.len() == m.b.lines.len() + 1);
    assert(forall|i: int|
        0 <= i < es.drop_first().len() ==> is_inline_ev(#[trigger] es.drop_first()[i]));
    lemma_inline_replay(m1, es.drop_first());
}

/// From a fresh start-of-line state with no lines built, one line's
/// events followed by its line break build exactly one line and return
/// to a clean start-of-line state.
proof fn lemma_line_replay(t: Seq<char>)
    ensures
        ({
            let m = pm_replay(clean(Seq::empty()), line_events(t) + seq![GEvent::LineBreak]);
            &&& m.state == ParserState::Start
            &&& !m.failed
            &&& m.b.frames =~= Seq::<crate::builder::GFrame>::empty()
            &&& m.b.pending is None
            &&& m.b.lines.len() == 1
        }),
{
    let m0 = clean(Seq::empty());
    let es = line_events(t);
    lemma_replay_app(m0, es, seq![GEvent::LineBreak]);
    let mid = pm_replay(m0, es);
    lemma_replay_one(mid, GEvent::LineBreak);
    if t.len() == 0 {
        assert(es =~= Seq::<GEvent>::empty());
        assert(mid == m0);
    } else if t[0] == '#' {
        lemma_first_space_idx(t);
        let j = first_space_idx(t);
        let w0 = t.subrange(0, j);
        let intro = header_intro_events(w0);
        let tail = t.subrange(j, t.len() as int);
        let ws = words_events(tail);
        lemma_words_events_shape(tail);
        assert(es == intro + ws);
        if intro.len() > 0 {
            let h = intro[0];
            assert(intro =~= seq![h]);
            assert(h == GEvent::H1 || h == GEvent::H2 || h == GEvent::H3 || h == GEvent::H4 || h
                == GEvent::H5 || h == GEvent::H6);
            lemma_replay_app(m0, intro, ws);
            assert(pm_replay(m0, intro + ws) == pm_replay(m0, es));
            lemma_replay_one(m0, h);
            assert(pm_replay(m0, intro) == pm_step(m0, h));
            let mh = pm_step(m0, h);
            assert(mh.state == ParserState::Header && !mh.failed && mh.b.lines.len() == 1);
            lemma_inline_replay(mh, ws);
            assert(mid == pm_replay(mh, ws));
        } else {
            assert(Seq::<GEvent>::empty() + ws =~= ws);
            assert(es == ws);
            if ws.len() == 0 {
                assert(mid == m0);
            } else {
                lemma_words_from_start(m0, ws);
            }
        }
    } else if t[0] == '!' {
        let tail = t.subrange(1, t.len() as int);
        let ws = words_events(tail);
        lemma_words_events_shape(tail);
        assert(es == seq![GEvent::Image] + ws);
        lemma_replay_app(m0, seq![GEvent::Image], ws);
        lemma_replay_one(m0, GEvent::Image);
        let mi = pm_step(m0, GEvent::Image);
        assert(mi.state == ParserState::Text && !mi.failed && mi.b.lines.len() == 1);
        assert(forall|i: int| 0 <= i < ws.len() ==> is_inline_ev(#[trigger] ws[i]));
        lemma_inline_replay(mi, ws);
        assert(mid == pm_replay(mi, ws));
    } else {
        let ws = words_events(t);
        lemma_words_events_shape(t);
        assert(es == ws);
        if ws.len() == 0 {
            assert(mid == m0);
        } else {
            lemma_words_from_start(m0, ws);
        }
    }
}

/// What one trimmed source line becomes in the document.
pub open spec fn line_result(t: Seq<char>) -> GLine {
    pm_replay(clean(Seq::empty()), line_events(t) + seq![GEvent::LineBreak]).b.lines[0]
}

/// One line's events and its line break, replayed over already-built
/// lines, append exactly that line's result.
proof fn lemma_line_replay_pre(pre: Seq<GLine>, t: Seq<char>)
    ensures
        pm_replay(clean(pre), line_events(t) + seq![GEvent::LineBreak]) == clean(
            pre.push(line_result(t)),
        ),
{
    let es = line_events(t) + seq![GEvent::LineBreak];
    lemma_line_replay(t);
    assert(pre + Seq::<GLine>::empty() =~= pre);
    lemma_replay_sim(clean(pre), clean(Seq::empty()), pre, es);
    let m2 = pm_replay(clean(Seq::empty()), es);
    let m1 = pm_replay(clean(pre), es);
    assert(m2.b.lines =~= seq![line_result(t)]);
    assert(m1.b.lines =~= pre.push(line_result(t)));
    assert(m1 =~= clean(pre.push(line_result(t))));
}

/// The document a whole input builds over already-built lines: one
/// result per source line, in order.
proof fn lemma_text_replay(pre: Seq<GLine>, s: Seq<char>)
    ensures
        pm_replay(clean(pre), text_events(s)) == clean(
            pre + lines_of(s).map(|i: int, l: Seq<char>| line_result(trim_spec(l))),
        ),
    decreases s.len(),
{
    let f = |i: int, l: Seq<char>| line_result(trim_spec(l));
    if s.len() == 0 {
        assert(text_events(s) =~= Seq::<GEvent>::empty());
        assert(pm_replay(clean(pre), text_events(s)) == clean(pre));
        assert(pre + lines_of(s).map(f) =~= pre);
    } else if has_char(s, '\n') {
        lemma_first_idx_of(s, '\n');
        let i = first_idx_of(s, '\n');
        let raw0 = s.subrange(0, i);
        let t0 = trim_spec(raw0);
        let rest = s.subrange(i + 1, s.len() as int);
        let line_es = line_events(t0) + seq![GEvent::LineBreak];
        assert(text_events(s) == line_es + text_events(rest));
        lemma_replay_app(clean(pre), line_es, text_events(rest));
        lemma_line_replay_pre(pre, t0);
        lemma_text_replay(pre.push(line_result(t0)), rest);
        assert(lines_of(s) == seq![raw0] + lines_of(rest));
        assert(lines_of(s).map(f) =~= seq![line_result(t0)] + lines_of(rest).map(f));
        assert(pre.push(line_result(t0)) + lines_of(rest).map(f) =~= pre + lines_of(s).map(f));
    } else {
        let t0 = trim_spec(s);
        let line_es = line_events(t0) + seq![GEvent::LineBreak];
        assert(text_events(s) == line_es);
        lemma_line_replay_pre(pre, t0);
        assert(lines_of(s) =~= seq![s]);
        assert(lines_of(s).map(f) =~= seq![line_result(t0)]);
        assert(pre.push(line_result(t0)) =~= pre + lines_of(s).map(f));
    }
}

/// The document holds exactly one line per source line, in source order:
/// line `i` of the document is what line `i` of the input lexes and
/// parses to. The pipeline never aborts, whatever the input.
pub proof fn lemma_line_correspondence(input: Seq<char>)
    ensures
        doc_of(input).len() == lines_of(input).len(),
        forall|i: int|
            0 <= i < lines_of(input).len() ==> doc_of(input)[i] == line_result(
                trim_spec(#[trigger] lines_of(input)[i]),
            ),
        !pm_replay(pm_init(bm_init()), text_events(input)).failed,
{
    lemma_text_replay(Seq::empty(), input);
    assert(pm_init(bm_init()) =~= clean(Seq::empty()));
    let f = |i: int, l: Seq<char>| line_result(trim_spec(l));
    assert(doc_of(input) =~= lines_of(input).map(f));
}

/// An empty or whitespace-only source line produces exactly one blank
/// line, in place.
pub proof fn lemma_blank_line(input: Seq<char>, i: int)
    requires
        0 <= i < lines_of(input).len(),
        trim_spec(lines_of(input)[i]).len() == 0,
    ensures
        doc_of(input).len() == lines_of(input).len(),
        doc_of(input)[i] == GLine::Blank,
{
    lemma_line_correspondence(input);
    lemma_line_result_blank(trim_spec(lines_of(input)[i]));
}

/// An empty line's result is blank.
proof fn lemma_line_result_blank(t: Seq<char>)
    requires
        t.len() == 0,
    ensures
        line_result(t) == GLine::Blank,
{
    let m0 = clean(Seq::empty());
    assert(line_events(t) + seq![GEvent::LineBreak] =~= seq![GEvent::LineBreak]);
    lemma_replay_one(m0, GEvent::LineBreak);
    assert(pm_step(m0, GEvent::LineBreak).b.lines[0] == GLine::Blank);
}

/// A word with no inline markup: no recognizer claims it, so it is
/// reported verbatim.
pub open spec fn plain_word(w: Seq<char>) -> bool {
    !code_applies(w) && !bold_applies(w) && !ital_applies(w) && !label_applies(w)
}

/// A plain word's only event is itself.
pub proof fn lemma_plain_word_events(w: Seq<char>)
    requires
        plain_word(w),
    ensures
        word_events(w) == seq![GEvent::Word(w)],
{
}

/// One word event per word, in order.
pub open spec fn word_evs(ws: Seq<Seq<char>>) -> Seq<GEvent> {
    ws.map(|i: int, w: Seq<char>| GEvent::Word(w))
}

/// One regular token per word, in order.
pub open spec fn regulars(ws: Seq<Seq<char>>) -> Seq<GToken> {
    ws.map(|i: int, w: Seq<char>| GToken::Regular(w))
}

/// A run of plain words lexes to one word event per word, in order.
pub proof fn lemma_plain_words_events(s: Seq<char>)
    requires
        forall|i: int| 0 <= i < words_of(s).len() ==> plain_word(#[trigger] words_of(s)[i]),
    ensures
        words_events(s) == word_evs(words_of(s)),
    decreases s.len(),
{
    if s.len() == 0 {
        assert(words_events(s) =~= word_evs(words_of(s)));
    } else if is_space(s[0]) {
        assert(words_of(s) == words_of(s.subrange(1, s.len() as int)));
        lemma_plain_words_events(s.subrange(1, s.len() as int));
        assert(words_events(s) =~= word_evs(words_of(s)));
    } else {
        lemma_first_space_idx(s);
        let j = first_space_idx(s);
        let w0 = s.subrange(0, j);
        let rest = s.subrange(j, s.len() as int);
        assert(words_of(s)[0] == w0);
        assert(plain_word(w0));
        lemma_plain_word_events(w0);
        assert(forall|i: int| 0 <= i < words_of(rest).len() ==> #[trigger] words_of(rest)[i]
            == words_of(s)[i + 1]);
        lemma_plain_words_events(rest);
        assert(words_events(s) =~= word_evs(words_of(s)));
    }
}

/// A line's open token run, extended by more tokens.
pub open spec fn extend_line(l: GLine, ts: Seq<GToken>) -> GLine {
    match l {
        GLine::Header { level, tokens } => GLine::Header { level, tokens: tokens + ts },
        GLine::Paragraph(tokens) => GLine::Paragraph(tokens + ts),
        GLine::Image { label, url } => GLine::Image { label: label + ts, url },
        GLine::Blank => GLine::Blank,
    }
}

/// With nothing open but a header or paragraph line, a run of word
/// events appends one regular token per word to that line.
proof fn lemma_regular_words_extend(m: PModel, ws: Seq<Seq<char>>)
    requires
        m.state == ParserState::Text,
        !m.failed,
        m.b.frames == Seq::<crate::builder::GFrame>::empty(),
        m.b.lines.len() > 0,
        ((m.b.lines.last() matches GLine::Header { .. }) || (
        m.b.lines.last() matches GLine::Paragraph(..))),
    ensures
        pm_replay(m, word_evs(ws)) == (PModel {
            state: ParserState::Text,
            failed: false,
            b: BModel {
                lines: m.b.lines.update(
                    m.b.lines.len() - 1,
                    extend_line(m.b.lines.last(), regulars(ws)),
                ),
                frames: m.b.frames,
                pending: m.b.pending,
            },
        }),
    decreases ws.len(),
{
    let n = m.b.lines.len();
    if ws.len() == 0 {
        assert(word_evs(ws) =~= Seq::<GEvent>::empty());
        assert(extend_line(m.b.lines.last(), regulars(ws)) =~= m.b.lines.last());
        assert(m.b.lines.update(n - 1, m.b.lines.last()) =~= m.b.lines);
        assert(pm_replay(m, word_evs(ws)) =~= PModel {
            state: ParserState::Text,
            failed: false,
            b: BModel {
                lines: m.b.lines.update(n - 1, extend_line(m.b.lines.last(), regulars(ws))),
                frames: m.b.frames,
                pending: m.b.pending,
            },
        });
    } else {
        let w0 = ws[0];
        let es = word_evs(ws);
        assert(es.first() == GEvent::Word(w0));
        let m1 = pm_step(m, es.first());
        assert(m1.state == ParserState::Text && !m1.failed);
        match m.b.lines.last() {
            GLine::Header { level, tokens } => {
                assert(tokens + seq![GToken::Regular(w0)] =~= tokens.push(GToken::Regular(w0)));
            },
            GLine::Paragraph(tokens) => {
                assert(tokens + seq![GToken::Regular(w0)] =~= tokens.push(GToken::Regular(w0)));
            },
            _ => {},
        }
        assert(m1.b.lines == m.b.lines.update(
            n - 1,
            extend_line(m.b.lines.last(), seq![GToken::Regular(w0)]),
        )) by {
            assert(m1.b.lines =~= m.b.lines.update(
                n - 1,
                extend_line(m.b.lines.last(), seq![GToken::Regular(w0)]),
            ));
        }
        assert(es.drop_first() =~= word_evs(ws.drop_first()));
        lemma_regular_words_extend(m1, ws.drop_first());
        let full = pm_replay(m, es);
        assert(full == pm_replay(m1, es.drop_first()));
        assert(extend_line(
            extend_line(m.b.lines.last(), seq![GToken::Regular(w0)]),
            regulars(ws.drop_first()),
        ) =~= extend_line(m.b.lines.last(), regulars(ws)));
        assert(full.b.lines =~= m.b.lines.update(
            n - 1,
            extend_line(m.b.lines.last(), regulars(ws)),
        ));
        assert(full =~= PModel {
            state: ParserState::Text,
            failed: false,
            b: BModel {
                lines: m.b.lines.update(n - 1, extend_line(m.b.lines.last(), regulars(ws))),
                frames: m.b.frames,
                pending: m.b.pending,
            },
        });
    }
}

/// The header level a run of `#` characters selects.
pub open spec fn level_of(k: int) -> crate::ast::HeaderLevel {
    if k == 1 {
        crate::ast::HeaderLevel::H1
    } else if k == 2 {
        crate::ast::HeaderLevel::H2
    } else if k == 3 {
        crate::ast::HeaderLevel::H3
    } else if k == 4 {
        crate::ast::HeaderLevel::H4
    } else if k == 5 {
        crate::ast::HeaderLevel::H5
    } else {
        crate::ast::HeaderLevel::H6
    }
}

/// The header event a run of `#` characters selects.
pub open spec fn h_event_of(k: int) -> GEvent {
    if k == 1 {
        GEvent::H1
    } else if k == 2 {
        GEvent::H2
    } else if k == 3 {
        GEvent::H3
    } else if k == 4 {
        GEvent::H4
    } else if k == 5 {
        GEvent::H5
    } else {
        GEvent::H6
    }
}

/// Whether a trimmed line is a header introducer: `k` hash marks, then a
/// space, then more text.
pub open spec fn header_shaped(t: Seq<char>, k: int) -> bool {
    &&& 1 <= k <= 6
    &&& t.len() > k
    &&& forall|j: int| 0 <= j < k ==> t[j] == '#'
    &&& is_space(t[k])
}

/// In a header-shaped line, the first word is the `#` run.
proof fn lemma_header_shape_split(t: Seq<char>, k: int)
    requires
        header_shaped(t, k),
    ensures
        first_space_idx(t) == k,
        header_intro_events(t.subrange(0, k)) == seq![h_event_of(k)],
    decreases k,
{
    lemma_first_space_idx(t);
    let j = first_space_idx(t);
    assert(!is_space('#'));
    if j < k {
        assert(t[j] == '#');
        assert(is_space(t[j]));
        assert(false);
    }
    if j > k {
        assert(false);
    }
    let w0 = t.subrange(0, k);
    if k == 1 {
        assert(w0 =~= seq!['#']);
    } else if k == 2 {
        assert(w0 =~= seq!['#', '#']);
    } else if k == 3 {
        assert(w0 =~= seq!['#', '#', '#']);
    } else if k == 4 {
        assert(w0 =~= seq!['#', '#', '#', '#']);
    } else if k == 5 {
        assert(w0 =~= seq!['#', '#', '#', '#', '#']);
    } else {
        assert(w0 =~= seq!['#', '#', '#', '#', '#', '#']);
    }
}

/// A header-shaped source line produces a header line with the matching
/// level, whatever its remaining content.
pub proof fn lemma_header_line(input: Seq<char>, i: int, k: int)
    requires
        0 <= i < lines_of(input).len(),
        header_shaped(trim_spec(lines_of(input)[i]), k),
    ensures
        doc_of(input).len() == lines_of(input).len(),
        (doc_of(input)[i] matches GLine::Header { level, .. } && level == level_of(k)),
{
    lemma_line_correspondence(input);
    let t = trim_spec(lines_of(input)[i]);
    lemma_header_line_result(t, k);
}

/// A header-shaped trimmed line's result is a header of the matching
/// level holding the lexed remainder.
proof fn lemma_header_line_result(t: Seq<char>, k: int)
    requires
        header_shaped(t, k),
    ensures
        (line_result(t) matches GLine::Header { level, .. } && level == level_of(k)),
{
    let m0 = clean(Seq::empty());
    let es = line_events(t);
    lemma_header_shape_split(t, k);
    assert(t[0] == '#');
    let tail = t.subrange(k as int, t.len() as int);
    let ws = words_events(tail);
    lemma_words_events_shape(tail);
    let intro = seq![h_event_of(k)];
    assert(es == intro + ws);
    lemma_replay_app(m0, es, seq![GEvent::LineBreak]);
    lemma_replay_app(m0, intro, ws);
    lemma_replay_one(m0, h_event_of(k));
    assert(pm_replay(m0, intro) == pm_step(m0, h_event_of(k)));
    let mh = pm_step(m0, h_event_of(k));
    assert(mh.state == ParserState::Header && !mh.failed && mh.b.lines.len() == 1);
    assert(mh.b.lines.last() == GLine::Header { level: level_of(k), tokens: Seq::empty() });
    lemma_inline_replay(mh, ws);
    let mid = pm_replay(m0, es);
    assert(shell_eq(mh.b.lines.last(), mid.b.lines.last()));
    assert(mid.b.lines.len() == 1);
    let fin = pm_step(mid, GEvent::LineBreak);
    lemma_replay_one(mid, GEvent::LineBreak);
    assert(fin.b.lines == mid.b.lines);
    assert(line_result(t) == fin.b.lines[0]);
}

/// A header-shaped trimmed line with plain remaining words produces a
/// header of the matching level with one regular token per word.
proof fn lemma_header_plain_line_result(t: Seq<char>, k: int)
    requires
        header_shaped(t, k),
        ({
            let tail = t.subrange(k as int, t.len() as int);
            forall|j: int| 0 <= j < words_of(tail).len() ==> plain_word(#[trigger] words_of(tail)[j])
        }),
    ensures
        ({
            let tail = t.subrange(k as int, t.len() as int);
            line_result(t) == GLine::Header {
                level: level_of(k),
                tokens: regulars(words_of(tail)),
            }
        }),
{
    let tail = t.subrange(k as int, t.len() as int);
    let m0 = clean(Seq::empty());
    let es = line_events(t);
    lemma_header_shape_split(t, k);
    assert(t[0] == '#');
    lemma_plain_words_events(tail);
    let ws = words_of(tail);
    let intro = seq![h_event_of(k)];
    assert(es == intro + word_evs(ws));
    lemma_replay_app(m0, es, seq![GEvent::LineBreak]);
    lemma_replay_app(m0, intro, word_evs(ws));
    lemma_replay_one(m0, h_event_of(k));
    let mh = pm_step(m0, h_event_of(k));
    assert(mh.b.lines =~= seq![GLine::Header { level: level_of(k), tokens: Seq::empty() }]);
    let mid = pm_replay(m0, es);
    if ws.len() == 0 {
        assert(word_evs(ws) =~= Seq::<GEvent>::empty());
        assert(mid == mh);
        let fin = pm_step(mid, GEvent::LineBreak);
        lemma_replay_one(mid, GEvent::LineBreak);
        assert(regulars(ws) =~= Seq::<GToken>::empty());
        assert(GLine::Header { level: level_of(k), tokens: Seq::empty() } =~= GLine::Header {
            level: level_of(k),
            tokens: regulars(ws),
        });
        assert(line_result(t) == fin.b.lines[0]);
    } else {
        let e0 = word_evs(ws)[0];
        assert(e0 == GEvent::Word(ws[0]));
        lemma_replay_app(mh, seq![e0], word_evs(ws).drop_first());
        assert(seq![e0] + word_evs(ws).drop_first() =~= word_evs(ws));
        lemma_replay_one(mh, e0);
        let mw = pm_step(mh, e0);
        assert(mw.state == ParserState::Text && !mw.failed);
        assert(mw.b.lines =~= seq![
            GLine::Header { level: level_of(k), tokens: seq![GToken::Regular(ws[0])] },
        ]);
        assert(mw.b.frames =~= Seq::<crate::builder::GFrame>::empty());
        assert(word_evs(ws).drop_first() =~= word_evs(ws.drop_first()));
        lemma_regular_words_extend(mw, ws.drop_first());
        assert(mid == pm_replay(mw, word_evs(ws.drop_first())));
        assert(seq![GToken::Regular(ws[0])] + regulars(ws.drop_first()) =~= regulars(ws));
        assert(mid.b.lines =~= seq![
            GLine::Header { level: level_of(k), tokens: regulars(ws) },
        ]);
        let fin = pm_step(mid, GEvent::LineBreak);
        lemma_replay_one(mid, GEvent::LineBreak);
        assert(fin.b.lines == mid.b.lines);
        assert(line_result(t) == fin.b.lines[0]);
    }
}

/// A header-shaped line whose remaining words are plain produces a
/// header with one regular token per word, in order.
pub proof fn lemma_header_line_plain(input: Seq<char>, i: int, k: int)
    requires
        0 <= i < lines_of(input).len(),
        header_shaped(trim_spec(lines_of(input)[i]), k),
        ({
            let t = trim_spec(lines_of(input)[i]);
            let tail = t.subrange(k as int, t.len() as int);
            forall|j: int| 0 <= j < words_of(tail).len() ==> plain_word(#[trigger] words_of(tail)[j])
        }),
    ensures
        doc_of(input).len() == lines_of(input).len(),
        ({
            let t = trim_spec(lines_of(input)[i]);
            let tail = t.subrange(k as int, t.len() as int);
            doc_of(input)[i] == GLine::Header {
                level: level_of(k),
                tokens: regulars(words_of(tail)),
            }
        }),
{
    lemma_line_correspondence(input);
    lemma_header_plain_line_result(trim_spec(lines_of(input)[i]), k);
}

/// A trimmed line of plain words produces a paragraph of one regular
/// token per word.
proof fn lemma_plain_line_result(t: Seq<char>)
    requires
        t.len() > 0,
        t[0] != '#',
        t[0] != '!',
        words_of(t).len() > 0,
        forall|j: int| 0 <= j < words_of(t).len() ==> plain_word(#[trigger] words_of(t)[j]),
    ensures
        line_result(t) == GLine::Paragraph(regulars(words_of(t))),
{
    let m0 = clean(Seq::empty());
    let es = line_events(t);
    lemma_plain_words_events(t);
    let ws = words_of(t);
    assert(es == word_evs(ws));
    lemma_replay_app(m0, es, seq![GEvent::LineBreak]);
    let e0 = word_evs(ws)[0];
    assert(e0 == GEvent::Word(ws[0]));
    lemma_replay_app(m0, seq![e0], word_evs(ws).drop_first());
    assert(seq![e0] + word_evs(ws).drop_first() =~= word_evs(ws));
    lemma_replay_one(m0, e0);
    let mw = pm_step(m0, e0);
    assert(mw.state == ParserState::Text && !mw.failed);
    assert(mw.b.lines =~= seq![GLine::Paragraph(seq![GToken::Regular(ws[0])])]);
    assert(mw.b.frames =~= Seq::<crate::builder::GFrame>::empty());
    assert(word_evs(ws).drop_first() =~= word_evs(ws.drop_first()));
    lemma_regular_words_extend(mw, ws.drop_first());
    let mid = pm_replay(m0, es);
    assert(mid == pm_replay(mw, word_evs(ws.drop_first())));
    assert(seq![GToken::Regular(ws[0])] + regulars(ws.drop_first()) =~= regulars(ws));
    assert(mid.b.lines =~= seq![GLine::Paragraph(regulars(ws))]);
    let fin = pm_step(mid, GEvent::LineBreak);
    lemma_replay_one(mid, GEvent::LineBreak);
    assert(fin.b.lines == mid.b.lines);
    assert(line_result(t) == fin.b.lines[0]);
}

/// A source line of plain words with no line-level or inline markup
/// produces a paragraph with one regular token per word, in order.
pub proof fn lemma_plain_paragraph(input: Seq<char>, i: int)
    requires
        0 <= i < lines_of(input).len(),
        ({
            let t = trim_spec(lines_of(input)[i]);
            &&& t.len() > 0
            &&& t[0] != '#'
            &&& t[0] != '!'
            &&& words_of(t).len() > 0
            &&& forall|j: int| 0 <= j < words_of(t).len() ==> plain_word(#[trigger] words_of(t)[j])
        }),
    ensures
        doc_of(input).len() == lines_of(input).len(),
        doc_of(input)[i] == GLine::Paragraph(regulars(words_of(trim_spec(lines_of(input)[i])))),
{
    lemma_line_correspondence(input);
    lemma_plain_line_result(trim_spec(lines_of(input)[i]));
}


/// A bold word built from a plain interior lexes to an opened, filled and
/// closed bold span, whichever of the two bold delimiters is chosen.
pub proof fn lemma_bold_delimiter_choice(w: Seq<char>, d: char)
    requires
        plain_word(w),
        w.len() >= 1,
        d == '*' || d == '_',
    ensures
        word_events(seq![d, d] + w + seq![d, d]) == seq![
            GEvent::BeginBold,
            GEvent::Word(w),
            GEvent::EndBold,
        ],
{
    let s = seq![d, d] + w + seq![d, d];
    assert(s.len() == w.len() + 4);
    assert(s[0] == d && s[1] == d && s[s.len() - 1] == d && s[s.len() - 2] == d);
    assert(!code_applies(s));
    assert(bold_open(s) && bold_close(s) && s.len() >= 4);
    assert(s.subrange(2, s.len() - 2) =~= w);
    lemma_plain_word_events(w);
    assert(word_events(s) =~= seq![GEvent::BeginBold, GEvent::Word(w), GEvent::EndBold]);
}

/// An italic word built from a plain interior lexes to an opened, filled
/// and closed italic span, whichever of the two italic delimiters is
/// chosen.
pub proof fn lemma_italic_delimiter_choice(w: Seq<char>, d: char)
    requires
        plain_word(w),
        w.len() >= 1,
        d == '*' || d == '_',
    ensures
        word_events(seq![d] + w + seq![d]) == seq![
            GEvent::BeginItalic,
            GEvent::Word(w),
            GEvent::EndItalic,
        ],
{
    let s = seq![d] + w + seq![d];
    assert(s.len() == w.len() + 2);
    assert(s[0] == d && s[s.len() - 1] == d);
    assert(s[1] == w[0] && s[s.len() - 2] == w[w.len() - 1]);
    assert(!code_applies(s));
    assert(!bold_open(s) && !bold_close(s) && !bold_close_dot(s));
    assert(ital_open(s) && ital_close(s) && s.len() >= 2);
    assert(s.subrange(1, s.len() - 1) =~= w);
    lemma_plain_word_events(w);
    assert(word_events(s) =~= seq![GEvent::BeginItalic, GEvent::Word(w), GEvent::EndItalic]);
}

/// A plain word stays plain when a period is appended.
proof fn lemma_plain_push_dot(w: Seq<char>)
    requires
        plain_word(w),
        w.len() >= 1,
    ensures
        plain_word(w.push('.')),
{
    let p = w.push('.');
    assert(p[0] == w[0] && p[p.len() - 1] == '.' && p[p.len() - 2] == w[w.len() - 1]);
    assert(!code_applies(p));
    assert(!bold_open(p) && !bold_close(p) && !bold_close_dot(p));
    assert(!ital_open(p) && !ital_close(p) && !ital_close_dot(p));
    lemma_has_char_iff(w, ']');
    lemma_has_char_iff(p, ']');
    assert(!label_applies(p));
}

/// A word closed by a bold delimiter and a period keeps the period on
/// its text, and the close still fires.
pub proof fn lemma_trailing_period(w: Seq<char>, d: char)
    requires
        plain_word(w),
        w.len() >= 1,
        d == '*' || d == '_',
    ensures
        word_events(w + seq![d, d, '.']) == seq![GEvent::Word(w.push('.')), GEvent::EndBold],
{
    let s = w + seq![d, d, '.'];
    assert(s.len() == w.len() + 3);
    assert(s[0] == w[0] && s[s.len() - 1] == '.' && s[s.len() - 2] == d && s[s.len() - 3] == d);
    assert(forall|i: int| 0 <= i < w.len() ==> s[i] == w[i]);
    assert(!code_applies(s));
    assert(!bold_open(s) && !bold_close(s) && bold_close_dot(s));
    assert(s.subrange(0, s.len() - 3) =~= w);
    lemma_plain_push_dot(w);
    lemma_plain_word_events(w.push('.'));
    assert(word_events(s) =~= seq![GEvent::Word(w.push('.')), GEvent::EndBold]);
}

/// A link word with a plain label lexes to a label span followed by its
/// URL.
pub proof fn lemma_link_word(l: Seq<char>, u: Seq<char>)
    requires
        plain_word(l),
    ensures
        word_events(seq!['['] + l + seq![']', '('] + u + seq![')']) == seq![
            GEvent::BeginLabel,
            GEvent::Word(l),
            GEvent::EndLabel,
            GEvent::Url(u),
        ],
{
    let s = seq!['['] + l + seq![']', '('] + u + seq![')'];
    let rest = l + seq![']', '('] + u + seq![')'];
    assert(s.len() == l.len() + u.len() + 4);
    assert(s[0] == '[' && s[s.len() - 1] == ')');
    assert(s.subrange(1, s.len() as int) =~= rest);
    assert(!code_applies(s));
    assert(!bold_applies(s));
    assert(!ital_applies(s));
    lemma_has_char_iff(l, ']');
    assert(forall|j: int| 0 <= j < l.len() ==> l[j] != ']');
    assert(rest[l.len() as int] == ']' && rest[l.len() as int + 1] == '(');
    lemma_first_pair_idx(rest, ']', '(');
    assert(has_pair(rest, ']', '('));
    let i = first_pair_idx(rest, ']', '(');
    assert(forall|j: int| 0 <= j < l.len() ==> rest[j] == l[j]);
    if i < l.len() {
        assert(rest[i] == ']');
        assert(false);
    }
    if i > l.len() {
        assert(!(rest[l.len() as int] == ']' && l.len() + 1 < rest.len() && rest[l.len() as int
            + 1] == '('));
        assert(false);
    }
    assert(rest.subrange(0, i) =~= l);
    lemma_plain_word_events(l);
    let tail = rest.subrange(i + 2, rest.len() as int);
    assert(tail =~= u + seq![')']);
    assert(tail[tail.len() - 1] == ')');
    assert(tail.subrange(0, tail.len() - 1) =~= u);
    assert(url_rest_events(tail) =~= seq![GEvent::Url(u)]);
    assert(word_events(s) =~= seq![
        GEvent::BeginLabel,
        GEvent::Word(l),
        GEvent::EndLabel,
        GEvent::Url(u),
    ]);
}

/// A triple-delimited word lexes to a bold span around an italic span,
/// whichever of the two delimiters is chosen: the fixed recognizer order
/// makes the composite deterministic.
pub proof fn lemma_composite_emphasis(w: Seq<char>, d: char)
    requires
        plain_word(w),
        w.len() >= 1,
        d == '*' || d == '_',
    ensures
        word_events(seq![d, d, d] + w + seq![d, d, d]) == seq![
            GEvent::BeginBold,
            GEvent::BeginItalic,
            GEvent::Word(w),
            GEvent::EndItalic,
            GEvent::EndBold,
        ],
{
    let s = seq![d, d, d] + w + seq![d, d, d];
    assert(s.len() == w.len() + 6);
    assert(s[0] == d && s[1] == d && s[2] == d);
    assert(s[s.len() - 1] == d && s[s.len() - 2] == d && s[s.len() - 3] == d);
    assert(!code_applies(s));
    assert(bold_open(s) && bold_close(s) && s.len() >= 4);
    let inner = s.subrange(2, s.len() - 2);
    assert(inner =~= seq![d] + w + seq![d]);
    lemma_italic_delimiter_choice(w, d);
    assert(inner.subrange(1, inner.len() - 1) =~= w);
    assert(word_events(s) =~= seq![
        GEvent::BeginBold,
        GEvent::BeginItalic,
        GEvent::Word(w),
        GEvent::EndItalic,
        GEvent::EndBold,
    ]);
}


/// Replaying four events is four steps.
proof fn lemma_replay_four(m: PModel, a: GEvent, b: GEvent, c: GEvent, d: GEvent)
    ensures
        pm_replay(m, seq![a, b, c, d]) == pm_step(pm_step(pm_step(pm_step(m, a), b), c), d),
{
    let e0 = Seq::<GEvent>::empty();
    lemma_replay_snoc(m, e0, a);
    lemma_replay_snoc(m, e0.push(a), b);
    lemma_replay_snoc(m, e0.push(a).push(b), c);
    lemma_replay_snoc(m, e0.push(a).push(b).push(c), d);
    assert(seq![a, b, c, d] =~= e0.push(a).push(b).push(c).push(d));
}

/// Replaying five events is five steps.
proof fn lemma_replay_five(m: PModel, a: GEvent, b: GEvent, c: GEvent, d: GEvent, e: GEvent)
    ensures
        pm_replay(m, seq![a, b, c, d, e]) == pm_step(
            pm_step(pm_step(pm_step(pm_step(m, a), b), c), d),
            e,
        ),
{
    let e0 = Seq::<GEvent>::empty();
    lemma_replay_snoc(m, e0, a);
    lemma_replay_snoc(m, e0.push(a), b);
    lemma_replay_snoc(m, e0.push(a).push(b), c);
    lemma_replay_snoc(m, e0.push(a).push(b).push(c), d);
    lemma_replay_snoc(m, e0.push(a).push(b).push(c).push(d), e);
    assert(seq![a, b, c, d, e] =~= e0.push(a).push(b).push(c).push(d).push(e));
}

/// Replaying six events is six steps.
proof fn lemma_replay_six(
    m: PModel,
    a: GEvent,
    b: GEvent,
    c: GEvent,
    d: GEvent,
    e: GEvent,
    f: GEvent,
)
    ensures
        pm_replay(m, seq![a, b, c, d, e, f]) == pm_step(
            pm_step(pm_step(pm_step(pm_step(pm_step(m, a), b), c), d), e),
            f,
        ),
{
    let e0 = Seq::<GEvent>::empty();
    lemma_replay_snoc(m, e0, a);
    lemma_replay_snoc(m, e0.push(a), b);
    lemma_replay_snoc(m, e0.push(a).push(b), c);
    lemma_replay_snoc(m, e0.push(a).push(b).push(c), d);
    lemma_replay_snoc(m, e0.push(a).push(b).push(c).push(d), e);
    lemma_replay_snoc(m, e0.push(a).push(b).push(c).push(d).push(e), f);
    assert(seq![a, b, c, d, e, f] =~= e0.push(a).push(b).push(c).push(d).push(e).push(f));
}

/// Trimming a sequence that neither starts nor ends with whitespace
/// changes nothing.
proof fn lemma_trim_noop(s: Seq<char>)
    requires
        s.len() > 0,
        !is_space(s[0]),
        !is_space(s[s.len() - 1]),
    ensures
        trim_spec(s) == s,
{
}

/// An input without a newline is a single source line.
proof fn lemma_single_line(s: Seq<char>)
    requires
        s.len() > 0,
        forall|i: int| 0 <= i < s.len() ==> s[i] != '\n',
    ensures
        doc_of(s).len() == 1,
        doc_of(s)[0] == line_result(trim_spec(s)),
{
    lemma_has_char_iff(s, '\n');
    assert(lines_of(s) =~= seq![s]);
    lemma_line_correspondence(s);
}

/// A line that is one space-free word is scanned as exactly that word.
proof fn lemma_single_word_line(t: Seq<char>)
    requires
        t.len() > 0,
        forall|i: int| 0 <= i < t.len() ==> !is_space(#[trigger] t[i]),
        t[0] != '#',
        t[0] != '!',
    ensures
        line_events(t) == word_events(t),
{
    lemma_first_space_idx(t);
    let j = first_space_idx(t);
    if j < t.len() {
        assert(is_space(t[j]));
        assert(false);
    }
    assert(t.subrange(0, j) =~= t);
    assert(words_events(t.subrange(j, t.len() as int)) =~= Seq::<GEvent>::empty());
    assert(words_events(t) =~= word_events(t));
}

/// A one-word bold input parses to a single paragraph holding a bold
/// span around the word, whichever bold delimiter is chosen.
pub proof fn lemma_bold_tree(w: Seq<char>, d: char)
    requires
        plain_word(w),
        w.len() >= 1,
        forall|i: int| 0 <= i < w.len() ==> !is_space(#[trigger] w[i]),
        d == '*' || d == '_',
    ensures
        doc_of(seq![d, d] + w + seq![d, d]) == seq![
            GLine::Paragraph(seq![GToken::Bold(seq![GToken::Regular(w)])]),
        ],
{
    let s = seq![d, d] + w + seq![d, d];
    assert(forall|i: int| 0 <= i < s.len() ==> !is_space(#[trigger] s[i]));
    lemma_single_line(s);
    lemma_trim_noop(s);
    lemma_single_word_line(s);
    lemma_bold_delimiter_choice(w, d);
    let m0 = clean(Seq::empty());
    assert(line_events(s) + seq![GEvent::LineBreak] =~= seq![
        GEvent::BeginBold,
        GEvent::Word(w),
        GEvent::EndBold,
        GEvent::LineBreak,
    ]);
    lemma_replay_four(m0, GEvent::BeginBold, GEvent::Word(w), GEvent::EndBold, GEvent::LineBreak);
    let m1 = pm_step(m0, GEvent::BeginBold);
    assert(m1.b.lines =~= seq![GLine::Paragraph(Seq::empty())]);
    assert(m1.b.frames =~= seq![
        crate::builder::GFrame { kind: FrameKind::Bold, tokens: Seq::empty() },
    ]);
    let m2 = pm_step(m1, GEvent::Word(w));
    assert(m2.b.frames =~= seq![
        crate::builder::GFrame { kind: FrameKind::Bold, tokens: seq![GToken::Regular(w)] },
    ]);
    let m3 = pm_step(m2, GEvent::EndBold);
    assert(m3.b.frames.len() == 0);
    assert(m3.b.lines =~= seq![GLine::Paragraph(seq![GToken::Bold(seq![GToken::Regular(w)])])]);
    let m4 = pm_step(m3, GEvent::LineBreak);
    assert(m4.b.lines == m3.b.lines);
}

/// A one-word italic input parses to a single paragraph holding an
/// italic span around the word, whichever italic delimiter is chosen.
pub proof fn lemma_italic_tree(w: Seq<char>, d: char)
    requires
        plain_word(w),
        w.len() >= 1,
        forall|i: int| 0 <= i < w.len() ==> !is_space(#[trigger] w[i]),
        d == '*' || d == '_',
    ensures
        doc_of(seq![d] + w + seq![d]) == seq![
            GLine::Paragraph(seq![GToken::Italic(seq![GToken::Regular(w)])]),
        ],
{
    let s = seq![d] + w + seq![d];
    assert(forall|i: int| 0 <= i < s.len() ==> !is_space(#[trigger] s[i]));
    lemma_single_line(s);
    lemma_trim_noop(s);
    lemma_single_word_line(s);
    lemma_italic_delimiter_choice(w, d);
    let m0 = clean(Seq::empty());
    assert(line_events(s) + seq![GEvent::LineBreak] =~= seq![
        GEvent::BeginItalic,
        GEvent::Word(w),
        GEvent::EndItalic,
        GEvent::LineBreak,
    ]);
    lemma_replay_four(
        m0,
        GEvent::BeginItalic,
        GEvent::Word(w),
        GEvent::EndItalic,
        GEvent::LineBreak,
    );
    let m1 = pm_step(m0, GEvent::BeginItalic);
    assert(m1.b.lines =~= seq![GLine::Paragraph(Seq::empty())]);
    assert(m1.b.frames =~= seq![
        crate::builder::GFrame { kind: FrameKind::Italic, tokens: Seq::empty() },
    ]);
    let m2 = pm_step(m1, GEvent::Word(w));
    assert(m2.b.frames =~= seq![
        crate::builder::GFrame { kind: FrameKind::Italic, tokens: seq![GToken::Regular(w)] },
    ]);
    let m3 = pm_step(m2, GEvent::EndItalic);
    assert(m3.b.frames.len() == 0);
    assert(m3.b.lines =~= seq![GLine::Paragraph(seq![GToken::Italic(seq![GToken::Regular(w)])])]);
    let m4 = pm_step(m3, GEvent::LineBreak);
    assert(m4.b.lines == m3.b.lines);
}

/// A one-word link input parses to a single paragraph holding a link
/// with the label inside and the URL attached.
pub proof fn lemma_link_tree(l: Seq<char>, u: Seq<char>)
    requires
        plain_word(l),
        forall|i: int| 0 <= i < l.len() ==> !is_space(#[trigger] l[i]),
        forall|i: int| 0 <= i < u.len() ==> !is_space(#[trigger] u[i]),
    ensures
        doc_of(seq!['['] + l + seq![']', '('] + u + seq![')']) == seq![
            GLine::Paragraph(seq![GToken::Link { label: seq![GToken::Regular(l)], url: u }]),
        ],
{
    let s = seq!['['] + l + seq![']', '('] + u + seq![')'];
    assert(forall|i: int| 0 <= i < s.len() ==> !is_space(#[trigger] s[i]));
    lemma_single_line(s);
    lemma_trim_noop(s);
    lemma_single_word_line(s);
    lemma_link_word(l, u);
    let m0 = clean(Seq::empty());
    assert(line_events(s) + seq![GEvent::LineBreak] =~= seq![
        GEvent::BeginLabel,
        GEvent::Word(l),
        GEvent::EndLabel,
        GEvent::Url(u),
        GEvent::LineBreak,
    ]);
    lemma_replay_five(
        m0,
        GEvent::BeginLabel,
        GEvent::Word(l),
        GEvent::EndLabel,
        GEvent::Url(u),
        GEvent::LineBreak,
    );
    let m1 = pm_step(m0, GEvent::BeginLabel);
    assert(m1.b.lines =~= seq![GLine::Paragraph(Seq::empty())]);
    assert(m1.b.frames =~= seq![
        crate::builder::GFrame { kind: FrameKind::Label, tokens: Seq::empty() },
    ]);
    let m2 = pm_step(m1, GEvent::Word(l));
    assert(m2.b.frames =~= seq![
        crate::builder::GFrame { kind: FrameKind::Label, tokens: seq![GToken::Regular(l)] },
    ]);
    let m3 = pm_step(m2, GEvent::EndLabel);
    assert(m3.b.frames.len() == 0);
    assert(m3.b.pending == Some(seq![GToken::Regular(l)]));
    let m4 = pm_step(m3, GEvent::Url(u));
    assert(m4.b.lines =~= seq![
        GLine::Paragraph(seq![GToken::Link { label: seq![GToken::Regular(l)], url: u }]),
    ]);
    let m5 = pm_step(m4, GEvent::LineBreak);
    assert(m5.b.lines == m4.b.lines);
}

/// A one-word triple-delimited input parses to a single paragraph
/// holding a bold span around a single italic span around the word,
/// whichever delimiter is chosen.
pub proof fn lemma_composite_tree(w: Seq<char>, d: char)
    requires
        plain_word(w),
        w.len() >= 1,
        forall|i: int| 0 <= i < w.len() ==> !is_space(#[trigger] w[i]),
        d == '*' || d == '_',
    ensures
        doc_of(seq![d, d, d] + w + seq![d, d, d]) == seq![
            GLine::Paragraph(
                seq![GToken::Bold(seq![GToken::Italic(seq![GToken::Regular(w)])])],
            ),
        ],
{
    let s = seq![d, d, d] + w + seq![d, d, d];
    assert(forall|i: int| 0 <= i < s.len() ==> !is_space(#[trigger] s[i]));
    lemma_single_line(s);
    lemma_trim_noop(s);
    lemma_single_word_line(s);
    lemma_composite_emphasis(w, d);
    let m0 = clean(Seq::empty());
    assert(line_events(s) + seq![GEvent::LineBreak] =~= seq![
        GEvent::BeginBold,
        GEvent::BeginItalic,
        GEvent::Word(w),
        GEvent::EndItalic,
        GEvent::EndBold,
        GEvent::LineBreak,
    ]);
    lemma_replay_six(
        m0,
        GEvent::BeginBold,
        GEvent::BeginItalic,
        GEvent::Word(w),
        GEvent::EndItalic,
        GEvent::EndBold,
        GEvent::LineBreak,
    );
    let m1 = pm_step(m0, GEvent::BeginBold);
    assert(m1.b.lines =~= seq![GLine::Paragraph(Seq::empty())]);
    assert(m1.b.frames =~= seq![
        crate::builder::GFrame { kind: FrameKind::Bold, tokens: Seq::empty() },
    ]);
    let m2 = pm_step(m1, GEvent::BeginItalic);
    assert(m2.b.frames =~= seq![
        crate::builder::GFrame { kind: FrameKind::Bold, tokens: Seq::empty() },
        crate::builder::GFrame { kind: FrameKind::Italic, tokens: Seq::empty() },
    ]);
    let m3 = pm_step(m2, GEvent::Word(w));
    assert(m3.b.frames =~= seq![
        crate::builder::GFrame { kind: FrameKind::Bold, tokens: Seq::empty() },
        crate::builder::GFrame { kind: FrameKind::Italic, tokens: seq![GToken::Regular(w)] },
    ]);
    let m4 = pm_step(m3, GEvent::EndItalic);
    assert(m4.b.frames =~= seq![
        crate::builder::GFrame {
            kind: FrameKind::Bold,
            tokens: seq![GToken::Italic(seq![GToken::Regular(w)])],
        },
    ]);
    let m5 = pm_step(m4, GEvent::EndBold);
    assert(m5.b.frames.len() == 0);
    assert(m5.b.lines =~= seq![
        GLine::Paragraph(seq![GToken::Bold(seq![GToken::Italic(seq![GToken::Regular(w)])])]),
    ]);
    let m6 = pm_step(m5, GEvent::LineBreak);
    assert(m6.b.lines == m5.b.lines);
}


/// A word that survives a round trip: plain, nonempty, and free of
/// whitespace.
pub open spec fn renderable_word(w: Seq<char>) -> bool {
    &&& plain_word(w)
    &&& w.len() > 0
    &&& forall|i: int| 0 <= i < w.len() ==> !is_space(#[trigger] w[i])
}

/// The text of a regular token.
pub open spec fn token_word(t: GToken) -> Seq<char> {
    match t {
        GToken::Regular(w) => w,
        _ => Seq::empty(),
    }
}

/// The texts of a token run, in order.
pub open spec fn word_texts(ts: Seq<GToken>) -> Seq<Seq<char>> {
    ts.map(|i: int, t: GToken| token_word(t))
}

/// A token run that survives a round trip: regular renderable words
/// only.
pub open spec fn renderable_tokens(ts: Seq<GToken>) -> bool {
    forall|i: int|
        0 <= i < ts.len() ==> (#[trigger] ts[i] matches GToken::Regular(..)) && renderable_word(
            token_word(ts[i]),
        )
}

/// A token run written back out: the words joined by single spaces.
pub open spec fn render_words(ts: Seq<GToken>) -> Seq<char>
    decreases ts.len(),
{
    if ts.len() == 0 {
        Seq::empty()
    } else if ts.len() == 1 {
        token_word(ts[0])
    } else {
        token_word(ts[0]) + seq![' '] + render_words(ts.drop_first())
    }
}

/// A run of `k` hash marks.
pub open spec fn hashes(k: int) -> Seq<char>
    decreases k,
{
    if k <= 0 {
        Seq::empty()
    } else {
        seq!['#'] + hashes(k - 1)
    }
}

/// How many hash marks introduce each header level.
pub open spec fn level_count(lv: crate::ast::HeaderLevel) -> int {
    match lv {
        crate::ast::HeaderLevel::H1 => 1,
        crate::ast::HeaderLevel::H2 => 2,
        crate::ast::HeaderLevel::H3 => 3,
        crate::ast::HeaderLevel::H4 => 4,
        crate::ast::HeaderLevel::H5 => 5,
        crate::ast::HeaderLevel::H6 => 6,
    }
}

/// A line that survives a round trip: blank, a paragraph of renderable
/// words whose first word would not be mistaken for a header or image
/// introducer, or a header of renderable words.
pub open spec fn renderable_line(l: GLine) -> bool {
    match l {
        GLine::Blank => true,
        GLine::Paragraph(ts) => ts.len() > 0 && renderable_tokens(ts) && token_word(ts[0])[0]
            != '#' && token_word(ts[0])[0] != '!',
        GLine::Header { level, tokens } => tokens.len() > 0 && renderable_tokens(tokens),
        GLine::Image { .. } => false,
    }
}

/// One line written back out.
pub open spec fn render_line(l: GLine) -> Seq<char> {
    match l {
        GLine::Blank => Seq::empty(),
        GLine::Paragraph(ts) => render_words(ts),
        GLine::Header { level, tokens } => hashes(level_count(level)) + seq![' '] + render_words(
            tokens,
        ),
        GLine::Image { .. } => Seq::empty(),
    }
}

/// A document that survives a round trip: every line renderable, and the
/// last line not blank, since a trailing blank line leaves no trace in
/// the text.
pub open spec fn renderable_doc(d: Seq<GLine>) -> bool {
    &&& forall|i: int| 0 <= i < d.len() ==> renderable_line(#[trigger] d[i])
    &&& d.len() > 0 ==> !(d[d.len() - 1] matches GLine::Blank)
}

/// A document written back out: its lines joined by newlines.
pub open spec fn render_doc(d: Seq<GLine>) -> Seq<char>
    decreases d.len(),
{
    if d.len() == 0 {
        Seq::empty()
    } else if d.len() == 1 {
        render_line(d[0])
    } else {
        render_line(d[0]) + seq!['\n'] + render_doc(d.drop_first())
    }
}

/// A run of hash marks is all hash marks.
proof fn lemma_hashes(k: int)
    requires
        k >= 0,
    ensures
        hashes(k).len() == k,
        forall|i: int| 0 <= i < k ==> hashes(k)[i] == '#',
    decreases k,
{
    if k > 0 {
        lemma_hashes(k - 1);
    }
}

/// Rendered words are nonempty, start and end with word characters, and
/// hold no newline; every space in them is a single separator.
proof fn lemma_render_words_chars(ts: Seq<GToken>)
    requires
        renderable_tokens(ts),
        ts.len() > 0,
    ensures
        render_words(ts).len() > 0,
        render_words(ts)[0] == token_word(ts[0])[0],
        !is_space(render_words(ts)[0]),
        !is_space(render_words(ts)[render_words(ts).len() - 1]),
        forall|i: int| 0 <= i < render_words(ts).len() ==> #[trigger] render_words(ts)[i] != '\n',
    decreases ts.len(),
{
    if ts.len() == 1 {
        assert(renderable_word(token_word(ts[0])));
    } else {
        assert(renderable_word(token_word(ts[0])));
        assert(forall|i: int| 0 <= i < ts.drop_first().len() ==> ts.drop_first()[i] == ts[i + 1]);
        lemma_render_words_chars(ts.drop_first());
        let w0 = token_word(ts[0]);
        let rest = render_words(ts.drop_first());
        let s = w0 + seq![' '] + rest;
        assert(render_words(ts) == s);
        assert(s[s.len() - 1] == rest[rest.len() - 1]);
        assert forall|i: int| 0 <= i < s.len() implies #[trigger] s[i] != '\n' by {
            if i < w0.len() {
                assert(s[i] == w0[i]);
                assert(!is_space(w0[i]));
            } else if i == w0.len() {
                assert(s[i] == ' ');
            } else {
                assert(s[i] == rest[i - w0.len() - 1]);
            }
        }
    }
}

/// Scanning rendered words yields exactly their texts.
proof fn lemma_words_of_render(ts: Seq<GToken>)
    requires
        renderable_tokens(ts),
    ensures
        words_of(render_words(ts)) == word_texts(ts),
    decreases ts.len(),
{
    if ts.len() == 0 {
        assert(words_of(render_words(ts)) =~= word_texts(ts));
    } else if ts.len() == 1 {
        let w0 = token_word(ts[0]);
        assert(renderable_word(w0));
        lemma_first_space_idx(w0);
        let j = first_space_idx(w0);
        if j < w0.len() {
            assert(is_space(w0[j]));
            assert(false);
        }
        assert(w0.subrange(0, j) =~= w0);
        assert(words_of(w0.subrange(j, w0.len() as int)) =~= Seq::<Seq<char>>::empty());
        assert(words_of(render_words(ts)) =~= word_texts(ts));
    } else {
        let w0 = token_word(ts[0]);
        assert(renderable_word(w0));
        let rest = render_words(ts.drop_first());
        let s = w0 + seq![' '] + rest;
        assert(render_words(ts) == s);
        lemma_first_space_idx(s);
        let j = first_space_idx(s);
        assert(forall|i: int| 0 <= i < w0.len() ==> s[i] == #[trigger] w0[i]);
        assert(s[w0.len() as int] == ' ');
        if j < w0.len() {
            assert(is_space(s[j]));
            assert(is_space(w0[j]));
            assert(false);
        }
        if j > w0.len() {
            assert(!is_space(s[w0.len() as int]));
            assert(false);
        }
        assert(s.subrange(0, j) =~= w0);
        let tail = s.subrange(j, s.len() as int);
        assert(tail.len() > 0 && is_space(tail[0]));
        assert(tail.subrange(1, tail.len() as int) =~= rest);
        assert(forall|i: int| 0 <= i < ts.drop_first().len() ==> ts.drop_first()[i] == ts[i + 1]);
        lemma_words_of_render(ts.drop_first());
        assert(s[0] == w0[0] && !is_space(s[0]));
        assert(words_of(tail) == words_of(rest)) by {
            assert(tail.subrange(1, tail.len() as int) == rest);
        }
        assert(words_of(s) == seq![s.subrange(0, j)] + words_of(tail));
        assert(seq![s.subrange(0, j)] =~= seq![w0]);
        assert(words_of(s) == seq![w0] + words_of(rest));
        assert(seq![w0] + word_texts(ts.drop_first()) =~= word_texts(ts));
    }
}

/// The regular tokens of a renderable run's texts are the run itself.
proof fn lemma_regulars_of_texts(ts: Seq<GToken>)
    requires
        renderable_tokens(ts),
    ensures
        regulars(word_texts(ts)) == ts,
{
    assert forall|i: int| 0 <= i < ts.len() implies regulars(word_texts(ts))[i] == ts[i] by {
        assert(ts[i] matches GToken::Regular(..));
    }
    assert(regulars(word_texts(ts)) =~= ts);
}

/// Splitting the rendered document recovers one text per line.
proof fn lemma_lines_of_render(d: Seq<GLine>)
    requires
        renderable_doc(d),
    ensures
        lines_of(render_doc(d)).len() == d.len(),
        forall|i: int|
            0 <= i < d.len() ==> #[trigger] lines_of(render_doc(d))[i] == render_line(d[i]),
    decreases d.len(),
{
    if d.len() == 0 {
    } else {
        let r0 = render_line(d[0]);
        assert(renderable_line(d[0]));
        assert forall|i: int| 0 <= i < r0.len() implies #[trigger] r0[i] != '\n' by {
            match d[0] {
                GLine::Paragraph(ts) => {
                    lemma_render_words_chars(ts);
                },
                GLine::Header { level, tokens } => {
                    let k = level_count(level);
                    lemma_hashes(k);
                    lemma_render_words_chars(tokens);
                    let rw = render_words(tokens);
                    if i < k {
                        assert(r0[i] == hashes(k)[i]);
                    } else if i == k {
                        assert(r0[i] == ' ');
                    } else {
                        assert(r0[i] == rw[i - k - 1]);
                    }
                },
                _ => {},
            }
        }
        if d.len() == 1 {
            assert(!(d[0] matches GLine::Blank));
            assert(r0.len() > 0) by {
                match d[0] {
                    GLine::Paragraph(ts) => {
                        lemma_render_words_chars(ts);
                    },
                    GLine::Header { level, tokens } => {
                        lemma_hashes(level_count(level));
                    },
                    _ => {},
                }
            }
            lemma_has_char_iff(r0, '\n');
            assert(lines_of(render_doc(d)) =~= seq![r0]);
        } else {
            let s = render_doc(d);
            let rest = render_doc(d.drop_first());
            assert(s == r0 + seq!['\n'] + rest);
            assert(s[r0.len() as int] == '\n');
            lemma_first_idx_of(s, '\n');
            let j = first_idx_of(s, '\n');
            assert(forall|i: int| 0 <= i < r0.len() ==> s[i] == #[trigger] r0[i]);
            if j < r0.len() {
                assert(s[j] == '\n');
                assert(false);
            }
            if j > r0.len() {
                assert(s[r0.len() as int] != '\n');
                assert(false);
            }
            assert(has_char(s, '\n')) by {
                lemma_has_char_iff(s, '\n');
            }
            assert(s.subrange(0, j) =~= r0);
            assert(s.subrange(j + 1, s.len() as int) =~= rest);
            assert(forall|i: int|
                0 <= i < d.drop_first().len() ==> #[trigger] d.drop_first()[i] == d[i + 1]);
            lemma_lines_of_render(d.drop_first());
            assert(lines_of(s) == seq![r0] + lines_of(rest));
        }
    }
}

/// One renderable line written out and scanned back is itself.
proof fn lemma_render_line_round(l: GLine)
    requires
        renderable_line(l),
    ensures
        line_result(trim_spec(render_line(l))) == l,
{
    match l {
        GLine::Blank => {
            assert(trim_spec(render_line(l)).len() == 0);
            lemma_line_result_blank(trim_spec(render_line(l)));
        },
        GLine::Paragraph(ts) => {
            let t = render_words(ts);
            lemma_render_words_chars(ts);
            lemma_trim_noop(t);
            lemma_words_of_render(ts);
            assert(words_of(t).len() == ts.len());
            assert(t[0] == token_word(ts[0])[0]);
            lemma_plain_line_result(t);
            lemma_regulars_of_texts(ts);
        },
        GLine::Header { level, tokens } => {
            let k = level_count(level);
            lemma_hashes(k);
            let rw = render_words(tokens);
            lemma_render_words_chars(tokens);
            let t = hashes(k) + seq![' '] + rw;
            assert(render_line(l) == t);
            assert(t[0] == '#' && !is_space('#'));
            assert(t[t.len() - 1] == rw[rw.len() - 1]);
            lemma_trim_noop(t);
            assert(forall|j: int| 0 <= j < k ==> t[j] == #[trigger] hashes(k)[j]);
            assert(t[k] == ' ');
            assert(header_shaped(t, k));
            let tail = t.subrange(k, t.len() as int);
            assert(tail[0] == ' ' && is_space(' '));
            assert(tail.subrange(1, tail.len() as int) =~= rw);
            assert(words_of(tail) == words_of(rw));
            lemma_words_of_render(tokens);
            lemma_header_plain_line_result(t, k);
            lemma_regulars_of_texts(tokens);
            assert(level_of(level_count(level)) == level);
        },
        GLine::Image { .. } => {
            assert(false);
        },
    }
}

/// Round trip: a renderable document, written back out as plain text and
/// run through the whole pipeline again, is reproduced exactly.
pub proof fn lemma_render_round_trip(d: Seq<GLine>)
    requires
        renderable_doc(d),
    ensures
        doc_of(render_doc(d)) == d,
{
    lemma_line_correspondence(render_doc(d));
    lemma_lines_of_render(d);
    assert forall|i: int| 0 <= i < d.len() implies doc_of(render_doc(d))[i] == d[i] by {
        assert(lines_of(render_doc(d))[i] == render_line(d[i]));
        assert(doc_of(render_doc(d))[i] == line_result(
            trim_spec(lines_of(render_doc(d))[i]),
        ));
        assert(renderable_line(d[i]));
        lemma_render_line_round(d[i]);
    }
    assert(doc_of(render_doc(d)) =~= d);
}

} // verus!
