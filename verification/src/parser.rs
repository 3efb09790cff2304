//! The parser: a finite state machine over the lexer's events. It tracks
//! minimal line-level state, validates that each event is legal in the
//! current state, and drives the builder. An event with no transition is
//! a contract breach by the event producer: the parse aborts, and every
//! later event is ignored.

use vstd::prelude::*;

use crate::ast::{doc_view, Document, HeaderLevel};
use crate::builder::{
    bm_add_header, bm_add_image, bm_add_text, bm_add_url, bm_add_word, bm_blank_line, bm_end,
    bm_end_line, bm_init, bm_start, BModel, Builder, FrameKind,
};
use crate::collector::{event_view, Event, GEvent, TokenCollector};
use crate::lexer::{lex_text, text_events};

verus! {

broadcast use vstd::seq::group_seq_axioms, vstd::std_specs::vec::group_vec_axioms;

/// The parser's line-level state: nothing open yet, a header introducer
/// seen, or inline content being accumulated.
#[derive(Debug, PartialEq, Eq, Clone, Copy, Structural)]
pub enum ParserState {
    Start,
    Header,
    Text,
}

/// The mathematical shape of the parser: its state, whether it has
/// aborted, and the builder's model.
#[verifier::ext_equal]
pub struct PModel {
    /// The line-level state.
    pub state: ParserState,
    /// Whether an illegal event aborted the parse.
    pub failed: bool,
    /// The builder's model.
    pub b: BModel,
}

/// A healthy parser at the start of a line, over the given builder.
pub open spec fn pm_init(b: BModel) -> PModel {
    PModel { state: ParserState::Start, failed: false, b }
}

/// The aborted parser: same state and builder, marked failed.
pub open spec fn pm_fail(m: PModel) -> PModel {
    PModel { failed: true, ..m }
}

/// The transition table: one step of the state machine on one event.
/// Every builder mutation the pipeline can make is decided here.
pub open spec fn pm_step(m: PModel, e: GEvent) -> PModel {
    if m.failed {
        m
    } else {
        match m.state {
            ParserState::Start => match e {
                GEvent::H1 => PModel {
                    state: ParserState::Header,
                    failed: false,
                    b: bm_add_header(m.b, HeaderLevel::H1),
                },
                GEvent::H2 => PModel {
                    state: ParserState::Header,
                    failed: false,
                    b: bm_add_header(m.b, HeaderLevel::H2),
                },
                GEvent::H3 => PModel {
                    state: ParserState::Header,
                    failed: false,
                    b: bm_add_header(m.b, HeaderLevel::H3),
                },
                GEvent::H4 => PModel {
                    state: ParserState::Header,
                    failed: false,
                    b: bm_add_header(m.b, HeaderLevel::H4),
                },
                GEvent::H5 => PModel {
                    state: ParserState::Header,
                    failed: false,
                    b: bm_add_header(m.b, HeaderLevel::H5),
                },
                GEvent::H6 => PModel {
                    state: ParserState::Header,
                    failed: false,
                    b: bm_add_header(m.b, HeaderLevel::H6),
                },
                GEvent::Image => PModel {
                    state: ParserState::Text,
                    failed: false,
                    b: bm_add_image(m.b),
                },
                GEvent::Word(t) => PModel {
                    state: ParserState::Text,
                    failed: false,
                    b: bm_add_word(bm_add_text(m.b), t),
                },
                GEvent::BeginBold => PModel {
                    state: ParserState::Text,
                    failed: false,
                    b: bm_start(bm_add_text(m.b), FrameKind::Bold),
                },
                GEvent::BeginItalic => PModel {
                    state: ParserState::Text,
                    failed: false,
                    b: bm_start(bm_add_text(m.b), FrameKind::Italic),
                },
                GEvent::BeginInlineCode => PModel {
                    state: ParserState::Text,
                    failed: false,
                    b: bm_start(bm_add_text(m.b), FrameKind::InlineCode),
                },
                GEvent::BeginLabel => PModel {
                    state: ParserState::Text,
                    failed: false,
                    b: bm_start(bm_add_text(m.b), FrameKind::Label),
                },
                GEvent::LineBreak => PModel {
                    state: ParserState::Start,
                    failed: false,
                    b: bm_blank_line(m.b),
                },
                _ => pm_fail(m),
            },
            ParserState::Header => match e {
                GEvent::Word(t) => PModel {
                    state: ParserState::Text,
                    failed: false,
                    b: bm_add_word(m.b, t),
                },
                GEvent::BeginBold => PModel {
                    state: ParserState::Text,
                    failed: false,
                    b: bm_start(m.b, FrameKind::Bold),
                },
                GEvent::BeginItalic => PModel {
                    state: ParserState::Text,
                    failed: false,
                    b: bm_start(m.b, FrameKind::Italic),
                },
                GEvent::BeginInlineCode => PModel {
                    state: ParserState::Text,
                    failed: false,
                    b: bm_start(m.b, FrameKind::InlineCode),
                },
                GEvent::BeginLabel => PModel {
                    state: ParserState::Text,
                    failed: false,
                    b: bm_start(m.b, FrameKind::Label),
                },
                GEvent::LineBreak => PModel {
                    state: ParserState::Start,
                    failed: false,
                    b: bm_end_line(m.b),
                },
                _ => pm_fail(m),
            },
            ParserState::Text => match e {
                GEvent::Word(t) => PModel {
                    state: ParserState::Text,
                    failed: false,
                    b: bm_add_word(m.b, t),
                },
                GEvent::Url(u) => PModel {
                    state: ParserState::Text,
                    failed: false,
                    b: bm_add_url(m.b, u),
                },
                GEvent::BeginBold => PModel {
                    state: ParserState::Text,
                    failed: false,
                    b: bm_start(m.b, FrameKind::Bold),
                },
                GEvent::EndBold => PModel {
                    state: ParserState::Text,
                    failed: false,
                    b: bm_end(m.b, FrameKind::Bold),
                },
                GEvent::BeginItalic => PModel {
                    state: ParserState::Text,
                    failed: false,
                    b: bm_start(m.b, FrameKind::Italic),
                },
                GEvent::EndItalic => PModel {
                    state: ParserState::Text,
                    failed: false,
                    b: bm_end(m.b, FrameKind::Italic),
                },
                GEvent::BeginInlineCode => PModel {
                    state: ParserState::Text,
                    failed: false,
                    b: bm_start(m.b, FrameKind::InlineCode),
                },
                GEvent::EndInlineCode => PModel {
                    state: ParserState::Text,
                    failed: false,
                    b: bm_end(m.b, FrameKind::InlineCode),
                },
                GEvent::BeginLabel => PModel {
                    state: ParserState::Text,
                    failed: false,
                    b: bm_start(m.b, FrameKind::Label),
                },
                GEvent::EndLabel => PModel {
                    state: ParserState::Text,
                    failed: false,
                    b: bm_end(m.b, FrameKind::Label),
                },
                GEvent::H1 => PModel {
                    state: ParserState::Header,
                    failed: false,
                    b: bm_add_header(m.b, HeaderLevel::H1),
                },
                GEvent::H2 => PModel {
                    state: ParserState::Header,
                    failed: false,
                    b: bm_add_header(m.b, HeaderLevel::H2),
                },
                GEvent::H3 => PModel {
                    state: ParserState::Header,
                    failed: false,
                    b: bm_add_header(m.b, HeaderLevel::H3),
                },
                GEvent::H4 => PModel {
                    state: ParserState::Header,
                    failed: false,
                    b: bm_add_header(m.b, HeaderLevel::H4),
                },
                GEvent::H5 => PModel {
                    state: ParserState::Header,
                    failed: false,
                    b: bm_add_header(m.b, HeaderLevel::H5),
                },
                GEvent::H6 => PModel {
                    state: ParserState::Header,
                    failed: false,
                    b: bm_add_header(m.b, HeaderLevel::H6),
                },
                GEvent::LineBreak => PModel {
                    state: ParserState::Start,
                    failed: false,
                    b: bm_end_line(m.b),
                },
                _ => pm_fail(m),
            },
        }
    }
}

/// The state machine run over a whole event sequence, left to right.
pub open spec fn pm_replay(m: PModel, es: Seq<GEvent>) -> PModel
    decreases es.len(),
{
    if es.len() == 0 {
        m
    } else {
        pm_replay(pm_step(m, es.first()), es.drop_first())
    }
}

/// Replaying a concatenation replays each part in turn.
pub proof fn lemma_replay_app(m: PModel, a: Seq<GEvent>, b: Seq<GEvent>)
    ensures
        pm_replay(m, a + b) == pm_replay(pm_replay(m, a), b),
    decreases a.len(),
{
    if a.len() == 0 {
        assert(a + b =~= b);
    } else {
        assert((a + b).first() == a.first());
        assert((a + b).drop_first() =~= a.drop_first() + b);
        lemma_replay_app(pm_step(m, a.first()), a.drop_first(), b);
    }
}

/// Replaying one more event is one more step.
pub proof fn lemma_replay_snoc(m: PModel, es: Seq<GEvent>, e: GEvent)
    ensures
        pm_replay(m, es.push(e)) == pm_step(pm_replay(m, es), e),
{
    assert(es.push(e) =~= es + seq![e]);
    lemma_replay_app(m, es, seq![e]);
    let x = pm_replay(m, es);
    assert(seq![e].first() == e);
    assert(seq![e].drop_first() =~= Seq::<GEvent>::empty());
    assert(pm_replay(x, seq![e]) == pm_replay(pm_step(x, e), Seq::<GEvent>::empty()));
    assert(pm_replay(pm_step(x, e), Seq::<GEvent>::empty()) == pm_step(x, e));
}

/// The production collector: consumes the lexer's events through the
/// state machine and drives the builder.
pub struct Parser {
    builder: Builder,
    state: ParserState,
    failed: bool,
    history: Ghost<Seq<GEvent>>,
}

impl Parser {
    /// The parser's model: its state, failure flag, and builder model.
    pub closed spec fn model(&self) -> PModel {
        PModel { state: self.state, failed: self.failed, b: self.builder@ }
    }

    /// A parser over a fresh builder, ready for a new document.
    pub fn new(builder: Builder) -> (r: Parser)
        requires
            builder@ == bm_init(),
        ensures
            r.inv(),
            r.events() == Seq::<GEvent>::empty(),
            r.model() == pm_init(bm_init()),
    {
        Parser {
            builder,
            state: ParserState::Start,
            failed: false,
            history: Ghost(Seq::empty()),
        }
    }

    /// Runs the state machine on one event: the history grows by the
    /// event, and the model takes exactly one step.
    fn feed(&mut self, e: Event)
        requires
            old(self).inv(),
        ensures
            final(self).inv(),
            final(self).events() == old(self).events().push(event_view(e)),
    {
        let ghost ev = event_view(e);
        proof {
            lemma_replay_snoc(pm_init(bm_init()), self.history@, ev);
        }
        self.history = Ghost(self.history@.push(ev));
        if self.failed {
            return ;
        }
        match self.state {
            ParserState::Start => match e {
                Event::H1 => {
                    self.builder.add_header(HeaderLevel::H1);
                    self.state = ParserState::Header;
                },
                Event::H2 => {
                    self.builder.add_header(HeaderLevel::H2);
                    self.state = ParserState::Header;
                },
                Event::H3 => {
                    self.builder.add_header(HeaderLevel::H3);
                    self.state = ParserState::Header;
                },
                Event::H4 => {
                    self.builder.add_header(HeaderLevel::H4);
                    self.state = ParserState::Header;
                },
                Event::H5 => {
                    self.builder.add_header(HeaderLevel::H5);
                    self.state = ParserState::Header;
                },
                Event::H6 => {
                    self.builder.add_header(HeaderLevel::H6);
                    self.state = ParserState::Header;
                },
                Event::Image => {
                    self.builder.add_image();
                    self.state = ParserState::Text;
                },
                Event::Word(t) => {
                    self.builder.add_text();
                    self.builder.add_word(t.as_str());
                    self.state = ParserState::Text;
                },
                Event::BeginBold => {
                    self.builder.add_text();
                    self.builder.start_bold();
                    self.state = ParserState::Text;
                },
                Event::BeginItalic => {
                    self.builder.add_text();
                    self.builder.start_italic();
                    self.state = ParserState::Text;
                },
                Event::BeginInlineCode => {
                    self.builder.add_text();
                    self.builder.start_inline_code();
                    self.state = ParserState::Text;
                },
                Event::BeginLabel => {
                    self.builder.add_text();
                    self.builder.start_label();
                    self.state = ParserState::Text;
                },
                Event::LineBreak => {
                    self.builder.blank_line();
                },
                _ => {
                    self.failed = true;
                },
            },
            ParserState::Header => match e {
                Event::Word(t) => {
                    self.builder.add_word(t.as_str());
                    self.state = ParserState::Text;
                },
                Event::BeginBold => {
                    self.builder.start_bold();
                    self.state = ParserState::Text;
                },
                Event::BeginItalic => {
                    self.builder.start_italic();
                    self.state = ParserState::Text;
                },
                Event::BeginInlineCode => {
                    self.builder.start_inline_code();
                    self.state = ParserState::Text;
                },
                Event::BeginLabel => {
                    self.builder.start_label();
                    self.state = ParserState::Text;
                },
                Event::LineBreak => {
                    self.builder.end_line();
                    self.state = ParserState::Start;
                },
                _ => {
                    self.failed = true;
                },
            },
            ParserState::Text => match e {
                Event::Word(t) => {
                    self.builder.add_word(t.as_str());
                },
                Event::Url(u) => {
                    self.builder.add_url(u.as_str());
                },
                Event::BeginBold => {
                    self.builder.start_bold();
                },
                Event::EndBold => {
                    self.builder.end_bold();
                },
                Event::BeginItalic => {
                    self.builder.start_italic();
                },
                Event::EndItalic => {
                    self.builder.end_italic();
                },
                Event::BeginInlineCode => {
                    self.builder.start_inline_code();
                },
                Event::EndInlineCode => {
                    self.builder.end_inline_code();
                },
                Event::BeginLabel => {
                    self.builder.start_label();
                },
                Event::EndLabel => {
                    self.builder.end_label();
                },
                Event::H1 => {
                    self.builder.add_header(HeaderLevel::H1);
                    self.state = ParserState::Header;
                },
                Event::H2 => {
                    self.builder.add_header(HeaderLevel::H2);
                    self.state = ParserState::Header;
                },
                Event::H3 => {
                    self.builder.add_header(HeaderLevel::H3);
                    self.state = ParserState::Header;
                },
                Event::H4 => {
                    self.builder.add_header(HeaderLevel::H4);
                    self.state = ParserState::Header;
                },
                Event::H5 => {
                    self.builder.add_header(HeaderLevel::H5);
                    self.state = ParserState::Header;
                },
                Event::H6 => {
                    self.builder.add_header(HeaderLevel::H6);
                    self.state = ParserState::Header;
                },
                Event::LineBreak => {
                    self.builder.end_line();
                    self.state = ParserState::Start;
                },
                _ => {
                    self.failed = true;
                },
            },
        }
        proof {
            assert(self.model() =~= pm_step(old(self).model(), ev));
        }
    }

    /// Lexes the whole input into this parser: the model advances by
    /// exactly the input's events.
    pub fn parse(&mut self, input: &str)
        requires
            old(self).inv(),
        ensures
            final(self).inv(),
            final(self).events() == old(self).events() + text_events(input@),
            final(self).model() == pm_replay(old(self).model(), text_events(input@)),
    {
        lex_text(self, input);
        proof {
            lemma_replay_app(pm_init(bm_init()), old(self).history@, text_events(input@));
        }
    }

    /// Whether an illegal event has aborted the parse.
    pub fn failed(&self) -> (r: bool)
        ensures
            r == self.model().failed,
    {
        self.failed
    }

    /// A copy of the document built so far.
    pub fn get_document(&self) -> (d: Document)
        ensures
            doc_view(d@) == self.model().b.lines,
    {
        self.builder.get_document()
    }
}

impl TokenCollector for Parser {
    closed spec fn events(&self) -> Seq<GEvent> {
        self.history@
    }

    closed spec fn inv(&self) -> bool {
        self.model() == pm_replay(pm_init(bm_init()), self.history@)
    }

    fn h1(&mut self) {
        self.feed(Event::H1);
    }

    fn h2(&mut self) {
        self.feed(Event::H2);
    }

    fn h3(&mut self) {
        self.feed(Event::H3);
    }

    fn h4(&mut self) {
        self.feed(Event::H4);
    }

    fn h5(&mut self) {
        self.feed(Event::H5);
    }

    fn h6(&mut self) {
        self.feed(Event::H6);
    }

    fn begin_bold(&mut self) {
        self.feed(Event::BeginBold);
    }

    fn end_bold(&mut self) {
        self.feed(Event::EndBold);
    }

    fn begin_italic(&mut self) {
        self.feed(Event::BeginItalic);
    }

    fn end_italic(&mut self) {
        self.feed(Event::EndItalic);
    }

    fn begin_inline_code(&mut self) {
        self.feed(Event::BeginInlineCode);
    }

    fn end_inline_code(&mut self) {
        self.feed(Event::EndInlineCode);
    }

    fn begin_label(&mut self) {
        self.feed(Event::BeginLabel);
    }

    fn end_label(&mut self) {
        self.feed(Event::EndLabel);
    }

    fn url(&mut self, url: &str) {
        self.feed(Event::Url(url.to_owned()));
    }

    fn word(&mut self, text: &str) {
        self.feed(Event::Word(text.to_owned()));
    }

    fn image(&mut self) {
        self.feed(Event::Image);
    }

    fn line_break(&mut self) {
        self.feed(Event::LineBreak);
    }
}

/// The tree an input parses to: the state machine run over the input's
/// events, starting from an empty builder.
pub open spec fn doc_of(input: Seq<char>) -> Seq<crate::ast::GLine> {
    pm_replay(pm_init(bm_init()), text_events(input)).b.lines
}

/// The whole pipeline: lexes the input through a fresh parser and
/// returns the finished document.
pub fn parse_document(input: &str) -> (d: Document)
    ensures
        doc_view(d@) == doc_of(input@),
{
    let mut parser = Parser::new(Builder::new());
    parser.parse(input);
    parser.get_document()
}

} // verus!
