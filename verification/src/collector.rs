//! The event collector capability: the lexer reports everything it
//! recognizes as a strictly ordered stream of primitive events through this
//! interface. The production implementation is the state-machine parser;
//! a recording implementation is provided for observing the raw stream.

use vstd::prelude::*;

verus! {

broadcast use vstd::seq::group_seq_axioms, vstd::std_specs::vec::group_vec_axioms;

/// One primitive notification emitted by the lexer, as a mathematical
/// value. Payload text is a sequence of characters.
pub enum GEvent {
    H1,
    H2,
    H3,
    H4,
    H5,
    H6,
    BeginBold,
    EndBold,
    BeginItalic,
    EndItalic,
    BeginInlineCode,
    EndInlineCode,
    BeginLabel,
    EndLabel,
    Url(Seq<char>),
    Word(Seq<char>),
    Image,
    LineBreak,
}

/// One recorded notification, as a value a program can hold and inspect.
#[derive(Debug, Clone)]
pub enum Event {
    H1,
    H2,
    H3,
    H4,
    H5,
    H6,
    BeginBold,
    EndBold,
    BeginItalic,
    EndItalic,
    BeginInlineCode,
    EndInlineCode,
    BeginLabel,
    EndLabel,
    Url(String),
    Word(String),
    Image,
    LineBreak,
}

/// The view of one recorded event.
pub open spec fn event_view(e: Event) -> GEvent {
    match e {
        Event::H1 => GEvent::H1,
        Event::H2 => GEvent::H2,
        Event::H3 => GEvent::H3,
        Event::H4 => GEvent::H4,
        Event::H5 => GEvent::H5,
        Event::H6 => GEvent::H6,
        Event::BeginBold => GEvent::BeginBold,
        Event::EndBold => GEvent::EndBold,
        Event::BeginItalic => GEvent::BeginItalic,
        Event::EndItalic => GEvent::EndItalic,
        Event::BeginInlineCode => GEvent::BeginInlineCode,
        Event::EndInlineCode => GEvent::EndInlineCode,
        Event::BeginLabel => GEvent::BeginLabel,
        Event::EndLabel => GEvent::EndLabel,
        Event::Url(s) => GEvent::Url(s@),
        Event::Word(s) => GEvent::Word(s@),
        Event::Image => GEvent::Image,
        Event::LineBreak => GEvent::LineBreak,
    }
}

/// The view of a recorded event log.
pub open spec fn events_view(log: Seq<Event>) -> Seq<GEvent> {
    Seq::new(log.len(), |i: int| event_view(log[i]))
}

/// An abstract sink for lexer events. Each operation appends exactly one
/// event to the history `events()`; `inv()` is whatever well-formedness
/// the implementation maintains across deliveries.
pub trait TokenCollector: Sized {
    /// The full history of events this collector has received, in order.
    spec fn events(&self) -> Seq<GEvent>;

    /// The implementation's own well-formedness condition.
    spec fn inv(&self) -> bool;

    fn h1(&mut self)
        requires
            old(self).inv(),
        ensures
            final(self).inv(),
            final(self).events() == old(self).events().push(GEvent::H1),
    ;

    fn h2(&mut self)
        requires
            old(self).inv(),
        ensures
            final(self).inv(),
            final(self).events() == old(self).events().push(GEvent::H2),
    ;

    fn h3(&mut self)
        requires
            old(self).inv(),
        ensures
            final(self).inv(),
            final(self).events() == old(self).events().push(GEvent::H3),
    ;

    fn h4(&mut self)
        requires
            old(self).inv(),
        ensures
            final(self).inv(),
            final(self).events() == old(self).events().push(GEvent::H4),
    ;

    fn h5(&mut self)
        requires
            old(self).inv(),
        ensures
            final(self).inv(),
            final(self).events() == old(self).events().push(GEvent::H5),
    ;

    fn h6(&mut self)
        requires
            old(self).inv(),
        ensures
            final(self).inv(),
            final(self).events() == old(self).events().push(GEvent::H6),
    ;

    fn begin_bold(&mut self)
        requires
            old(self).inv(),
        ensures
            final(self).inv(),
            final(self).events() == old(self).events().push(GEvent::BeginBold),
    ;

    fn end_bold(&mut self)
        requires
            old(self).inv(),
        ensures
            final(self).inv(),
            final(self).events() == old(self).events().push(GEvent::EndBold),
    ;

    fn begin_italic(&mut self)
        requires
            old(self).inv(),
        ensures
            final(self).inv(),
            final(self).events() == old(self).events().push(GEvent::BeginItalic),
    ;

    fn end_italic(&mut self)
        requires
            old(self).inv(),
        ensures
            final(self).inv(),
            final(self).events() == old(self).events().push(GEvent::EndItalic),
    ;

    fn begin_inline_code(&mut self)
        requires
            old(self).inv(),
        ensures
            final(self).inv(),
            final(self).events() == old(self).events().push(GEvent::BeginInlineCode),
    ;

    fn end_inline_code(&mut self)
        requires
            old(self).inv(),
        ensures
            final(self).inv(),
            final(self).events() == old(self).events().push(GEvent::EndInlineCode),
    ;

    fn begin_label(&mut self)
        requires
            old(self).inv(),
        ensures
            final(self).inv(),
            final(self).events() == old(self).events().push(GEvent::BeginLabel),
    ;

    fn end_label(&mut self)
        requires
            old(self).inv(),
        ensures
            final(self).inv(),
            final(self).events() == old(self).events().push(GEvent::EndLabel),
    ;

    fn url(&mut self, url: &str)
        requires
            old(self).inv(),
        ensures
            final(self).inv(),
            final(self).events() == old(self).events().push(GEvent::Url(url@)),
    ;

    fn word(&mut self, text: &str)
        requires
            old(self).inv(),
        ensures
            final(self).inv(),
            final(self).events() == old(self).events().push(GEvent::Word(text@)),
    ;

    fn image(&mut self)
        requires
            old(self).inv(),
        ensures
            final(self).inv(),
            final(self).events() == old(self).events().push(GEvent::Image),
    ;

    fn line_break(&mut self)
        requires
            old(self).inv(),
        ensures
            final(self).inv(),
            final(self).events() == old(self).events().push(GEvent::LineBreak),
    ;
}

/// A collector that only records the stream, for observing exactly what
/// the lexer emits.
#[derive(Debug)]
pub struct RecordingCollector {
    /// Every event received so far, oldest first.
    pub log: Vec<Event>,
}

impl RecordingCollector {
    /// A recorder with an empty history.
    pub fn new() -> (r: RecordingCollector)
        ensures
            r.events() == Seq::<GEvent>::empty(),
            r.inv(),
    {
        RecordingCollector { log: Vec::new() }
    }

    /// Appends one event to the log.
    fn record(&mut self, e: Event)
        ensures
            final(self).events() == old(self).events().push(event_view(e)),
            final(self).log@ == old(self).log@.push(e),
    {
        let ghost l0 = self.log@;
        let ghost ge = e;
        self.log.push(e);
        proof {
            assert(events_view(l0.push(ge)) =~= events_view(l0).push(event_view(ge)));
        }
    }
}

impl TokenCollector for RecordingCollector {
    open spec fn events(&self) -> Seq<GEvent> {
        events_view(self.log@)
    }

    open spec fn inv(&self) -> bool {
        true
    }

    fn h1(&mut self) {
        self.record(Event::H1);
    }

    fn h2(&mut self) {
        self.record(Event::H2);
    }

    fn h3(&mut self) {
        self.record(Event::H3);
    }

    fn h4(&mut self) {
        self.record(Event::H4);
    }

    fn h5(&mut self) {
        self.record(Event::H5);
    }

    fn h6(&mut self) {
        self.record(Event::H6);
    }

    fn begin_bold(&mut self) {
        self.record(Event::BeginBold);
    }

    fn end_bold(&mut self) {
        self.record(Event::EndBold);
    }

    fn begin_italic(&mut self) {
        self.record(Event::BeginItalic);
    }

    fn end_italic(&mut self) {
        self.record(Event::EndItalic);
    }

    fn begin_inline_code(&mut self) {
        self.record(Event::BeginInlineCode);
    }

    fn end_inline_code(&mut self) {
        self.record(Event::EndInlineCode);
    }

    fn begin_label(&mut self) {
        self.record(Event::BeginLabel);
    }

    fn end_label(&mut self) {
        self.record(Event::EndLabel);
    }

    fn url(&mut self, url: &str) {
        self.record(Event::Url(url.to_owned()));
    }

    fn word(&mut self, text: &str) {
        self.record(Event::Word(text.to_owned()));
    }

    fn image(&mut self) {
        self.record(Event::Image);
    }

    fn line_break(&mut self) {
        self.record(Event::LineBreak);
    }
}

} // verus!
