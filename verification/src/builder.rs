//! The builder: owns the in-progress document and all nested-markup
//! accumulation state. Open spans are kept as a stack of typed frames;
//! each `start_*` pushes a frame and each `end_*` pops one and finalizes
//! it into whatever destination is then on top — an enclosing frame, or
//! the currently open line. Operations against an inconsistent
//! destination are defensive no-ops.

use vstd::prelude::*;
use vstd::string::StrSliceExecFns;

use crate::ast::{
    doc_view, lemma_doc_view_push, lemma_tokens_view_push, line_view, token_view, tokens_view,
    Document, GLine, GToken, HeaderLevel, Line, Token,
};

verus! {

broadcast use vstd::seq::group_seq_axioms, vstd::std_specs::vec::group_vec_axioms;

/// The kind of an open accumulation frame.
#[derive(Debug, PartialEq, Eq, Clone, Copy, Structural)]
pub enum FrameKind {
    Bold,
    Italic,
    InlineCode,
    Label,
}

/// One open accumulation frame: its kind and the tokens gathered so far.
#[derive(Debug)]
pub struct Frame {
    /// Which construct this frame accumulates for.
    pub kind: FrameKind,
    /// The tokens gathered so far, oldest first.
    pub tokens: Vec<Token>,
}

/// The mathematical shape of one open frame.
#[verifier::ext_equal]
pub struct GFrame {
    /// Which construct this frame accumulates for.
    pub kind: FrameKind,
    /// The tokens gathered so far.
    pub tokens: Seq<GToken>,
}

/// The mathematical shape of the whole builder: the lines built so far,
/// the stack of open frames, and a closed label awaiting its URL.
#[verifier::ext_equal]
pub struct BModel {
    /// The lines built so far, in source order.
    pub lines: Seq<GLine>,
    /// The stack of open frames, innermost last.
    pub frames: Seq<GFrame>,
    /// A closed label's tokens, waiting for `add_url` to attach them.
    pub pending: Option<Seq<GToken>>,
}

/// The view of a frame stack.
pub open spec fn frames_view(fs: Seq<Frame>) -> Seq<GFrame> {
    Seq::new(fs.len(), |i: int| GFrame { kind: fs[i].kind, tokens: tokens_view(fs[i].tokens@) })
}

/// A builder with nothing built and nothing open.
pub open spec fn bm_init() -> BModel {
    BModel { lines: Seq::empty(), frames: Seq::empty(), pending: None }
}

/// The token a closing frame turns into.
pub open spec fn g_wrap(kind: FrameKind, ts: Seq<GToken>) -> GToken {
    match kind {
        FrameKind::Bold => GToken::Bold(ts),
        FrameKind::Italic => GToken::Italic(ts),
        FrameKind::InlineCode => GToken::InlineCode(ts),
        FrameKind::Label => GToken::Bold(ts),
    }
}

/// Where a finished token goes: the innermost open frame if any, else the
/// open line's own token sequence — a header's or paragraph's tokens, or
/// an image's label — and nowhere on a blank line or an empty document.
pub open spec fn bm_finish_token(m: BModel, t: GToken) -> BModel {
    if m.frames.len() > 0 {
        let f = m.frames.last();
        BModel {
            frames: m.frames.update(
                m.frames.len() - 1,
                GFrame { kind: f.kind, tokens: f.tokens.push(t) },
            ),
            ..m
        }
    } else if m.lines.len() > 0 {
        let li = m.lines.len() - 1;
        match m.lines.last() {
            GLine::Header { level, tokens } => BModel {
                lines: m.lines.update(li, GLine::Header { level, tokens: tokens.push(t) }),
                ..m
            },
            GLine::Paragraph(ts) => BModel {
                lines: m.lines.update(li, GLine::Paragraph(ts.push(t))),
                ..m
            },
            GLine::Image { label, url } => BModel {
                lines: m.lines.update(li, GLine::Image { label: label.push(t), url }),
                ..m
            },
            GLine::Blank => m,
        }
    } else {
        m
    }
}

/// Where a plain word goes: the innermost open frame, else the open
/// header or paragraph line; words are dropped on an image or blank line
/// and when no line is open.
pub open spec fn bm_add_word(m: BModel, w: Seq<char>) -> BModel {
    if m.frames.len() > 0 {
        bm_finish_token(m, GToken::Regular(w))
    } else if m.lines.len() > 0 {
        match m.lines.last() {
            GLine::Header { .. } => bm_finish_token(m, GToken::Regular(w)),
            GLine::Paragraph(..) => bm_finish_token(m, GToken::Regular(w)),
            _ => m,
        }
    } else {
        m
    }
}

/// Opening a span pushes an empty frame of its kind.
pub open spec fn bm_start(m: BModel, kind: FrameKind) -> BModel {
    BModel { frames: m.frames.push(GFrame { kind, tokens: Seq::empty() }), ..m }
}

/// Closing a span pops its frame, when the innermost frame is of the
/// matching kind, and finalizes it: emphasis and code wrap their tokens
/// and land at the new destination; a label's tokens are held for the
/// URL that follows. A close with no matching open does nothing.
pub open spec fn bm_end(m: BModel, kind: FrameKind) -> BModel {
    if m.frames.len() > 0 && m.frames.last().kind == kind {
        let f = m.frames.last();
        let m1 = BModel { frames: m.frames.drop_last(), ..m };
        if kind == FrameKind::Label {
            BModel { pending: Some(f.tokens), ..m1 }
        } else {
            bm_finish_token(m1, g_wrap(kind, f.tokens))
        }
    } else {
        m
    }
}

/// Attaching a URL: the held label and the URL fill the open image line
/// when one is open, bare, and still unfilled; otherwise they become a
/// link token at the current destination. Without a held label this does
/// nothing.
pub open spec fn bm_add_url(m: BModel, u: Seq<char>) -> BModel {
    match m.pending {
        Some(lab) => {
            let m1 = BModel { pending: None, ..m };
            if m.frames.len() == 0 && m.lines.len() > 0 {
                match m.lines.last() {
                    GLine::Image { label, url } => if url.len() == 0 {
                        BModel {
                            lines: m.lines.update(
                                m.lines.len() - 1,
                                GLine::Image { label: lab, url: u },
                            ),
                            ..m1
                        }
                    } else {
                        bm_finish_token(m1, GToken::Link { label: lab, url: u })
                    },
                    _ => bm_finish_token(m1, GToken::Link { label: lab, url: u }),
                }
            } else {
                bm_finish_token(m1, GToken::Link { label: lab, url: u })
            }
        },
        None => m,
    }
}

/// Opening a header line.
pub open spec fn bm_add_header(m: BModel, level: HeaderLevel) -> BModel {
    BModel { lines: m.lines.push(GLine::Header { level, tokens: Seq::empty() }), ..m }
}

/// Opening a paragraph line.
pub open spec fn bm_add_text(m: BModel) -> BModel {
    BModel { lines: m.lines.push(GLine::Paragraph(Seq::empty())), ..m }
}

/// Opening an image line, its label and URL still empty.
pub open spec fn bm_add_image(m: BModel) -> BModel {
    BModel {
        lines: m.lines.push(GLine::Image { label: Seq::empty(), url: Seq::empty() }),
        ..m
    }
}

/// Recording a blank line.
pub open spec fn bm_blank_line(m: BModel) -> BModel {
    BModel { lines: m.lines.push(GLine::Blank), ..m }
}

/// Ending a line discards every open frame and any held label; the lines
/// built so far stay.
pub open spec fn bm_end_line(m: BModel) -> BModel {
    BModel { lines: m.lines, frames: Seq::empty(), pending: None }
}

/// The builder. All operations are driven by the parser; the document
/// can be taken at any point.
#[derive(Debug)]
pub struct Builder {
    lines: Vec<Line>,
    frames: Vec<Frame>,
    pending: Option<Vec<Token>>,
}

impl View for Builder {
    type V = BModel;

    closed spec fn view(&self) -> BModel {
        BModel {
            lines: doc_view(self.lines@),
            frames: frames_view(self.frames@),
            pending: match self.pending {
                Some(v) => Some(tokens_view(v@)),
                None => None,
            },
        }
    }
}

impl Builder {
    /// A builder with nothing built and nothing open.
    pub fn new() -> (r: Builder)
        ensures
            r@ == bm_init(),
    {
        let r = Builder { lines: Vec::new(), frames: Vec::new(), pending: None };
        proof {
            assert(r@ =~= bm_init());
        }
        r
    }

    /// A copy of the document built so far.
    pub fn get_document(&self) -> (d: Document)
        ensures
            doc_view(d@) == self@.lines,
    {
        let d = self.lines.clone();
        proof {
            assert forall|i: int| 0 <= i < d@.len() implies line_view(d@[i]) == line_view(
                self.lines@[i],
            ) by {
                assert(vstd::pervasive::cloned::<Line>(self.lines@[i], d@[i]));
            }
            assert(doc_view(d@) =~= self@.lines);
        }
        d
    }

    /// Appends one line to the document.
    fn push_line(&mut self, l: Line)
        ensures
            final(self)@ == (BModel { lines: old(self)@.lines.push(line_view(l)), ..old(self)@ }),
    {
        let ghost gl = l;
        self.lines.push(l);
        proof {
            lemma_doc_view_push(old(self).lines@, gl);
            assert(self@ =~= (BModel { lines: old(self)@.lines.push(line_view(gl)), ..old(self)@ }));
        }
    }

    /// Opens a header line of the given level.
    pub fn add_header(&mut self, level: HeaderLevel)
        ensures
            final(self)@ == bm_add_header(old(self)@, level),
    {
        self.push_line(Line::Header { level, tokens: Vec::new() });
        proof {
            assert(tokens_view(Seq::<Token>::empty()) =~= Seq::<GToken>::empty());
            assert(self@ =~= bm_add_header(old(self)@, level));
        }
    }

    /// Opens a paragraph line.
    pub fn add_text(&mut self)
        ensures
            final(self)@ == bm_add_text(old(self)@),
    {
        self.push_line(Line::Paragraph(Vec::new()));
        proof {
            assert(tokens_view(Seq::<Token>::empty()) =~= Seq::<GToken>::empty());
            assert(self@ =~= bm_add_text(old(self)@));
        }
    }

    /// Opens an image line, its label and URL still empty.
    pub fn add_image(&mut self)
        ensures
            final(self)@ == bm_add_image(old(self)@),
    {
        self.push_line(Line::Image { label: Vec::new(), url: String::new() });
        proof {
            assert(tokens_view(Seq::<Token>::empty()) =~= Seq::<GToken>::empty());
            assert(self@ =~= bm_add_image(old(self)@));
        }
    }

    /// Records a blank line.
    pub fn blank_line(&mut self)
        ensures
            final(self)@ == bm_blank_line(old(self)@),
    {
        self.push_line(Line::Blank);
        proof {
            assert(self@ =~= bm_blank_line(old(self)@));
        }
    }

    /// Deposits a finished token at the current destination.
    fn finish_token(&mut self, t: Token)
        ensures
            final(self)@ == bm_finish_token(old(self)@, token_view(t)),
    {
        let ghost gt = token_view(t);
        let ghost gtok = t;
        if self.frames.len() > 0 {
            match self.frames.pop() {
                Some(f) => {
                    let mut f = f;
                    let ghost f0 = f;
                    f.tokens.push(t);
                    self.frames.push(f);
                    proof {
                        lemma_tokens_view_push(f0.tokens@, gtok);
                        assert(self@ =~= bm_finish_token(old(self)@, gt));
                    }
                },
                None => {
                    proof {
                        assert(false);
                    }
                },
            }
        } else if self.lines.len() > 0 {
            match self.lines.pop() {
                Some(l) => {
                    match l {
                        Line::Header { level, tokens } => {
                            let mut ts = tokens;
                            let ghost ts0 = ts@;
                            ts.push(t);
                            self.lines.push(Line::Header { level, tokens: ts });
                            proof {
                                lemma_tokens_view_push(ts0, gtok);
                                assert(self@ =~= bm_finish_token(old(self)@, gt));
                            }
                        },
                        Line::Paragraph(tokens) => {
                            let mut ts = tokens;
                            let ghost ts0 = ts@;
                            ts.push(t);
                            self.lines.push(Line::Paragraph(ts));
                            proof {
                                lemma_tokens_view_push(ts0, gtok);
                                assert(self@ =~= bm_finish_token(old(self)@, gt));
                            }
                        },
                        Line::Image { label, url } => {
                            let mut ts = label;
                            let ghost ts0 = ts@;
                            ts.push(t);
                            self.lines.push(Line::Image { label: ts, url });
                            proof {
                                lemma_tokens_view_push(ts0, gtok);
                                assert(self@ =~= bm_finish_token(old(self)@, gt));
                            }
                        },
                        Line::Blank => {
                            self.lines.push(Line::Blank);
                            proof {
                                assert(self@ =~= bm_finish_token(old(self)@, gt));
                            }
                        },
                    }
                },
                None => {
                    proof {
                        assert(false);
                    }
                },
            }
        } else {
            proof {
                assert(self@ =~= bm_finish_token(old(self)@, gt));
            }
        }
    }

    /// Appends a plain word at the current destination; words are
    /// dropped when no line is open or the open line takes no free
    /// tokens.
    pub fn add_word(&mut self, word: &str)
        ensures
            final(self)@ == bm_add_word(old(self)@, word@),
    {
        let t = Token::Regular(word.to_owned());
        proof {
            assert(token_view(t) == GToken::Regular(word@));
        }
        if self.frames.len() > 0 {
            self.finish_token(t);
        } else if self.lines.len() > 0 {
            let idx = self.lines.len() - 1;
            let accepts = match &self.lines[idx] {
                Line::Header { .. } => true,
                Line::Paragraph(..) => true,
                _ => false,
            };
            if accepts {
                self.finish_token(t);
            }
        }
    }

    /// Opens an accumulation frame.
    fn push_frame(&mut self, kind: FrameKind)
        ensures
            final(self)@ == bm_start(old(self)@, kind),
    {
        self.frames.push(Frame { kind, tokens: Vec::new() });
        proof {
            assert(tokens_view(Seq::<Token>::empty()) =~= Seq::<GToken>::empty());
            assert(self@ =~= bm_start(old(self)@, kind));
        }
    }

    /// Closes an emphasis or code frame and finalizes its token.
    fn end_span(&mut self, kind: FrameKind)
        requires
            kind != FrameKind::Label,
        ensures
            final(self)@ == bm_end(old(self)@, kind),
    {
        if self.frames.len() == 0 {
            proof {
                assert(self@ =~= bm_end(old(self)@, kind));
            }
            return ;
        }
        match self.frames.pop() {
            Some(f) => {
                if f.kind == kind {
                    let ghost f0 = f;
                    let tok = match kind {
                        FrameKind::Bold => Token::Bold(f.tokens),
                        FrameKind::Italic => Token::Italic(f.tokens),
                        FrameKind::InlineCode => Token::InlineCode(f.tokens),
                        FrameKind::Label => Token::Bold(f.tokens),
                    };
                    proof {
                        assert(token_view(tok) == g_wrap(kind, tokens_view(f0.tokens@)));
                        assert(self@ =~= (BModel {
                            frames: old(self)@.frames.drop_last(),
                            ..old(self)@
                        }));
                    }
                    self.finish_token(tok);
                    proof {
                        assert(self@ =~= bm_end(old(self)@, kind));
                    }
                } else {
                    self.frames.push(f);
                    proof {
                        assert(self@ =~= old(self)@);
                        assert(self@ =~= bm_end(old(self)@, kind));
                    }
                }
            },
            None => {
                proof {
                    assert(false);
                }
            },
        }
    }

    /// Closes a bold frame.
    pub fn start_bold(&mut self)
        ensures
            final(self)@ == bm_start(old(self)@, FrameKind::Bold),
    {
        self.push_frame(FrameKind::Bold);
    }

    /// Closes the innermost bold frame into the current destination.
    pub fn end_bold(&mut self)
        ensures
            final(self)@ == bm_end(old(self)@, FrameKind::Bold),
    {
        self.end_span(FrameKind::Bold);
    }

    /// Opens an italic frame.
    pub fn start_italic(&mut self)
        ensures
            final(self)@ == bm_start(old(self)@, FrameKind::Italic),
    {
        self.push_frame(FrameKind::Italic);
    }

    /// Closes the innermost italic frame into the current destination.
    pub fn end_italic(&mut self)
        ensures
            final(self)@ == bm_end(old(self)@, FrameKind::Italic),
    {
        self.end_span(FrameKind::Italic);
    }

    /// Opens an inline-code frame.
    pub fn start_inline_code(&mut self)
        ensures
            final(self)@ == bm_start(old(self)@, FrameKind::InlineCode),
    {
        self.push_frame(FrameKind::InlineCode);
    }

    /// Closes the innermost inline-code frame into the current
    /// destination.
    pub fn end_inline_code(&mut self)
        ensures
            final(self)@ == bm_end(old(self)@, FrameKind::InlineCode),
    {
        self.end_span(FrameKind::InlineCode);
    }

    /// Opens a label frame for an in-progress link.
    pub fn start_label(&mut self)
        ensures
            final(self)@ == bm_start(old(self)@, FrameKind::Label),
    {
        self.push_frame(FrameKind::Label);
    }

    /// Closes the innermost label frame; its tokens are held until the
    /// URL arrives.
    pub fn end_label(&mut self)
        ensures
            final(self)@ == bm_end(old(self)@, FrameKind::Label),
    {
        if self.frames.len() == 0 {
            proof {
                assert(self@ =~= bm_end(old(self)@, FrameKind::Label));
            }
            return ;
        }
        match self.frames.pop() {
            Some(f) => {
                if f.kind == FrameKind::Label {
                    self.pending = Some(f.tokens);
                    proof {
                        assert(self@ =~= bm_end(old(self)@, FrameKind::Label));
                    }
                } else {
                    self.frames.push(f);
                    proof {
                        assert(self@ =~= old(self)@);
                        assert(self@ =~= bm_end(old(self)@, FrameKind::Label));
                    }
                }
            },
            None => {
                proof {
                    assert(false);
                }
            },
        }
    }

    /// Attaches the held label and the given URL: they fill a bare open
    /// image line, or become a link token at the current destination.
    pub fn add_url(&mut self, url: &str)
        ensures
            final(self)@ == bm_add_url(old(self)@, url@),
    {
        if !self.pending.is_some() {
            proof {
                assert(self@ =~= bm_add_url(old(self)@, url@));
            }
            return ;
        }
        let lab = self.pending.take().unwrap();
        let ghost glab = tokens_view(lab@);
        if self.frames.len() == 0 && self.lines.len() > 0 {
            match self.lines.pop() {
                Some(l) => {
                    match l {
                        Line::Image { label, url: u0 } => {
                            if u0.as_str().is_empty() {
                                self.lines.push(Line::Image { label: lab, url: url.to_owned() });
                                proof {
                                    assert(self@ =~= bm_add_url(old(self)@, url@));
                                }
                            } else {
                                self.lines.push(Line::Image { label, url: u0 });
                                proof {
                                    assert(self@ =~= (BModel {
                                        pending: None,
                                        ..old(self)@
                                    }));
                                }
                                self.finish_token(
                                    Token::Link { label: lab, url: url.to_owned() },
                                );
                                proof {
                                    assert(self@ =~= bm_add_url(old(self)@, url@));
                                }
                            }
                        },
                        other => {
                            self.lines.push(other);
                            proof {
                                assert(self@ =~= (BModel { pending: None, ..old(self)@ }));
                            }
                            self.finish_token(Token::Link { label: lab, url: url.to_owned() });
                            proof {
                                assert(self@ =~= bm_add_url(old(self)@, url@));
                            }
                        },
                    }
                },
                None => {
                    proof {
                        assert(false);
                    }
                },
            }
        } else {
            self.finish_token(Token::Link { label: lab, url: url.to_owned() });
            proof {
                assert(self@ =~= bm_add_url(old(self)@, url@));
            }
        }
    }

    /// Ends the current line: every open frame and any held label are
    /// discarded; the lines built so far stay.
    pub fn end_line(&mut self)
        ensures
            final(self)@ == bm_end_line(old(self)@),
    {
        self.frames.clear();
        self.pending = None;
        proof {
            assert(self@ =~= bm_end_line(old(self)@));
        }
    }
}

} // verus!
