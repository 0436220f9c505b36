//! The interpreter's run loop as a state machine.
//!
//! A script is fed one line at a time. Where a directive needs a text width
//! that only the rendering surface can measure, the session asks for it and
//! waits; the width is then fed back, and so on until the directive is done.
use vstd::prelude::*;
use crate::layout::{
    apply_result, follows, text_result, textbox_result, DrawOp, Layout,
};
use crate::script::{
    arg_text, has_arg, is_skipped, key_of, key_text, needs_arg, parse_line, Key, LayoutError, Line,
};
use crate::wrap::{join, words_of, wrap_lines, Wrapper};

verus! {

/// A directive waiting for a measured width.
pub enum Pending {
    /// Nothing is waiting; the next line may come.
    Idle,
    /// A `text` line waits for its own width.
    Text(String),
    /// A `textbox` waits for the width of its wrapper's next candidate line.
    Box(Wrapper),
}

/// What the session asks of its driver.
#[derive(Debug)]
pub enum Action {
    /// The line was blank or a comment.
    Skip,
    /// The line's key is not recognised; it is ignored.
    Unknown,
    /// Draw these operations; the directive is done.
    Draw(Vec<DrawOp>),
    /// Measure this text in the current font and feed its width back.
    Measure(String),
}

/// A run of a script.
pub struct Session {
    layout: Layout,
    pending: Pending,
}

impl Session {
    /// The layout state.
    pub closed spec fn state(&self) -> Layout {
        self.layout
    }

    /// Whether no directive is waiting for a width.
    pub closed spec fn idle(&self) -> bool {
        self.pending is Idle
    }

    /// The `text` line waiting for its width, if any.
    pub closed spec fn waiting_text(&self) -> Option<Seq<char>> {
        match self.pending {
            Pending::Text(t) => Some(t@),
            _ => None,
        }
    }

    /// The wrapper of the `textbox` waiting for a width, if any.
    pub closed spec fn waiting_box(&self) -> Option<Wrapper> {
        match self.pending {
            Pending::Box(w) => Some(w),
            _ => None,
        }
    }

    pub closed spec fn wf(&self) -> bool {
        &&& self.layout.wf()
        &&& match self.pending {
            Pending::Box(w) => w.wf() && w.fits().len() < w.words().len(),
            _ => true,
        }
    }

    /// A session at the start of a script.
    pub fn new() -> (r: Session)
        ensures
            r.wf(),
            r.idle(),
            r.state() == Layout::new_spec(),
    {
        Session { layout: Layout::new(), pending: Pending::Idle }
    }

    /// The layout state.
    pub fn layout(&self) -> (r: Layout)
        ensures
            r == self.state(),
    {
        self.layout
    }

    /// Goes on with a `textbox`: asks for the next candidate's width, or
    /// draws the box once every word is placed.
    fn continue_box(&mut self, w: Wrapper) -> (r: Result<Action, LayoutError>)
        requires
            old(self).layout.wf(),
            w.wf(),
        ensures
            final(self).wf(),
            w.fits().len() < w.words().len() ==> {
                &&& final(self).waiting_box() == Some(w)
                &&& final(self).state() == old(self).state()
                &&& r matches Ok(Action::Measure(c))
                &&& r->Ok_0->Measure_0@ == join(
                    w.current_words().push(w.words()[w.fits().len() as int]),
                )
            },
            w.fits().len() == w.words().len() ==> {
                &&& final(self).idle()
                &&& box_done(textbox_result(old(self).state(), wrap_lines(w.words(), w.fits())),
                    old(self).state(), final(self).state(), r)
            },
    {
        match w.candidate() {
            Some(c) => {
                self.pending = Pending::Box(w);
                Ok(Action::Measure(c))
            },
            None => {
                self.pending = Pending::Idle;
                let r = self.layout.finish_textbox(w);
                match r {
                    Ok(ops) => Ok(Action::Draw(ops)),
                    Err(e) => Err(e),
                }
            },
        }
    }

    /// Feeds the next script line.
    pub fn feed_line(&mut self, line: &str) -> (r: Result<Action, LayoutError>)
        requires
            old(self).wf(),
            old(self).idle(),
        ensures
            final(self).wf(),
            is_skipped(line@) ==> (r matches Ok(Action::Skip)) && *final(self) == *old(self),
            !is_skipped(line@) && key_of(key_text(line@)) is None ==> (r matches Ok(
                Action::Unknown,
            )) && *final(self) == *old(self),
            !is_skipped(line@) && key_of(key_text(line@)) is Some ==> ({
                let k = key_of(key_text(line@))->Some_0;
                let arg = arg_text(line@);
                let l = old(self).state();
                if needs_arg(k) && !has_arg(line@) {
                    r == Err::<Action, LayoutError>(LayoutError::MissingArgument)
                        && *final(self) == *old(self)
                } else if k == Key::Text {
                    &&& r matches Ok(Action::Measure(t))
                    &&& r->Ok_0->Measure_0@ == arg
                    &&& final(self).waiting_text() == Some(arg)
                    &&& final(self).state() == l
                } else if k == Key::TextBox {
                    &&& words_of(arg).len() > 0 ==> {
                        &&& r matches Ok(Action::Measure(c))
                        &&& r->Ok_0->Measure_0@ == words_of(arg)[0]
                        &&& final(self).waiting_box() matches Some(w)
                        &&& final(self).waiting_box()->Some_0.words() == words_of(arg)
                        &&& final(self).waiting_box()->Some_0.fits() == Seq::<bool>::empty()
                        &&& final(self).waiting_box()->Some_0.avail() == l.width - 2 * l.pad_x
                        &&& final(self).state() == l
                    }
                    &&& words_of(arg).len() == 0 ==> final(self).idle() && box_done(
                        textbox_result(l, seq![Seq::<char>::empty()]),
                        l,
                        final(self).state(),
                        r,
                    )
                } else {
                    final(self).idle() && box_done(apply_result(l, k, arg), l, final(self).state(), r)
                }
            }),
    {
        let d = match parse_line(line) {
            Ok(Line::Skip) => {
                return Ok(Action::Skip);
            },
            Ok(Line::Unknown) => {
                return Ok(Action::Unknown);
            },
            Ok(Line::Command(d)) => d,
            Err(e) => {
                return Err(e);
            },
        };
        match d.key {
            Key::Text => {
                let t = d.arg.clone();
                self.pending = Pending::Text(d.arg);
                Ok(Action::Measure(t))
            },
            Key::TextBox => {
                let w = self.layout.start_textbox(d.arg.as_str());
                proof {
                    let e = Seq::<Seq<char>>::empty();
                    if w.words().len() > 0 {
                        crate::wrap::lemma_join_push(e, w.words()[0]);
                    } else {
                        assert(wrap_lines(w.words(), w.fits()) =~= seq![Seq::<char>::empty()]);
                    }
                }
                self.continue_box(w)
            },
            _ => {
                let r = self.layout.apply(&d);
                match r {
                    Ok(ops) => Ok(Action::Draw(ops)),
                    Err(e) => Err(e),
                }
            },
        }
    }

    /// Feeds the width, in thousandths, of the text last asked for.
    pub fn feed_width(&mut self, measured: i64) -> (r: Result<Action, LayoutError>)
        requires
            old(self).wf(),
            !old(self).idle(),
        ensures
            final(self).wf(),
            old(self).waiting_text() matches Some(t) ==> final(self).idle() && box_done(
                text_result(old(self).state(), t, measured as int),
                old(self).state(),
                final(self).state(),
                r,
            ),
            old(self).waiting_box() is Some ==> ({
                let w = old(self).waiting_box()->Some_0;
                let fits = w.fits().push(measured <= w.avail());
                if fits.len() < w.words().len() {
                    &&& r matches Ok(Action::Measure(c))
                    &&& final(self).state() == old(self).state()
                    &&& final(self).waiting_box() matches Some(w2)
                    &&& final(self).waiting_box()->Some_0.words() == w.words()
                    &&& final(self).waiting_box()->Some_0.avail() == w.avail()
                    &&& final(self).waiting_box()->Some_0.fits() == fits
                    &&& r->Ok_0->Measure_0@ == join(
                        final(self).waiting_box()->Some_0.current_words().push(
                            w.words()[fits.len() as int],
                        ),
                    )
                } else {
                    final(self).idle() && box_done(
                        textbox_result(old(self).state(), wrap_lines(w.words(), fits)),
                        old(self).state(),
                        final(self).state(),
                        r,
                    )
                }
            }),
    {
        let mut pending = Pending::Idle;
        std::mem::swap(&mut pending, &mut self.pending);
        match pending {
            Pending::Text(t) => {
                let r = self.layout.place_text(t.as_str(), measured);
                match r {
                    Ok(ops) => Ok(Action::Draw(ops)),
                    Err(e) => Err(e),
                }
            },
            Pending::Box(w) => {
                let mut w = w;
                w.feed(measured);
                self.continue_box(w)
            },
            Pending::Idle => Ok(Action::Skip),
        }
    }
}

/// The outcome of a directive that draws: as `follows` states it, with the
/// operations handed out in `Action::Draw`.
pub open spec fn box_done(
    spec: Result<(Layout, Seq<crate::layout::Op>), LayoutError>,
    before: Layout,
    after: Layout,
    r: Result<Action, LayoutError>,
) -> bool {
    match r {
        Ok(Action::Draw(ops)) => follows(spec, before, after, Ok(ops)),
        Ok(_) => false,
        Err(e) => follows(spec, before, after, Err(e)),
    }
}

} // verus!
