//! The layout state and the drawing operations that directives produce.
use vstd::prelude::*;
use crate::number::{in_range, number_result, parse_number, read_result, read_value, NumberError, MAX_VALUE};
use crate::script::{Directive, Key, LayoutError};
use crate::wrap::{views, words_of, wrap_lines, Wrapper};

verus! {

/// Horizontal alignment of a single line of text within the box width.
#[derive(Debug, Clone, Copy, PartialEq, Eq, Structural)]
pub enum Justify {
    Left,
    Center,
    Right,
}

/// The mode named by a `justify` argument; anything unrecognised is `Left`.
pub open spec fn justify_of(a: Seq<char>) -> Justify {
    if a == seq!['c', 'e', 'n', 't', 'e', 'r'] {
        Justify::Center
    } else if a == seq!['r', 'i', 'g', 'h', 't'] {
        Justify::Right
    } else {
        Justify::Left
    }
}

/// Where a line of measured width `w` starts in a box of width `box_w` whose
/// left edge is at `x`. A centred line is rounded toward the left.
pub open spec fn justified_x(mode: Justify, x: int, box_w: int, w: int) -> int {
    match mode {
        Justify::Left => x,
        Justify::Center => x + (box_w - w) / 2,
        Justify::Right => x + box_w - w,
    }
}

/// The mode named by a `justify` argument.
pub fn parse_justify(a: &str) -> (r: Justify)
    ensures
        r == justify_of(a@),
{
    let cs = crate::number::chars_of(a);
    let center = cs.len() == 6 && cs[0] == 'c' && cs[1] == 'e' && cs[2] == 'n' && cs[3] == 't'
        && cs[4] == 'e' && cs[5] == 'r';
    let right = cs.len() == 5 && cs[0] == 'r' && cs[1] == 'i' && cs[2] == 'g' && cs[3] == 'h'
        && cs[4] == 't';
    proof {
        if cs@ == seq!['c', 'e', 'n', 't', 'e', 'r'] {
            assert(cs@[5] == 'r');
        }
        if cs@ == seq!['r', 'i', 'g', 'h', 't'] {
            assert(cs@[4] == 't');
        }
        if center {
            assert(cs@ =~= seq!['c', 'e', 'n', 't', 'e', 'r']);
        }
        if right {
            assert(cs@ =~= seq!['r', 'i', 'g', 'h', 't']);
        }
    }
    if center {
        Justify::Center
    } else if right {
        Justify::Right
    } else {
        Justify::Left
    }
}

/// Where a line of measured width `w` starts, by the justification mode.
pub fn justify_x(mode: Justify, x: i64, box_w: i64, w: i64) -> (r: i64)
    requires
        in_range(x as int),
        in_range(box_w as int),
        in_range(w as int),
    ensures
        r == justified_x(mode, x as int, box_w as int, w as int),
{
    match mode {
        Justify::Left => x,
        Justify::Center => {
            let d = box_w - w;
            let half = if d >= 0 {
                d / 2
            } else {
                let h = -((1 - d) / 2);
                proof {
                    let q = (1 - d) / 2;
                    assert(d / 2 == -q) by (nonlinear_arith)
                        requires d < 0, q == (1 - d) / 2;
                }
                h
            };
            x + half
        },
        Justify::Right => x + box_w - w,
    }
}

/// A drawing operation on the rendering surface.
#[derive(Debug, Clone, PartialEq, Eq)]
pub enum DrawOp {
    /// Sets the font size for the text that follows.
    SetFontSize(i64),
    /// Moves the pen; text is drawn with its baseline at the pen.
    MoveTo(i64, i64),
    /// Draws text at the pen.
    ShowText(String),
    /// Adds a rectangle path: left, top, width, height.
    Rectangle(i64, i64, i64, i64),
    /// Strokes the rectangle path.
    Stroke,
}

/// A drawing operation, as a value.
pub enum Op {
    SetFontSize(int),
    MoveTo(int, int),
    ShowText(Seq<char>),
    Rectangle(int, int, int, int),
    Stroke,
}

impl View for DrawOp {
    type V = Op;

    open spec fn view(&self) -> Op {
        match self {
            DrawOp::SetFontSize(s) => Op::SetFontSize(*s as int),
            DrawOp::MoveTo(x, y) => Op::MoveTo(*x as int, *y as int),
            DrawOp::ShowText(t) => Op::ShowText(t@),
            DrawOp::Rectangle(x, y, w, h) => Op::Rectangle(*x as int, *y as int, *w as int, *h as int),
            DrawOp::Stroke => Op::Stroke,
        }
    }
}

pub open spec fn ops_view(v: Seq<DrawOp>) -> Seq<Op> {
    v.map_values(|o: DrawOp| o@)
}

/// The layout state, in thousandths of a page unit.
#[derive(Debug, Clone, Copy, PartialEq, Eq, Structural)]
pub struct Layout {
    pub x: i64,
    pub y: i64,
    pub pad_x: i64,
    pub pad_y: i64,
    pub width: i64,
    pub height: i64,
    pub font_size: i64,
    pub justify: Justify,
}

/// A value of the layout state, as read from the expression token `arg`.
pub open spec fn number_to_layout(r: Result<int, NumberError>) -> Result<int, LayoutError> {
    match r {
        Ok(v) => Ok(v),
        Err(NumberError::Malformed) => Err(LayoutError::MalformedNumber),
        Err(NumberError::OutOfRange) => Err(LayoutError::OutOfRange),
    }
}

fn lift(r: Result<i64, NumberError>) -> (s: Result<i64, LayoutError>)
    ensures
        number_to_layout(crate::number::widen(r)) == match s {
            Ok(v) => Ok::<int, LayoutError>(v as int),
            Err(e) => Err::<int, LayoutError>(e),
        },
{
    match r {
        Ok(v) => Ok(v),
        Err(NumberError::Malformed) => Err(LayoutError::MalformedNumber),
        Err(NumberError::OutOfRange) => Err(LayoutError::OutOfRange),
    }
}

impl Layout {
    /// Every quantity is within the range of values.
    pub open spec fn wf(&self) -> bool {
        &&& in_range(self.x as int)
        &&& in_range(self.y as int)
        &&& in_range(self.pad_x as int)
        &&& in_range(self.pad_y as int)
        &&& in_range(self.width as int)
        &&& in_range(self.height as int)
        &&& in_range(self.font_size as int)
    }

    /// The state at the start of a script: cursor at (100, 100), padding 6 on
    /// both axes, a 100 by 100 box, font size 12, left justification.
    pub open spec fn new_spec() -> Layout {
        Layout {
            x: 100_000,
            y: 100_000,
            pad_x: 6000,
            pad_y: 6000,
            width: 100_000,
            height: 100_000,
            font_size: 12_000,
            justify: Justify::Left,
        }
    }

    /// The state at the start of a script.
    pub fn new() -> (r: Layout)
        ensures
            r.wf(),
            r == Layout::new_spec(),
    {
        Layout {
            x: 100_000,
            y: 100_000,
            pad_x: 6000,
            pad_y: 6000,
            width: 100_000,
            height: 100_000,
            font_size: 12_000,
            justify: Justify::Left,
        }
    }
}


/// The state after a directive that sets one quantity from a number.
pub open spec fn set_result(
    l: Layout,
    r: Result<int, NumberError>,
    set: spec_fn(Layout, i64) -> Layout,
    op: Option<spec_fn(int) -> Op>,
) -> Result<(Layout, Seq<Op>), LayoutError> {
    match number_to_layout(r) {
        Ok(v) => Ok(
            (
                set(l, v as i64),
                match op {
                    Some(f) => seq![f(v)],
                    None => Seq::empty(),
                },
            ),
        ),
        Err(e) => Err(e),
    }
}

/// What a directive other than `text` and `textbox` does: the next state and
/// the operations drawn, or the error that stops the script.
pub open spec fn apply_result(l: Layout, key: Key, arg: Seq<char>) -> Result<
    (Layout, Seq<Op>),
    LayoutError,
> {
    match key {
        Key::X => set_result(l, read_result(arg, l.x as int), |l: Layout, v: i64| Layout { x: v, ..l }, None),
        Key::Y => set_result(l, read_result(arg, l.y as int), |l: Layout, v: i64| Layout { y: v, ..l }, None),
        Key::XPad => set_result(
            l,
            read_result(arg, l.pad_x as int),
            |l: Layout, v: i64| Layout { pad_x: v, ..l },
            None,
        ),
        Key::YPad => set_result(
            l,
            read_result(arg, l.pad_y as int),
            |l: Layout, v: i64| Layout { pad_y: v, ..l },
            None,
        ),
        Key::Width => set_result(
            l,
            read_result(arg, l.width as int),
            |l: Layout, v: i64| Layout { width: v, ..l },
            None,
        ),
        Key::Height => set_result(
            l,
            read_result(arg, l.height as int),
            |l: Layout, v: i64| Layout { height: v, ..l },
            None,
        ),
        Key::Spacing => match number_to_layout(number_result(arg)) {
            Ok(v) => if in_range(l.y + v) {
                Ok((Layout { y: (l.y + v) as i64, ..l }, Seq::empty()))
            } else {
                Err(LayoutError::OutOfRange)
            },
            Err(e) => Err(e),
        },
        Key::Size => set_result(
            l,
            number_result(arg),
            |l: Layout, v: i64| Layout { font_size: v, ..l },
            Some(|v: int| Op::SetFontSize(v)),
        ),
        Key::Justify => Ok((Layout { justify: justify_of(arg), ..l }, Seq::empty())),
        Key::Rectangle => Ok(
            (l, seq![Op::Rectangle(l.x as int, l.y as int, l.width as int, l.height as int), Op::Stroke]),
        ),
        Key::TextBox => Ok((l, Seq::empty())),
        Key::Text => Ok((l, Seq::empty())),
    }
}

/// What `text` does with a line whose measured width is `w`: it is drawn with
/// its baseline one font size below the cursor, placed by the justification
/// mode, and the cursor moves down by the font size.
pub open spec fn text_result(l: Layout, text: Seq<char>, w: int) -> Result<
    (Layout, Seq<Op>),
    LayoutError,
> {
    if !in_range(w) || !in_range(l.y + l.font_size) {
        Err(LayoutError::OutOfRange)
    } else {
        Ok(
            (
                Layout { y: (l.y + l.font_size) as i64, ..l },
                seq![
                    Op::MoveTo(justified_x(l.justify, l.x as int, l.width as int, w), l.y + l.font_size),
                    Op::ShowText(text),
                ],
            ),
        )
    }
}

/// The height of a text box of `n` lines: one font size per line and the
/// vertical padding above and below.
pub open spec fn box_height(l: Layout, n: int) -> int {
    2 * l.pad_y + n * l.font_size
}

/// Drawing the lines of a text box: line `k` has its baseline at
/// `y + font_size + pad_y + k * font_size`, inset by `pad_x`.
pub open spec fn line_ops(l: Layout, lines: Seq<Seq<char>>) -> Seq<Op>
    decreases lines.len(),
{
    if lines.len() == 0 {
        Seq::empty()
    } else {
        line_ops(l, lines.drop_last()) + seq![
            Op::MoveTo(
                l.x + l.pad_x,
                l.y + l.font_size + l.pad_y + (lines.len() - 1) * l.font_size,
            ),
            Op::ShowText(lines.last()),
        ]
    }
}

/// What `textbox` does once its text is wrapped into `lines`: the lines are
/// drawn, a rectangle of the box width and the box height frames them, and the
/// cursor moves down by the box height.
pub open spec fn textbox_result(l: Layout, lines: Seq<Seq<char>>) -> Result<
    (Layout, Seq<Op>),
    LayoutError,
> {
    let h = box_height(l, lines.len() as int);
    if !in_range(h) || !in_range(l.y + h) {
        Err(LayoutError::OutOfRange)
    } else {
        Ok(
            (
                Layout { y: (l.y + h) as i64, ..l },
                line_ops(l, lines) + seq![
                    Op::Rectangle(l.x as int, l.y as int, l.width as int, h),
                    Op::Stroke,
                ],
            ),
        )
    }
}

/// A text box whose every candidate line fits holds one line, so its height
/// is one font size and the vertical padding above and below.
pub proof fn lemma_fitting_textbox_height(l: Layout, words: Seq<Seq<char>>, fits: Seq<bool>)
    requires
        fits.len() == words.len(),
        forall|i: int| 0 <= i < fits.len() ==> fits[i],
    ensures
        wrap_lines(words, fits).len() == 1,
        box_height(l, wrap_lines(words, fits).len() as int) == l.font_size + 2 * l.pad_y,
{
    crate::wrap::lemma_fitting_text_is_one_line(words, fits);
}

/// The outcome of a directive against its spec: on success the new state and
/// the operations; on an error the state is unchanged.
pub open spec fn follows(
    spec: Result<(Layout, Seq<Op>), LayoutError>,
    before: Layout,
    after: Layout,
    r: Result<Vec<DrawOp>, LayoutError>,
) -> bool {
    match r {
        Ok(ops) => spec == Ok::<(Layout, Seq<Op>), LayoutError>((after, ops_view(ops@))),
        Err(e) => spec == Err::<(Layout, Seq<Op>), LayoutError>(e) && after == before,
    }
}

fn no_ops() -> (r: Vec<DrawOp>)
    ensures
        ops_view(r@) == Seq::<Op>::empty(),
{
    let r: Vec<DrawOp> = Vec::new();
    proof {
        assert(ops_view(r@) =~= Seq::<Op>::empty());
    }
    r
}

impl Layout {
    /// Runs a directive other than `text` and `textbox`, which need measured
    /// text widths (see `place_text`, `start_textbox` and `finish_textbox`).
    pub fn apply(&mut self, d: &Directive) -> (r: Result<Vec<DrawOp>, LayoutError>)
        requires
            old(self).wf(),
            d.key != Key::Text,
            d.key != Key::TextBox,
        ensures
            final(self).wf(),
            follows(apply_result(*old(self), d.key, d.arg@), *old(self), *final(self), r),
    {
        let arg = d.arg.as_str();
        match d.key {
            Key::X => {
                let v = lift(read_value(arg, self.x));
                if let Ok(v) = v {
                    self.x = v;
                }
                match v {
                    Ok(_) => Ok(no_ops()),
                    Err(e) => Err(e),
                }
            },
            Key::Y => {
                let v = lift(read_value(arg, self.y));
                if let Ok(v) = v {
                    self.y = v;
                }
                match v {
                    Ok(_) => Ok(no_ops()),
                    Err(e) => Err(e),
                }
            },
            Key::XPad => {
                let v = lift(read_value(arg, self.pad_x));
                if let Ok(v) = v {
                    self.pad_x = v;
                }
                match v {
                    Ok(_) => Ok(no_ops()),
                    Err(e) => Err(e),
                }
            },
            Key::YPad => {
                let v = lift(read_value(arg, self.pad_y));
                if let Ok(v) = v {
                    self.pad_y = v;
                }
                match v {
                    Ok(_) => Ok(no_ops()),
                    Err(e) => Err(e),
                }
            },
            Key::Width => {
                let v = lift(read_value(arg, self.width));
                if let Ok(v) = v {
                    self.width = v;
                }
                match v {
                    Ok(_) => Ok(no_ops()),
                    Err(e) => Err(e),
                }
            },
            Key::Height => {
                let v = lift(read_value(arg, self.height));
                if let Ok(v) = v {
                    self.height = v;
                }
                match v {
                    Ok(_) => Ok(no_ops()),
                    Err(e) => Err(e),
                }
            },
            Key::Spacing => {
                match lift(parse_number(arg)) {
                    Ok(v) => {
                        let y = self.y + v;
                        if y < -MAX_VALUE || y > MAX_VALUE {
                            return Err(LayoutError::OutOfRange);
                        }
                        self.y = y;
                        Ok(no_ops())
                    },
                    Err(e) => Err(e),
                }
            },
            Key::Size => {
                match lift(parse_number(arg)) {
                    Ok(v) => {
                        self.font_size = v;
                        let mut ops: Vec<DrawOp> = Vec::new();
                        ops.push(DrawOp::SetFontSize(v));
                        proof {
                            assert(ops_view(ops@) =~= seq![Op::SetFontSize(v as int)]);
                        }
                        Ok(ops)
                    },
                    Err(e) => Err(e),
                }
            },
            Key::Justify => {
                self.justify = parse_justify(arg);
                Ok(no_ops())
            },
            Key::Rectangle => {
                let mut ops: Vec<DrawOp> = Vec::new();
                ops.push(DrawOp::Rectangle(self.x, self.y, self.width, self.height));
                ops.push(DrawOp::Stroke);
                proof {
                    assert(ops_view(ops@) =~= seq![
                        Op::Rectangle(self.x as int, self.y as int, self.width as int, self.height as int),
                        Op::Stroke,
                    ]);
                }
                Ok(ops)
            },
            Key::TextBox => Ok(no_ops()),
            Key::Text => Ok(no_ops()),
        }
    }

    /// Runs `text` for a line whose measured width is `measured`.
    pub fn place_text(&mut self, text: &str, measured: i64) -> (r: Result<Vec<DrawOp>, LayoutError>)
        requires
            old(self).wf(),
        ensures
            final(self).wf(),
            follows(text_result(*old(self), text@, measured as int), *old(self), *final(self), r),
    {
        if measured < -MAX_VALUE || measured > MAX_VALUE {
            return Err(LayoutError::OutOfRange);
        }
        let base = self.y + self.font_size;
        if base < -MAX_VALUE || base > MAX_VALUE {
            return Err(LayoutError::OutOfRange);
        }
        let x = justify_x(self.justify, self.x, self.width, measured);
        let mut ops: Vec<DrawOp> = Vec::new();
        ops.push(DrawOp::MoveTo(x, base));
        ops.push(DrawOp::ShowText(text.to_owned()));
        proof {
            assert(ops_view(ops@) =~= seq![Op::MoveTo(x as int, base as int), Op::ShowText(text@)]);
        }
        self.y = base;
        Ok(ops)
    }

    /// Starts `textbox` on `text`: lines may take the box width less the
    /// horizontal padding on both sides.
    pub fn start_textbox(&self, text: &str) -> (w: Wrapper)
        requires
            self.wf(),
        ensures
            w.wf(),
            w.words() == words_of(text@),
            w.avail() == self.width - 2 * self.pad_x,
            w.fits() == Seq::<bool>::empty(),
            w.current_words() == Seq::<Seq<char>>::empty(),
    {
        Wrapper::new(text, self.width - 2 * self.pad_x)
    }

    /// Ends `textbox` once every word of its text is placed.
    pub fn finish_textbox(&mut self, wrapper: Wrapper) -> (r: Result<Vec<DrawOp>, LayoutError>)
        requires
            old(self).wf(),
            wrapper.wf(),
            wrapper.fits().len() == wrapper.words().len(),
        ensures
            final(self).wf(),
            follows(
                textbox_result(*old(self), wrap_lines(wrapper.words(), wrapper.fits())),
                *old(self),
                *final(self),
                r,
            ),
    {
        let ghost l = *self;
        let lines = wrapper.finish();
        let ghost ls = views(lines@);
        let n = lines.len();
        let n_wide = n as i128;
        let fs_wide = self.font_size as i128;
        proof {
            assert(-(0x1_0000_0000_0000_0000 * MAX_VALUE) <= n_wide * fs_wide
                <= 0x1_0000_0000_0000_0000 * MAX_VALUE) by (nonlinear_arith)
                requires
                    0 <= n_wide <= 0x1_0000_0000_0000_0000,
                    -MAX_VALUE <= fs_wide <= MAX_VALUE,
            ;
        }
        let h = 2 * (self.pad_y as i128) + n_wide * fs_wide;
        proof {
            assert(ls.len() == n);
            assert(h == box_height(l, n as int));
        }
        if h < -(MAX_VALUE as i128) || h > MAX_VALUE as i128 {
            return Err(LayoutError::OutOfRange);
        }
        let h = h as i64;
        let bottom = self.y + h;
        if bottom < -MAX_VALUE || bottom > MAX_VALUE {
            return Err(LayoutError::OutOfRange);
        }
        let fs = self.font_size;
        let left = self.x + self.pad_x;
        let mut ops: Vec<DrawOp> = Vec::new();
        let mut baseline: i64 = self.y + fs + self.pad_y;
        let mut k: usize = 0;
        proof {
            assert(ls.take(0) =~= Seq::<Seq<char>>::empty());
            assert(ops_view(ops@) =~= Seq::<Op>::empty());
            let nf = n as int * fs as int;
            assert(-3 * MAX_VALUE <= nf <= 3 * MAX_VALUE);
        }
        while k < n
            invariant
                l == *self,
                l.wf(),
                n == lines@.len(),
                ls == views(lines@),
                k <= n,
                fs == l.font_size,
                left == l.x + l.pad_x,
                -3 * MAX_VALUE <= n as int * fs as int <= 3 * MAX_VALUE,
                baseline == l.y + fs + l.pad_y + k * fs,
                ops_view(ops@) == line_ops(l, ls.take(k as int)),
            decreases n - k,
        {
            let ghost before = ops@;
            ops.push(DrawOp::MoveTo(left, baseline));
            ops.push(DrawOp::ShowText(lines[k].clone()));
            proof {
                let t = ls.take(k + 1);
                assert(t.drop_last() =~= ls.take(k as int));
                assert(t.last() == lines@[k as int]@);
                assert(ops_view(ops@) =~= ops_view(before) + seq![
                    Op::MoveTo(left as int, baseline as int),
                    Op::ShowText(lines@[k as int]@),
                ]);
                let kk = (k + 1) as int;
                let nn = n as int;
                let f = fs as int;
                assert(-3 * MAX_VALUE <= kk * f <= 3 * MAX_VALUE) by (nonlinear_arith)
                    requires
                        0 <= kk <= nn,
                        -3 * MAX_VALUE <= nn * f <= 3 * MAX_VALUE,
                ;
                assert(l.y + fs + l.pad_y + kk * f == baseline + f) by (nonlinear_arith)
                    requires
                        baseline == l.y + fs + l.pad_y + k * f,
                        kk == k + 1,
                ;
            }
            baseline = baseline + fs;
            k = k + 1;
        }
        let ghost body = ops@;
        ops.push(DrawOp::Rectangle(self.x, self.y, self.width, h));
        ops.push(DrawOp::Stroke);
        proof {
            assert(ls.take(n as int) =~= ls);
            assert(ops_view(ops@) =~= ops_view(body) + seq![
                Op::Rectangle(l.x as int, l.y as int, l.width as int, h as int),
                Op::Stroke,
            ]);
        }
        self.y = bottom;
        Ok(ops)
    }
}

} // verus!
