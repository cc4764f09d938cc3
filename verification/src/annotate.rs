//! Annotations on a selection: pen, arrow, rectangle and text.
//!
//! Lengths and places are in thousandths of a pixel, in the coordinates of the screen. Moving the
//! selection therefore never moves an annotation.

use vstd::prelude::*;

use crate::text::{chars_of, owned, same, string_of};

verus! {

/// How many colours there are.
pub const COLORS: usize = 6;

/// The stroke widths that there are.
pub const WIDTH_RANGE: (u32, u32) = (1_000, 24_000);

/// The stroke width to begin with.
pub const DEFAULT_WIDTH: u32 = 4_000;

/// The text sizes that there are.
pub const TEXT_SIZE_RANGE: (u32, u32) = (10_000, 120_000);

/// How far the pointer has to move for a new point of the pen, squared.
pub const PEN_MIN_STEP_SQ: i128 = 1_000_000;

/// How far an arrow or a rectangle has to reach in one direction.
pub const MIN_DRAG: i64 = 2_000;

/// The size of a text in terms of the stroke width, as long as no other was chosen.
pub const TEXT_SIZE_PER_WIDTH: u32 = 4;

/// The whole of the slider.
pub const WHOLE: u32 = 1_000_000;

/// What is drawn.
#[derive(Debug, Clone, Copy, PartialEq, Eq, Structural)]
pub enum Tool {
    Pen,
    Arrow,
    Rect,
    Text,
}

impl Tool {
    /// The name of the button.
    pub open spec fn id(self) -> Seq<char> {
        match self {
            Tool::Pen => "tool.pen"@,
            Tool::Arrow => "tool.arrow"@,
            Tool::Rect => "tool.rect"@,
            Tool::Text => "tool.text"@,
        }
    }

    /// The tool of a button.
    pub fn from_button(id: &str) -> (r: Option<Tool>)
        ensures
            match r {
                Some(tool) => id@ == tool.id(),
                None => forall|tool: Tool| id@ != #[trigger] tool.id(),
            },
    {
        if same(id, "tool.pen") {
            return Some(Tool::Pen);
        }
        if same(id, "tool.arrow") {
            return Some(Tool::Arrow);
        }
        if same(id, "tool.rect") {
            return Some(Tool::Rect);
        }
        if same(id, "tool.text") {
            return Some(Tool::Text);
        }
        None
    }

    /// The name of the button.
    pub fn button_id(self) -> (r: &'static str)
        ensures
            r@ == self.id(),
    {
        match self {
            Tool::Pen => "tool.pen",
            Tool::Arrow => "tool.arrow",
            Tool::Rect => "tool.rect",
            Tool::Text => "tool.text",
        }
    }
}

/// No two tools have the same button, so a button leads back to its tool.
pub proof fn buttons_differ(a: Tool, b: Tool)
    requires
        a.id() == b.id(),
    ensures
        a == b,
{
    reveal_strlit("tool.pen");
    reveal_strlit("tool.arrow");
    reveal_strlit("tool.rect");
    reveal_strlit("tool.text");
    assert("tool.pen"@[5] == 'p' && "tool.arrow"@[5] == 'a' && "tool.rect"@[5] == 'r'
        && "tool.text"@[5] == 't');
}

/// A place on the screen.
#[derive(Debug, Clone, Copy, PartialEq, Eq, Structural)]
pub struct Point {
    pub x: i32,
    pub y: i32,
}

/// One annotation. A pen has all its points, an arrow and a rectangle two, a text the one where it
/// begins.
pub struct Stroke {
    pub tool: Tool,
    pub color: usize,
    pub width: u32,
    pub points: Vec<Point>,
    pub text: String,
    pub size: u32,
}

impl Stroke {
    /// The points are as many as the tool has.
    pub open spec fn wf(self) -> bool {
        &&& self.points@.len() >= 1
        &&& (self.tool is Arrow || self.tool is Rect) ==> self.points@.len() == 2
        &&& self.tool is Text ==> self.points@.len() == 1
        &&& self.color < COLORS
    }
}

/// A text that is being typed, and what the input method shows but has not entered yet.
pub struct TextEdit {
    pub stroke: Stroke,
    pub preedit: String,
}

/// All annotations.
pub struct Annotator {
    pub tool: Tool,
    pub color_idx: usize,
    pub width: u32,
    /// The size of the next text, or nothing if it goes by the stroke width.
    pub text_size: Option<u32>,
    pub strokes: Vec<Stroke>,
    pub active: Option<Stroke>,
    pub editing: Option<TextEdit>,
}

/// A number within bounds.
pub open spec fn within(n: int, range: (u32, u32)) -> u32 {
    if n < range.0 {
        range.0
    } else if n > range.1 {
        range.1
    } else {
        n as u32
    }
}

fn bounded(n: u64, range: (u32, u32)) -> (r: u32)
    requires
        range.0 <= range.1,
    ensures
        r == within(n as int, range),
        range.0 <= r <= range.1,
{
    if n < range.0 as u64 {
        range.0
    } else if n > range.1 as u64 {
        range.1
    } else {
        n as u32
    }
}

/// The pointer moved far enough for a new point of the pen.
pub open spec fn is_step(from: Point, to: Point) -> bool {
    let dx = to.x - from.x;
    let dy = to.y - from.y;
    dx * dx + dy * dy >= PEN_MIN_STEP_SQ
}

fn steps(from: Point, to: Point) -> (r: bool)
    ensures
        r == is_step(from, to),
{
    let dx: i128 = to.x as i128 - from.x as i128;
    let dy: i128 = to.y as i128 - from.y as i128;
    assert(0 <= dx * dx <= 0x1_0000_0000 * 0x1_0000_0000) by (nonlinear_arith)
        requires
            -0x1_0000_0000 <= dx <= 0x1_0000_0000,
    ;
    assert(0 <= dy * dy <= 0x1_0000_0000 * 0x1_0000_0000) by (nonlinear_arith)
        requires
            -0x1_0000_0000 <= dy <= 0x1_0000_0000,
    ;
    dx * dx + dy * dy >= PEN_MIN_STEP_SQ
}

/// The two places are far enough apart for an arrow or a rectangle.
pub open spec fn is_drag(from: Point, to: Point) -> bool {
    to.x - from.x > MIN_DRAG || from.x - to.x > MIN_DRAG || to.y - from.y > MIN_DRAG || from.y
        - to.y > MIN_DRAG
}

impl Annotator {
    /// What always holds of the annotations.
    pub open spec fn wf(self) -> bool {
        &&& self.color_idx < COLORS
        &&& WIDTH_RANGE.0 <= self.width <= WIDTH_RANGE.1
        &&& self.text_size matches Some(size) ==> TEXT_SIZE_RANGE.0 <= size <= TEXT_SIZE_RANGE.1
        &&& forall|i: int| 0 <= i < self.strokes@.len() ==> (#[trigger] self.strokes@[i]).wf()
        &&& self.active matches Some(stroke) ==> stroke.wf() && !(stroke.tool is Text)
        &&& self.editing matches Some(edit) ==> edit.stroke.wf() && edit.stroke.tool is Text
    }

    /// The size of the next text.
    pub open spec fn label_size(self) -> u32 {
        match self.text_size {
            Some(size) => size,
            None => within(self.width * TEXT_SIZE_PER_WIDTH, TEXT_SIZE_RANGE),
        }
    }

    /// The bounds of the slider: those of the text for text, else those of the stroke.
    pub open spec fn bounds(self) -> (u32, u32) {
        if self.tool is Text {
            TEXT_SIZE_RANGE
        } else {
            WIDTH_RANGE
        }
    }

    /// What the slider shows.
    pub open spec fn shown_size(self) -> u32 {
        if self.tool is Text {
            self.label_size()
        } else {
            self.width
        }
    }

    /// The annotations after the text that is being typed is finished: it is kept unless it is
    /// empty.
    pub open spec fn committed(self) -> Seq<Stroke> {
        match self.editing {
            Some(edit) => if edit.stroke.text@.len() > 0 {
                self.strokes@.push(edit.stroke)
            } else {
                self.strokes@
            },
            None => self.strokes@,
        }
    }

    /// Nothing is drawn yet.
    pub fn new() -> (a: Annotator)
        ensures
            a.wf(),
            a.tool == Tool::Pen,
            a.color_idx == 0,
            a.width == DEFAULT_WIDTH,
            a.text_size is None,
            a.strokes@.len() == 0,
            a.active is None,
            a.editing is None,
    {
        Annotator {
            tool: Tool::Pen,
            color_idx: 0,
            width: DEFAULT_WIDTH,
            text_size: None,
            strokes: Vec::new(),
            active: None,
            editing: None,
        }
    }

    /// The tool in use.
    pub fn tool(&self) -> (r: Tool)
        ensures
            r == self.tool,
    {
        self.tool
    }

    /// Takes another tool. A text that is being typed is finished, unless the tool is that of texts.
    pub fn set_tool(&mut self, tool: Tool)
        requires
            old(self).wf(),
        ensures
            final(self).wf(),
            final(self).tool == tool,
            final(self).strokes@ == if tool is Text {
                old(self).strokes@
            } else {
                old(self).committed()
            },
            final(self).editing == if tool is Text {
                old(self).editing
            } else {
                None
            },
            final(self).color_idx == old(self).color_idx,
            final(self).width == old(self).width,
            final(self).text_size == old(self).text_size,
            final(self).active == old(self).active,
    {
        match tool {
            Tool::Text => {},
            _ => {
                let _ = self.commit_text();
            },
        }
        self.tool = tool;
    }

    /// The colour in use, by its place in the palette.
    pub fn color_index(&self) -> (r: usize)
        ensures
            r == self.color_idx,
    {
        self.color_idx
    }

    /// Takes another colour, if there is one at that place.
    pub fn set_color_index(&mut self, index: usize)
        requires
            old(self).wf(),
        ensures
            final(self).wf(),
            *final(self) == (Annotator {
                color_idx: if index < COLORS {
                    index
                } else {
                    old(self).color_idx
                },
                ..*old(self)
            }),
    {
        if index < COLORS {
            self.color_idx = index;
        }
    }

    /// The stroke width.
    pub fn width(&self) -> (r: u32)
        ensures
            r == self.width,
    {
        self.width
    }

    /// Sets the stroke width, within its bounds.
    pub fn set_width(&mut self, width: u32)
        requires
            old(self).wf(),
        ensures
            final(self).wf(),
            *final(self) == (Annotator { width: within(width as int, WIDTH_RANGE), ..*old(self) }),
    {
        self.width = bounded(width as u64, WIDTH_RANGE);
    }

    /// The bounds of the slider.
    pub fn size_range(&self) -> (r: (u32, u32))
        ensures
            r == self.bounds(),
    {
        match self.tool {
            Tool::Text => TEXT_SIZE_RANGE,
            _ => WIDTH_RANGE,
        }
    }

    /// What the slider shows.
    pub fn size(&self) -> (r: u32)
        requires
            self.wf(),
        ensures
            r == self.shown_size(),
            self.bounds().0 <= r <= self.bounds().1,
    {
        match self.tool {
            Tool::Text => self.text_size(),
            _ => self.width,
        }
    }

    /// Sets what the slider shows: the size of texts for text, else the stroke width.
    pub fn set_size(&mut self, value: u32)
        requires
            old(self).wf(),
        ensures
            final(self).wf(),
            final(self).resized(*old(self), value as int),
    {
        match self.tool {
            Tool::Text => self.set_text_size(value),
            _ => self.set_width(value),
        }
    }

    /// The size that the slider shows was set.
    pub open spec fn resized(self, before: Annotator, value: int) -> bool {
        &&& self.tool == before.tool
        &&& self.color_idx == before.color_idx
        &&& self.strokes == before.strokes
        &&& self.active == before.active
        &&& if before.tool is Text {
            &&& self.width == before.width
            &&& self.text_size == Some(within(value, TEXT_SIZE_RANGE))
            &&& self.editing == before.edit_sized(within(value, TEXT_SIZE_RANGE))
        } else {
            &&& self.width == within(value, WIDTH_RANGE)
            &&& self.text_size == before.text_size
            &&& self.editing == before.editing
        }
    }

    /// The text that is being typed, in another size.
    pub open spec fn edit_sized(self, size: u32) -> Option<TextEdit> {
        match self.editing {
            Some(edit) => Some(
                TextEdit { stroke: Stroke { size, ..edit.stroke }, preedit: edit.preedit },
            ),
            None => None,
        }
    }

    /// Where the slider stands, in millionths of its length.
    pub fn size_fraction(&self) -> (r: u32)
        requires
            self.wf(),
        ensures
            r == fraction_of(self.shown_size(), self.bounds()),
            r <= WHOLE,
    {
        let range = self.size_range();
        let size: u32 = self.size();
        let over: u64 = (size - range.0) as u64 * 1_000_000;
        let span: u64 = (range.1 - range.0) as u64;
        assert(over / span <= 1_000_000) by (nonlinear_arith)
            requires
                over <= span * 1_000_000,
                span > 0,
        ;
        (over / span) as u32
    }

    /// Moves the slider to a place, in millionths of its length.
    pub fn set_size_fraction(&mut self, fraction: i64)
        requires
            old(self).wf(),
        ensures
            final(self).wf(),
            final(self).resized(*old(self), size_at(fraction as int, old(self).bounds())),
    {
        let range = self.size_range();
        let part: u64 = if fraction < 0 {
            0
        } else if fraction > 1_000_000 {
            1_000_000
        } else {
            fraction as u64
        };
        let span: u64 = (range.1 - range.0) as u64;
        assert(span * part <= 110_000 * 1_000_000) by (nonlinear_arith)
            requires
                span <= 110_000,
                part <= 1_000_000,
        ;
        let value: u64 = range.0 as u64 + (span * part + 500_000) / 1_000_000;
        self.set_size(value as u32);
    }

    /// Moves the slider by a part of its length, in millionths.
    pub fn nudge_size(&mut self, delta: i32)
        requires
            old(self).wf(),
        ensures
            final(self).wf(),
            final(self).resized(
                *old(self),
                size_at(
                    fraction_of(old(self).shown_size(), old(self).bounds()) + delta,
                    old(self).bounds(),
                ),
            ),
    {
        let at: u32 = self.size_fraction();
        self.set_size_fraction(at as i64 + delta as i64);
    }

    /// The size of the next text.
    pub fn text_size(&self) -> (r: u32)
        requires
            self.wf(),
        ensures
            r == self.label_size(),
            TEXT_SIZE_RANGE.0 <= r <= TEXT_SIZE_RANGE.1,
    {
        match self.text_size {
            Some(size) => size,
            None => bounded(self.width as u64 * 4, TEXT_SIZE_RANGE),
        }
    }

    /// Sets the size of texts, within its bounds: of the next one, and of the one that is being
    /// typed. Those that are finished keep theirs.
    pub fn set_text_size(&mut self, size: u32)
        requires
            old(self).wf(),
        ensures
            final(self).wf(),
            *final(self) == (Annotator {
                text_size: Some(within(size as int, TEXT_SIZE_RANGE)),
                editing: old(self).edit_sized(within(size as int, TEXT_SIZE_RANGE)),
                ..*old(self)
            }),
    {
        let size: u32 = bounded(size as u64, TEXT_SIZE_RANGE);
        self.text_size = Some(size);
        let edit = self.editing.take();
        self.editing = match edit {
            Some(e) => {
                let mut e = e;
                e.stroke.size = size;
                Some(e)
            },
            None => None,
        };
    }

    /// Whether a text is being typed.
    pub fn is_editing_text(&self) -> (r: bool)
        ensures
            r == (self.editing is Some),
    {
        self.editing.is_some()
    }

    /// Whether there is anything to keep or to take back.
    pub fn has_content(&self) -> (r: bool)
        ensures
            r == (self.strokes@.len() > 0 || self.editing is Some),
    {
        self.strokes.len() > 0 || self.editing.is_some()
    }

    /// A new stroke at a place, as the settings have it.
    pub open spec fn is_fresh(self, stroke: Stroke, points: Seq<Point>) -> bool {
        &&& stroke.tool == self.tool
        &&& stroke.color == self.color_idx
        &&& stroke.width == self.width
        &&& stroke.points@ == points
        &&& stroke.text@.len() == 0
        &&& stroke.size == self.label_size()
    }

    /// The pointer was pressed. With the tool of texts the one that is being typed is finished, and
    /// another begins. With any other a stroke begins.
    pub fn press(&mut self, at: Point)
        requires
            old(self).wf(),
        ensures
            final(self).wf(),
            final(self).tool == old(self).tool,
            final(self).color_idx == old(self).color_idx,
            final(self).width == old(self).width,
            final(self).text_size == old(self).text_size,
            match old(self).tool {
                Tool::Text => {
                    &&& final(self).strokes@ == old(self).committed()
                    &&& final(self).active == old(self).active
                    &&& final(self).editing matches Some(edit) && old(self).is_fresh(
                        edit.stroke,
                        seq![at],
                    ) && edit.preedit@.len() == 0
                },
                Tool::Pen => {
                    &&& final(self).strokes == old(self).strokes
                    &&& final(self).editing == old(self).editing
                    &&& final(self).active matches Some(stroke) && old(self).is_fresh(
                        stroke,
                        seq![at],
                    )
                },
                _ => {
                    &&& final(self).strokes == old(self).strokes
                    &&& final(self).editing == old(self).editing
                    &&& final(self).active matches Some(stroke) && old(self).is_fresh(
                        stroke,
                        seq![at, at],
                    )
                },
            },
    {
        let mut points: Vec<Point> = Vec::new();
        points.push(at);
        let size: u32 = self.text_size();
        match self.tool {
            Tool::Text => {
                let _ = self.commit_text();
                assert(points@ =~= seq![at]);
                self.editing = Some(
                    TextEdit {
                        stroke: Stroke {
                            tool: Tool::Text,
                            color: self.color_idx,
                            width: self.width,
                            points,
                            text: String::new(),
                            size,
                        },
                        preedit: String::new(),
                    },
                );
            },
            Tool::Pen => {
                assert(points@ =~= seq![at]);
                self.active = Some(
                    Stroke {
                        tool: Tool::Pen,
                        color: self.color_idx,
                        width: self.width,
                        points,
                        text: String::new(),
                        size,
                    },
                );
            },
            _ => {
                points.push(at);
                assert(points@ =~= seq![at, at]);
                self.active = Some(
                    Stroke {
                        tool: self.tool,
                        color: self.color_idx,
                        width: self.width,
                        points,
                        text: String::new(),
                        size,
                    },
                );
            },
        }
    }

    /// The points of a stroke after the pointer moved.
    pub open spec fn moved(stroke: Stroke, to: Point) -> Seq<Point> {
        match stroke.tool {
            Tool::Pen => if is_step(stroke.points@.last(), to) {
                stroke.points@.push(to)
            } else {
                stroke.points@
            },
            Tool::Text => stroke.points@,
            _ => stroke.points@.update(1, to),
        }
    }

    /// The pointer moved: a pen goes on if it went far enough, an arrow and a rectangle reach to
    /// the new place.
    pub fn motion(&mut self, to: Point)
        requires
            old(self).wf(),
        ensures
            final(self).wf(),
            final(self).tool == old(self).tool,
            final(self).color_idx == old(self).color_idx,
            final(self).width == old(self).width,
            final(self).text_size == old(self).text_size,
            final(self).strokes == old(self).strokes,
            final(self).editing == old(self).editing,
            match old(self).active {
                None => final(self).active is None,
                Some(stroke) => final(self).active matches Some(after) && after.points@
                    == Annotator::moved(stroke, to) && after == (Stroke {
                    points: after.points,
                    ..stroke
                }),
            },
    {
        let active = self.active.take();
        match active {
            None => {},
            Some(stroke) => {
                let mut stroke = stroke;
                match stroke.tool {
                    Tool::Pen => {
                        let last: Point = stroke.points[stroke.points.len() - 1];
                        if steps(last, to) {
                            stroke.points.push(to);
                        }
                    },
                    Tool::Text => {},
                    _ => {
                        stroke.points.set(1, to);
                    },
                }
                self.active = Some(stroke);
            },
        }
    }

    /// The stroke that is kept once the pointer is released, if any: a pen with more than one
    /// point, an arrow or a rectangle that is more than a click.
    pub open spec fn is_kept(stroke: Stroke, at: Point) -> bool {
        match stroke.tool {
            Tool::Pen => stroke.points@.len() >= 2,
            Tool::Text => false,
            _ => is_drag(stroke.points@[0], at),
        }
    }

    /// The points of the stroke that is kept.
    pub open spec fn released(stroke: Stroke, at: Point) -> Seq<Point> {
        match stroke.tool {
            Tool::Pen => stroke.points@,
            Tool::Text => stroke.points@,
            _ => stroke.points@.update(1, at),
        }
    }

    /// The pointer was released. Says whether there is a new stroke.
    pub fn release(&mut self, at: Point) -> (added: bool)
        requires
            old(self).wf(),
        ensures
            final(self).wf(),
            final(self).tool == old(self).tool,
            final(self).color_idx == old(self).color_idx,
            final(self).width == old(self).width,
            final(self).text_size == old(self).text_size,
            final(self).editing == old(self).editing,
            final(self).active is None,
            added == (old(self).active matches Some(stroke) && Annotator::is_kept(stroke, at)),
            !added ==> final(self).strokes@ == old(self).strokes@,
            added ==> {
                let stroke = old(self).active->0;
                &&& final(self).strokes@.len() == old(self).strokes@.len() + 1
                &&& final(self).strokes@.drop_last() == old(self).strokes@
                &&& final(self).strokes@.last().points@ == Annotator::released(stroke, at)
                &&& final(self).strokes@.last() == (Stroke {
                    points: final(self).strokes@.last().points,
                    ..stroke
                })
            },
    {
        let ghost before = self.strokes@;
        let active = self.active.take();
        match active {
            None => false,
            Some(stroke) => {
                let mut stroke = stroke;
                let keep: bool = match stroke.tool {
                    Tool::Pen => stroke.points.len() >= 2,
                    Tool::Text => false,
                    _ => {
                        let from: Point = stroke.points[0];
                        let dx: i64 = at.x as i64 - from.x as i64;
                        let dy: i64 = at.y as i64 - from.y as i64;
                        stroke.points.set(1, at);
                        dx > MIN_DRAG || -dx > MIN_DRAG || dy > MIN_DRAG || -dy > MIN_DRAG
                    },
                };
                if keep {
                    self.strokes.push(stroke);
                    assert(self.strokes@.drop_last() =~= before);
                }
                keep
            },
        }
    }

    /// The text that is being typed with something entered at its end.
    pub open spec fn typed(edit: TextEdit, after: TextEdit, text: Seq<char>) -> bool {
        &&& after.stroke.text@ == edit.stroke.text@ + text
        &&& after.stroke == (Stroke { text: after.stroke.text, ..edit.stroke })
        &&& after.preedit@.len() == 0
    }

    /// Enters text. What the input method was showing is gone.
    pub fn type_str(&mut self, text: &str)
        requires
            old(self).wf(),
        ensures
            final(self).wf(),
            *final(self) == (Annotator { editing: final(self).editing, ..*old(self) }),
            match old(self).editing {
                None => final(self).editing is None,
                Some(edit) => final(self).editing matches Some(after) && Annotator::typed(
                    edit,
                    after,
                    text@,
                ),
            },
    {
        let edit = self.editing.take();
        match edit {
            None => {},
            Some(edit) => {
                let mut edit = edit;
                edit.stroke.text.append(text);
                edit.preedit = String::new();
                self.editing = Some(edit);
            },
        }
    }

    /// Enters one character.
    pub fn type_char(&mut self, ch: char)
        requires
            old(self).wf(),
        ensures
            final(self).wf(),
            *final(self) == (Annotator { editing: final(self).editing, ..*old(self) }),
            match old(self).editing {
                None => final(self).editing is None,
                Some(edit) => final(self).editing matches Some(after) && Annotator::typed(
                    edit,
                    after,
                    seq![ch],
                ),
            },
    {
        let mut text = String::new();
        text.push(ch);
        assert(text@ =~= seq![ch]);
        self.type_str(text.as_str());
    }

    /// Shows what the input method has not entered yet.
    pub fn set_preedit(&mut self, text: &str)
        requires
            old(self).wf(),
        ensures
            final(self).wf(),
            *final(self) == (Annotator { editing: final(self).editing, ..*old(self) }),
            match old(self).editing {
                None => final(self).editing is None,
                Some(edit) => final(self).editing matches Some(after) && after.preedit@ == text@
                    && after.stroke == edit.stroke,
            },
    {
        let edit = self.editing.take();
        match edit {
            None => {},
            Some(edit) => {
                let mut edit = edit;
                edit.preedit = owned(text);
                self.editing = Some(edit);
            },
        }
    }

    /// What the input method shows and has not entered.
    pub fn preedit(&self) -> (s: String)
        ensures
            s@ == match self.editing {
                Some(edit) => edit.preedit@,
                None => Seq::empty(),
            },
    {
        match &self.editing {
            Some(edit) => edit.preedit.clone(),
            None => String::new(),
        }
    }

    /// Where the text that is being typed begins.
    pub fn caret_anchor(&self) -> (r: Option<Point>)
        requires
            self.wf(),
        ensures
            r == match self.editing {
                Some(edit) => Some(edit.stroke.points@[0]),
                None => None,
            },
    {
        match &self.editing {
            Some(edit) => Some(edit.stroke.points[0]),
            None => None,
        }
    }

    /// Takes back what the input method shows, or else the last character that was entered.
    pub fn backspace(&mut self)
        requires
            old(self).wf(),
        ensures
            final(self).wf(),
            *final(self) == (Annotator { editing: final(self).editing, ..*old(self) }),
            match old(self).editing {
                None => final(self).editing is None,
                Some(edit) => final(self).editing matches Some(after) && after.preedit@.len() == 0
                    && after.stroke == (Stroke { text: after.stroke.text, ..edit.stroke })
                    && after.stroke.text@ == if edit.preedit@.len() > 0
                    || edit.stroke.text@.len() == 0 {
                    edit.stroke.text@
                } else {
                    edit.stroke.text@.drop_last()
                },
            },
    {
        let edit = self.editing.take();
        match edit {
            None => {},
            Some(edit) => {
                let mut edit = edit;
                let shown = chars_of(edit.preedit.as_str());
                if shown.len() > 0 {
                    edit.preedit = String::new();
                } else {
                    let chars = chars_of(edit.stroke.text.as_str());
                    if chars.len() > 0 {
                        edit.stroke.text = string_of(chars.as_slice(), 0, chars.len() - 1);
                        assert(edit.stroke.text@ =~= chars@.drop_last());
                    }
                }
                self.editing = Some(edit);
            },
        }
    }

    /// Finishes the text that is being typed. Says whether it is kept: an empty one is not.
    pub fn commit_text(&mut self) -> (added: bool)
        requires
            old(self).wf(),
        ensures
            final(self).wf(),
            added == (old(self).editing matches Some(edit) && edit.stroke.text@.len() > 0),
            final(self).strokes@ == old(self).committed(),
            final(self).editing is None,
            final(self).tool == old(self).tool,
            final(self).color_idx == old(self).color_idx,
            final(self).width == old(self).width,
            final(self).text_size == old(self).text_size,
            final(self).active == old(self).active,
    {
        let edit = self.editing.take();
        match edit {
            None => false,
            Some(edit) => {
                let chars = chars_of(edit.stroke.text.as_str());
                if chars.len() > 0 {
                    self.strokes.push(edit.stroke);
                    true
                } else {
                    false
                }
            },
        }
    }

    /// Takes back the newest thing: the text that is being typed, or else the last stroke. Says
    /// whether a stroke is gone.
    pub fn undo(&mut self) -> (removed: bool)
        requires
            old(self).wf(),
        ensures
            final(self).wf(),
            final(self).tool == old(self).tool,
            final(self).color_idx == old(self).color_idx,
            final(self).width == old(self).width,
            final(self).text_size == old(self).text_size,
            final(self).active == old(self).active,
            final(self).editing is None,
            removed == (old(self).editing is None && old(self).strokes@.len() > 0),
            final(self).strokes@ == old(self).undone(),
    {
        if self.editing.is_some() {
            self.editing = None;
            return false;
        }
        let ghost before = self.strokes@;
        if self.strokes.len() > 0 {
            let _ = self.strokes.pop();
            assert(self.strokes@ =~= before.drop_last());
            true
        } else {
            false
        }
    }

    /// The strokes after the newest thing was taken back.
    pub open spec fn undone(self) -> Seq<Stroke> {
        if self.editing is Some || self.strokes@.len() == 0 {
            self.strokes@
        } else {
            self.strokes@.drop_last()
        }
    }
}

/// Taking back a text right after it was finished leaves what was there before it.
pub proof fn undo_takes_back_a_finished_text(before: Annotator, after: Annotator)
    requires
        before.editing matches Some(edit) && edit.stroke.text@.len() > 0,
        after.editing is None,
        after.strokes@ == before.committed(),
    ensures
        after.undone() == before.strokes@,
{
    assert(before.strokes@.push((before.editing->0).stroke).drop_last() =~= before.strokes@);
}

/// Where a size stands between its bounds, in millionths.
pub open spec fn fraction_of(size: u32, range: (u32, u32)) -> int {
    ((size - range.0) * WHOLE) / (range.1 - range.0)
}

/// The size at a place between its bounds, in millionths, as the nearest thousandth.
pub open spec fn size_at(fraction: int, range: (u32, u32)) -> int {
    let part = if fraction < 0 {
        0
    } else if fraction > WHOLE {
        WHOLE as int
    } else {
        fraction
    };
    range.0 + ((range.1 - range.0) * part + 500_000) / 1_000_000
}

/// The ends of the slider are the bounds.
pub proof fn the_slider_reaches_its_ends(range: (u32, u32))
    requires
        range == WIDTH_RANGE || range == TEXT_SIZE_RANGE,
    ensures
        size_at(0, range) == range.0,
        size_at(WHOLE as int, range) == range.1,
{
    let span = range.1 - range.0;
    assert(span * 0 == 0);
    assert((span * 1_000_000 + 500_000) / 1_000_000 == span);
}

/// A slider that is put back to where it stands stays there.
pub proof fn the_slider_round_trips(size: u32, range: (u32, u32))
    requires
        range == WIDTH_RANGE || range == TEXT_SIZE_RANGE,
        range.0 <= size <= range.1,
    ensures
        size_at(fraction_of(size, range), range) == size,
{
    let over = size - range.0;
    if range == WIDTH_RANGE {
        let f = (over * 1_000_000) / 23_000;
        assert(0 <= f <= 1_000_000);
        assert(23_000 * f <= over * 1_000_000 < 23_000 * f + 23_000);
    } else {
        let f = (over * 1_000_000) / 110_000;
        assert(0 <= f <= 1_000_000);
        assert(110_000 * f <= over * 1_000_000 < 110_000 * f + 110_000);
    }
}

/// A text as it is drawn: what the input method shows follows what was entered, and a bar marks
/// the end while it is being typed.
pub fn shown_text(text: &str, preedit: &str, caret: bool) -> (s: String)
    ensures
        s@ == text@ + preedit@ + if caret {
            seq!['|']
        } else {
            Seq::empty()
        },
{
    let mut s = owned(text);
    s.append(preedit);
    if caret {
        s.push('|');
    }
    assert(s@ =~= text@ + preedit@ + if caret {
        seq!['|']
    } else {
        Seq::empty()
    });
    s
}

/// An arrow or a frame reaches from where the pointer was pressed to where it was released, with the
/// tool, the color and the width of the time of the press. It is kept exactly if the pointer moved by
/// more than two pixels across or down.
pub proof fn a_drag_draws_from_press_to_release(
    a: &mut Annotator,
    at: Point,
    b: &mut Annotator,
    to: Point,
    added: bool,
)
    requires
        old(a).tool is Arrow || old(a).tool is Rect,
        call_ensures(Annotator::press, (a, at), ()),
        *old(b) == *final(a),
        call_ensures(Annotator::release, (b, to), added),
    ensures
        added <==> to.x - at.x > 2000 || at.x - to.x > 2000 || to.y - at.y > 2000 || at.y - to.y
            > 2000,
        final(b).active is None,
        !added ==> final(b).strokes@ == old(a).strokes@,
        added ==> {
            let stroke = final(b).strokes@.last();
            &&& final(b).strokes@.len() == old(a).strokes@.len() + 1
            &&& final(b).strokes@.drop_last() == old(a).strokes@
            &&& stroke.tool == old(a).tool
            &&& stroke.color == old(a).color_idx
            &&& stroke.width == old(a).width
            &&& stroke.points@ == seq![at, to]
        },
{
    assert(added ==> final(b).strokes@.last().points@ =~= seq![at, to]);
}

/// A line of the pen starts at the press and takes in each place of the pointer that is at least a
/// pixel from the last one. A click draws nothing.
pub proof fn the_pen_follows_the_pointer(
    a: &mut Annotator,
    at: Point,
    b: &mut Annotator,
    to: Point,
    c: &mut Annotator,
    end: Point,
    added: bool,
)
    requires
        old(a).tool is Pen,
        call_ensures(Annotator::press, (a, at), ()),
        *old(b) == *final(a),
        call_ensures(Annotator::motion, (b, to), ()),
        *old(c) == *final(b),
        call_ensures(Annotator::release, (c, end), added),
    ensures
        added <==> (to.x - at.x) * (to.x - at.x) + (to.y - at.y) * (to.y - at.y) >= 1_000_000,
        added ==> final(c).strokes@.drop_last() == old(a).strokes@
            && final(c).strokes@.last().points@ == seq![at, to] && final(c).strokes@.last().color
            == old(a).color_idx && final(c).strokes@.last().width == old(a).width,
        !added ==> final(c).strokes@ == old(a).strokes@,
{
    assert(seq![at].push(to) =~= seq![at, to]);
}

/// The end of an arrow or of a frame follows the pointer; its start stays.
pub proof fn the_end_follows_the_pointer(a: &mut Annotator, to: Point)
    requires
        old(a).wf(),
        call_ensures(Annotator::motion, (a, to), ()),
        old(a).active matches Some(stroke) && (stroke.tool is Arrow || stroke.tool is Rect),
    ensures
        final(a).active is Some,
        final(a).active->0.points@ == seq![old(a).active->0.points@[0], to],
{
    assert(final(a).active->0.points@ =~= seq![old(a).active->0.points@[0], to]);
}

/// Undo takes back the stroke that was drawn last.
pub proof fn undo_takes_back_a_stroke(
    a: &mut Annotator,
    at: Point,
    b: &mut Annotator,
    removed: bool,
)
    requires
        old(a).editing is None,
        call_ensures(Annotator::release, (a, at), true),
        *old(b) == *final(a),
        call_ensures(Annotator::undo, (b,), removed),
    ensures
        removed,
        final(b).strokes@ == old(a).strokes@,
{
}

/// Undo drops the text that is being typed before it takes back any stroke.
pub proof fn undo_drops_unfinished_text_first(a: &mut Annotator, removed: bool)
    requires
        call_ensures(Annotator::undo, (a,), removed),
    ensures
        final(a).editing is None,
        old(a).editing is Some ==> !removed && final(a).strokes@ == old(a).strokes@,
        old(a).editing is None ==> removed == (old(a).strokes@.len() > 0),
        removed ==> final(a).strokes@ == old(a).strokes@.drop_last(),
{
}

/// A text that is typed and finished is a stroke at the place of the press with what was typed.
pub proof fn a_typed_text_is_a_stroke(
    a: &mut Annotator,
    at: Point,
    b: &mut Annotator,
    text: &str,
    c: &mut Annotator,
    added: bool,
)
    requires
        old(a).tool is Text,
        old(a).editing is None,
        call_ensures(Annotator::press, (a, at), ()),
        *old(b) == *final(a),
        call_ensures(Annotator::type_str, (b, text), ()),
        *old(c) == *final(b),
        call_ensures(Annotator::commit_text, (c,), added),
    ensures
        added == (text@.len() > 0),
        final(c).editing is None,
        !added ==> final(c).strokes@ == old(a).strokes@,
        added ==> final(c).strokes@.drop_last() == old(a).strokes@ && final(c).strokes@.last().text@ == text@ && final(c).strokes@.last().points@ == seq![at] && final(c).strokes@.last().tool is Text && final(c).strokes@.last().color == old(a).color_idx,
{
    if let Some(edit) = final(b).editing {
        assert(edit.stroke.text@ =~= text@);
        if added {
            assert(old(a).strokes@.push(edit.stroke).drop_last() =~= old(a).strokes@);
        }
    }
}

/// Backspace takes back the character that was typed last.
pub proof fn backspace_takes_back_a_character(a: &mut Annotator, ch: char, b: &mut Annotator)
    requires
        call_ensures(Annotator::type_char, (a, ch), ()),
        *old(b) == *final(a),
        call_ensures(Annotator::backspace, (b,), ()),
    ensures
        old(a).editing is Some <==> final(b).editing is Some,
        old(a).editing matches Some(edit) ==> final(a).editing->0.stroke.text@
            == edit.stroke.text@.push(ch) && final(b).editing->0.stroke.text@ == edit.stroke.text@,
        final(b).strokes@ == old(a).strokes@,
{
    if let Some(edit) = old(a).editing {
        assert(edit.stroke.text@ + seq![ch] =~= edit.stroke.text@.push(ch));
        assert(edit.stroke.text@.push(ch).drop_last() =~= edit.stroke.text@);
    }
}

/// What an input method is composing is shown but never becomes part of the text by itself.
pub proof fn composed_text_is_not_typed(
    a: &mut Annotator,
    text: &str,
    b: &mut Annotator,
    added: bool,
)
    requires
        call_ensures(Annotator::set_preedit, (a, text), ()),
        *old(b) == *final(a),
        call_ensures(Annotator::commit_text, (b,), added),
        old(a).editing is Some,
    ensures
        final(a).editing is Some && final(a).editing->0.preedit@ == text@,
        added == (old(a).editing->0.stroke.text@.len() > 0),
        added ==> final(b).strokes@.len() == old(a).strokes@.len() + 1 && final(b).strokes@.last().text@ == old(a).editing->0.stroke.text@,
{
}

/// A size that is set is the size that is shown, held to the range of the tool. Only the size of that
/// tool changes.
pub proof fn a_size_is_kept_in_its_range(a: &mut Annotator, value: u32, r: u32)
    requires
        old(a).wf(),
        call_ensures(Annotator::set_size, (a, value), ()),
        call_ensures(Annotator::size, (&*final(a),), r),
    ensures
        ({
            let (low, high) = if old(a).tool is Text {
                (10_000u32, 120_000u32)
            } else {
                (1_000u32, 24_000u32)
            };
            &&& low <= value <= high ==> r == value
            &&& value < low ==> r == low
            &&& value > high ==> r == high
        }),
        old(a).tool is Text ==> final(a).width == old(a).width,
        !(old(a).tool is Text) ==> final(a).text_size == old(a).text_size,
        old(a).tool is Text && final(a).editing is Some ==> final(a).editing->0.stroke.size == r,
        final(a).strokes@ == old(a).strokes@,
{
}

/// The slider is at its ends where the size is, a slider further right means a size no smaller, and
/// putting the slider where it is changes nothing.
pub proof fn the_slider_shows_the_size(
    a: &mut Annotator,
    fraction: i64,
    r: u32,
    b: &mut Annotator,
    other: i64,
    s: u32,
    at: u32,
)
    requires
        old(a).wf(),
        *old(a) == *old(b),
        call_ensures(Annotator::set_size_fraction, (a, fraction), ()),
        call_ensures(Annotator::size, (&*final(a),), r),
        call_ensures(Annotator::set_size_fraction, (b, other), ()),
        call_ensures(Annotator::size, (&*final(b),), s),
        call_ensures(Annotator::size_fraction, (&*old(a),), at),
    ensures
        fraction <= other ==> r <= s,
        old(a).tool is Text && fraction <= 0 ==> r == 10_000,
        old(a).tool is Text && fraction >= 1_000_000 ==> r == 120_000,
        !(old(a).tool is Text) && fraction <= 0 ==> r == 1_000,
        !(old(a).tool is Text) && fraction >= 1_000_000 ==> r == 24_000,
        0 <= at <= 1_000_000,
        fraction == at ==> (if old(a).tool is Text {
            final(a).text_size is Some && r == old(a).label_size()
        } else {
            r == old(a).width
        }),
{
    let range = old(a).bounds();
    the_slider_reaches_its_ends(range);
    the_slider_round_trips(old(a).shown_size(), range);
    let (x, y) = (size_at(fraction as int, range), size_at(other as int, range));
    let low = |f: int|
        if f < 0 {
            0
        } else if f > WHOLE {
            WHOLE as int
        } else {
            f
        };
    let (p, q, w) = (low(fraction as int), low(other as int), range.1 - range.0);
    assert(p <= q ==> w * p <= w * q) by (nonlinear_arith)
        requires
            w >= 0,
    ;
    assert(0 <= w * p <= w * 1_000_000 && 0 <= w * q <= w * 1_000_000) by (nonlinear_arith)
        requires
            w >= 0,
            0 <= p <= 1_000_000,
            0 <= q <= 1_000_000,
    ;
}

/// A nudge up never makes a size smaller, one down never larger, and none leaves it.
pub proof fn a_nudge_goes_its_way(a: &mut Annotator, delta: i32, before: u32, after: u32)
    requires
        old(a).wf(),
        call_ensures(Annotator::size, (&*old(a),), before),
        call_ensures(Annotator::nudge_size, (a, delta), ()),
        call_ensures(Annotator::size, (&*final(a),), after),
    ensures
        delta >= 0 ==> after >= before,
        delta <= 0 ==> after <= before,
{
    let range = old(a).bounds();
    let f = fraction_of(old(a).shown_size(), range);
    the_slider_round_trips(old(a).shown_size(), range);
    let w = range.1 - range.0;
    let low = |f: int|
        if f < 0 {
            0
        } else if f > WHOLE {
            WHOLE as int
        } else {
            f
        };
    let (p, q) = (low(f), low(f + delta));
    assert(p <= q ==> w * p <= w * q) by (nonlinear_arith)
        requires
            w >= 0,
    ;
    assert(q <= p ==> w * q <= w * p) by (nonlinear_arith)
        requires
            w >= 0,
    ;
    assert(0 <= w * p <= w * 1_000_000 && 0 <= w * q <= w * 1_000_000) by (nonlinear_arith)
        requires
            w >= 0,
            0 <= p <= 1_000_000,
            0 <= q <= 1_000_000,
    ;
}

/// Only the six colors can be chosen; any other index leaves the color.
pub proof fn only_colors_are_chosen(a: &mut Annotator, index: usize, r: usize)
    requires
        call_ensures(Annotator::set_color_index, (a, index), ()),
        call_ensures(Annotator::color_index, (&*final(a),), r),
    ensures
        index < 6 ==> r == index,
        index >= 6 ==> r == old(a).color_idx,
        final(a).strokes@ == old(a).strokes@,
{
}

/// Another tool finishes the text that is being typed: it is kept unless it is empty.
pub proof fn another_tool_finishes_the_text(a: &mut Annotator, tool: Tool)
    requires
        call_ensures(Annotator::set_tool, (a, tool), ()),
        !(tool is Text),
    ensures
        final(a).tool == tool,
        final(a).editing is None,
        old(a).editing matches Some(edit) ==> if edit.stroke.text@.len() > 0 {
            final(a).strokes@ == old(a).strokes@.push(edit.stroke)
        } else {
            final(a).strokes@ == old(a).strokes@
        },
        old(a).editing is None ==> final(a).strokes@ == old(a).strokes@,
{
}

/// A text is as large as it was set, within its range, or four times as large as the pen is wide.
pub proof fn a_text_has_its_size(a: &Annotator, r: u32, b: &mut Annotator, size: u32, s: u32)
    requires
        a.wf(),
        call_ensures(Annotator::text_size, (a,), r),
        old(b).wf(),
        call_ensures(Annotator::set_text_size, (b, size), ()),
        call_ensures(Annotator::text_size, (&*final(b),), s),
    ensures
        10_000 <= r <= 120_000,
        a.text_size matches Some(t) ==> r == t,
        a.text_size is None && 10_000 <= 4 * a.width <= 120_000 ==> r == 4 * a.width,
        10_000 <= size <= 120_000 ==> s == size,
        size < 10_000 ==> s == 10_000,
        size > 120_000 ==> s == 120_000,
        final(b).width == old(b).width,
{
}

/// A width is kept within its range, and the rest stays.
pub proof fn a_width_is_kept_in_its_range(a: &mut Annotator, width: u32, r: u32)
    requires
        call_ensures(Annotator::set_width, (a, width), ()),
        call_ensures(Annotator::width, (&*final(a),), r),
    ensures
        1_000 <= width <= 24_000 ==> r == width,
        width < 1_000 ==> r == 1_000,
        width > 24_000 ==> r == 24_000,
        final(a).strokes@ == old(a).strokes@ && final(a).text_size == old(a).text_size,
{
}

/// What is shown of a text that is being typed is the text, then what is being composed, then the
/// caret.
pub proof fn composed_text_stands_before_the_caret(text: &str, preedit: &str, caret: bool, s: String)
    requires
        call_ensures(shown_text, (text, preedit, caret), s),
    ensures
        s@.len() == text@.len() + preedit@.len() + if caret {
            1int
        } else {
            0
        },
        s@.take(text@.len() as int) == text@,
        s@.skip(text@.len() as int).take(preedit@.len() as int) == preedit@,
        caret ==> s@.last() == '|',
{
    assert(s@.take(text@.len() as int) =~= text@);
    assert(s@.skip(text@.len() as int).take(preedit@.len() as int) =~= preedit@);
}

/// There is something to keep exactly if something was drawn or is being typed, and the caret stands
/// where the text was started.
pub proof fn the_caret_stands_at_the_text(a: &Annotator, content: bool, editing: bool, caret: Option<Point>)
    requires
        a.wf(),
        call_ensures(Annotator::has_content, (a,), content),
        call_ensures(Annotator::is_editing_text, (a,), editing),
        call_ensures(Annotator::caret_anchor, (a,), caret),
    ensures
        editing <==> a.editing is Some,
        content <==> a.strokes@.len() > 0 || editing,
        caret is Some <==> editing,
        caret matches Some(p) ==> a.editing->0.stroke.points@[0] == p,
{
}

} // verus!
