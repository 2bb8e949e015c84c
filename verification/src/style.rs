//! Styled text, and the boxes of text that a screen is made of.

use crate::layout::Area;
use crate::symbols::texts;
use vstd::prelude::*;

verus! {

#[derive(Clone, Copy, Debug, PartialEq, Eq, Structural)]
pub enum Color {
    Black,
    Red,
    Green,
    Yellow,
    Cyan,
    Gray,
    DarkGray,
}

#[derive(Clone, Copy, Debug, PartialEq, Eq, Structural)]
pub struct Style {
    pub fg: Option<Color>,
    pub bg: Option<Color>,
    pub bold: bool,
    pub reversed: bool,
}

impl Style {
    pub open spec fn spec_plain() -> Style {
        Style { fg: None, bg: None, bold: false, reversed: false }
    }

    pub open spec fn spec_in_color(color: Color) -> Style {
        Style { fg: Some(color), bg: None, bold: false, reversed: false }
    }

    #[verifier::when_used_as_spec(spec_plain)]
    pub fn plain() -> (style: Style)
        ensures
            style == Style::spec_plain(),
    {
        Style { fg: None, bg: None, bold: false, reversed: false }
    }

    /// Text in `color`.
    #[verifier::when_used_as_spec(spec_in_color)]
    pub fn in_color(color: Color) -> (style: Style)
        ensures
            style == Style::spec_in_color(color),
    {
        Style { fg: Some(color), bg: None, bold: false, reversed: false }
    }
}

/// A piece of text in one style.
pub struct Span {
    pub text: String,
    pub style: Style,
}

/// What a [`Span`] holds.
pub struct Piece {
    pub text: Seq<char>,
    pub style: Style,
}

impl View for Span {
    type V = Piece;

    open spec fn view(&self) -> Piece {
        Piece { text: self.text@, style: self.style }
    }
}

pub open spec fn piece(text: Seq<char>, style: Style) -> Piece {
    Piece { text, style }
}

/// Plain text.
pub open spec fn raw(text: Seq<char>) -> Piece {
    Piece { text, style: Style::plain() }
}

pub struct Line {
    pub spans: Vec<Span>,
}

impl View for Line {
    type V = Seq<Piece>;

    open spec fn view(&self) -> Seq<Piece> {
        self.spans@.map_values(|s: Span| s@)
    }
}

impl Line {
    pub fn new() -> (line: Line)
        ensures
            line@ == Seq::<Piece>::empty(),
    {
        let line = Line { spans: Vec::new() };
        assert(line@ =~= Seq::<Piece>::empty());
        line
    }

    /// A line of one piece.
    pub fn of(text: &str, style: Style) -> (line: Line)
        ensures
            line@ == seq![piece(text@, style)],
    {
        let mut line = Line::new();
        line.add(text, style);
        assert(line@ =~= seq![piece(text@, style)]);
        line
    }

    /// Adds a piece at the end.
    pub fn add(&mut self, text: &str, style: Style)
        ensures
            final(self)@ == old(self)@.push(piece(text@, style)),
    {
        let ghost before = self@;
        self.spans.push(Span { text: text.to_owned(), style });
        assert(self@ =~= before.push(piece(text@, style)));
    }

    /// Adds the pieces of another line at the end.
    pub fn join(&mut self, more: Line)
        ensures
            final(self)@ == old(self)@ + more@,
    {
        let ghost before = self@;
        let mut rest = more;
        self.spans.append(&mut rest.spans);
        assert(self@ =~= before + more@);
    }
}

/// What the lines in a list hold.
pub open spec fn lines_of(lines: Seq<Line>) -> Seq<Seq<Piece>> {
    lines.map_values(|l: Line| l@)
}

/// Adds a line at the end of a list.
pub fn add_line(lines: &mut Vec<Line>, line: Line)
    ensures
        lines_of(final(lines)@) == lines_of(old(lines)@).push(line@),
{
    let ghost before = lines_of(lines@);
    lines.push(line);
    assert(lines_of(lines@) =~= before.push(line@));
}

/// A line of a list that is coloured across its whole width.
pub struct Item {
    pub line: Line,
    pub style: Style,
}

/// What an [`Item`] holds.
pub struct Entry {
    pub line: Seq<Piece>,
    pub style: Style,
}

impl View for Item {
    type V = Entry;

    open spec fn view(&self) -> Entry {
        Entry { line: self.line@, style: self.style }
    }
}

/// What the items in a list hold.
pub open spec fn entries_of(items: Seq<Item>) -> Seq<Entry> {
    items.map_values(|i: Item| i@)
}

/// Adds an item at the end of a list.
pub fn add_item(items: &mut Vec<Item>, item: Item)
    ensures
        entries_of(final(items)@) == entries_of(old(items)@).push(item@),
{
    let ghost before = entries_of(items@);
    items.push(item);
    assert(entries_of(items@) =~= before.push(item@));
}

/// A row of a table.
pub struct TableRow {
    pub cells: Vec<String>,
    pub style: Style,
}

/// What a [`TableRow`] holds.
pub struct Cells {
    pub cells: Seq<Seq<char>>,
    pub style: Style,
}

impl View for TableRow {
    type V = Cells;

    open spec fn view(&self) -> Cells {
        Cells { cells: texts(self.cells@), style: self.style }
    }
}

/// What the rows in a list hold.
pub open spec fn cells_of(rows: Seq<TableRow>) -> Seq<Cells> {
    rows.map_values(|r: TableRow| r@)
}

/// What stands in a box.
pub enum Body {
    /// Lines of text, broken at the edge of the box if `wrap`.
    Text { lines: Vec<Line>, wrap: bool },
    /// A list.
    Items { items: Vec<Item> },
    /// A table of five columns.
    Table { header: TableRow, rows: Vec<TableRow> },
    /// A single text in the middle of the box.
    Message { area: Area, text: String, style: Style },
}

/// What a [`Body`] holds.
pub enum Content {
    Text { lines: Seq<Seq<Piece>>, wrap: bool },
    Items { items: Seq<Entry> },
    Table { header: Cells, rows: Seq<Cells> },
    Message { area: Area, text: Seq<char>, style: Style },
}

impl View for Body {
    type V = Content;

    open spec fn view(&self) -> Content {
        match self {
            Body::Text { lines, wrap } => Content::Text { lines: lines_of(lines@), wrap: *wrap },
            Body::Items { items } => Content::Items { items: entries_of(items@) },
            Body::Table { header, rows } => Content::Table {
                header: header@,
                rows: cells_of(rows@),
            },
            Body::Message { area, text, style } => Content::Message {
                area: *area,
                text: text@,
                style: *style,
            },
        }
    }
}

/// The border and title of a box.
pub struct Frame {
    pub title: String,
    pub border: Style,
}

/// A box on the screen.
pub struct Panel {
    pub area: Area,
    /// Whether what is below the box is wiped out first.
    pub clear: bool,
    pub frame: Option<Frame>,
    pub body: Body,
}

/// What a [`Panel`] holds.
pub struct Shape {
    pub area: Area,
    pub clear: bool,
    /// The title and the style of the border.
    pub frame: Option<(Seq<char>, Style)>,
    pub body: Content,
}

impl View for Panel {
    type V = Shape;

    open spec fn view(&self) -> Shape {
        Shape {
            area: self.area,
            clear: self.clear,
            frame: match self.frame {
                Some(f) => Some((f.title@, f.border)),
                None => None,
            },
            body: self.body@,
        }
    }
}

/// What the boxes in a list hold.
pub open spec fn shapes_of(panels: Seq<Panel>) -> Seq<Shape> {
    panels.map_values(|p: Panel| p@)
}

/// Adds a box at the end of a list.
pub fn add_panel(panels: &mut Vec<Panel>, panel: Panel)
    ensures
        shapes_of(final(panels)@) == shapes_of(old(panels)@).push(panel@),
{
    let ghost before = shapes_of(panels@);
    panels.push(panel);
    assert(shapes_of(panels@) =~= before.push(panel@));
}

/// A box with a border and a title.
pub open spec fn framed(area: Area, title: Seq<char>, border: Style, body: Content) -> Shape {
    Shape { area, clear: false, frame: Some((title, border)), body }
}

pub fn frame_panel(area: Area, title: &str, border: Style, body: Body) -> (panel: Panel)
    ensures
        panel@ == framed(area, title@, border, body@),
{
    Panel { area, clear: false, frame: Some(Frame { title: title.to_owned(), border }), body }
}

} // verus!
