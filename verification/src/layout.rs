//! Areas of the screen, and how they are divided.

use ratatui::layout::Constraint;
use ratatui::layout::Direction;
use ratatui::layout::Layout;
use ratatui::layout::Rect;
use vstd::prelude::*;

verus! {

/// A part of the screen.
#[derive(Clone, Copy, Debug, PartialEq, Eq, Structural)]
pub struct Area {
    pub x: u16,
    pub y: u16,
    pub width: u16,
    pub height: u16,
}

impl Area {
    /// The area ends within the coordinates that a screen can have.
    pub open spec fn on_screen(self) -> bool {
        self.x + self.width <= u16::MAX && self.y + self.height <= u16::MAX
    }

    /// The area lies within another.
    pub open spec fn within(self, other: Area) -> bool {
        &&& other.x <= self.x
        &&& self.x + self.width <= other.x + other.width
        &&& other.y <= self.y
        &&& self.y + self.height <= other.y + other.height
    }
}

/// How much of an area a part of it gets.
#[derive(Clone, Copy, Debug, PartialEq, Eq, Structural)]
pub enum Extent {
    Length(u16),
    Min(u16),
    Percentage(u16),
}

#[derive(Clone, Copy, Debug, PartialEq, Eq, Structural)]
pub enum Axis {
    Horizontal,
    Vertical,
}

/// `part` is a part of `whole` along `axis`: it keeps the other extent.
pub open spec fn is_part(part: Area, whole: Area, axis: Axis) -> bool {
    &&& part.within(whole)
    &&& match axis {
        Axis::Vertical => part.x == whole.x && part.width == whole.width,
        Axis::Horizontal => part.y == whole.y && part.height == whole.height,
    }
}

/// Where an area starts along an axis.
pub open spec fn start_along(area: Area, axis: Axis) -> int {
    match axis {
        Axis::Vertical => area.y as int,
        Axis::Horizontal => area.x as int,
    }
}

/// How long an area is along an axis.
pub open spec fn size_along(area: Area, axis: Axis) -> int {
    match axis {
        Axis::Vertical => area.height as int,
        Axis::Horizontal => area.width as int,
    }
}

/// The sum of the fixed lengths among the first `n` extents.
pub open spec fn fixed_length(extents: Seq<Extent>, n: int) -> int
    decreases n,
{
    if n <= 0 {
        0
    } else {
        fixed_length(extents, n - 1) + match extents[n - 1] {
            Extent::Length(length) => length as int,
            _ => 0,
        }
    }
}

/// All extents are fixed lengths but the one at `rest`, which takes what the others leave.
pub open spec fn is_stack(extents: Seq<Extent>, rest: int) -> bool {
    &&& 0 <= rest < extents.len()
    &&& extents[rest] == Extent::Min(0)
    &&& forall|i: int|
        0 <= i < extents.len() && i != rest ==> (#[trigger] extents[i]) is Length
}

/// Where the part at `i` starts, counted from the start of an area of the given size that is
/// divided as [`is_stack`] says.
pub open spec fn stack_offset(extents: Seq<Extent>, rest: int, size: int, i: int) -> int {
    fixed_length(extents, i) + if i > rest {
        size - fixed_length(extents, extents.len() as int)
    } else {
        0
    }
}

/// The nearest whole number to `percent` hundredths of `size`.
pub open spec fn share_of(size: int, percent: int) -> int {
    (percent * size + 50) / 100
}

/// If all extents but one `Min(0)` are lengths and `area` has room for them, the parts follow
/// each other without a gap, each of its length, and the remaining one takes what is left.
pub open spec fn is_stacked(
    parts: Seq<Area>,
    extents: Seq<Extent>,
    area: Area,
    axis: Axis,
) -> bool {
    let size = size_along(area, axis);
    forall|rest: int, i: int|
        #![trigger is_stack(extents, rest), parts[i]]
        is_stack(extents, rest) && fixed_length(extents, extents.len() as int) <= size && 0 <= i
            < parts.len() ==> {
            let offset = stack_offset(extents, rest, size, i);
            &&& start_along(parts[i], axis) == start_along(area, axis) + offset
            &&& size_along(parts[i], axis) == stack_offset(extents, rest, size, i + 1) - offset
        }
}

/// `percent` hundredths, and the rest.
pub open spec fn percentages(percent: u16) -> Seq<Extent> {
    seq![Extent::Percentage(percent), Extent::Percentage((100 - percent) as u16)]
}

/// If the extents are two percentages that make a whole, the parts share `area` without a gap,
/// divided at the nearest cell.
pub open spec fn is_shared(
    parts: Seq<Area>,
    extents: Seq<Extent>,
    area: Area,
    axis: Axis,
) -> bool {
    forall|p: u16|
        p <= 100 && extents == #[trigger] percentages(p) ==> {
            let share = share_of(size_along(area, axis), p as int);
            &&& start_along(parts[0], axis) == start_along(area, axis)
            &&& size_along(parts[0], axis) == share
            &&& start_along(parts[1], axis) == start_along(area, axis) + share
            &&& size_along(parts[1], axis) == size_along(area, axis) - share
        }
}

/// Calls `ratatui::layout::Layout::split`, which divides an area along an axis: into one part
/// per extent, each within the area and as wide (or high) as the area across the axis. If all
/// extents but one `Min(0)` are lengths, and the area has room for them, each part gets its
/// length, the remaining one what is left, and the parts follow each other without a gap. Two
/// percentages that make a whole divide the area at the nearest cell. Where the extents cannot
/// all be met, what the solver of that crate gives is not determined by its arguments, and
/// nothing more is said here.
#[verifier::external_body]
fn split(area: Area, axis: Axis, extents: &Vec<Extent>) -> (parts: Vec<Area>)
    requires
        area.on_screen(),
    ensures
        parts@.len() == extents@.len(),
        forall|i: int| 0 <= i < parts@.len() ==> is_part(#[trigger] parts@[i], area, axis),
        is_stacked(parts@, extents@, area, axis),
        is_shared(parts@, extents@, area, axis),
{
    let direction = match axis {
        Axis::Horizontal => Direction::Horizontal,
        Axis::Vertical => Direction::Vertical,
    };
    let constraints = extents.iter().map(|extent| match *extent {
        Extent::Length(n) => Constraint::Length(n),
        Extent::Min(n) => Constraint::Min(n),
        Extent::Percentage(n) => Constraint::Percentage(n),
    });
    let layout = Layout::default().direction(direction).constraints(constraints);
    let rects = layout.split(Rect::new(area.x, area.y, area.width, area.height));
    rects.iter().map(|r| Area { x: r.x, y: r.y, width: r.width, height: r.height }).collect()
}

/// The parts of the screen.
#[derive(Clone, Copy, Debug, PartialEq, Eq, Structural)]
pub struct Parts {
    pub screen: Area,
    pub header: Area,
    pub crash: Option<Area>,
    pub body: Area,
    pub left: Area,
    pub right: Area,
    pub footer: Area,
}

impl Parts {
    /// Every part lies on the screen.
    pub open spec fn on_screen(self) -> bool {
        &&& self.screen.on_screen()
        &&& self.header.within(self.screen)
        &&& self.crash matches Some(c) ==> c.within(self.screen)
        &&& self.body.within(self.screen)
        &&& self.left.within(self.body)
        &&& self.right.within(self.body)
        &&& self.footer.within(self.screen)
    }
}

/// The parts, given how the screen was divided into rows and the body into columns.
pub open spec fn parts_of(screen: Area, rows: Seq<Area>, columns: Seq<Area>) -> Parts {
    Parts {
        screen,
        header: rows[0],
        crash: if rows.len() == 4 {
            Some(rows[1])
        } else {
            None
        },
        body: rows[rows.len() - 2],
        left: columns[0],
        right: columns[1],
        footer: rows[rows.len() - 1],
    }
}

/// Names the parts of a screen that was divided into `rows`, and its body into `columns`.
pub fn name_parts(screen: Area, rows: &Vec<Area>, columns: &Vec<Area>) -> (parts: Parts)
    requires
        rows.len() == 3 || rows.len() == 4,
        columns.len() == 2,
    ensures
        parts == parts_of(screen, rows@, columns@),
{
    let n: usize = rows.len();
    Parts {
        screen,
        header: rows[0],
        crash: if n == 4 {
            Some(rows[1])
        } else {
            None
        },
        body: rows[n - 2],
        left: columns[0],
        right: columns[1],
        footer: rows[n - 1],
    }
}

/// The parts of a screen: a header of four rows, a footer of one, and between them the crash, if
/// there is one, and the body, which is divided at three fifths of its width. Where the screen is
/// too low for the rows, each part still lies within it.
pub open spec fn is_division(parts: Parts, screen: Area, crash_height: u16) -> bool {
    &&& parts.screen == screen
    &&& parts.on_screen()
    &&& parts.crash is Some <==> crash_height > 0
    &&& is_part(parts.header, screen, Axis::Vertical)
    &&& (parts.crash matches Some(c) ==> is_part(c, screen, Axis::Vertical))
    &&& is_part(parts.body, screen, Axis::Vertical)
    &&& is_part(parts.footer, screen, Axis::Vertical)
    &&& is_part(parts.left, parts.body, Axis::Horizontal)
    &&& is_part(parts.right, parts.body, Axis::Horizontal)
    &&& 5 + crash_height <= screen.height ==> {
        &&& parts.header.y == screen.y && parts.header.height == 4
        &&& (parts.crash matches Some(c) ==> c.y == screen.y + 4 && c.height == crash_height)
        &&& parts.body.y == screen.y + 4 + crash_height
        &&& parts.body.height == screen.height - 5 - crash_height
        &&& parts.footer.y == screen.y + screen.height - 1 && parts.footer.height == 1
    }
    &&& parts.left.x == parts.body.x
    &&& parts.left.width == share_of(parts.body.width as int, 60)
    &&& parts.right.x == parts.left.x + parts.left.width
    &&& parts.right.width == parts.body.width - parts.left.width
}

/// Divides the screen. There is a part for a crash just if `crash_height` is not 0.
pub fn divide(screen: Area, crash_height: u16) -> (parts: Parts)
    requires
        screen.on_screen(),
    ensures
        is_division(parts, screen, crash_height),
{
    let mut extents: Vec<Extent> = Vec::new();
    extents.push(Extent::Length(4));
    if crash_height > 0 {
        extents.push(Extent::Length(crash_height));
    }
    extents.push(Extent::Min(0));
    extents.push(Extent::Length(1));
    let rows = split(screen, Axis::Vertical, &extents);
    proof {
        reveal_with_fuel(fixed_length, 5);
        let rest = extents@.len() - 2;
        assert(is_stack(extents@, rest));
        assert(fixed_length(extents@, extents@.len() as int) == 5 + crash_height);
    }
    let mut halves: Vec<Extent> = Vec::new();
    halves.push(Extent::Percentage(60));
    halves.push(Extent::Percentage(40));
    assert(halves@ =~= percentages(60));
    let n: usize = rows.len();
    let body: Area = rows[n - 2];
    let columns = split(body, Axis::Horizontal, &halves);
    name_parts(screen, &rows, &columns)
}

/// The area within a border.
pub open spec fn inside_border(area: Area) -> Area {
    Area {
        x: if area.width == 0 {
            area.x
        } else {
            (area.x + 1) as u16
        },
        y: if area.height == 0 {
            area.y
        } else {
            (area.y + 1) as u16
        },
        width: if area.width < 2 {
            0
        } else {
            (area.width - 2) as u16
        },
        height: if area.height < 2 {
            0
        } else {
            (area.height - 2) as u16
        },
    }
}

pub fn inner_area(area: Area) -> (inner: Area)
    requires
        area.on_screen(),
    ensures
        inner == inside_border(area),
        inner.within(area),
{
    Area {
        x: if area.width == 0 {
            area.x
        } else {
            area.x + 1
        },
        y: if area.height == 0 {
            area.y
        } else {
            area.y + 1
        },
        width: area.width.saturating_sub(2),
        height: area.height.saturating_sub(2),
    }
}

pub open spec fn smaller(a: u16, b: u16) -> u16 {
    if a <= b {
        a
    } else {
        b
    }
}

/// An area of the given size in the middle of `area`, cut down to it where it is larger.
pub open spec fn centered(area: Area, w: u16, h: u16) -> Area {
    let width = smaller(w, area.width);
    let height = smaller(h, area.height);
    Area {
        x: (area.x + (area.width - width) / 2) as u16,
        y: (area.y + (area.height - height) / 2) as u16,
        width,
        height,
    }
}

pub fn centered_rect(area: Area, w: u16, h: u16) -> (rect: Area)
    requires
        area.on_screen(),
    ensures
        rect == centered(area, w, h),
        rect.within(area),
{
    let width: u16 = if w <= area.width {
        w
    } else {
        area.width
    };
    let height: u16 = if h <= area.height {
        h
    } else {
        area.height
    };
    Area {
        x: area.x + (area.width - width) / 2,
        y: area.y + (area.height - height) / 2,
        width,
        height,
    }
}

/// A centered area has the same margins left and right, and above and below, to within one cell.
pub proof fn law_centered_margins_match(area: Area, w: u16, h: u16)
    requires
        area.on_screen(),
    ensures
        ({
            let rect = centered(area, w, h);
            let left = rect.x - area.x;
            let right = area.x + area.width - (rect.x + rect.width);
            let above = rect.y - area.y;
            let below = area.y + area.height - (rect.y + rect.height);
            0 <= right - left <= 1 && 0 <= below - above <= 1
        }),
{
}

} // verus!
