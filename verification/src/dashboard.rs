//! The dashboard: what each part of the screen shows of a [`Snapshot`]. Everything here is made
//! of plain values; shares of a whole that only fractions can express are handed in.

use crate::layout::centered;
use crate::layout::centered_rect;
use crate::layout::divide;
use crate::layout::inner_area;
use crate::layout::inside_border;
use crate::layout::is_division;
use crate::layout::Area;
use crate::layout::Parts;
use crate::state::kind_name;
use crate::state::kind_text;
use crate::state::signal_name;
use crate::state::signal_text;
use crate::state::FlameNode;
use crate::state::FlameView;
use crate::state::HeatView;
use crate::state::LeakRow;
use crate::state::LeakView;
use crate::state::SelectedView;
use crate::state::Snapshot;
use crate::state::ViewMode;
use crate::state::HEAT_TICK_MS;
use crate::style::add_item;
use crate::style::add_line;
use crate::style::add_panel;
use crate::style::cells_of;
use crate::style::entries_of;
use crate::style::frame_panel;
use crate::style::framed;
use crate::style::lines_of;
use crate::style::piece;
use crate::style::raw;
use crate::style::shapes_of;
use crate::style::Body;
use crate::style::Cells;
use crate::style::Color;
use crate::style::Content;
use crate::style::Entry;
use crate::style::Frame;
use crate::style::Item;
use crate::style::Line;
use crate::style::Panel;
use crate::style::Piece;
use crate::style::Shape;
use crate::style::Style;
use crate::style::TableRow;
use crate::symbols::texts;
use crate::text::chars_of;
use crate::text::decimal;
use crate::text::decimal_text;
use crate::text::hex;
use crate::text::push_decimal;
use crate::text::push_hex;
use crate::text::push_repeated;
use crate::text::text_between;
use crate::tracker::CrashInfo;
use crate::tracker::DisplayEvent;
use vstd::arithmetic::div_mod::lemma_fundamental_div_mod;
use vstd::prelude::*;
use vstd::string::StringExecFns;

verus! {

/// How an event of the given kind is shown.
pub open spec fn style_of_kind(kind: u8) -> Style {
    if kind == 6 {
        Style { bold: true, ..Style::in_color(Color::Red) }
    } else if kind == 1 {
        Style::in_color(Color::DarkGray)
    } else {
        Style::in_color(Color::Green)
    }
}

pub fn kind_style(kind: u8) -> (style: Style)
    ensures
        style == style_of_kind(kind),
{
    match kind {
        6 => Style { fg: Some(Color::Red), bg: None, bold: true, reversed: false },
        1 => Style::in_color(Color::DarkGray),
        _ => Style::in_color(Color::Green),
    }
}

/// `s` cut to `max` characters, the last of them an ellipsis where something was cut off.
pub open spec fn truncated(s: Seq<char>, max: nat) -> Seq<char> {
    if max == 0 {
        Seq::empty()
    } else if s.len() <= max {
        s
    } else {
        s.take(max - 1).push('…')
    }
}

pub fn truncate(s: &str, max: usize) -> (cut: String)
    ensures
        cut@ == truncated(s@, max as nat),
{
    if max == 0 {
        return String::new();
    }
    let chars = chars_of(s);
    if chars.len() <= max {
        return s.to_owned();
    }
    let mut cut = text_between(&chars, 0, max - 1);
    cut.push('…');
    assert(cut@ =~= truncated(s@, max as nat));
    cut
}

/// `n` copies of `c`.
pub open spec fn repeated(c: char, n: nat) -> Seq<char> {
    Seq::new(n, |i: int| c)
}

/// `s` with as many blanks after it as it lacks to `width` characters.
pub open spec fn left_aligned(s: Seq<char>, width: nat) -> Seq<char> {
    if s.len() < width {
        s + repeated(' ', (width - s.len()) as nat)
    } else {
        s
    }
}

/// `s` with as many blanks before it as it lacks to `width` characters.
pub open spec fn right_aligned(s: Seq<char>, width: nat) -> Seq<char> {
    if s.len() < width {
        repeated(' ', (width - s.len()) as nat) + s
    } else {
        s
    }
}

fn push_left_aligned(out: &mut String, s: &str, width: usize)
    ensures
        final(out)@ == old(out)@ + left_aligned(s@, width as nat),
{
    let ghost before = out@;
    let len: usize = chars_of(s).len();
    out.append(s);
    if len < width {
        push_repeated(out, ' ', width - len);
    }
    assert(out@ =~= before + left_aligned(s@, width as nat));
}

fn push_right_aligned(out: &mut String, s: &str, width: usize)
    ensures
        final(out)@ == old(out)@ + right_aligned(s@, width as nat),
{
    let ghost before = out@;
    let len: usize = chars_of(s).len();
    if len < width {
        push_repeated(out, ' ', width - len);
    }
    out.append(s);
    assert(out@ =~= before + right_aligned(s@, width as nat));
}

/// `s` in exactly `width` characters: cut or filled up with blanks.
pub open spec fn padded(s: Seq<char>, width: nat) -> Seq<char> {
    left_aligned(truncated(s, width), width)
}

pub fn pad_to(s: &str, width: usize) -> (text: String)
    ensures
        text@ == padded(s@, width as nat),
        text@.len() == width,
{
    let cut = truncate(s, width);
    let mut text = String::new();
    push_left_aligned(&mut text, cut.as_str(), width);
    assert(text@ =~= padded(s@, width as nat));
    text
}

/// The largest of some numbers; 0 if there is none.
pub open spec fn largest(numbers: Seq<u64>) -> u64
    decreases numbers.len(),
{
    if numbers.len() == 0 {
        0
    } else if numbers.last() >= largest(numbers.drop_last()) {
        numbers.last()
    } else {
        largest(numbers.drop_last())
    }
}

/// A bar of the given height, from 0 to 7.
pub open spec fn bar_of_height(height: int) -> char {
    if height <= 0 {
        '▁'
    } else if height == 1 {
        '▂'
    } else if height == 2 {
        '▃'
    } else if height == 3 {
        '▄'
    } else if height == 4 {
        '▅'
    } else if height == 5 {
        '▆'
    } else if height == 6 {
        '▇'
    } else {
        '█'
    }
}

fn bar(height: u64) -> (c: char)
    ensures
        c == bar_of_height(height as int),
{
    match height {
        0 => '▁',
        1 => '▂',
        2 => '▃',
        3 => '▄',
        4 => '▅',
        5 => '▆',
        6 => '▇',
        _ => '█',
    }
}

/// The last `width` numbers of a series (all of them if there are fewer).
pub open spec fn newest(series: Seq<u64>, width: nat) -> Seq<u64> {
    if series.len() <= width {
        series
    } else {
        series.skip(series.len() - width)
    }
}

/// The last `width` numbers of a series as bars, the largest one at full height.
pub open spec fn spark(series: Seq<u64>, width: nat) -> Seq<char> {
    let shown = newest(series, width);
    let top = if largest(shown) >= 1 {
        largest(shown) as int
    } else {
        1
    };
    shown.map_values(|v: u64| bar_of_height(v * 7 / top))
}

pub fn sparkline(series: &Vec<u64>, width: usize) -> (bars: String)
    ensures
        bars@ == spark(series@, width as nat),
{
    let from: usize = if series.len() <= width {
        0
    } else {
        series.len() - width
    };
    let ghost shown = newest(series@, width as nat);
    assert(shown =~= series@.skip(from as int));
    let mut top: u64 = 0;
    let mut i: usize = from;
    while i < series.len()
        invariant
            from <= i <= series.len(),
            shown == series@.skip(from as int),
            top == largest(shown.take(i - from)),
        decreases series.len() - i,
    {
        assert(shown.take(i + 1 - from).drop_last() =~= shown.take(i - from));
        assert(shown.take(i + 1 - from).last() == series@[i as int]);
        if series[i] >= top {
            top = series[i];
        }
        i += 1;
    }
    assert(shown.take(i - from) =~= shown);
    let ghost peak = top;
    if top == 0 {
        top = 1;
    }
    let mut bars = String::new();
    let mut k: usize = from;
    assert(bars@ =~= spark(series@, width as nat).take(0));
    while k < series.len()
        invariant
            from <= k <= series.len(),
            shown == newest(series@, width as nat),
            shown == series@.skip(from as int),
            peak == largest(shown),
            top == if peak >= 1 {
                peak
            } else {
                1
            },
            bars@ == spark(series@, width as nat).take(k - from),
        decreases series.len() - k,
    {
        proof {
            assert(shown[k - from] == series@[k as int]);
            lemma_largest(shown, k - from);
        }
        let v: u64 = series[k];
        let height: u128 = v as u128 * 7 / top as u128;
        assert(v * 7 / top as int <= 7) by (nonlinear_arith)
            requires
                v <= top,
                top >= 1,
        ;
        bars.push(bar(height as u64));
        assert(spark(series@, width as nat)[k - from] == bar_of_height(v * 7 / top as int));
        k += 1;
        assert(bars@ =~= spark(series@, width as nat).take(k - from));
    }
    assert(bars@ =~= spark(series@, width as nat));
    bars
}

/// No number is larger than the largest.
proof fn lemma_largest(numbers: Seq<u64>, i: int)
    requires
        0 <= i < numbers.len(),
    ensures
        numbers[i] <= largest(numbers),
    decreases numbers.len(),
{
    if i < numbers.len() - 1 {
        lemma_largest(numbers.drop_last(), i);
    }
}

/// How many bars the header draws of the heap over time.
pub const TIMELINE_WIDTH: usize = 32;

/// Which of `len` samples the bar with number `i` out of `width` stands for: the newest of its
/// slice, where each bar has a slice of equal length.
pub open spec fn sample_of_bar(len: nat, width: nat, i: int) -> int {
    (i + 1) * len / (width as int) - 1
}

/// At most `width` samples out of a series, evenly spread over all of it.
pub open spec fn spread(series: Seq<u64>, width: nat) -> Seq<u64> {
    if series.len() <= width {
        series
    } else {
        Seq::new(width, |i: int| series[sample_of_bar(series.len(), width, i)])
    }
}

fn spread_out(series: &Vec<u64>, width: usize) -> (samples: Vec<u64>)
    ensures
        samples@ == spread(series@, width as nat),
{
    let len: usize = series.len();
    let mut samples: Vec<u64> = Vec::new();
    if len <= width {
        let mut k: usize = 0;
        while k < len
            invariant
                k <= len == series.len(),
                samples@ == series@.take(k as int),
            decreases len - k,
        {
            samples.push(series[k]);
            k += 1;
            assert(samples@ =~= series@.take(k as int));
        }
        assert(samples@ =~= series@);
        return samples;
    }
    let mut i: usize = 0;
    assert(samples@ =~= spread(series@, width as nat).take(0));
    while i < width
        invariant
            i <= width < len == series.len(),
            samples@ == spread(series@, width as nat).take(i as int),
        decreases width - i,
    {
        proof {
            lemma_sample_of_bar(len as nat, width as nat, i as int);
        }
        assert((i + 1) * len <= u128::MAX) by (nonlinear_arith)
            requires
                i + 1 <= 0xffff_ffff_ffff_ffff,
                len <= 0xffff_ffff_ffff_ffff,
        ;
        let place: u128 = (i as u128 + 1) * len as u128 / width as u128 - 1;
        samples.push(series[place as usize]);
        i += 1;
        assert(samples@ =~= spread(series@, width as nat).take(i as int));
    }
    assert(samples@ =~= spread(series@, width as nat));
    samples
}

/// Every bar stands for a sample.
proof fn lemma_sample_of_bar(len: nat, width: nat, i: int)
    requires
        0 <= i < width <= len,
    ensures
        0 <= sample_of_bar(len, width, i) < len,
{
    let w = width as int;
    assert(1 <= (i + 1) * len / w <= len) by (nonlinear_arith)
        requires
            0 <= i < w <= len,
    ;
}

/// The bars of the header span all the samples that are kept: the first stands for one of the
/// oldest slice, the last for the newest sample, and between two neighbours lies no more than one
/// slice.
pub proof fn law_timeline_spans_the_series(len: nat, width: nat, i: int)
    requires
        0 <= i < width <= len,
    ensures
        0 <= sample_of_bar(len, width, i) < len,
        sample_of_bar(len, width, 0) <= len / width,
        sample_of_bar(len, width, width - 1) == len - 1,
        0 < sample_of_bar(len, width, i + 1) - sample_of_bar(len, width, i) <= len / width + 1,
{
    lemma_sample_of_bar(len, width, i);
    let w = width as int;
    let l = len as int;
    let q = l / w;
    let r = l % w;
    lemma_fundamental_div_mod(l, w);
    assert(w * l / w == l) by (nonlinear_arith)
        requires
            w > 0,
    ;
    let a = (i + 1) * l / w;
    let b = (i + 2) * l / w;
    let ra = (i + 1) * l % w;
    let rb = (i + 2) * l % w;
    lemma_fundamental_div_mod((i + 1) * l, w);
    lemma_fundamental_div_mod((i + 2) * l, w);
    assert((i + 2) * l == (i + 1) * l + l) by (nonlinear_arith);
    assert(0 < b - a <= q + 1) by (nonlinear_arith)
        requires
            w * b + rb == w * a + ra + l,
            l == w * q + r,
            0 <= r < w,
            0 <= ra < w,
            0 <= rb < w,
            0 < w <= l,
    ;
}

/// A signed number in decimal.
pub open spec fn signed_decimal(n: int) -> Seq<char> {
    if n < 0 {
        "-"@ + decimal((-n) as nat)
    } else {
        decimal(n as nat)
    }
}

fn push_signed(out: &mut String, n: i32)
    ensures
        final(out)@ == old(out)@ + signed_decimal(n as int),
{
    let ghost before = out@;
    let wide: i64 = n as i64;
    if wide < 0 {
        out.append("-");
        push_decimal(out, (-wide) as u64);
    } else {
        push_decimal(out, wide as u64);
    }
    assert(out@ =~= before + signed_decimal(n as int));
}

pub open spec fn dim() -> Style {
    Style::in_color(Color::Gray)
}

/// The first line of the header: what the target does and what has been counted.
pub open spec fn header_text(snap: Snapshot) -> Seq<Piece> {
    seq![
        raw("status: "@ + snap.status@ + "   "@),
        raw(
            "active: "@ + decimal(snap.active_count as nat) + " ("@ + decimal(
                snap.active_bytes as nat,
            ) + " B)   total: "@ + decimal(snap.total_events as nat) + "   "@,
        ),
        if snap.dropped > 0 {
            piece(
                "dropped: "@ + decimal(snap.dropped as nat) + "   "@,
                Style::in_color(Color::Yellow),
            )
        } else {
            raw("dropped: 0   "@)
        },
        raw("offender-depth: "@ + decimal(snap.offender_depth as nat) + "   "@),
    ] + (if snap.paused {
        seq![
            piece(
                " PAUSED "@,
                Style {
                    fg: Some(Color::Black),
                    bg: Some(Color::Yellow),
                    bold: true,
                    reversed: false,
                },
            ),
        ]
    } else {
        Seq::empty()
    }) + match snap.note {
        Some(note) => seq![
            piece("   ("@ + note@ + ")"@, Style::in_color(Color::DarkGray)),
        ],
        None => Seq::empty(),
    }
}

/// How many of a hundred freed blocks were freed in the tick in which they were allocated.
pub open spec fn short_lived_percent(temporary: nat, freed: nat) -> nat {
    temporary * 100 / if freed >= 1 {
        freed
    } else {
        1
    }
}

/// The second line of the header: the heap over time and since the start.
pub open spec fn stats_text(snap: Snapshot) -> Seq<Piece> {
    seq![
        piece("heap "@, dim()),
        piece(
            spark(spread(snap.heap_series@, TIMELINE_WIDTH as nat), TIMELINE_WIDTH as nat),
            Style::in_color(Color::Cyan),
        ),
        piece(
            "  peak "@ + decimal(snap.peak_bytes as nat) + " B   allocated "@ + decimal(
                snap.total_allocated as nat,
            ) + " B   short-lived "@ + decimal(
                short_lived_percent(snap.temporary_count as nat, snap.free_count as nat),
            ) + "%   allocs "@ + decimal(snap.alloc_count as nat) + "  frees "@ + decimal(
                snap.free_count as nat,
            ),
            dim(),
        ),
    ]
}

fn header_line(snap: &Snapshot) -> (line: Line)
    ensures
        line@ == header_text(*snap),
{
    let plain = Style::plain();
    let mut line = Line::new();
    let mut status = "status: ".to_owned();
    status.append(snap.status);
    status.append("   ");
    line.add(status.as_str(), plain);
    let mut active = "active: ".to_owned();
    push_decimal(&mut active, snap.active_count as u64);
    active.append(" (");
    push_decimal(&mut active, snap.active_bytes);
    active.append(" B)   total: ");
    push_decimal(&mut active, snap.total_events);
    active.append("   ");
    line.add(active.as_str(), plain);
    if snap.dropped > 0 {
        let mut dropped = "dropped: ".to_owned();
        push_decimal(&mut dropped, snap.dropped);
        dropped.append("   ");
        line.add(dropped.as_str(), Style::in_color(Color::Yellow));
    } else {
        line.add("dropped: 0   ", plain);
    }
    let mut depth = "offender-depth: ".to_owned();
    push_decimal(&mut depth, snap.offender_depth as u64);
    depth.append("   ");
    line.add(depth.as_str(), plain);
    if snap.paused {
        line.add(
            " PAUSED ",
            Style { fg: Some(Color::Black), bg: Some(Color::Yellow), bold: true, reversed: false },
        );
    }
    if let Some(note) = &snap.note {
        let mut text = "   (".to_owned();
        text.append(note.as_str());
        text.append(")");
        line.add(text.as_str(), Style::in_color(Color::DarkGray));
    }
    assert(line@ =~= header_text(*snap));
    line
}

fn stats_line(snap: &Snapshot) -> (line: Line)
    requires
        snap.temporary_count * 100 <= u64::MAX,
    ensures
        line@ == stats_text(*snap),
{
    let gray = Style::in_color(Color::Gray);
    let freed: u64 = if snap.free_count >= 1 {
        snap.free_count
    } else {
        1
    };
    let percent: u64 = snap.temporary_count * 100 / freed;
    let mut line = Line::new();
    line.add("heap ", gray);
    let bars = sparkline(&spread_out(&snap.heap_series, TIMELINE_WIDTH), TIMELINE_WIDTH);
    line.add(bars.as_str(), Style::in_color(Color::Cyan));
    let mut text = "  peak ".to_owned();
    push_decimal(&mut text, snap.peak_bytes);
    text.append(" B   allocated ");
    push_decimal(&mut text, snap.total_allocated);
    text.append(" B   short-lived ");
    push_decimal(&mut text, percent);
    text.append("%   allocs ");
    push_decimal(&mut text, snap.alloc_count);
    text.append("  frees ");
    push_decimal(&mut text, snap.free_count);
    line.add(text.as_str(), gray);
    assert(line@ =~= stats_text(*snap));
    line
}

/// The header.
pub open spec fn header_shape(snap: Snapshot, area: Area) -> Shape {
    framed(
        area,
        "sherlock profiler"@,
        Style::plain(),
        Content::Text { lines: seq![header_text(snap), stats_text(snap)], wrap: false },
    )
}

pub fn header_panel(snap: &Snapshot, area: Area) -> (panel: Panel)
    requires
        snap.temporary_count * 100 <= u64::MAX,
    ensures
        panel@ == header_shape(*snap, area),
{
    let mut lines: Vec<Line> = Vec::new();
    add_line(&mut lines, header_line(snap));
    add_line(&mut lines, stats_line(snap));
    assert(lines_of(lines@) =~= seq![header_text(*snap), stats_text(*snap)]);
    frame_panel(area, "sherlock profiler", Style::plain(), Body::Text { lines, wrap: false })
}

/// The line for an event in the list of recent events.
pub open spec fn event_text(event: DisplayEvent) -> Seq<char> {
    "#"@ + decimal(event.seq as nat) + " "@ + left_aligned(kind_text(event.kind), 8) + " ptr=0x"@
        + left_aligned(hex(event.ptr as nat), 12) + " size="@ + left_aligned(
        decimal(event.size as nat),
        8,
    ) + " "@ + event.offender@
}

fn event_line(event: &DisplayEvent) -> (text: String)
    ensures
        text@ == event_text(*event),
{
    let mut text = "#".to_owned();
    push_decimal(&mut text, event.seq);
    text.append(" ");
    push_left_aligned(&mut text, kind_name(event.kind), 8);
    text.append(" ptr=0x");
    let mut ptr = String::new();
    push_hex(&mut ptr, event.ptr as u64);
    assert(ptr@ =~= hex(event.ptr as nat));
    push_left_aligned(&mut text, ptr.as_str(), 12);
    text.append(" size=");
    let size = decimal_text(event.size as u64);
    push_left_aligned(&mut text, size.as_str(), 8);
    text.append(" ");
    text.append(event.offender.as_str());
    text
}

/// The `i`-th row of the list of recent events, from the newest on; the selected one is shown
/// reversed.
pub open spec fn event_entry(snap: Snapshot, i: int) -> Entry {
    let event = snap.recent@[snap.recent@.len() - 1 - i];
    let style = style_of_kind(event.kind);
    Entry {
        line: seq![raw(event_text(event))],
        style: if snap.selected == Some(i as usize) {
            Style { reversed: true, ..style }
        } else {
            style
        },
    }
}

/// How many rows a box with a border has.
pub open spec fn rows_inside(area: Area) -> nat {
    if area.height < 2 {
        0
    } else {
        (area.height - 2) as nat
    }
}

/// How many events fit into the list of recent events.
pub open spec fn events_shown(snap: Snapshot, area: Area) -> nat {
    if snap.recent@.len() < rows_inside(area) {
        snap.recent@.len()
    } else {
        rows_inside(area)
    }
}

/// The list of recent events, the newest first.
pub open spec fn recent_shape(snap: Snapshot, area: Area) -> Shape {
    framed(
        area,
        if snap.paused {
            "recent events (paused)"@
        } else {
            "recent events"@
        },
        Style::plain(),
        Content::Items {
            items: Seq::new(events_shown(snap, area), |i: int| event_entry(snap, i)),
        },
    )
}

pub fn recent_panel(snap: &Snapshot, area: Area) -> (panel: Panel)
    ensures
        panel@ == recent_shape(*snap, area),
{
    let room: usize = area.height.saturating_sub(2) as usize;
    let count: usize = if snap.recent.len() < room {
        snap.recent.len()
    } else {
        room
    };
    let ghost all = Seq::new(count as nat, |i: int| event_entry(*snap, i));
    let mut items: Vec<Item> = Vec::new();
    let mut i: usize = 0;
    assert(entries_of(items@) =~= all.take(0));
    while i < count
        invariant
            i <= count <= snap.recent.len(),
            all == Seq::new(count as nat, |i: int| event_entry(*snap, i)),
            entries_of(items@) == all.take(i as int),
        decreases count - i,
    {
        let event = &snap.recent[snap.recent.len() - 1 - i];
        let mut style = kind_style(event.kind);
        if let Some(place) = snap.selected {
            if place == i {
                style.reversed = true;
            }
        }
        let text = event_line(event);
        add_item(&mut items, Item { line: Line::of(text.as_str(), Style::plain()), style });
        i += 1;
        assert(entries_of(items@) =~= all.take(i as int));
    }
    assert(all.take(i as int) =~= all);
    let title = if snap.paused {
        "recent events (paused)"
    } else {
        "recent events"
    };
    frame_panel(area, title, Style::plain(), Body::Items { items })
}

/// A share of a whole as a bar: how many of its cells are filled, and its colour.
#[derive(Clone, Copy, Debug, PartialEq, Eq, Structural)]
pub struct Gauge {
    pub filled: usize,
    pub color: Color,
}

/// How many cells the bar of an offender has.
pub const OFFENDER_BAR: usize = 12;

/// How many cells the bar of a leak has.
pub const LEAK_BAR: usize = 10;

/// The filled cells of a bar of `cells` cells.
pub open spec fn bar_text(gauge: Gauge, cells: nat) -> Seq<char> {
    repeated(
        '█',
        if gauge.filled < cells {
            gauge.filled as nat
        } else {
            cells
        },
    )
}

fn bar_string(gauge: Gauge, cells: usize) -> (text: String)
    ensures
        text@ == bar_text(gauge, cells as nat),
{
    let mut text = String::new();
    push_repeated(
        &mut text,
        '█',
        if gauge.filled < cells {
            gauge.filled
        } else {
            cells
        },
    );
    assert(text@ =~= bar_text(gauge, cells as nat));
    text
}

/// How many characters of a name have room, next to `taken` other ones; at least 8.
pub open spec fn name_room(width: nat, taken: nat) -> nat {
    if width < taken + 8 {
        8
    } else {
        (width - taken) as nat
    }
}

fn room_for_name(width: u16, taken: usize) -> (room: usize)
    requires
        taken < 1000,
    ensures
        room == name_room(width as nat, taken as nat),
{
    let left: usize = (width as usize).saturating_sub(taken);
    if left < 8 {
        8
    } else {
        left
    }
}

/// The row of an offender: a bar, its bytes and its name.
pub open spec fn offender_entry(name: Seq<char>, bytes: u64, gauge: Gauge, width: u16) -> Entry {
    Entry {
        line: seq![
            piece(
                left_aligned(bar_text(gauge, OFFENDER_BAR as nat), OFFENDER_BAR as nat) + " "@,
                Style::in_color(gauge.color),
            ),
            raw(right_aligned(decimal(bytes as nat), 10) + "  "@),
            raw(truncated(name, name_room(width as nat, 28))),
        ],
        style: Style::plain(),
    }
}

fn offender_item(name: &str, bytes: u64, gauge: Gauge, width: u16) -> (item: Item)
    ensures
        item@ == offender_entry(name@, bytes, gauge, width),
{
    let mut line = Line::new();
    let filled = bar_string(gauge, OFFENDER_BAR);
    let mut bar_cells = String::new();
    push_left_aligned(&mut bar_cells, filled.as_str(), OFFENDER_BAR);
    bar_cells.append(" ");
    line.add(bar_cells.as_str(), Style::in_color(gauge.color));
    let mut count = String::new();
    let digits = decimal_text(bytes);
    push_right_aligned(&mut count, digits.as_str(), 10);
    count.append("  ");
    line.add(count.as_str(), Style::plain());
    let cut = truncate(name, room_for_name(width, OFFENDER_BAR + 16));
    line.add(cut.as_str(), Style::plain());
    assert(bar_cells@ =~= left_aligned(bar_text(gauge, 12), 12) + " "@);
    assert(count@ =~= right_aligned(decimal(bytes as nat), 10) + "  "@);
    assert(line@ =~= offender_entry(name@, bytes, gauge, width).line);
    Item { line, style: Style::plain() }
}

/// The list of offenders.
pub open spec fn offenders_shape(snap: Snapshot, gauges: Seq<Gauge>, area: Area) -> Shape {
    framed(
        area,
        "top offenders (active bytes)"@,
        Style::plain(),
        Content::Items {
            items: Seq::new(
                snap.offenders@.len(),
                |i: int|
                    offender_entry(
                        snap.offenders@[i].0@,
                        snap.offenders@[i].1,
                        gauges[i],
                        area.width,
                    ),
            ),
        },
    )
}

pub fn offenders_panel(snap: &Snapshot, gauges: &Vec<Gauge>, area: Area) -> (panel: Panel)
    requires
        gauges.len() == snap.offenders.len(),
    ensures
        panel@ == offenders_shape(*snap, gauges@, area),
{
    let ghost all = offenders_shape(*snap, gauges@, area).body->items;
    let mut items: Vec<Item> = Vec::new();
    let mut i: usize = 0;
    assert(entries_of(items@) =~= all.take(0));
    while i < snap.offenders.len()
        invariant
            i <= snap.offenders.len(),
            gauges.len() == snap.offenders.len(),
            all == Seq::new(
                snap.offenders@.len(),
                |i: int|
                    offender_entry(
                        snap.offenders@[i].0@,
                        snap.offenders@[i].1,
                        gauges@[i],
                        area.width,
                    ),
            ),
            entries_of(items@) == all.take(i as int),
        decreases snap.offenders.len() - i,
    {
        let row = &snap.offenders[i];
        add_item(&mut items, offender_item(row.0.as_str(), row.1, gauges[i], area.width));
        i += 1;
        assert(entries_of(items@) =~= all.take(i as int));
    }
    assert(all.take(i as int) =~= all);
    frame_panel(area, "top offenders (active bytes)", Style::plain(), Body::Items { items })
}

/// The line of a frame in a call stack.
pub open spec fn frame_text(i: nat, label: Seq<char>) -> Seq<char> {
    "  #"@ + decimal(i) + " "@ + label
}

fn frame_line(i: usize, label: &str) -> (text: String)
    ensures
        text@ == frame_text(i as nat, label@),
{
    let mut text = "  #".to_owned();
    push_decimal(&mut text, i as u64);
    text.append(" ");
    text.append(label);
    text
}

/// The call stack of a selected event, line by line.
pub open spec fn call_stack_text(view: SelectedView) -> Seq<Seq<Piece>> {
    let head = seq![piece(view.header@, Style { bold: true, ..Style::plain() })];
    if view.stack@.len() == 0 {
        seq![head, seq![piece("  (no frames captured)"@, Style::in_color(Color::DarkGray))]]
    } else {
        seq![head] + Seq::new(
            view.stack@.len(),
            |i: int| seq![raw(frame_text(i as nat, view.stack@[i]@))],
        )
    }
}

/// The call stack of a selected event.
pub open spec fn call_stack_shape(view: SelectedView, area: Area) -> Shape {
    framed(
        area,
        "call stack (Esc to close)"@,
        Style::plain(),
        Content::Text { lines: call_stack_text(view), wrap: true },
    )
}

pub fn call_stack_panel(view: &SelectedView, area: Area) -> (panel: Panel)
    ensures
        panel@ == call_stack_shape(*view, area),
{
    let mut lines: Vec<Line> = Vec::new();
    add_line(
        &mut lines,
        Line::of(
            view.header.as_str(),
            Style { fg: None, bg: None, bold: true, reversed: false },
        ),
    );
    if view.stack.len() == 0 {
        add_line(
            &mut lines,
            Line::of("  (no frames captured)", Style::in_color(Color::DarkGray)),
        );
    }
    let ghost all = call_stack_text(*view);
    let mut i: usize = 0;
    if view.stack.len() > 0 {
        assert(lines_of(lines@) =~= all.take(1));
    }
    while i < view.stack.len()
        invariant
            i <= view.stack.len(),
            all == call_stack_text(*view),
            view.stack.len() > 0 ==> lines_of(lines@) == all.take(i + 1),
            view.stack.len() == 0 ==> lines_of(lines@) == all,
        decreases view.stack.len() - i,
    {
        let text = frame_line(i, view.stack[i].as_str());
        add_line(&mut lines, Line::of(text.as_str(), Style::plain()));
        i += 1;
        assert(lines_of(lines@) =~= all.take(i + 1));
    }
    assert(lines_of(lines@) =~= all);
    frame_panel(area, "call stack (Esc to close)", Style::plain(), Body::Text { lines, wrap: true })
}

pub open spec fn alarm() -> Style {
    Style { bold: true, ..Style::in_color(Color::Red) }
}

/// The first line of a crash.
pub open spec fn crash_text(crash: CrashInfo) -> Seq<char> {
    signal_text(crash.signal) + " ("@ + signed_decimal(crash.signal as int)
        + ")   fault addr=0x"@ + hex(crash.fault_addr as nat) + "   pc=0x"@ + hex(crash.pc as nat)
}

fn crash_line(crash: &CrashInfo) -> (text: String)
    ensures
        text@ == crash_text(*crash),
{
    let mut text = signal_name(crash.signal).to_owned();
    text.append(" (");
    push_signed(&mut text, crash.signal);
    text.append(")   fault addr=0x");
    push_hex(&mut text, crash.fault_addr as u64);
    text.append("   pc=0x");
    push_hex(&mut text, crash.pc as u64);
    text
}

/// A crash, line by line.
pub open spec fn crash_entries(crash: CrashInfo) -> Seq<Entry> {
    seq![Entry { line: seq![raw(crash_text(crash))], style: alarm() }] + Seq::new(
        crash.frames@.len(),
        |i: int|
            Entry {
                line: seq![raw(frame_text(i as nat, crash.frames@[i]@))],
                style: Style::plain(),
            },
    )
}

/// A crash.
pub open spec fn crash_shape(crash: CrashInfo, area: Area) -> Shape {
    framed(
        area,
        " CRASH — target terminated "@,
        alarm(),
        Content::Items { items: crash_entries(crash) },
    )
}

pub fn crash_panel(crash: &CrashInfo, area: Area) -> (panel: Panel)
    ensures
        panel@ == crash_shape(*crash, area),
{
    let red = Style { fg: Some(Color::Red), bg: None, bold: true, reversed: false };
    let mut items: Vec<Item> = Vec::new();
    let first = crash_line(crash);
    add_item(&mut items, Item { line: Line::of(first.as_str(), Style::plain()), style: red });
    let ghost all = crash_entries(*crash);
    let mut i: usize = 0;
    assert(entries_of(items@) =~= all.take(1));
    while i < crash.frames.len()
        invariant
            i <= crash.frames.len(),
            all == crash_entries(*crash),
            entries_of(items@) == all.take(i + 1),
        decreases crash.frames.len() - i,
    {
        let text = frame_line(i, crash.frames[i].as_str());
        add_item(
            &mut items,
            Item { line: Line::of(text.as_str(), Style::plain()), style: Style::plain() },
        );
        i += 1;
        assert(entries_of(items@) =~= all.take(i + 1));
    }
    assert(all.take(i + 1) =~= all);
    frame_panel(area, " CRASH — target terminated ", red, Body::Items { items })
}

/// How many rows a crash takes: its frames and four more, but no more than 18.
pub open spec fn crash_rows(frames: nat) -> nat {
    if frames + 4 < 18 {
        frames + 4
    } else {
        18
    }
}

/// How high the part of the screen for a crash is: 0 if there is none.
pub open spec fn rows_for_crash(crash: Option<CrashInfo>) -> nat {
    match crash {
        Some(c) => crash_rows((c.frames@.len() as u16) as nat),
        None => 0,
    }
}

pub fn crash_height(crash: &Option<CrashInfo>) -> (height: u16)
    requires
        crash matches Some(c) ==> (c.frames@.len() as u16) + 4 <= u16::MAX,
    ensures
        height == rows_for_crash(*crash),
{
    match crash {
        Some(c) => {
            let count: u16 = c.frames.len() as u16;
            let rows: u16 = count + 4;
            if rows < 18 {
                rows
            } else {
                18
            }
        },
        None => 0,
    }
}

/// A box of the flame graph on its row: the cells from `x0` up to but without `x1`.
pub struct FlameSeg {
    pub x0: u16,
    pub x1: u16,
    pub label: String,
    pub bytes: u64,
}

/// What a [`FlameSeg`] holds.
pub struct Segment {
    pub x0: u16,
    pub x1: u16,
    pub label: Seq<char>,
    pub bytes: u64,
}

impl View for FlameSeg {
    type V = Segment;

    open spec fn view(&self) -> Segment {
        Segment { x0: self.x0, x1: self.x1, label: self.label@, bytes: self.bytes }
    }
}

/// What the segments in a list hold.
pub open spec fn segments(list: Seq<FlameSeg>) -> Seq<Segment> {
    list.map_values(|s: FlameSeg| s@)
}

/// How many of `span` cells a box gets that holds `bytes` of the `whole` below it.
pub open spec fn box_width(bytes: u64, span: int, whole: u64) -> u16 {
    (bytes * span / whole as int) as u16
}

/// Where a box ends that begins at `from` and has `width` cells, if nothing may pass `limit`.
pub open spec fn box_end(from: u16, width: u16, limit: u16) -> u16 {
    if from + width < limit {
        (from + width) as u16
    } else {
        limit
    }
}

/// The boxes on row `row` (from 0) above the cells from `x0` to `x1`, where the first `n` of
/// `nodes` stand side by side and share `whole` bytes; and where the next one would begin. A node
/// whose share is less than one cell gets no box, nor does anything above it.
pub open spec fn boxes_on_row(
    nodes: Seq<FlameNode>,
    n: int,
    row: nat,
    x0: u16,
    x1: u16,
    whole: u64,
) -> (Seq<Segment>, u16)
    decreases row, n,
{
    if n <= 0 || x1 <= x0 || whole == 0 {
        (Seq::empty(), x0)
    } else {
        let (before, at) = boxes_on_row(nodes, n - 1, row, x0, x1, whole);
        let node = nodes[n - 1];
        let width = box_width(node.bytes, x1 - x0, whole);
        let end = box_end(at, width, x1);
        if width == 0 {
            (before, at)
        } else if row == 0 {
            let this = Segment { x0: at, x1: end, label: node.label@, bytes: node.bytes };
            (before.push(this), end)
        } else {
            (
                before + boxes_on_row(
                    node.children@,
                    node.children@.len() as int,
                    (row - 1) as nat,
                    at,
                    end,
                    node.bytes,
                ).0,
                end,
            )
        }
    }
}

/// The boxes on row `row` of a flame graph that is `width` cells wide.
pub open spec fn flame_row(roots: Seq<FlameNode>, row: nat, width: u16, whole: u64) -> Seq<Segment> {
    boxes_on_row(roots, roots.len() as int, row, 0, width, whole).0
}

fn push_boxes(
    nodes: &Vec<FlameNode>,
    row: usize,
    x0: u16,
    x1: u16,
    whole: u64,
    out: &mut Vec<FlameSeg>,
)
    ensures
        segments(final(out)@) == segments(old(out)@) + boxes_on_row(
            nodes@,
            nodes@.len() as int,
            row as nat,
            x0,
            x1,
            whole,
        ).0,
    decreases row,
{
    let ghost start = segments(out@);
    if x1 <= x0 || whole == 0 {
        assert(segments(out@) =~= start + Seq::<Segment>::empty());
        return;
    }
    let span: u128 = (x1 - x0) as u128;
    let mut cursor: u16 = x0;
    let mut i: usize = 0;
    assert(segments(out@) =~= start + boxes_on_row(nodes@, 0, row as nat, x0, x1, whole).0);
    while i < nodes.len()
        invariant
            i <= nodes.len(),
            x0 < x1,
            whole != 0,
            span == x1 - x0,
            x0 <= cursor <= x1,
            cursor == boxes_on_row(nodes@, i as int, row as nat, x0, x1, whole).1,
            segments(out@) == start + boxes_on_row(nodes@, i as int, row as nat, x0, x1, whole).0,
        decreases nodes.len() - i,
    {
        let node = &nodes[i];
        let ghost before = segments(out@);
        assert(node.bytes * span <= u64::MAX * u16::MAX) by (nonlinear_arith)
            requires
                node.bytes <= u64::MAX,
                0 <= span <= u16::MAX,
        ;
        let share: u128 = node.bytes as u128 * span / whole as u128;
        let width: u16 = share as u16;
        assert(width == box_width(node.bytes, x1 - x0, whole));
        if width != 0 {
            let sum: u32 = cursor as u32 + width as u32;
            let end: u16 = if sum < x1 as u32 {
                sum as u16
            } else {
                x1
            };
            if row == 0 {
                let seg = FlameSeg {
                    x0: cursor,
                    x1: end,
                    label: node.label.clone(),
                    bytes: node.bytes,
                };
                out.push(seg);
                assert(segments(out@) =~= before.push(seg@));
            } else {
                push_boxes(&node.children, row - 1, cursor, end, node.bytes, out);
            }
            cursor = end;
        }
        i += 1;
        assert(segments(out@) =~= start + boxes_on_row(
            nodes@,
            i as int,
            row as nat,
            x0,
            x1,
            whole,
        ).0);
    }
}

/// What the rows of a flame graph hold.
pub open spec fn segment_rows(rows: Seq<Vec<FlameSeg>>) -> Seq<Seq<Segment>> {
    rows.map_values(|row: Vec<FlameSeg>| segments(row@))
}

/// `rows` are the rows of the flame graph that have a box, at most `max_depth` of them, the
/// outermost calls first.
pub open spec fn is_flame_layout(
    rows: Seq<Seq<Segment>>,
    roots: Seq<FlameNode>,
    width: u16,
    whole: u64,
    max_depth: nat,
) -> bool {
    &&& rows.len() <= max_depth
    &&& forall|d: int|
        0 <= d < rows.len() ==> #[trigger] rows[d] == flame_row(roots, d as nat, width, whole)
            && rows[d].len() > 0
    &&& rows.len() < max_depth ==> flame_row(roots, rows.len(), width, whole).len() == 0
}

/// Lays out the flame graph on `width` cells and at most `max_depth` rows.
pub fn layout_flame(roots: &Vec<FlameNode>, width: u16, whole: u64, max_depth: usize) -> (rows: Vec<
    Vec<FlameSeg>,
>)
    ensures
        is_flame_layout(segment_rows(rows@), roots@, width, whole, max_depth as nat),
{
    let mut rows: Vec<Vec<FlameSeg>> = Vec::new();
    let mut depth: usize = 0;
    while depth < max_depth
        invariant
            depth <= max_depth,
            rows.len() == depth,
            forall|d: int|
                0 <= d < rows.len() ==> #[trigger] segment_rows(rows@)[d] == flame_row(
                    roots@,
                    d as nat,
                    width,
                    whole,
                ) && segment_rows(rows@)[d].len() > 0,
        decreases max_depth - depth,
    {
        let mut row: Vec<FlameSeg> = Vec::new();
        push_boxes(roots, depth, 0, width, whole, &mut row);
        assert(segments(row@) =~= flame_row(roots@, depth as nat, width, whole));
        if row.len() == 0 {
            assert(segments(row@).len() == 0);
            return rows;
        }
        let ghost before = rows@;
        rows.push(row);
        assert forall|d: int| 0 <= d < rows.len() implies #[trigger] segment_rows(rows@)[d]
            == flame_row(roots@, d as nat, width, whole) && segment_rows(rows@)[d].len() > 0 by {
            if d < depth {
                assert(segment_rows(rows@)[d] == segment_rows(before)[d]);
            }
        }
        depth += 1;
    }
    rows
}

/// The share of a box in the whole: in percent, and as a colour.
#[derive(Clone, Copy, Debug, PartialEq, Eq, Structural)]
pub struct Share {
    pub percent: u64,
    pub color: Color,
}

/// The text in a box: its label, and its share where that fits behind the first few characters.
pub open spec fn box_text(seg: Segment, share: Share) -> Seq<char> {
    let suffix = " "@ + decimal(share.percent as nat) + "%"@;
    let least = if seg.label.len() < 6 {
        seg.label.len()
    } else {
        6
    };
    if seg.x1 - seg.x0 >= least + suffix.len() {
        seg.label + suffix
    } else {
        seg.label
    }
}

/// The pieces of a row up to its `n`-th box: gaps are blank.
pub open spec fn flame_pieces(segs: Seq<Segment>, shares: Seq<Share>, n: int) -> Seq<Piece>
    decreases n,
{
    if n <= 0 {
        Seq::empty()
    } else {
        let seg = segs[n - 1];
        let share = shares[n - 1];
        let from = if n == 1 {
            0
        } else {
            segs[n - 2].x1
        };
        let before = flame_pieces(segs, shares, n - 1);
        let spaced = if seg.x0 > from {
            before.push(raw(repeated(' ', (seg.x0 - from) as nat)))
        } else {
            before
        };
        spaced.push(
            piece(
                padded(box_text(seg, share), (seg.x1 - seg.x0) as nat),
                Style {
                    fg: Some(Color::Black),
                    bg: Some(share.color),
                    bold: false,
                    reversed: false,
                },
            ),
        )
    }
}

/// One row of the flame graph.
pub fn flame_row_line(segs: &Vec<FlameSeg>, shares: &Vec<Share>) -> (line: Line)
    requires
        shares.len() == segs.len(),
        forall|i: int| 0 <= i < segs.len() ==> (#[trigger] segs[i]).x0 <= segs[i].x1,
    ensures
        line@ == flame_pieces(segments(segs@), shares@, segs@.len() as int),
{
    let mut line = Line::new();
    let mut cursor: u16 = 0;
    let ghost all = segments(segs@);
    let mut i: usize = 0;
    while i < segs.len()
        invariant
            i <= segs.len(),
            shares.len() == segs.len(),
            all == segments(segs@),
            forall|i: int| 0 <= i < segs.len() ==> (#[trigger] segs[i]).x0 <= segs[i].x1,
            cursor == if i == 0 {
                0
            } else {
                all[i - 1].x1
            },
            line@ == flame_pieces(all, shares@, i as int),
        decreases segs.len() - i,
    {
        let seg = &segs[i];
        let share: Share = shares[i];
        assert(all[i as int] == seg@);
        let ghost before = line@;
        if seg.x0 > cursor {
            let mut gap = String::new();
            push_repeated(&mut gap, ' ', (seg.x0 - cursor) as usize);
            assert(gap@ =~= repeated(' ', (seg.x0 - cursor) as nat));
            line.add(gap.as_str(), Style::plain());
        }
        let width: usize = (seg.x1 - seg.x0) as usize;
        let mut suffix = " ".to_owned();
        push_decimal(&mut suffix, share.percent);
        suffix.append("%");
        let label_len: usize = chars_of(seg.label.as_str()).len();
        let suffix_len: usize = chars_of(suffix.as_str()).len();
        let least: usize = if label_len < 6 {
            label_len
        } else {
            6
        };
        let mut text = seg.label.clone();
        if width >= least && width - least >= suffix_len {
            text.append(suffix.as_str());
        }
        assert(text@ == box_text(seg@, share));
        let cell = pad_to(text.as_str(), width);
        line.add(
            cell.as_str(),
            Style { fg: Some(Color::Black), bg: Some(share.color), bold: false, reversed: false },
        );
        cursor = seg.x1;
        i += 1;
    }
    line
}

/// The boxes of a row stand side by side, in order, and none leaves the cells of what is below
/// it.
pub proof fn law_boxes_stay_in_their_row(
    nodes: Seq<FlameNode>,
    n: int,
    row: nat,
    x0: u16,
    x1: u16,
    whole: u64,
)
    requires
        x0 <= x1,
    ensures
        ({
            let (segs, at) = boxes_on_row(nodes, n, row, x0, x1, whole);
            &&& x0 <= at <= x1
            &&& forall|i: int|
                0 <= i < segs.len() ==> x0 <= (#[trigger] segs[i]).x0 <= segs[i].x1 <= at
            &&& forall|i: int, j: int|
                0 <= i < j < segs.len() ==> (#[trigger] segs[i]).x1 <= (#[trigger] segs[j]).x0
        }),
    decreases row, n,
{
    if n > 0 && x1 > x0 && whole != 0 {
        law_boxes_stay_in_their_row(nodes, n - 1, row, x0, x1, whole);
        let (before, at) = boxes_on_row(nodes, n - 1, row, x0, x1, whole);
        let node = nodes[n - 1];
        let width = box_width(node.bytes, x1 - x0, whole);
        let end = box_end(at, width, x1);
        if width != 0 && row > 0 {
            let count = node.children@.len() as int;
            law_boxes_stay_in_their_row(
                node.children@,
                count,
                (row - 1) as nat,
                at,
                end,
                node.bytes,
            );
            let above = boxes_on_row(
                node.children@,
                count,
                (row - 1) as nat,
                at,
                end,
                node.bytes,
            ).0;
            let all = boxes_on_row(nodes, n, row, x0, x1, whole).0;
            assert(all == before + above);
            assert forall|i: int| 0 <= i < all.len() implies x0 <= (#[trigger] all[i]).x0
                <= all[i].x1 <= end by {
                if i >= before.len() {
                    assert(all[i] == above[i - before.len()]);
                } else {
                    assert(all[i] == before[i]);
                }
            }
            assert forall|i: int, j: int| 0 <= i < j < all.len() implies (#[trigger] all[i]).x1 <= (
            #[trigger] all[j]).x0 by {
                if i >= before.len() {
                    assert(all[i] == above[i - before.len()]);
                    assert(all[j] == above[j - before.len()]);
                } else {
                    assert(all[i] == before[i]);
                    if j >= before.len() {
                        assert(all[j] == above[j - before.len()]);
                    } else {
                        assert(all[j] == before[j]);
                    }
                }
            }
        }
    }
}

/// A message in the middle of a box.
pub open spec fn message_shape(
    area: Area,
    title: Seq<char>,
    border: Style,
    text: Seq<char>,
    style: Style,
) -> Shape {
    framed(
        area,
        title,
        border,
        Content::Message {
            area: centered(inside_border(area), text.len() as u16, 1),
            text,
            style,
        },
    )
}

fn message_panel(area: Area, title: &str, border: Style, text: &str, style: Style) -> (panel: Panel)
    requires
        area.on_screen(),
    ensures
        panel@ == message_shape(area, title@, border, text@, style),
{
    let inner = inner_area(area);
    let len: usize = chars_of(text).len();
    let at = centered_rect(inner, len as u16, 1);
    frame_panel(area, title, border, Body::Message { area: at, text: text.to_owned(), style })
}

/// Whether there is anything to draw in the flame graph.
pub open spec fn has_flame(flame: Option<FlameView>) -> bool {
    flame matches Some(f) && f.total > 0 && f.roots@.len() > 0
}

/// The rows of the flame graph, as they fit into `area`; none if there is nothing to draw.
pub open spec fn is_flame_in(rows: Seq<Seq<Segment>>, flame: Option<FlameView>, area: Area) -> bool {
    match flame {
        Some(f) if has_flame(flame) => is_flame_layout(
            rows,
            f.roots@,
            inside_border(area).width,
            f.total,
            rows_inside(area),
        ),
        _ => rows.len() == 0,
    }
}

/// Lays out the flame graph in `area`.
pub fn flame_rows(flame: &Option<FlameView>, area: Area) -> (rows: Vec<Vec<FlameSeg>>)
    ensures
        is_flame_in(segment_rows(rows@), *flame, area),
{
    match flame {
        Some(f) if f.total > 0 && f.roots.len() > 0 => {
            let width: u16 = area.width.saturating_sub(2);
            let depth: usize = area.height.saturating_sub(2) as usize;
            layout_flame(&f.roots, width, f.total, depth)
        },
        _ => Vec::new(),
    }
}

/// There is a share for every box.
pub open spec fn shares_match(shares: Seq<Vec<Share>>, rows: Seq<Seq<Segment>>) -> bool {
    &&& shares.len() == rows.len()
    &&& forall|d: int| 0 <= d < rows.len() ==> (#[trigger] shares[d])@.len() == rows[d].len()
}

/// The lines of the flame graph.
pub open spec fn flame_lines(rows: Seq<Seq<Segment>>, shares: Seq<Vec<Share>>) -> Seq<Seq<Piece>> {
    Seq::new(
        rows.len(),
        |d: int| flame_pieces(rows[d], shares[d]@, rows[d].len() as int),
    )
}

/// The flame graph.
pub open spec fn flame_shape(
    flame: Option<FlameView>,
    rows: Seq<Seq<Segment>>,
    shares: Seq<Vec<Share>>,
    area: Area,
) -> Shape {
    if has_flame(flame) {
        framed(
            area,
            "flame graph — "@ + decimal(flame->0.total as nat)
                + " B live · width & color = share (outermost on top)"@,
            Style::plain(),
            Content::Text { lines: flame_lines(rows, shares), wrap: false },
        )
    } else {
        message_shape(
            area,
            "flame graph — width & color = share of live heap (outermost on top)"@,
            Style::plain(),
            "no active allocations to chart"@,
            Style::in_color(Color::DarkGray),
        )
    }
}

/// The flame graph. `rows` are its rows as [`flame_rows`] lays them out in `area`, `shares` the
/// shares of their boxes.
pub fn flame_panel(
    flame: &Option<FlameView>,
    rows: &Vec<Vec<FlameSeg>>,
    shares: &Vec<Vec<Share>>,
    area: Area,
) -> (panel: Panel)
    requires
        area.on_screen(),
        is_flame_in(segment_rows(rows@), *flame, area),
        shares_match(shares@, segment_rows(rows@)),
    ensures
        panel@ == flame_shape(*flame, segment_rows(rows@), shares@, area),
{
    match flame {
        Some(f) if f.total > 0 && f.roots.len() > 0 => {
            let ghost all = segment_rows(rows@);
            let mut lines: Vec<Line> = Vec::new();
            let mut d: usize = 0;
            assert(lines_of(lines@) =~= flame_lines(all, shares@).take(0));
            while d < rows.len()
                invariant
                    d <= rows.len(),
                    all == segment_rows(rows@),
                    shares_match(shares@, all),
                    is_flame_layout(
                        all,
                        f.roots@,
                        inside_border(area).width,
                        f.total,
                        rows_inside(area),
                    ),
                    lines_of(lines@) == flame_lines(all, shares@).take(d as int),
                decreases rows.len() - d,
            {
                proof {
                    assert(all[d as int] == segments(rows@[d as int]@));
                    assert(shares@[d as int]@.len() == all[d as int].len());
                    law_boxes_stay_in_their_row(
                        f.roots@,
                        f.roots@.len() as int,
                        d as nat,
                        0,
                        inside_border(area).width,
                        f.total,
                    );
                    assert forall|i: int| 0 <= i < rows@[d as int]@.len() implies (#[trigger] rows@[d as int][i]).x0
                        <= rows@[d as int][i].x1 by {
                        assert(all[d as int][i] == rows@[d as int]@[i]@);
                    }
                }
                add_line(&mut lines, flame_row_line(&rows[d], &shares[d]));
                d += 1;
                assert(lines_of(lines@) =~= flame_lines(all, shares@).take(d as int));
            }
            assert(lines_of(lines@) =~= flame_lines(all, shares@));
            let mut title = "flame graph — ".to_owned();
            push_decimal(&mut title, f.total);
            title.append(" B live · width & color = share (outermost on top)");
            frame_panel(area, title.as_str(), Style::plain(), Body::Text { lines, wrap: false })
        },
        _ => message_panel(
            area,
            "flame graph — width & color = share of live heap (outermost on top)",
            Style::plain(),
            "no active allocations to chart",
            Style::in_color(Color::DarkGray),
        ),
    }
}

/// How many characters of a call site's name the heatmap shows.
pub const HEAT_LABEL: usize = 24;

/// How many ticks of the heatmap fit into `area`.
pub open spec fn heat_columns(buckets: nat, area: Area) -> nat {
    let room = if area.width < 28 {
        1
    } else {
        (area.width - 27) as nat
    };
    if buckets < room {
        buckets
    } else {
        room
    }
}

/// The cells of a row of the heatmap: blank where nothing was allocated.
pub open spec fn heat_cell(v: u64, color: Color) -> Piece {
    piece(
        seq![
            if v == 0 {
                ' '
            } else {
                '█'
            },
        ],
        Style::in_color(color),
    )
}

/// The row of a call site in the heatmap: its name and its last `columns` ticks.
pub open spec fn heat_line(
    site: Seq<char>,
    cells: Seq<u64>,
    colors: Seq<Color>,
    columns: nat,
) -> Seq<Piece> {
    let skip = if cells.len() <= columns {
        0
    } else {
        cells.len() - columns
    };
    seq![raw(padded(site, HEAT_LABEL as nat) + " "@)] + Seq::new(
        (cells.len() - skip) as nat,
        |i: int| heat_cell(cells[skip + i], colors[skip + i]),
    )
}

fn heat_row_line(site: &str, cells: &Vec<u64>, colors: &Vec<Color>, columns: usize) -> (line: Line)
    requires
        colors.len() == cells.len(),
    ensures
        line@ == heat_line(site@, cells@, colors@, columns as nat),
{
    let skip: usize = if cells.len() <= columns {
        0
    } else {
        cells.len() - columns
    };
    let ghost all = heat_line(site@, cells@, colors@, columns as nat);
    let mut label = pad_to(site, HEAT_LABEL);
    label.append(" ");
    let mut line = Line::of(label.as_str(), Style::plain());
    let mut i: usize = skip;
    assert(line@ =~= all.take(1));
    while i < cells.len()
        invariant
            skip <= i <= cells.len(),
            colors.len() == cells.len(),
            skip == if cells.len() <= columns {
                0
            } else {
                cells.len() - columns
            },
            all == heat_line(site@, cells@, colors@, columns as nat),
            line@ == all.take(i - skip + 1),
        decreases cells.len() - i,
    {
        let mut cell = String::new();
        cell.push(
            if cells[i] == 0 {
                ' '
            } else {
                '█'
            },
        );
        line.add(cell.as_str(), Style::in_color(colors[i]));
        assert(cell@ =~= heat_cell(cells@[i as int], colors@[i as int]).text);
        i += 1;
        assert(line@ =~= all.take(i - skip + 1));
    }
    assert(all.take(i - skip + 1) =~= all);
    line
}

/// There is a colour for every cell.
pub open spec fn colors_match(colors: Seq<Vec<Color>>, heat: HeatView) -> bool {
    &&& colors.len() == heat.cells@.len()
    &&& forall|i: int|
        0 <= i < colors.len() ==> (#[trigger] colors[i])@.len() == heat.cells@[i]@.len()
}

/// How many call sites the heatmap has a row for.
pub open spec fn heat_sites(heat: HeatView) -> nat {
    if heat.sites@.len() < heat.cells@.len() {
        heat.sites@.len()
    } else {
        heat.cells@.len()
    }
}

/// The lines of the heatmap.
pub open spec fn heat_lines(heat: HeatView, colors: Seq<Vec<Color>>, area: Area) -> Seq<Seq<Piece>> {
    Seq::new(
        heat_sites(heat),
        |i: int|
            heat_line(
                heat.sites@[i]@,
                heat.cells@[i]@,
                colors[i]@,
                heat_columns(heat.buckets as nat, area),
            ),
    )
}

/// A number of ticks in whole seconds.
pub open spec fn ticks_to_secs(ticks: nat) -> nat {
    ticks * HEAT_TICK_MS as nat / 1000
}

pub open spec fn has_heat(heat: Option<HeatView>) -> bool {
    heat matches Some(h) && h.sites@.len() > 0
}

/// The heatmap.
pub open spec fn heat_shape(
    heat: Option<HeatView>,
    colors: Seq<Vec<Color>>,
    area: Area,
) -> Shape {
    if has_heat(heat) {
        framed(
            area,
            "heat map — alloc volume per site, last ~"@ + decimal(
                ticks_to_secs(heat->0.buckets as nat),
            ) + "s (left=older → right=now)"@,
            Style::plain(),
            Content::Text { lines: heat_lines(heat->0, colors, area), wrap: false },
        )
    } else {
        message_shape(
            area,
            "heat map — allocation volume per call site over time"@,
            Style::plain(),
            "no allocation activity yet"@,
            Style::in_color(Color::DarkGray),
        )
    }
}

/// The heatmap. `colors` are the colours of its cells.
pub fn heat_panel(heat: &Option<HeatView>, colors: &Vec<Vec<Color>>, area: Area) -> (panel: Panel)
    requires
        area.on_screen(),
        has_heat(*heat) ==> colors_match(colors@, heat->0) && heat->0.buckets * HEAT_TICK_MS
            <= u64::MAX,
    ensures
        panel@ == heat_shape(*heat, colors@, area),
{
    match heat {
        Some(h) if h.sites.len() > 0 => {
            let room: usize = if area.width < 28 {
                1
            } else {
                area.width as usize - 27
            };
            let columns: usize = if h.buckets < room {
                h.buckets
            } else {
                room
            };
            let count: usize = if h.sites.len() < h.cells.len() {
                h.sites.len()
            } else {
                h.cells.len()
            };
            let ghost all = heat_lines(*h, colors@, area);
            let mut lines: Vec<Line> = Vec::new();
            let mut i: usize = 0;
            assert(lines_of(lines@) =~= all.take(0));
            while i < count
                invariant
                    i <= count,
                    count == heat_sites(*h),
                    columns == heat_columns(h.buckets as nat, area),
                    colors_match(colors@, *h),
                    all == heat_lines(*h, colors@, area),
                    lines_of(lines@) == all.take(i as int),
                decreases count - i,
            {
                assert(colors@[i as int]@.len() == h.cells@[i as int]@.len());
                add_line(
                    &mut lines,
                    heat_row_line(h.sites[i].as_str(), &h.cells[i], &colors[i], columns),
                );
                i += 1;
                assert(lines_of(lines@) =~= all.take(i as int));
            }
            assert(all.take(i as int) =~= all);
            let mut title = "heat map — alloc volume per site, last ~".to_owned();
            push_decimal(&mut title, h.buckets as u64 * HEAT_TICK_MS / 1000);
            title.append("s (left=older → right=now)");
            frame_panel(area, title.as_str(), Style::plain(), Body::Text { lines, wrap: false })
        },
        _ => message_panel(
            area,
            "heat map — allocation volume per call site over time",
            Style::plain(),
            "no allocation activity yet",
            Style::in_color(Color::DarkGray),
        ),
    }
}

/// The title of the list of leaks.
pub open spec fn leak_title(leaks: LeakView) -> Seq<char> {
    let what = decimal(leaks.total_bytes as nat) + " bytes in "@ + decimal(
        leaks.total_count as nat,
    ) + " allocations "@;
    if leaks.definite {
        " LEAKS — definite (target exited): "@ + what
    } else {
        " leaks — probable (alive ≥ "@ + decimal(ticks_to_secs(leaks.age_threshold as nat))
            + "s): "@ + what
    }
}

fn leak_title_text(leaks: &LeakView) -> (title: String)
    requires
        leaks.age_threshold * HEAT_TICK_MS <= u64::MAX || leaks.definite,
    ensures
        title@ == leak_title(*leaks),
{
    let mut title = if leaks.definite {
        " LEAKS — definite (target exited): ".to_owned()
    } else {
        let mut head = " leaks — probable (alive ≥ ".to_owned();
        push_decimal(&mut head, leaks.age_threshold * HEAT_TICK_MS / 1000);
        head.append("s): ");
        head
    };
    push_decimal(&mut title, leaks.total_bytes);
    title.append(" bytes in ");
    push_decimal(&mut title, leaks.total_count);
    title.append(" allocations ");
    assert(title@ =~= leak_title(*leaks));
    title
}

/// How the border of the list of leaks is drawn.
pub open spec fn leak_border(definite: bool) -> Style {
    if definite {
        alarm()
    } else {
        Style::in_color(Color::Yellow)
    }
}

/// The row of a call site in the list of leaks.
pub open spec fn leak_cells(row: LeakRow, gauge: Gauge, width: u16) -> Cells {
    Cells {
        cells: seq![
            bar_text(gauge, LEAK_BAR as nat),
            decimal(row.bytes as nat),
            decimal(row.count as nat),
            decimal(ticks_to_secs(row.oldest_age as nat)) + "s"@,
            truncated(row.site@, name_room(width as nat, 43)),
        ],
        style: Style::in_color(gauge.color),
    }
}

fn leak_table_row(row: &LeakRow, gauge: Gauge, width: u16) -> (cells: TableRow)
    requires
        row.oldest_age * HEAT_TICK_MS <= u64::MAX,
    ensures
        cells@ == leak_cells(*row, gauge, width),
{
    let mut cells: Vec<String> = Vec::new();
    cells.push(bar_string(gauge, LEAK_BAR));
    cells.push(decimal_text(row.bytes));
    cells.push(decimal_text(row.count));
    let mut age = decimal_text(row.oldest_age * HEAT_TICK_MS / 1000);
    age.append("s");
    cells.push(age);
    cells.push(truncate(row.site.as_str(), room_for_name(width, LEAK_BAR + 33)));
    assert(texts(cells@) =~= leak_cells(*row, gauge, width).cells);
    TableRow { cells, style: Style::in_color(gauge.color) }
}

/// The names of the columns of the list of leaks.
pub open spec fn leak_header() -> Cells {
    Cells {
        cells: seq![""@, "bytes"@, "count"@, "age"@, "site"@],
        style: Style { bold: true, ..Style::plain() },
    }
}

fn leak_header_row() -> (row: TableRow)
    ensures
        row@ == leak_header(),
{
    let mut cells: Vec<String> = Vec::new();
    cells.push("".to_owned());
    cells.push("bytes".to_owned());
    cells.push("count".to_owned());
    cells.push("age".to_owned());
    cells.push("site".to_owned());
    assert(texts(cells@) =~= leak_header().cells);
    TableRow { cells, style: Style { fg: None, bg: None, bold: true, reversed: false } }
}

/// The times in a list of leaks can be told in milliseconds.
pub open spec fn leak_times_fit(leaks: LeakView) -> bool {
    &&& leaks.definite || leaks.age_threshold * HEAT_TICK_MS <= u64::MAX
    &&& forall|i: int|
        0 <= i < leaks.rows@.len() ==> (#[trigger] leaks.rows@[i]).oldest_age * HEAT_TICK_MS
            <= u64::MAX
}

/// The list of leaks.
pub open spec fn leaks_shape(leaks: LeakView, gauges: Seq<Gauge>, area: Area) -> Shape {
    let border = leak_border(leaks.definite);
    if leaks.rows@.len() == 0 {
        message_shape(
            area,
            leak_title(leaks),
            border,
            "no leaks detected"@,
            Style::in_color(Color::Green),
        )
    } else {
        framed(
            area,
            leak_title(leaks),
            border,
            Content::Table {
                header: leak_header(),
                rows: Seq::new(
                    leaks.rows@.len(),
                    |i: int| leak_cells(leaks.rows@[i], gauges[i], area.width),
                ),
            },
        )
    }
}

/// The list of leaks. `gauges` are the shares of its rows.
pub fn leaks_panel(leaks: &LeakView, gauges: &Vec<Gauge>, area: Area) -> (panel: Panel)
    requires
        area.on_screen(),
        gauges.len() == leaks.rows.len(),
        leak_times_fit(*leaks),
    ensures
        panel@ == leaks_shape(*leaks, gauges@, area),
{
    let title = leak_title_text(leaks);
    let border = if leaks.definite {
        Style { fg: Some(Color::Red), bg: None, bold: true, reversed: false }
    } else {
        Style::in_color(Color::Yellow)
    };
    if leaks.rows.len() == 0 {
        return message_panel(
            area,
            title.as_str(),
            border,
            "no leaks detected",
            Style::in_color(Color::Green),
        );
    }
    let ghost all = Seq::new(
        leaks.rows@.len(),
        |i: int| leak_cells(leaks.rows@[i], gauges@[i], area.width),
    );
    let mut rows: Vec<TableRow> = Vec::new();
    let mut i: usize = 0;
    assert(cells_of(rows@) =~= all.take(0));
    while i < leaks.rows.len()
        invariant
            i <= leaks.rows.len(),
            gauges.len() == leaks.rows.len(),
            leak_times_fit(*leaks),
            all == Seq::new(
                leaks.rows@.len(),
                |i: int| leak_cells(leaks.rows@[i], gauges@[i], area.width),
            ),
            cells_of(rows@) == all.take(i as int),
        decreases leaks.rows.len() - i,
    {
        let ghost before = cells_of(rows@);
        let row = leak_table_row(&leaks.rows[i], gauges[i], area.width);
        rows.push(row);
        assert(cells_of(rows@) =~= before.push(row@));
        i += 1;
        assert(cells_of(rows@) =~= all.take(i as int));
    }
    assert(all.take(i as int) =~= all);
    frame_panel(area, title.as_str(), border, Body::Table { header: leak_header_row(), rows })
}

/// The tab of a view: the current one stands out.
pub open spec fn tab_text(label: Seq<char>, active: bool) -> Piece {
    piece(
        " "@ + label + " "@,
        if active {
            Style { fg: Some(Color::Black), bg: Some(Color::Cyan), bold: true, reversed: false }
        } else {
            Style::in_color(Color::DarkGray)
        },
    )
}

fn add_tab(line: &mut Line, label: &str, active: bool)
    ensures
        final(line)@ == old(line)@.push(tab_text(label@, active)),
{
    let mut text = " ".to_owned();
    text.append(label);
    text.append(" ");
    let style = if active {
        Style { fg: Some(Color::Black), bg: Some(Color::Cyan), bold: true, reversed: false }
    } else {
        Style::in_color(Color::DarkGray)
    };
    line.add(text.as_str(), style);
}

/// A colour and what it stands for.
pub open spec fn swatch_text(color: Color, label: Seq<char>) -> Seq<Piece> {
    seq![piece("█"@, Style::in_color(color)), raw(" "@ + label + "  "@)]
}

fn swatch(color: Color, label: &str) -> (line: Line)
    ensures
        line@ == swatch_text(color, label@),
{
    let mut line = Line::of("█", Style::in_color(color));
    let mut text = " ".to_owned();
    text.append(label);
    text.append("  ");
    line.add(text.as_str(), Style::plain());
    assert(line@ =~= swatch_text(color, label@));
    line
}

/// What the colours of a view stand for.
pub open spec fn legend(view: ViewMode) -> Seq<Piece> {
    match view {
        ViewMode::Live => seq![piece("events: "@, dim())] + swatch_text(Color::Green, "alloc"@)
            + swatch_text(Color::DarkGray, "free"@) + swatch_text(Color::Red, "crash"@) + seq![
            piece("· right = top offenders by live bytes  "@, dim()),
        ],
        ViewMode::Flame => seq![
            piece(
                "each bar = a call site · width & color = share of live heap · stacked outermost → innermost  "@,
                dim(),
            ),
        ],
        ViewMode::Heatmap => seq![piece("alloc volume: "@, dim())] + swatch_text(
            Color::Green,
            "low"@,
        ) + swatch_text(Color::Yellow, "med"@) + swatch_text(Color::Red, "high"@) + seq![
            piece("· each column ≈ 250ms  "@, dim()),
        ],
        ViewMode::Leaks => seq![piece("bar/color = share of leaked bytes · "@, dim())]
            + swatch_text(Color::Red, "definite (after exit)"@),
    }
}

fn legend_spans(view: ViewMode) -> (line: Line)
    ensures
        line@ == legend(view),
{
    let gray = Style::in_color(Color::Gray);
    let mut line = Line::new();
    match view {
        ViewMode::Live => {
            line.add("events: ", gray);
            line.join(swatch(Color::Green, "alloc"));
            line.join(swatch(Color::DarkGray, "free"));
            line.join(swatch(Color::Red, "crash"));
            line.add("· right = top offenders by live bytes  ", gray);
        },
        ViewMode::Flame => {
            line.add(
                "each bar = a call site · width & color = share of live heap · stacked outermost → innermost  ",
                gray,
            );
        },
        ViewMode::Heatmap => {
            line.add("alloc volume: ", gray);
            line.join(swatch(Color::Green, "low"));
            line.join(swatch(Color::Yellow, "med"));
            line.join(swatch(Color::Red, "high"));
            line.add("· each column ≈ 250ms  ", gray);
        },
        ViewMode::Leaks => {
            line.add("bar/color = share of leaked bytes · ", gray);
            line.join(swatch(Color::Red, "definite (after exit)"));
        },
    }
    assert(line@ =~= legend(view));
    line
}

/// The footer: the tabs of the views, and what the colours of this one stand for.
pub open spec fn footer_text(view: ViewMode) -> Seq<Piece> {
    seq![
        tab_text("1 live"@, view == ViewMode::Live),
        tab_text("2 flame"@, view == ViewMode::Flame),
        tab_text("3 heat"@, view == ViewMode::Heatmap),
        tab_text("4 leaks"@, view == ViewMode::Leaks),
        raw("   "@),
    ] + legend(view) + seq![piece(" ?:help/legend"@, Style::in_color(Color::DarkGray))]
}

pub open spec fn footer_shape(view: ViewMode, area: Area) -> Shape {
    Shape {
        area,
        clear: false,
        frame: None,
        body: Content::Text { lines: seq![footer_text(view)], wrap: false },
    }
}

pub fn footer_panel(view: ViewMode, area: Area) -> (panel: Panel)
    ensures
        panel@ == footer_shape(view, area),
{
    let mut line = Line::new();
    add_tab(&mut line, "1 live", view == ViewMode::Live);
    add_tab(&mut line, "2 flame", view == ViewMode::Flame);
    add_tab(&mut line, "3 heat", view == ViewMode::Heatmap);
    add_tab(&mut line, "4 leaks", view == ViewMode::Leaks);
    line.add("   ", Style::plain());
    line.join(legend_spans(view));
    line.add(" ?:help/legend", Style::in_color(Color::DarkGray));
    assert(line@ =~= footer_text(view));
    let mut lines: Vec<Line> = Vec::new();
    add_line(&mut lines, line);
    assert(lines_of(lines@) =~= seq![footer_text(view)]);
    Panel { area, clear: false, frame: None, body: Body::Text { lines, wrap: false } }
}

pub open spec fn help_head() -> Style {
    Style { bold: true, ..Style::in_color(Color::Cyan) }
}

/// A key and what it does.
pub open spec fn key_help(key: Seq<char>, what: Seq<char>) -> Seq<Piece> {
    seq![raw(key), piece(what, dim())]
}

fn key_help_line(key: &str, what: &str) -> (line: Line)
    ensures
        line@ == key_help(key@, what@),
{
    let mut line = Line::of(key, Style::plain());
    line.add(what, Style::in_color(Color::Gray));
    assert(line@ =~= key_help(key@, what@));
    line
}

/// What the keys do.
pub open spec fn help_keys() -> Seq<Seq<Piece>> {
    seq![
        seq![piece("Keys"@, help_head())],
        key_help("  q / Ctrl-C   "@, "quit"@),
        key_help("  1 / 2 / 3 / 4, Tab   "@, "switch view: live · flame · heat · leaks"@),
        key_help("  space   "@, "pause / resume draining"@),
        key_help("  ↑ / ↓ (k / j)   "@, "select an event and show its call stack (Live)"@),
        key_help("  Esc   "@, "clear selection"@),
        key_help("  ?   "@, "toggle this help"@),
        seq![raw(""@)],
    ]
}

/// What the views show.
pub open spec fn help_views() -> Seq<Seq<Piece>> {
    seq![
        seq![piece("Views — what each one shows"@, help_head())],
        key_help("  1 live    "@, "malloc/free firehose + top call sites by live bytes"@),
        key_help("  2 flame   "@, "live heap by call stack; bar width & color = share, top = outermost"@),
        key_help("  3 heat    "@, "alloc volume per call site over the last ~12s (left old → right now)"@),
        key_help("  4 leaks   "@, "still-live allocs by call site; red = definite once the target exits"@),
        seq![raw(""@)],
    ]
}

/// What the colours mean.
pub open spec fn help_colors() -> Seq<Seq<Piece>> {
    seq![
        seq![piece("Colors"@, help_head())],
        seq![raw("  intensity / size   "@)] + swatch_text(Color::Green, "low"@) + swatch_text(Color::Yellow, "medium"@) + swatch_text(Color::Red, "high"@),
        seq![raw("  events            "@)] + swatch_text(Color::Green, "alloc"@) + swatch_text(Color::DarkGray, "free"@) + swatch_text(Color::Red, "CRASH"@),
        seq![raw("  flame: bar width = live bytes; rows go outermost (top) → innermost"@)],
        seq![raw("  leaks: probable while running (alive past --leak-age); definite (red) after exit"@)],
        seq![raw(""@)],
        seq![piece("  press ? to close"@, Style::in_color(Color::DarkGray))],
    ]
}

/// The help text.
pub open spec fn help_text() -> Seq<Seq<Piece>> {
    help_keys() + help_views() + help_colors()
}

fn add_help_keys(lines: &mut Vec<Line>)
    ensures
        lines_of(final(lines)@) == lines_of(old(lines)@) + help_keys(),
{
    let ghost before = lines_of(lines@);
    let head = Style { fg: Some(Color::Cyan), bg: None, bold: true, reversed: false };
    add_line(lines, Line::of("Keys", head));
    add_line(lines, key_help_line("  q / Ctrl-C   ", "quit"));
    add_line(lines, key_help_line("  1 / 2 / 3 / 4, Tab   ", "switch view: live · flame · heat · leaks"));
    add_line(lines, key_help_line("  space   ", "pause / resume draining"));
    add_line(lines, key_help_line("  ↑ / ↓ (k / j)   ", "select an event and show its call stack (Live)"));
    add_line(lines, key_help_line("  Esc   ", "clear selection"));
    add_line(lines, key_help_line("  ?   ", "toggle this help"));
    add_line(lines, Line::of("", Style::plain()));
    assert(lines_of(lines@) =~= before + help_keys());
}

fn add_help_views(lines: &mut Vec<Line>)
    ensures
        lines_of(final(lines)@) == lines_of(old(lines)@) + help_views(),
{
    let ghost before = lines_of(lines@);
    let head = Style { fg: Some(Color::Cyan), bg: None, bold: true, reversed: false };
    add_line(lines, Line::of("Views — what each one shows", head));
    add_line(lines, key_help_line("  1 live    ", "malloc/free firehose + top call sites by live bytes"));
    add_line(lines, key_help_line("  2 flame   ", "live heap by call stack; bar width & color = share, top = outermost"));
    add_line(lines, key_help_line("  3 heat    ", "alloc volume per call site over the last ~12s (left old → right now)"));
    add_line(lines, key_help_line("  4 leaks   ", "still-live allocs by call site; red = definite once the target exits"));
    add_line(lines, Line::of("", Style::plain()));
    assert(lines_of(lines@) =~= before + help_views());
}

fn add_help_colors(lines: &mut Vec<Line>)
    ensures
        lines_of(final(lines)@) == lines_of(old(lines)@) + help_colors(),
{
    let ghost before = lines_of(lines@);
    let head = Style { fg: Some(Color::Cyan), bg: None, bold: true, reversed: false };
    add_line(lines, Line::of("Colors", head));
    let mut legend = Line::of("  intensity / size   ", Style::plain());
    legend.join(swatch(Color::Green, "low"));
    legend.join(swatch(Color::Yellow, "medium"));
    legend.join(swatch(Color::Red, "high"));
    add_line(lines, legend);
    let mut legend = Line::of("  events            ", Style::plain());
    legend.join(swatch(Color::Green, "alloc"));
    legend.join(swatch(Color::DarkGray, "free"));
    legend.join(swatch(Color::Red, "CRASH"));
    add_line(lines, legend);
    add_line(lines, Line::of("  flame: bar width = live bytes; rows go outermost (top) → innermost", Style::plain()));
    add_line(lines, Line::of("  leaks: probable while running (alive past --leak-age); definite (red) after exit", Style::plain()));
    add_line(lines, Line::of("", Style::plain()));
    add_line(lines, Line::of("  press ? to close", Style::in_color(Color::DarkGray)));
    assert(lines_of(lines@) =~= before + help_colors());
}

/// The help, in the middle of the screen and above everything else.
pub open spec fn help_shape(screen: Area) -> Shape {
    Shape {
        area: centered(screen, 78, (help_text().len() + 2) as u16),
        clear: true,
        frame: Some((" help & legend "@, Style::in_color(Color::Cyan))),
        body: Content::Text { lines: help_text(), wrap: false },
    }
}

pub fn help_panel(screen: Area) -> (panel: Panel)
    requires
        screen.on_screen(),
    ensures
        panel@ == help_shape(screen),
{
    let mut lines: Vec<Line> = Vec::new();
    add_help_keys(&mut lines);
    add_help_views(&mut lines);
    add_help_colors(&mut lines);
    assert(lines_of(lines@) =~= help_text());
    assert(lines@.len() == lines_of(lines@).len());
    let height: u16 = lines.len() as u16 + 2;
    let area = centered_rect(screen, 78, height);
    Panel {
        area,
        clear: true,
        frame: Some(
            Frame { title: " help & legend ".to_owned(), border: Style::in_color(Color::Cyan) },
        ),
        body: Body::Text { lines, wrap: false },
    }
}

/// The shares that the views show: fractions, as bars, percentages and colours.
pub struct Shares {
    /// One per offender, of the largest one.
    pub offenders: Vec<Gauge>,
    /// One per box of the flame graph, of everything that is live.
    pub flame: Vec<Vec<Share>>,
    /// One per cell of the heatmap, of the warmest one.
    pub heat: Vec<Vec<Color>>,
    /// One per row of the list of leaks, of the largest one.
    pub leaks: Vec<Gauge>,
}

/// There is a share for everything that the current view shows one of.
pub open spec fn shares_fit(
    shares: Shares,
    snap: Snapshot,
    rows: Seq<Seq<Segment>>,
) -> bool {
    match snap.view {
        ViewMode::Live => shares.offenders@.len() == snap.offenders@.len(),
        ViewMode::Flame => shares_match(shares.flame@, rows),
        ViewMode::Heatmap => has_heat(snap.heatmap) ==> colors_match(
            shares.heat@,
            snap.heatmap->0,
        ),
        ViewMode::Leaks => snap.leaks matches Some(leaks) ==> shares.leaks@.len()
            == leaks.rows@.len(),
    }
}

/// The numbers in a snapshot can be told in the units in which they are shown.
pub open spec fn showable(snap: Snapshot) -> bool {
    &&& snap.temporary_count * 100 <= u64::MAX
    &&& snap.heatmap matches Some(heat) ==> heat.buckets * HEAT_TICK_MS <= u64::MAX
    &&& snap.leaks matches Some(leaks) ==> leak_times_fit(leaks)
}

fn ticks_fit(ticks: u64) -> (yes: bool)
    ensures
        yes == (ticks * HEAT_TICK_MS <= u64::MAX),
{
    ticks.checked_mul(HEAT_TICK_MS).is_some()
}

/// Whether the numbers in a snapshot can be told in the units in which they are shown.
pub fn is_showable(snap: &Snapshot) -> (yes: bool)
    ensures
        yes == showable(*snap),
{
    if snap.temporary_count.checked_mul(100).is_none() {
        return false;
    }
    if let Some(heat) = &snap.heatmap {
        if !ticks_fit(heat.buckets as u64) {
            return false;
        }
    }
    if let Some(leaks) = &snap.leaks {
        if !leaks.definite && !ticks_fit(leaks.age_threshold) {
            return false;
        }
        let mut i: usize = 0;
        while i < leaks.rows.len()
            invariant
                i <= leaks.rows.len(),
                snap.leaks == Some(*leaks),
                forall|k: int|
                    0 <= k < i ==> (#[trigger] leaks.rows@[k]).oldest_age * HEAT_TICK_MS <= u64::MAX,
            decreases leaks.rows.len() - i,
        {
            if !ticks_fit(leaks.rows[i].oldest_age) {
                return false;
            }
            i += 1;
        }
    }
    true
}

/// The body of the screen.
pub open spec fn body_shapes(
    snap: Snapshot,
    parts: Parts,
    rows: Seq<Seq<Segment>>,
    shares: Shares,
) -> Seq<Shape> {
    match snap.view {
        ViewMode::Live => seq![
            recent_shape(snap, parts.left),
            match snap.selected_view {
                Some(chosen) => call_stack_shape(chosen, parts.right),
                None => offenders_shape(snap, shares.offenders@, parts.right),
            },
        ],
        ViewMode::Flame => seq![flame_shape(snap.flame, rows, shares.flame@, parts.body)],
        ViewMode::Heatmap => seq![heat_shape(snap.heatmap, shares.heat@, parts.body)],
        ViewMode::Leaks => match snap.leaks {
            Some(leaks) => seq![leaks_shape(leaks, shares.leaks@, parts.body)],
            None => Seq::empty(),
        },
    }
}

/// Everything on the screen, from back to front.
pub open spec fn screen_shapes(
    snap: Snapshot,
    parts: Parts,
    rows: Seq<Seq<Segment>>,
    shares: Shares,
) -> Seq<Shape> {
    seq![header_shape(snap, parts.header)] + (match (parts.crash, snap.crash) {
        (Some(area), Some(crash)) => seq![crash_shape(crash, area)],
        _ => Seq::empty(),
    }) + body_shapes(snap, parts, rows, shares) + seq![footer_shape(snap.view, parts.footer)] + (
    if snap.show_help {
        seq![help_shape(parts.screen)]
    } else {
        Seq::empty()
    })
}

fn add_body(
    panels: &mut Vec<Panel>,
    snap: &Snapshot,
    parts: Parts,
    rows: &Vec<Vec<FlameSeg>>,
    shares: &Shares,
)
    requires
        parts.on_screen(),
        showable(*snap),
        snap.view == ViewMode::Flame ==> is_flame_in(segment_rows(rows@), snap.flame, parts.body),
        shares_fit(*shares, *snap, segment_rows(rows@)),
    ensures
        shapes_of(final(panels)@) == shapes_of(old(panels)@) + body_shapes(
            *snap,
            parts,
            segment_rows(rows@),
            *shares,
        ),
{
    let ghost before = shapes_of(panels@);
    match snap.view {
        ViewMode::Live => {
            add_panel(panels, recent_panel(snap, parts.left));
            match &snap.selected_view {
                Some(chosen) => {
                    add_panel(panels, call_stack_panel(chosen, parts.right));
                },
                None => {
                    add_panel(panels, offenders_panel(snap, &shares.offenders, parts.right));
                },
            }
        },
        ViewMode::Flame => {
            add_panel(panels, flame_panel(&snap.flame, rows, &shares.flame, parts.body));
        },
        ViewMode::Heatmap => {
            add_panel(panels, heat_panel(&snap.heatmap, &shares.heat, parts.body));
        },
        ViewMode::Leaks => {
            if let Some(leaks) = &snap.leaks {
                add_panel(panels, leaks_panel(leaks, &shares.leaks, parts.body));
            }
        },
    }
    assert(shapes_of(panels@) =~= before + body_shapes(
        *snap,
        parts,
        segment_rows(rows@),
        *shares,
    ));
}

/// The boxes on the screen, from back to front. `parts` are the parts of the screen, `rows` the
/// rows of the flame graph as [`flame_rows`] lays them out in its body.
pub fn draw(
    snap: &Snapshot,
    parts: Parts,
    rows: &Vec<Vec<FlameSeg>>,
    shares: &Shares,
) -> (panels: Vec<Panel>)
    requires
        parts.on_screen(),
        showable(*snap),
        snap.view == ViewMode::Flame ==> is_flame_in(segment_rows(rows@), snap.flame, parts.body),
        shares_fit(*shares, *snap, segment_rows(rows@)),
    ensures
        shapes_of(panels@) == screen_shapes(*snap, parts, segment_rows(rows@), *shares),
{
    let mut panels: Vec<Panel> = Vec::new();
    add_panel(&mut panels, header_panel(snap, parts.header));
    if let (Some(area), Some(crash)) = (parts.crash, &snap.crash) {
        add_panel(&mut panels, crash_panel(crash, area));
    }
    add_body(&mut panels, snap, parts, rows, shares);
    add_panel(&mut panels, footer_panel(snap.view, parts.footer));
    if snap.show_help {
        add_panel(&mut panels, help_panel(parts.screen));
    }
    assert(shapes_of(panels@) =~= screen_shapes(*snap, parts, segment_rows(rows@), *shares));
    panels
}

/// Divides the screen for `snap`, and lays out the flame graph in its body.
pub fn plan(snap: &Snapshot, screen: Area) -> (plan: (Parts, Vec<Vec<FlameSeg>>))
    requires
        screen.on_screen(),
        snap.crash matches Some(c) ==> (c.frames@.len() as u16) + 4 <= u16::MAX,
    ensures
        is_division(plan.0, screen, rows_for_crash(snap.crash) as u16),
        plan.0.crash is Some <==> snap.crash is Some,
        is_flame_in(segment_rows(plan.1@), snap.flame, plan.0.body),
{
    let parts = divide(screen, crash_height(&snap.crash));
    let rows = flame_rows(&snap.flame, parts.body);
    (parts, rows)
}

} // verus!
