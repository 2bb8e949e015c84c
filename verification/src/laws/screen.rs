//! What stands on the screen.

use crate::dashboard::bar_of_height;
use crate::dashboard::box_text;
use crate::dashboard::box_width;
use crate::dashboard::boxes_on_row;
use crate::dashboard::call_stack_shape;
use crate::dashboard::crash_rows;
use crate::dashboard::crash_shape;
use crate::dashboard::flame_pieces;
use crate::dashboard::flame_shape;
use crate::dashboard::footer_shape;
use crate::dashboard::footer_text;
use crate::dashboard::header_shape;
use crate::dashboard::header_text;
use crate::dashboard::heat_shape;
use crate::dashboard::help_shape;
use crate::dashboard::help_text;
use crate::dashboard::is_flame_in;
use crate::dashboard::largest;
use crate::dashboard::leaks_shape;
use crate::dashboard::left_aligned;
use crate::dashboard::newest;
use crate::dashboard::offenders_shape;
use crate::dashboard::padded;
use crate::dashboard::recent_shape;
use crate::dashboard::right_aligned;
use crate::dashboard::rows_for_crash;
use crate::dashboard::screen_shapes;
use crate::dashboard::showable;
use crate::dashboard::spark;
use crate::dashboard::spread;
use crate::dashboard::stats_text;
use crate::dashboard::ticks_to_secs;
use crate::dashboard::truncated;
use crate::dashboard::Gauge;
use crate::dashboard::Segment;
use crate::dashboard::Share;
use crate::dashboard::Shares;
use crate::layout::centered;
use crate::layout::inside_border;
use crate::layout::is_division;
use crate::layout::Area;
use crate::layout::Parts;
use crate::state::kind_text;
use crate::state::signal_text;
use crate::state::FlameNode;
use crate::state::FlameView;
use crate::state::HeatView;
use crate::state::LeakView;
use crate::state::SelectedView;
use crate::state::Snapshot;
use crate::state::ViewMode;
use crate::style::Color;
use crate::style::Content;
use crate::style::Piece;
use crate::text::decimal;
use crate::text::hex;
use crate::tracker::CrashInfo;
use vstd::prelude::*;

verus! {

/// A text that is cut to `max` characters either fits and stays as it is, or keeps all but the
/// last of the characters that have room, with an ellipsis behind them.
pub proof fn law_texts_are_cut_to_fit(text: Seq<char>, max: nat)
    ensures
        text.len() <= max ==> truncated(text, max) == text,
        text.len() > max ==> truncated(text, max).len() == max,
        text.len() > max > 0 ==> truncated(text, max).last() == '…' && truncated(
            text,
            max,
        ).drop_last() == text.take(max - 1),
{
    if text.len() > max && max > 0 {
        assert(truncated(text, max).drop_last() =~= text.take(max - 1));
    }
    if max == 0 && text.len() == 0 {
        assert(truncated(text, max) =~= text);
    }
}

/// A text that is aligned keeps its characters, at the left or at the right end, and gets only
/// blanks, as many as it lacks.
pub proof fn law_texts_are_aligned(text: Seq<char>, width: nat)
    ensures
        ({
            let left = left_aligned(text, width);
            let right = right_aligned(text, width);
            let len = if text.len() < width {
                width
            } else {
                text.len()
            };
            &&& left.len() == len && right.len() == len
            &&& left.take(text.len() as int) == text
            &&& right.skip(len - text.len()) == text
            &&& forall|i: int| text.len() <= i < len ==> #[trigger] left[i] == ' '
            &&& forall|i: int| 0 <= i < len - text.len() ==> #[trigger] right[i] == ' '
        }),
        padded(text, width).len() == width,
        padded(text, width) == left_aligned(truncated(text, width), width),
{
    let left = left_aligned(text, width);
    let right = right_aligned(text, width);
    assert(left.take(text.len() as int) =~= text);
    assert(right.skip(right.len() - text.len()) =~= text);
}

/// How high a bar is, from 0 to 7; -1 for what is no bar.
pub open spec fn height_of(bar: char) -> int {
    match bar {
        '▁' => 0,
        '▂' => 1,
        '▃' => 2,
        '▄' => 3,
        '▅' => 4,
        '▆' => 5,
        '▇' => 6,
        '█' => 7,
        _ => -1,
    }
}

/// `top` is the largest of some numbers, but at least 1.
pub open spec fn is_top(top: u64, numbers: Seq<u64>) -> bool {
    &&& top >= 1
    &&& forall|i: int| 0 <= i < numbers.len() ==> #[trigger] numbers[i] <= top
    &&& top > 1 ==> numbers.contains(top)
}

/// A sparkline has a bar for each of the newest numbers that have room, in order; each bar is as
/// many sevenths of the full height as its number is of the largest.
pub proof fn law_sparks_are_in_proportion(series: Seq<u64>, width: nat, top: u64)
    requires
        is_top(
            top,
            series.skip(
                if series.len() <= width {
                    0
                } else {
                    series.len() - width
                },
            ),
        ),
    ensures
        ({
            let first = if series.len() <= width {
                0
            } else {
                series.len() - width
            };
            let bars = spark(series, width);
            &&& bars.len() == series.len() - first
            &&& forall|i: int| #![trigger bars[i]]
                0 <= i < bars.len() ==> {
                    let height = height_of(bars[i]);
                    height * top <= series[first + i] * 7 < (height + 1) * top
                }
        }),
{
    let first = if series.len() <= width {
        0
    } else {
        series.len() - width
    };
    let numbers = newest(series, width);
    assert(numbers =~= series.skip(first));
    lemma_top(numbers, top);
    let bars = spark(series, width);
    assert forall|i: int| #![trigger bars[i]] 0 <= i < bars.len() implies {
        let height = height_of(bars[i]);
        height * top <= series[first + i] * 7 < (height + 1) * top
    } by {
        let v = series[first + i] as int;
        assert(numbers[i] == v);
        let t = top as int;
        let h = v * 7 / t;
        assert(0 <= h <= 7 && h * t <= v * 7 < (h + 1) * t) by (nonlinear_arith)
            requires
                h == v * 7 / t,
                0 <= v <= t,
                t >= 1,
        ;
        assert(bars[i] == bar_of_height(h));
        assert(height_of(bars[i]) == h);
    }
}

proof fn lemma_top(numbers: Seq<u64>, top: u64)
    requires
        is_top(top, numbers),
    ensures
        top == if largest(numbers) >= 1 {
            largest(numbers)
        } else {
            1
        },
{
    lemma_largest(numbers);
    if top > 1 {
        let k = choose|k: int| 0 <= k < numbers.len() && numbers[k] == top;
        assert(numbers[k] <= largest(numbers));
    }
}

proof fn lemma_largest(numbers: Seq<u64>)
    ensures
        forall|i: int| 0 <= i < numbers.len() ==> #[trigger] numbers[i] <= largest(numbers),
        numbers.len() > 0 ==> numbers.contains(largest(numbers)),
        numbers.len() == 0 ==> largest(numbers) == 0,
    decreases numbers.len(),
{
    if numbers.len() > 0 {
        let rest = numbers.drop_last();
        lemma_largest(rest);
        assert(numbers[numbers.len() - 1] == numbers.last());
        assert forall|i: int| 0 <= i < numbers.len() implies #[trigger] numbers[i] <= largest(
            numbers,
        ) by {
            if i < rest.len() {
                assert(numbers[i] == rest[i]);
            }
        }
        if largest(numbers) != numbers.last() {
            let k = choose|k: int| 0 <= k < rest.len() && rest[k] == largest(rest);
            assert(numbers[k] == largest(numbers));
        }
    }
}

/// The text of some pieces.
pub open spec fn spoken(pieces: Seq<Piece>) -> Seq<char>
    decreases pieces.len(),
{
    if pieces.len() == 0 {
        Seq::empty()
    } else {
        spoken(pieces.drop_last()) + pieces.last().text
    }
}

proof fn lemma_spoken_push(pieces: Seq<Piece>, piece: Piece)
    ensures
        spoken(pieces.push(piece)) == spoken(pieces) + piece.text,
{
    assert(pieces.push(piece).drop_last() =~= pieces);
}

/// The header tells the status, what is live, how many events there were and how many were
/// dropped, and whether draining is paused; below that the heap over time, its peak, what was
/// allocated in all and how often, and how much of what was freed was short-lived.
pub proof fn law_the_header_tells_the_counts(snap: Snapshot, area: Area)
    ensures
        header_shape(snap, area).area == area,
        header_shape(snap, area).body == (Content::Text {
            lines: seq![header_text(snap), stats_text(snap)],
            wrap: false,
        }),
        ({
            let pieces = header_text(snap);
            &&& pieces.len() == 4 + (if snap.paused {
                1int
            } else {
                0
            }) + (if snap.note is Some {
                1int
            } else {
                0
            })
            &&& pieces[0].text == "status: "@ + snap.status@ + "   "@
            &&& pieces[1].text == "active: "@ + decimal(snap.active_count as nat) + " ("@
                + decimal(snap.active_bytes as nat) + " B)   total: "@ + decimal(
                snap.total_events as nat,
            ) + "   "@
            &&& pieces[2].text == "dropped: "@ + decimal(snap.dropped as nat) + "   "@
            &&& pieces[2].style.fg == if snap.dropped > 0 {
                Some(Color::Yellow)
            } else {
                None
            }
            &&& pieces[3].text == "offender-depth: "@ + decimal(snap.offender_depth as nat)
                + "   "@
            &&& snap.paused ==> pieces[4].text == " PAUSED "@
            &&& snap.note matches Some(note) ==> pieces.last().text == "   ("@ + note@ + ")"@
        }),
        ({
            let pieces = stats_text(snap);
            let freed = if snap.free_count == 0 {
                1
            } else {
                snap.free_count as nat
            };
            &&& pieces.len() == 3
            &&& pieces[0].text == "heap "@
            &&& pieces[1].text == spark(spread(snap.heap_series@, 32), 32)
            &&& pieces[2].text == "  peak "@ + decimal(snap.peak_bytes as nat)
                + " B   allocated "@ + decimal(snap.total_allocated as nat) + " B   short-lived "@
                + decimal(snap.temporary_count as nat * 100 / freed) + "%   allocs "@ + decimal(
                snap.alloc_count as nat,
            ) + "  frees "@ + decimal(snap.free_count as nat)
        }),
{
    reveal_strlit("dropped: ");
    reveal_strlit("dropped: 0   ");
    reveal_strlit("   ");
    let pieces = header_text(snap);
    if snap.dropped == 0 {
        assert(decimal(0) =~= seq!['0']);
        assert("dropped: "@ + decimal(0) + "   "@ =~= "dropped: 0   "@);
    }
}

/// The samples of the heap that the header has bars for: all of them if there are no more than
/// 32, or else 32 that are spread evenly over all, up to the newest.
pub proof fn law_samples_are_spread_evenly(series: Seq<u64>)
    ensures
        series.len() <= 32 ==> spread(series, 32) == series,
        series.len() > 32 ==> {
            &&& spread(series, 32).len() == 32
            &&& spread(series, 32).last() == series.last()
            &&& forall|i: int| #![trigger spread(series, 32)[i]]
                0 <= i < 32 ==> spread(series, 32)[i] == series[(i + 1) * series.len() / 32 - 1]
        },
{
}

/// The list of recent events shows as many as have room, the newest first, each with its number,
/// kind, address, size and call site; allocations green, frees grey, crashes red and bold; and
/// the selected one reversed.
pub proof fn law_recent_events_are_listed(snap: Snapshot, area: Area)
    ensures
        ({
            let shape = recent_shape(snap, area);
            let room = if area.height < 2 {
                0
            } else {
                area.height - 2
            };
            let count = snap.recent@.len();
            &&& shape.area == area
            &&& shape.body is Items
            &&& shape.body->items.len() == if count < room {
                count as int
            } else {
                room
            }
            &&& forall|i: int| #![trigger shape.body->items[i]]
                0 <= i < shape.body->items.len() ==> {
                    let entry = shape.body->items[i];
                    let event = snap.recent@[count - 1 - i];
                    &&& entry.line.len() == 1
                    &&& entry.line[0].text == "#"@ + decimal(event.seq as nat) + " "@
                        + left_aligned(kind_text(event.kind), 8) + " ptr=0x"@ + left_aligned(
                        hex(event.ptr as nat),
                        12,
                    ) + " size="@ + left_aligned(decimal(event.size as nat), 8) + " "@
                        + event.offender@
                    &&& entry.style.fg == Some(
                        if event.kind == 6 {
                            Color::Red
                        } else if event.kind == 1 {
                            Color::DarkGray
                        } else {
                            Color::Green
                        },
                    )
                    &&& entry.style.bold == (event.kind == 6)
                    &&& entry.style.reversed == (snap.selected == Some(i as usize))
                }
        }),
{
}

/// Cells that are filled, and blanks up to `cells`.
pub open spec fn is_bar(text: Seq<char>, filled: int, cells: int) -> bool {
    &&& text.len() == cells
    &&& forall|i: int| 0 <= i < cells ==> #[trigger] text[i] == if i < filled {
        '█'
    } else {
        ' '
    }
}

/// The row of an offender: a bar of 12 cells, its bytes aligned to the right, and as much of its
/// name as has room.
pub proof fn law_offenders_are_listed(
    snap: Snapshot,
    gauges: Seq<Gauge>,
    area: Area,
    i: int,
)
    requires
        0 <= i < snap.offenders@.len(),
    ensures
        ({
            let shape = offenders_shape(snap, gauges, area);
            let entry = shape.body->items[i];
            let room = if area.width < 36 {
                8
            } else {
                area.width - 28
            };
            &&& shape.body is Items && shape.body->items.len() == snap.offenders@.len()
            &&& entry.line.len() == 3
            &&& is_bar(
                entry.line[0].text.take(12),
                gauges[i].filled as int,
                12,
            )
            &&& entry.line[0].style.fg == Some(gauges[i].color)
            &&& entry.line[1].text == right_aligned(decimal(snap.offenders@[i].1 as nat), 10)
                + "  "@
            &&& entry.line[2].text == truncated(snap.offenders@[i].0@, room as nat)
        }),
{
    let text = offenders_shape(snap, gauges, area).body->items[i].line[0].text.take(12);
    assert(is_bar(text, gauges[i].filled as int, 12));
}

/// A call stack is listed frame by frame, numbered from 0, below the line of its event.
pub proof fn law_call_stacks_are_listed(view: SelectedView, area: Area)
    ensures
        ({
            let shape = call_stack_shape(view, area);
            let lines = shape.body->Text_lines;
            &&& shape.body is Text
            &&& lines[0].len() == 1 && lines[0][0].text == view.header@
            &&& lines.len() == if view.stack@.len() == 0 {
                2
            } else {
                view.stack@.len() + 1
            }
            &&& forall|i: int| #![trigger view.stack@[i]]
                0 <= i < view.stack@.len() ==> lines[i + 1].len() == 1 && lines[i + 1][0].text
                    == "  #"@ + decimal(i as nat) + " "@ + view.stack@[i]@
        }),
{
}

/// A crash is told by its signal, by what it touched and where it stood, and by its call stack;
/// it takes four rows more than its stack has frames, but no more than 18.
pub proof fn law_crashes_are_told(crash: CrashInfo, area: Area)
    ensures
        ({
            let items = crash_shape(crash, area).body->items;
            let number = if crash.signal < 0 {
                "-"@ + decimal((-crash.signal) as nat)
            } else {
                decimal(crash.signal as nat)
            };
            &&& crash_shape(crash, area).body is Items
            &&& items.len() == crash.frames@.len() + 1
            &&& items[0].line.len() == 1
            &&& items[0].line[0].text == signal_text(crash.signal) + " ("@ + number
                + ")   fault addr=0x"@ + hex(crash.fault_addr as nat) + "   pc=0x"@ + hex(
                crash.pc as nat,
            )
            &&& items[0].style.fg == Some(Color::Red)
            &&& forall|i: int| #![trigger crash.frames@[i]]
                0 <= i < crash.frames@.len() ==> items[i + 1].line.len() == 1
                    && items[i + 1].line[0].text == "  #"@ + decimal(i as nat) + " "@
                    + crash.frames@[i]@
        }),
        crash_rows(crash.frames@.len()) == if crash.frames@.len() < 14 {
            crash.frames@.len() + 4
        } else {
            18
        },
{
}

/// Boxes only depend on the nodes that they are for.
proof fn lemma_first_nodes(
    nodes: Seq<FlameNode>,
    others: Seq<FlameNode>,
    n: int,
    row: nat,
    x0: u16,
    x1: u16,
    whole: u64,
)
    requires
        0 <= n <= nodes.len(),
        n <= others.len(),
        forall|i: int| 0 <= i < n ==> nodes[i] == others[i],
    ensures
        boxes_on_row(nodes, n, row, x0, x1, whole) == boxes_on_row(others, n, row, x0, x1, whole),
    decreases n,
{
    if n > 0 {
        lemma_first_nodes(nodes, others, n - 1, row, x0, x1, whole);
    }
}

/// Where the boxes of `nodes` begin on a row, and what stands there.
pub open spec fn row_of(
    nodes: Seq<FlameNode>,
    row: nat,
    x0: u16,
    x1: u16,
    whole: u64,
) -> Seq<Segment> {
    boxes_on_row(nodes, nodes.len() as int, row, x0, x1, whole).0
}

/// How far the boxes of `nodes` reach: each takes its share of the cells, rounded down.
pub open spec fn reach(nodes: Seq<FlameNode>, x0: u16, x1: u16, whole: u64) -> int
    decreases nodes.len(),
{
    if nodes.len() == 0 {
        x0 as int
    } else {
        let at = reach(nodes.drop_last(), x0, x1, whole) + nodes.last().bytes * (x1 - x0)
            / whole as int;
        if at < x1 {
            at
        } else {
            x1 as int
        }
    }
}

/// Boxes stand side by side in the order of their nodes, each as wide as its share of the cells
/// below, rounded down; one whose share is less than a cell is left out. What is called from a
/// node stands above its box, and shares its cells in the same way.
pub proof fn law_boxes_take_their_share(
    nodes: Seq<FlameNode>,
    node: FlameNode,
    row: nat,
    x0: u16,
    x1: u16,
    whole: u64,
)
    requires
        x0 < x1,
        node.bytes <= whole,
        whole > 0,
        forall|i: int| 0 <= i < nodes.len() ==> (#[trigger] nodes[i]).bytes <= whole,
    ensures
        ({
            let from = reach(nodes, x0, x1, whole) as u16;
            let to = reach(nodes.push(node), x0, x1, whole) as u16;
            let shown = node.bytes * (x1 - x0) / whole as int > 0;
            &&& row_of(nodes.push(node), 0, x0, x1, whole) == if shown {
                row_of(nodes, 0, x0, x1, whole).push(
                    Segment { x0: from, x1: to, label: node.label@, bytes: node.bytes },
                )
            } else {
                row_of(nodes, 0, x0, x1, whole)
            }
            &&& row_of(nodes.push(node), row + 1, x0, x1, whole) == if shown {
                row_of(nodes, row + 1, x0, x1, whole) + row_of(
                    node.children@,
                    row,
                    from,
                    to,
                    node.bytes,
                )
            } else {
                row_of(nodes, row + 1, x0, x1, whole)
            }
            &&& row_of(Seq::empty(), row, x0, x1, whole).len() == 0
        }),
{
    let more = nodes.push(node);
    let n = nodes.len() as int;
    lemma_first_nodes(more, nodes, n, 0, x0, x1, whole);
    lemma_first_nodes(more, nodes, n, row + 1, x0, x1, whole);
    lemma_reach(nodes, 0, x0, x1, whole);
    lemma_reach(nodes, row + 1, x0, x1, whole);
    lemma_share(node.bytes, x1 - x0, whole);
    assert(more.drop_last() =~= nodes);
}

proof fn lemma_share(bytes: u64, span: int, whole: u64)
    requires
        bytes <= whole,
        whole > 0,
        0 <= span <= u16::MAX,
    ensures
        0 <= bytes * span / whole as int <= span,
        box_width(bytes, span, whole) == bytes * span / whole as int,
{
    let b = bytes as int;
    let w = whole as int;
    assert(0 <= b * span / w <= span) by (nonlinear_arith)
        requires
            0 <= b <= w,
            w > 0,
            0 <= span,
    ;
}

proof fn lemma_reach(nodes: Seq<FlameNode>, row: nat, x0: u16, x1: u16, whole: u64)
    requires
        x0 < x1,
        whole > 0,
        forall|i: int| 0 <= i < nodes.len() ==> (#[trigger] nodes[i]).bytes <= whole,
    ensures
        x0 <= reach(nodes, x0, x1, whole) <= x1,
        boxes_on_row(nodes, nodes.len() as int, row, x0, x1, whole).1 == reach(
            nodes,
            x0,
            x1,
            whole,
        ),
    decreases nodes.len(),
{
    if nodes.len() > 0 {
        let rest = nodes.drop_last();
        assert(nodes[nodes.len() - 1] == nodes.last());
        assert forall|i: int| 0 <= i < rest.len() implies (#[trigger] rest[i]).bytes <= whole by {
            assert(rest[i] == nodes[i]);
        }
        lemma_reach(rest, row, x0, x1, whole);
        lemma_first_nodes(nodes, rest, rest.len() as int, row, x0, x1, whole);
        lemma_share(nodes.last().bytes, x1 - x0, whole);
    }
}

/// The flame graph is drawn row by row into the cells within its border, the outermost calls
/// first: every row that has a box, as far as there is room.
pub proof fn law_flame_rows_fill_the_box(
    rows: Seq<Seq<Segment>>,
    flame: FlameView,
    area: Area,
)
    requires
        is_flame_in(rows, Some(flame), area),
        flame.total > 0,
        flame.roots@.len() > 0,
        area.width >= 2 && area.height >= 2,
    ensures
        rows.len() <= area.height - 2,
        forall|d: int| #![trigger rows[d]]
            0 <= d < rows.len() ==> rows[d].len() > 0 && rows[d] == row_of(
                flame.roots@,
                d as nat,
                0,
                (area.width - 2) as u16,
                flame.total,
            ),
        rows.len() < area.height - 2 ==> row_of(
            flame.roots@,
            rows.len(),
            0,
            (area.width - 2) as u16,
            flame.total,
        ).len() == 0,
{
}

/// The line for a row of boxes: between the ends of each box stands its label, cut or filled up
/// to its width, and, where that leaves six characters of the label or all of it, its share;
/// between the boxes stand blanks.
pub proof fn law_boxes_stand_in_their_cells(segs: Seq<Segment>, shares: Seq<Share>, n: int)
    requires
        0 <= n <= segs.len(),
        n <= shares.len(),
        forall|i: int| 0 <= i < n ==> (#[trigger] segs[i]).x0 <= segs[i].x1,
        forall|i: int, j: int|
            0 <= i < j < n ==> (#[trigger] segs[i]).x1 <= (#[trigger] segs[j]).x0,
    ensures
        ({
            let text = spoken(flame_pieces(segs, shares, n));
            &&& text.len() == if n == 0 {
                0
            } else {
                segs[n - 1].x1 as int
            }
            &&& forall|i: int| #![trigger segs[i]]
                0 <= i < n ==> {
                    let width = segs[i].x1 - segs[i].x0;
                    let share = " "@ + decimal(shares[i].percent as nat) + "%"@;
                    let least = if segs[i].label.len() < 6 {
                        segs[i].label.len()
                    } else {
                        6
                    };
                    text.subrange(segs[i].x0 as int, segs[i].x1 as int) == padded(
                        if width >= least + share.len() {
                            segs[i].label + share
                        } else {
                            segs[i].label
                        },
                        width as nat,
                    )
                }
        }),
    decreases n,
{
    if n > 0 {
        law_boxes_stand_in_their_cells(segs, shares, n - 1);
        let before = flame_pieces(segs, shares, n - 1);
        let seg = segs[n - 1];
        let from = if n == 1 {
            0
        } else {
            segs[n - 2].x1
        };
        if n > 1 {
            assert(segs[n - 2].x1 <= segs[n - 1].x0);
        }
        let all = flame_pieces(segs, shares, n);
        let text = spoken(all);
        let gap = crate::style::raw(
            crate::dashboard::repeated(' ', (seg.x0 - from) as nat),
        );
        let spaced = if seg.x0 > from {
            before.push(gap)
        } else {
            before
        };
        lemma_spoken_push(before, gap);
        lemma_spoken_push(spaced, all.last());
        assert(all =~= spaced.push(all.last()));
        let label = padded(box_text(seg, shares[n - 1]), (seg.x1 - seg.x0) as nat);
        law_texts_are_aligned(box_text(seg, shares[n - 1]), (seg.x1 - seg.x0) as nat);
        assert(spoken(spaced).len() == seg.x0);
        assert(text == spoken(spaced) + label);
        assert forall|i: int| #![trigger segs[i]] 0 <= i < n implies {
            let width = segs[i].x1 - segs[i].x0;
            let share = " "@ + decimal(shares[i].percent as nat) + "%"@;
            let least = if segs[i].label.len() < 6 {
                segs[i].label.len()
            } else {
                6
            };
            text.subrange(segs[i].x0 as int, segs[i].x1 as int) == padded(
                if width >= least + share.len() {
                    segs[i].label + share
                } else {
                    segs[i].label
                },
                width as nat,
            )
        } by {
            if i < n - 1 {
                if i < n - 2 {
                    assert(segs[i].x1 <= segs[n - 2].x0);
                }
                assert(text.subrange(segs[i].x0 as int, segs[i].x1 as int) =~= spoken(
                    before,
                ).subrange(segs[i].x0 as int, segs[i].x1 as int));
            } else {
                assert(text.subrange(seg.x0 as int, seg.x1 as int) =~= label);
            }
        }
    }
}

/// The row of a call site in the heatmap: its name in 24 characters, and a cell for each of the
/// newest ticks that have room, the current one last: blank just if nothing was allocated.
pub proof fn law_heat_rows_show_the_newest_ticks(
    heat: HeatView,
    colors: Seq<Vec<Color>>,
    area: Area,
    i: int,
)
    requires
        heat.sites@.len() == heat.cells@.len(),
        0 <= i < heat.sites@.len(),
    ensures
        ({
            let shape = heat_shape(Some(heat), colors, area);
            let line = shape.body->Text_lines[i];
            let cells = heat.cells@[i]@;
            let room = if area.width <= 28 {
                1
            } else {
                area.width - 27
            };
            let columns = if heat.buckets < room {
                heat.buckets as int
            } else {
                room
            };
            let count = if cells.len() < columns {
                cells.len() as int
            } else {
                columns
            };
            &&& shape.body is Text && shape.body->Text_lines.len() == heat.sites@.len()
            &&& line.len() == count + 1
            &&& line[0].text == padded(heat.sites@[i]@, 24) + " "@
            &&& forall|k: int| #![trigger line[k + 1]]
                0 <= k < count ==> {
                    let at = cells.len() - count + k;
                    &&& line[k + 1].text == seq![
                        if cells[at] == 0 {
                            ' '
                        } else {
                            '█'
                        },
                    ]
                    &&& line[k + 1].style.fg == Some(colors[i]@[at])
                }
            &&& shape.frame matches Some((title, _)) && title
                == "heat map — alloc volume per site, last ~"@ + decimal(
                heat.buckets as nat / 4,
            ) + "s (left=older → right=now)"@
        }),
{
    assert(ticks_to_secs(heat.buckets as nat) == heat.buckets as nat / 4);
}

/// The list of leaks tells how much is leaked in all and how sure that is, and of each call site
/// its bytes, how many blocks they are, how old the oldest is in seconds, and its name.
pub proof fn law_leaks_are_listed(leaks: LeakView, gauges: Seq<Gauge>, area: Area)
    ensures
        ({
            let shape = leaks_shape(leaks, gauges, area);
            let sum = decimal(leaks.total_bytes as nat) + " bytes in "@ + decimal(
                leaks.total_count as nat,
            ) + " allocations "@;
            &&& shape.frame matches Some((title, border)) && title == (if leaks.definite {
                " LEAKS — definite (target exited): "@ + sum
            } else {
                " leaks — probable (alive ≥ "@ + decimal(leaks.age_threshold as nat / 4)
                    + "s): "@ + sum
            }) && border.fg == Some(
                if leaks.definite {
                    Color::Red
                } else {
                    Color::Yellow
                },
            )
            &&& leaks.rows@.len() == 0 <==> shape.body is Message
            &&& leaks.rows@.len() > 0 ==> {
                &&& shape.body is Table
                &&& shape.body->rows.len() == leaks.rows@.len()
                &&& forall|i: int| #![trigger leaks.rows@[i]]
                    0 <= i < leaks.rows@.len() ==> {
                        let cells = shape.body->rows[i].cells;
                        let row = leaks.rows@[i];
                        let room = if area.width < 51 {
                            8
                        } else {
                            area.width - 43
                        };
                        &&& cells.len() == 5
                        &&& cells[0].len() == if gauges[i].filled < 10 {
                            gauges[i].filled as int
                        } else {
                            10
                        }
                        &&& forall|k: int| 0 <= k < cells[0].len() ==> #[trigger] cells[0][k] == '█'
                        &&& cells[1] == decimal(row.bytes as nat)
                        &&& cells[2] == decimal(row.count as nat)
                        &&& cells[3] == decimal(row.oldest_age as nat / 4) + "s"@
                        &&& cells[4] == truncated(row.site@, room as nat)
                        &&& shape.body->rows[i].style.fg == Some(gauges[i].color)
                    }
            }
        }),
{
    assert forall|ticks: nat| #[trigger] ticks_to_secs(ticks) == ticks / 4 by {}
}

/// The footer marks the view that is shown, and no other.
pub proof fn law_the_footer_marks_the_view(view: ViewMode)
    ensures
        ({
            let pieces = footer_text(view);
            let shown = match view {
                ViewMode::Live => 0int,
                ViewMode::Flame => 1,
                ViewMode::Heatmap => 2,
                ViewMode::Leaks => 3,
            };
            &&& forall|i: int| 0 <= i < 4 ==> (#[trigger] pieces[i]).style.bold == (i == shown)
            &&& pieces[0].text == " "@ + "1 live"@ + " "@
            &&& pieces[1].text == " "@ + "2 flame"@ + " "@
            &&& pieces[2].text == " "@ + "3 heat"@ + " "@
            &&& pieces[3].text == " "@ + "4 leaks"@ + " "@
        }),
{
}

/// The screen, from back to front: the header, the crash if there is one, what the view asks for,
/// the footer, and above all that the help if it is asked for.
pub proof fn law_the_screen_is_put_together(
    snap: Snapshot,
    parts: Parts,
    rows: Seq<Seq<Segment>>,
    shares: Shares,
)
    ensures
        ({
            let all = screen_shapes(snap, parts, rows, shares);
            let crash = if parts.crash is Some && snap.crash is Some {
                seq![crash_shape(snap.crash->0, parts.crash->0)]
            } else {
                Seq::empty()
            };
            let middle = match snap.view {
                ViewMode::Live => seq![
                    recent_shape(snap, parts.left),
                    if snap.selected_view is Some {
                        call_stack_shape(snap.selected_view->0, parts.right)
                    } else {
                        offenders_shape(snap, shares.offenders@, parts.right)
                    },
                ],
                ViewMode::Flame => seq![
                    flame_shape(snap.flame, rows, shares.flame@, parts.body),
                ],
                ViewMode::Heatmap => seq![heat_shape(snap.heatmap, shares.heat@, parts.body)],
                ViewMode::Leaks => if snap.leaks is Some {
                    seq![leaks_shape(snap.leaks->0, shares.leaks@, parts.body)]
                } else {
                    Seq::empty()
                },
            };
            let help = if snap.show_help {
                seq![help_shape(parts.screen)]
            } else {
                Seq::empty()
            };
            all == seq![header_shape(snap, parts.header)] + crash + middle + seq![
                footer_shape(snap.view, parts.footer),
            ] + help
        }),
{
}

/// A border takes one cell on each side.
pub proof fn law_borders_take_a_cell(area: Area)
    requires
        area.on_screen(),
        area.width >= 2 && area.height >= 2,
    ensures
        inside_border(area) == (Area {
            x: (area.x + 1) as u16,
            y: (area.y + 1) as u16,
            width: (area.width - 2) as u16,
            height: (area.height - 2) as u16,
        }),
{
}

/// The parts tile the screen, if it is high enough: from top to bottom the header, the crash, the
/// body and the footer; and the body from left to right, divided at the cell that is nearest to
/// six tenths of its width.
pub proof fn law_parts_tile_the_screen(parts: Parts, screen: Area, crash_height: u16)
    requires
        is_division(parts, screen, crash_height),
        screen.height >= 5 + crash_height,
    ensures
        parts.screen == screen,
        parts.header == (Area { height: 4, ..screen }),
        parts.crash is Some <==> crash_height > 0,
        parts.crash matches Some(crash) ==> crash == (Area {
            y: (screen.y + 4) as u16,
            height: crash_height,
            ..screen
        }),
        parts.body == (Area {
            y: (screen.y + 4 + crash_height) as u16,
            height: (screen.height - 5 - crash_height) as u16,
            ..screen
        }),
        parts.footer == (Area {
            y: (screen.y + screen.height - 1) as u16,
            height: 1,
            ..screen
        }),
        parts.left.x == parts.body.x,
        parts.left.width + parts.right.width == parts.body.width,
        parts.right.x == parts.left.x + parts.left.width,
        -50 <= 100 * parts.left.width - 60 * parts.body.width <= 50,
        parts.left.y == parts.body.y && parts.left.height == parts.body.height,
        parts.right.y == parts.body.y && parts.right.height == parts.body.height,
{
}

/// The flame graph is headed by all that is live; without anything live there is a message in its
/// place.
pub proof fn law_flame_graphs_are_headed(
    flame: Option<FlameView>,
    rows: Seq<Seq<Segment>>,
    shares: Seq<Vec<Share>>,
    area: Area,
)
    ensures
        ({
            let shape = flame_shape(flame, rows, shares, area);
            let shown = flame is Some && flame->0.total > 0 && flame->0.roots@.len() > 0;
            &&& shape.area == area
            &&& shape.body is Text <==> shown
            &&& shape.body is Message <==> !shown
            &&& shown ==> {
                &&& shape.frame matches Some((title, _)) && title == "flame graph — "@ + decimal(
                    flame->0.total as nat,
                ) + " B live · width & color = share (outermost on top)"@
                &&& shape.body->Text_lines.len() == rows.len()
                &&& forall|d: int| #![trigger rows[d]]
                    0 <= d < rows.len() ==> shape.body->Text_lines[d] == flame_pieces(
                        rows[d],
                        shares[d]@,
                        rows[d].len() as int,
                    )
            }
        }),
{
}

/// The help stands in the middle of the screen, above everything else.
pub proof fn law_the_help_covers_the_rest(screen: Area)
    requires
        screen.on_screen(),
    ensures
        help_shape(screen).clear,
        help_shape(screen).area == centered(screen, 78, (help_text().len() + 2) as u16),
        help_shape(screen).body == (Content::Text { lines: help_text(), wrap: false }),
{
}

/// A snapshot can be shown just if its times in milliseconds and its percentage can be told.
pub proof fn law_numbers_can_be_shown(snap: Snapshot)
    ensures
        showable(snap) <==> {
            &&& snap.temporary_count * 100 <= u64::MAX
            &&& snap.heatmap is Some ==> snap.heatmap->0.buckets * 250 <= u64::MAX
            &&& snap.leaks is Some ==> {
                let leaks = snap.leaks->0;
                &&& !leaks.definite ==> leaks.age_threshold * 250 <= u64::MAX
                &&& forall|i: int|
                    0 <= i < leaks.rows@.len() ==> (#[trigger] leaks.rows@[i]).oldest_age * 250
                        <= u64::MAX
            }
        },
{
}

/// A view that has nothing to show says so, in the middle of its box.
pub proof fn law_empty_views_say_so(
    flame: Option<FlameView>,
    rows: Seq<Seq<Segment>>,
    shares: Seq<Vec<Share>>,
    heat: Option<HeatView>,
    colors: Seq<Vec<Color>>,
    leaks: LeakView,
    gauges: Seq<Gauge>,
    area: Area,
)
    ensures
        flame is None || flame->0.total == 0 || flame->0.roots@.len() == 0 ==> (flame_shape(
            flame,
            rows,
            shares,
            area,
        ).body matches Content::Message { text, .. } && text == "no active allocations to chart"@),
        heat is None || heat->0.sites@.len() == 0 ==> (heat_shape(
            heat,
            colors,
            area,
        ).body matches Content::Message { text, .. } && text == "no allocation activity yet"@),
        leaks.rows@.len() == 0 ==> (leaks_shape(
            leaks,
            gauges,
            area,
        ).body matches Content::Message { text, area: place, .. } && text == "no leaks detected"@
            && place == centered(inside_border(area), text.len() as u16, 1)),
{
}

/// A crash takes no row if there is none, and else four more than its stack has frames, but no
/// more than 18.
pub proof fn law_crashes_take_rows(crash: Option<CrashInfo>)
    requires
        crash matches Some(c) ==> c.frames@.len() <= u16::MAX,
    ensures
        rows_for_crash(crash) == match crash {
            None => 0int,
            Some(c) => if c.frames@.len() <= 14 {
                c.frames@.len() as int + 4
            } else {
                18
            },
        },
{
}

/// What is put in the middle of an area keeps its size, as far as the area has room.
pub proof fn law_centered_areas_keep_their_size(area: Area, w: u16, h: u16)
    requires
        area.on_screen(),
    ensures
        ({
            let rect = centered(area, w, h);
            &&& rect.width <= w && rect.width <= area.width
            &&& rect.width == w || rect.width == area.width
            &&& rect.height <= h && rect.height <= area.height
            &&& rect.height == h || rect.height == area.height
            &&& area.x <= rect.x && rect.x + rect.width <= area.x + area.width
            &&& area.y <= rect.y && rect.y + rect.height <= area.y + area.height
        }),
{
}

} // verus!
