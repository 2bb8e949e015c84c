use ratatui::backend::TestBackend;
use ratatui::layout::Alignment;
use ratatui::layout::Constraint;
use ratatui::layout::Rect;
use ratatui::widgets::Block;
use ratatui::widgets::Borders;
use ratatui::widgets::Clear;
use ratatui::widgets::List;
use ratatui::widgets::ListItem;
use ratatui::widgets::Paragraph;
use ratatui::widgets::Row;
use ratatui::widgets::Table;
use ratatui::widgets::Wrap;
use ratatui::Terminal;
use sherlock::dashboard::crash_height;
use sherlock::dashboard::draw;
use sherlock::dashboard::flame_row_line;
use sherlock::dashboard::flame_rows;
use sherlock::dashboard::footer_panel;
use sherlock::dashboard::header_panel;
use sherlock::dashboard::heat_panel;
use sherlock::dashboard::help_panel;
use sherlock::dashboard::is_showable;
use sherlock::dashboard::kind_style;
use sherlock::dashboard::layout_flame;
use sherlock::dashboard::leaks_panel;
use sherlock::dashboard::offenders_panel;
use sherlock::dashboard::pad_to;
use sherlock::dashboard::plan;
use sherlock::dashboard::recent_panel;
use sherlock::dashboard::sparkline;
use sherlock::dashboard::truncate;
use sherlock::dashboard::FlameSeg;
use sherlock::dashboard::Gauge;
use sherlock::dashboard::Share;
use sherlock::dashboard::Shares;
use sherlock::layout::centered_rect;
use sherlock::layout::divide;
use sherlock::layout::inner_area;
use sherlock::layout::Area;
use sherlock::state::FlameNode;
use sherlock::state::FlameView;
use sherlock::state::HeatView;
use sherlock::state::LeakRow;
use sherlock::state::LeakView;
use sherlock::state::SelectedView;
use sherlock::state::Snapshot;
use sherlock::state::ViewMode;
use sherlock::style::Body;
use sherlock::style::Color;
use sherlock::style::Line;
use sherlock::style::Panel;
use sherlock::style::TableRow;
use sherlock::tracker::CrashInfo;
use sherlock::tracker::DisplayEvent;

fn plain(line: &Line) -> String {
    line.spans.iter().map(|s| s.text.as_str()).collect()
}

fn row_text(row: &TableRow) -> Row<'_> {
    Row::new(row.cells.iter().map(|c| c.as_str()))
}

fn show(frame: &mut ratatui::Frame, panel: &Panel) {
    let a = panel.area;
    let area = Rect::new(a.x, a.y, a.width, a.height);
    let block = match &panel.frame {
        Some(f) => Block::default().borders(Borders::ALL).title(f.title.as_str()),
        None => Block::default(),
    };
    if panel.clear {
        frame.render_widget(Clear, area);
    }
    match &panel.body {
        Body::Text { lines, wrap } => {
            let lines: Vec<ratatui::text::Line> =
                lines.iter().map(|l| ratatui::text::Line::raw(plain(l))).collect();
            let text = Paragraph::new(lines).block(block);
            if *wrap {
                frame.render_widget(text.wrap(Wrap { trim: false }), area);
            } else {
                frame.render_widget(text, area);
            }
        }
        Body::Items { items } => {
            let items: Vec<ListItem> =
                items.iter().map(|i| ListItem::new(plain(&i.line))).collect();
            frame.render_widget(List::new(items).block(block), area);
        }
        Body::Table { header, rows } => {
            let widths = [
                Constraint::Length(10),
                Constraint::Length(14),
                Constraint::Length(8),
                Constraint::Length(8),
                Constraint::Min(10),
            ];
            let table = Table::new(rows.iter().map(row_text), widths)
                .header(row_text(header))
                .block(block);
            frame.render_widget(table, area);
        }
        Body::Message { area: at, text, .. } => {
            frame.render_widget(block, area);
            let at = Rect::new(at.x, at.y, at.width, at.height);
            frame.render_widget(Paragraph::new(text.as_str()).alignment(Alignment::Center), at);
        }
    }
}

fn percent(bytes: u64, total: u64) -> u64 {
    (bytes as f64 / total.max(1) as f64 * 100.0).round() as u64
}

fn shares_for(snap: &Snapshot, rows: &Vec<Vec<FlameSeg>>) -> Shares {
    let total = snap.flame.as_ref().map_or(0, |f| f.total);
    let gauge = Gauge { filled: 3, color: Color::Green };
    Shares {
        offenders: vec![gauge; snap.offenders.len()],
        flame: rows
            .iter()
            .map(|row| {
                row.iter()
                    .map(|s| Share { percent: percent(s.bytes, total), color: Color::Red })
                    .collect()
            })
            .collect(),
        heat: snap.heatmap.as_ref().map_or(Vec::new(), |h| {
            h.cells.iter().map(|row| vec![Color::Green; row.len()]).collect()
        }),
        leaks: vec![gauge; snap.leaks.as_ref().map_or(0, |l| l.rows.len())],
    }
}

fn render(snap: &Snapshot) -> String {
    let backend = TestBackend::new(120, 24);
    let mut terminal = Terminal::new(backend).unwrap();
    terminal
        .draw(|frame| {
            let screen = Area { x: 0, y: 0, width: 120, height: 24 };
            let (parts, rows) = plan(snap, screen);
            assert!(is_showable(snap));
            for panel in &draw(snap, parts, &rows, &shares_for(snap, &rows)) {
                show(frame, panel);
            }
        })
        .unwrap();
    terminal
        .backend()
        .buffer()
        .content()
        .iter()
        .map(|c| c.symbol())
        .collect()
}

#[test]
fn live_view_shows_feed_and_view_tabs() {
    let snap = Snapshot::default();
    let s = render(&snap);
    assert!(s.contains("recent events"), "{s}");
    assert!(s.contains("live"));
    assert!(s.contains("flame"));
}

#[test]
fn flame_view_renders_graph_and_labels() {
    let snap = Snapshot {
        view: ViewMode::Flame,
        flame: Some(FlameView {
            total: 100,
            roots: vec![FlameNode {
                label: "main".into(),
                bytes: 100,
                children: vec![FlameNode {
                    label: "worker".into(),
                    bytes: 60,
                    children: vec![],
                }],
            }],
        }),
        ..Default::default()
    };
    let s = render(&snap);
    assert!(s.contains("flame graph"), "{s}");
    assert!(s.contains("main"));
    assert!(s.contains("100%"), "{s}");
}

#[test]
fn heat_view_renders_sites() {
    let snap = Snapshot {
        view: ViewMode::Heatmap,
        heatmap: Some(HeatView {
            sites: vec!["alloc_site".into()],
            cells: vec![vec![0, 10, 50, 5]],
            max: 50,
            buckets: 4,
        }),
        ..Default::default()
    };
    let s = render(&snap);
    assert!(s.contains("heat map"), "{s}");
    assert!(s.contains("alloc_site"));
}

#[test]
fn leaks_view_renders_definite_summary_and_rows() {
    let snap = Snapshot {
        view: ViewMode::Leaks,
        leaks: Some(LeakView {
            rows: vec![LeakRow {
                site: "leaky_fn".into(),
                bytes: 4096,
                count: 8,
                oldest_age: 40,
            }],
            total_bytes: 4096,
            total_count: 8,
            definite: true,
            age_threshold: 0,
        }),
        ..Default::default()
    };
    let s = render(&snap);
    assert!(s.contains("LEAKS"), "{s}");
    assert!(s.contains("definite"));
    assert!(s.contains("leaky_fn"));
    assert!(s.contains("10s"), "{s}");
}

#[test]
fn help_overlay_shows_keys_and_color_legend() {
    let snap = Snapshot {
        show_help: true,
        ..Default::default()
    };
    let s = render(&snap);
    assert!(s.contains("help & legend"), "{s}");
    assert!(s.contains("Colors"));
    assert!(s.contains("alloc"));
}

#[test]
fn crash_panel_renders_when_present() {
    let snap = Snapshot {
        crash: Some(CrashInfo {
            signal: 11,
            fault_addr: 0,
            pc: 0xDEAD,
            frames: vec!["boom (crash.c:5)".into()],
        }),
        ..Default::default()
    };
    let s = render(&snap);
    assert!(s.contains("CRASH"), "{s}");
    assert!(s.contains("SIGSEGV"));
}

fn texts(panel: &Panel) -> Vec<String> {
    match &panel.body {
        Body::Text { lines, .. } => lines.iter().map(plain).collect(),
        Body::Items { items } => items.iter().map(|i| plain(&i.line)).collect(),
        Body::Table { rows, .. } => rows.iter().map(|r| r.cells.join("|")).collect(),
        Body::Message { text, .. } => vec![text.clone()],
    }
}

const WIDE: Area = Area { x: 0, y: 0, width: 60, height: 10 };

#[test]
fn texts_are_cut_and_filled_up() {
    assert_eq!(truncate("abcdef", 0), "");
    assert_eq!(truncate("abcdef", 6), "abcdef");
    assert_eq!(truncate("abcdef", 4), "abc…");
    assert_eq!(truncate("äöü", 2), "ä…");
    assert_eq!(pad_to("ab", 4), "ab  ");
    assert_eq!(pad_to("abcdef", 4), "abc…");
}

#[test]
fn sparklines_scale_to_the_largest_value() {
    assert_eq!(sparkline(&vec![], 8), "");
    assert_eq!(sparkline(&vec![1, 2], 0), "");
    assert_eq!(sparkline(&vec![0, 0], 8), "▁▁");
    assert_eq!(sparkline(&vec![0, 1, 2, 3, 4, 5, 6, 7], 8), "▁▂▃▄▅▆▇█");
    assert_eq!(sparkline(&vec![900, 1, 2], 2), "▄█");
    assert_eq!(sparkline(&vec![u64::MAX, u64::MAX / 2], 9), "█▄");
}

#[test]
fn event_kinds_have_their_colours() {
    assert_eq!(kind_style(6).fg, Some(Color::Red));
    assert!(kind_style(6).bold);
    assert_eq!(kind_style(1).fg, Some(Color::DarkGray));
    assert_eq!(kind_style(3).fg, Some(Color::Green));
}

#[test]
fn the_header_tells_the_counts() {
    let snap = Snapshot {
        status: "running",
        active_count: 3,
        active_bytes: 40,
        total_events: 9,
        dropped: 2,
        paused: true,
        offender_depth: 1,
        note: Some("no symbols".into()),
        peak_bytes: 50,
        total_allocated: 70,
        temporary_count: 1,
        free_count: 3,
        alloc_count: 6,
        heap_series: vec![0, 40],
        ..Default::default()
    };
    let lines = texts(&header_panel(&snap, WIDE));
    assert_eq!(
        lines[0],
        "status: running   active: 3 (40 B)   total: 9   dropped: 2   offender-depth: 1    \
         PAUSED    (no symbols)"
    );
    assert_eq!(
        lines[1],
        "heap ▁█  peak 50 B   allocated 70 B   short-lived 33%   allocs 6  frees 3"
    );
}

#[test]
fn the_timeline_spans_all_samples() {
    let heap_of = |series: Vec<u64>| {
        let snap = Snapshot {
            heap_series: series,
            ..Default::default()
        };
        let line = texts(&header_panel(&snap, WIDE))[1].clone();
        line["heap ".len()..line.find("  peak").unwrap()].to_string()
    };
    assert_eq!(heap_of((0..8).collect()), "▁▂▃▄▅▆▇█");
    let steps = [(4, "▁"), (5, "▂"), (4, "▃"), (5, "▄"), (4, "▅"), (5, "▆"), (4, "▇"), (1, "█")];
    let rising: String = steps.iter().map(|(n, bar)| bar.repeat(*n)).collect();
    assert_eq!(heap_of((1..=64).collect()), rising);
    assert_eq!(heap_of((1..=240).collect()).chars().count(), 32);
    let mut falling: Vec<u64> = vec![700; 120];
    falling.extend(vec![0; 120]);
    assert_eq!(heap_of(falling), "█".repeat(16) + &"▁".repeat(16));
}

fn event(seq: u64, kind: u8) -> DisplayEvent {
    DisplayEvent {
        seq,
        kind,
        ptr: 0xabc,
        size: 16,
        offender: "f".into(),
        frames: vec![],
    }
}

#[test]
fn recent_events_are_listed_newest_first() {
    let snap = Snapshot {
        recent: vec![event(1, 0), event(2, 1), event(3, 4)],
        selected: Some(1),
        ..Default::default()
    };
    let area = Area { height: 4, ..WIDE };
    let panel = recent_panel(&snap, area);
    assert_eq!(
        texts(&panel),
        vec![
            "#3 posix_memalign ptr=0xabc          size=16       f",
            "#2 free     ptr=0xabc          size=16       f",
        ]
    );
    match &panel.body {
        Body::Items { items } => {
            assert!(!items[0].style.reversed);
            assert!(items[1].style.reversed);
        }
        _ => panic!("a list"),
    }
}

#[test]
fn offenders_show_bar_bytes_and_name() {
    let snap = Snapshot {
        offenders: vec![("a_rather_long_function_name".into(), 1234)],
        ..Default::default()
    };
    let gauges = vec![Gauge { filled: 40, color: Color::Red }];
    let area = Area { width: 40, ..WIDE };
    assert_eq!(
        texts(&offenders_panel(&snap, &gauges, area)),
        vec!["████████████       1234  a_rather_lo…"]
    );
}

#[test]
fn a_selected_event_shows_its_stack() {
    let snap = Snapshot {
        selected_view: Some(SelectedView {
            header: "#7 malloc ptr=0x1 size=2".into(),
            stack: vec!["inner".into(), "main".into()],
        }),
        ..Default::default()
    };
    let s = render(&snap);
    assert!(s.contains("call stack (Esc to close)"), "{s}");
    assert!(s.contains("#7 malloc ptr=0x1 size=2"));
    assert!(s.contains("  #1 main"));
    assert!(!s.contains("top offenders (active bytes)"));
}

#[test]
fn crashes_take_as_many_rows_as_they_need() {
    assert_eq!(crash_height(&None), 0);
    let crash = |n: usize| {
        Some(CrashInfo {
            signal: -5,
            fault_addr: 1,
            pc: 2,
            frames: vec!["f".to_string(); n],
        })
    };
    assert_eq!(crash_height(&crash(3)), 7);
    assert_eq!(crash_height(&crash(14)), 18);
    assert_eq!(crash_height(&crash(60)), 18);
    let snap = Snapshot {
        crash: crash(1),
        ..Default::default()
    };
    assert!(render(&snap).contains("signal (-5)   fault addr=0x1   pc=0x2"));
}

fn node(label: &str, bytes: u64, children: Vec<FlameNode>) -> FlameNode {
    FlameNode {
        label: label.into(),
        bytes,
        children,
    }
}

#[test]
fn boxes_are_laid_out_in_proportion() {
    let roots = vec![
        node("a", 60, vec![node("c", 30, vec![node("d", 1, vec![])])]),
        node("b", 40, vec![]),
    ];
    let rows = layout_flame(&roots, 10, 100, 5);
    let ends: Vec<Vec<(u16, u16, &str)>> = rows
        .iter()
        .map(|r| r.iter().map(|s| (s.x0, s.x1, s.label.as_str())).collect())
        .collect();
    assert_eq!(ends, vec![vec![(0, 6, "a"), (6, 10, "b")], vec![(0, 3, "c")]]);
    assert_eq!(layout_flame(&roots, 10, 100, 1).len(), 1);
    assert!(layout_flame(&roots, 0, 100, 5).is_empty());
    assert!(layout_flame(&roots, 10, 0, 5).is_empty());
}

#[test]
fn a_row_of_boxes_is_filled_up_to_their_ends() {
    let seg = |x0, x1, label: &str| FlameSeg {
        x0,
        x1,
        label: label.into(),
        bytes: 1,
    };
    let share = Share { percent: 42, color: Color::Yellow };
    let line = flame_row_line(
        &vec![seg(2, 12, "main"), seg(12, 15, "worker")],
        &vec![share, share],
    );
    assert_eq!(plain(&line), "  main 42%  wo…");
    assert_eq!(line.spans[1].style.bg, Some(Color::Yellow));
    assert_eq!(line.spans[1].style.fg, Some(Color::Black));
}

#[test]
fn the_heatmap_shows_the_newest_ticks() {
    let heat = Some(HeatView {
        sites: vec!["site".into()],
        cells: vec![vec![1, 0, 2, 0, 3]],
        max: 3,
        buckets: 48,
    });
    let colors = vec![vec![Color::Green, Color::DarkGray, Color::Red, Color::DarkGray, Color::Red]];
    let area = Area { width: 30, ..WIDE };
    let panel = heat_panel(&heat, &colors, area);
    assert_eq!(texts(&panel), vec!["site                     █ █"]);
    assert_eq!(
        panel.frame.unwrap().title,
        "heat map — alloc volume per site, last ~12s (left=older → right=now)"
    );
    let empty = heat_panel(&None, &Vec::new(), WIDE);
    assert_eq!(texts(&empty), vec!["no allocation activity yet"]);
}

#[test]
fn leaks_tell_threshold_and_age_in_seconds() {
    let mut leaks = LeakView {
        rows: vec![],
        total_bytes: 0,
        total_count: 0,
        definite: false,
        age_threshold: 12,
    };
    let panel = leaks_panel(&leaks, &vec![], WIDE);
    assert_eq!(texts(&panel), vec!["no leaks detected"]);
    assert_eq!(
        panel.frame.unwrap().title,
        " leaks — probable (alive ≥ 3s): 0 bytes in 0 allocations "
    );
    leaks.rows.push(LeakRow {
        site: "f".into(),
        bytes: 7,
        count: 2,
        oldest_age: 9,
    });
    let gauges = vec![Gauge { filled: 2, color: Color::Green }];
    assert_eq!(texts(&leaks_panel(&leaks, &gauges, WIDE)), vec!["██|7|2|2s|f"]);
}

#[test]
fn the_footer_marks_the_view_and_explains_it() {
    let panel = footer_panel(ViewMode::Heatmap, WIDE);
    assert_eq!(
        texts(&panel),
        vec![
            " 1 live  2 flame  3 heat  4 leaks    alloc volume: █ low  █ med  █ high  \
             · each column ≈ 250ms   ?:help/legend"
        ]
    );
    match &panel.body {
        Body::Text { lines, .. } => assert!(lines[0].spans[2].style.bold),
        _ => panic!("text"),
    }
}

#[test]
fn the_help_stands_in_the_middle() {
    let panel = help_panel(Area { x: 0, y: 0, width: 100, height: 41 });
    assert_eq!(panel.area, Area { x: 11, y: 9, width: 78, height: 23 });
    assert!(panel.clear);
    let lines = texts(&panel);
    assert_eq!(lines.len(), 21);
    assert_eq!(lines[16], "  events            █ alloc  █ free  █ CRASH  ");
}

#[test]
fn numbers_too_large_to_show_are_found_out() {
    let snap = Snapshot {
        temporary_count: u64::MAX / 50,
        ..Default::default()
    };
    assert!(!is_showable(&snap));
    let leaks = |definite, age_threshold, oldest_age| Snapshot {
        leaks: Some(LeakView {
            rows: vec![LeakRow {
                site: "f".into(),
                bytes: 1,
                count: 1,
                oldest_age,
            }],
            total_bytes: 1,
            total_count: 1,
            definite,
            age_threshold,
        }),
        ..Default::default()
    };
    assert!(is_showable(&leaks(true, u64::MAX, 5)));
    assert!(!is_showable(&leaks(false, u64::MAX, 5)));
    assert!(!is_showable(&leaks(true, 0, u64::MAX)));
}

#[test]
fn areas_are_centered_and_framed() {
    let area = Area { x: 10, y: 20, width: 9, height: 5 };
    assert_eq!(centered_rect(area, 4, 2), Area { x: 12, y: 21, width: 4, height: 2 });
    assert_eq!(centered_rect(area, 400, 2).width, 9);
    assert_eq!(inner_area(area), Area { x: 11, y: 21, width: 7, height: 3 });
    let thin = Area { x: 1, y: 1, width: 1, height: 0 };
    assert_eq!(inner_area(thin), Area { x: 2, y: 1, width: 0, height: 0 });
}

#[test]
fn the_screen_is_divided_without_gaps() {
    for height in 0..90u16 {
        for crash in [0u16, 5, 18] {
            let screen = Area { x: 3, y: 7, width: 2 * height + 1, height };
            let parts = divide(screen, crash);
            assert_eq!(parts.crash.is_some(), crash > 0);
            if 5 + crash <= height {
                assert_eq!(parts.header, Area { height: 4, ..screen });
                if let Some(c) = parts.crash {
                    assert_eq!(c, Area { y: 11, height: crash, ..screen });
                }
                let body = Area { y: 11 + crash, height: height - 5 - crash, ..screen };
                assert_eq!(parts.body, body);
                assert_eq!(parts.footer, Area { y: 7 + height - 1, height: 1, ..screen });
            }
            let width = parts.body.width;
            let left = ((60 * width as u32 + 50) / 100) as u16;
            assert_eq!(parts.left, Area { width: left, ..parts.body });
            let right = Area { x: parts.body.x + left, width: width - left, ..parts.body };
            assert_eq!(parts.right, right);
            for part in [parts.header, parts.body, parts.footer] {
                assert_eq!((part.x, part.width), (screen.x, screen.width));
                assert!(screen.y <= part.y);
                assert!(part.y + part.height <= screen.y + screen.height);
            }
        }
    }
}

#[test]
fn a_screen_is_planned_for_what_it_shows() {
    let screen = Area { x: 0, y: 0, width: 100, height: 30 };
    let mut snap = Snapshot::default();
    let (parts, rows) = plan(&snap, screen);
    assert!(parts.crash.is_none());
    assert_eq!((parts.body.y, parts.body.height), (4, 25));
    assert!(rows.is_empty());
    snap.crash = Some(CrashInfo {
        signal: 11,
        fault_addr: 0,
        pc: 0,
        frames: vec!["f".to_string(), "g".to_string()],
    });
    snap.flame = Some(FlameView {
        total: 10,
        roots: vec![node("root", 10, vec![node("leaf", 5, vec![])])],
    });
    let (parts, rows) = plan(&snap, screen);
    assert_eq!(parts, divide(screen, crash_height(&snap.crash)));
    assert_eq!(parts.crash.unwrap().height, 6);
    assert_eq!((parts.body.y, parts.body.height), (10, 19));
    assert_eq!(rows.len(), flame_rows(&snap.flame, parts.body).len());
    assert_eq!(rows.len(), 2);
    assert_eq!((rows[0][0].x0, rows[0][0].x1), (0, 98));
}
