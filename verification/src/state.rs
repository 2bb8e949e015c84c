//! What the draining side and the user interface share: the [`Snapshot`]s that are published,
//! and the [`Controls`] that the keys set.

use crate::tracker::CrashInfo;
use crate::tracker::DisplayEvent;
use vstd::prelude::*;

verus! {

/// The largest selection: the oldest event of a full list.
pub const MAX_SELECT: isize = 199;

/// The length of a heat tick, in milliseconds.
pub const HEAT_TICK_MS: u64 = 250;

#[derive(Clone, Copy, Debug, PartialEq, Eq, Structural)]
pub enum ViewMode {
    Live,
    Flame,
    Heatmap,
    Leaks,
}

impl ViewMode {
    pub open spec fn spec_from_u8(v: u8) -> Self {
        if v == 1 {
            ViewMode::Flame
        } else if v == 2 {
            ViewMode::Heatmap
        } else if v == 3 {
            ViewMode::Leaks
        } else {
            ViewMode::Live
        }
    }

    pub open spec fn spec_as_u8(self) -> u8 {
        match self {
            ViewMode::Live => 0,
            ViewMode::Flame => 1,
            ViewMode::Heatmap => 2,
            ViewMode::Leaks => 3,
        }
    }

    pub open spec fn spec_next(self) -> Self {
        match self {
            ViewMode::Live => ViewMode::Flame,
            ViewMode::Flame => ViewMode::Heatmap,
            ViewMode::Heatmap => ViewMode::Leaks,
            ViewMode::Leaks => ViewMode::Live,
        }
    }

    #[verifier::when_used_as_spec(spec_from_u8)]
    pub fn from_u8(v: u8) -> (mode: Self)
        ensures
            mode == Self::spec_from_u8(v),
    {
        match v {
            1 => ViewMode::Flame,
            2 => ViewMode::Heatmap,
            3 => ViewMode::Leaks,
            _ => ViewMode::Live,
        }
    }

    #[verifier::when_used_as_spec(spec_as_u8)]
    pub fn as_u8(self) -> (v: u8)
        ensures
            v == self.spec_as_u8(),
    {
        match self {
            ViewMode::Live => 0,
            ViewMode::Flame => 1,
            ViewMode::Heatmap => 2,
            ViewMode::Leaks => 3,
        }
    }

    #[verifier::when_used_as_spec(spec_next)]
    pub fn next(self) -> (mode: Self)
        ensures
            mode == self.spec_next(),
    {
        Self::from_u8((self.as_u8() + 1) % 4)
    }
}

/// A mode survives being stored as a number.
pub proof fn law_mode_round_trip(mode: ViewMode)
    ensures
        ViewMode::from_u8(mode.as_u8()) == mode,
        mode.as_u8() < 4,
{
}

/// Stepping from view to view comes back after four steps, and not before.
pub proof fn law_views_cycle(mode: ViewMode)
    ensures
        mode.next().next().next().next() == mode,
        mode.next() != mode,
        mode.next().next() != mode,
        mode.next().next().next() != mode,
{
}

/// What the user has asked for.
#[derive(Clone, Copy, Debug, PartialEq, Eq, Structural)]
pub struct Controls {
    pub quit: bool,
    pub paused: bool,
    /// The selected event, counted from the newest; -1 for none.
    pub selected: isize,
    pub show_help: bool,
    /// The view, as [`ViewMode::as_u8`] gives it.
    pub view: u8,
}

impl Controls {
    pub fn new() -> (controls: Self)
        ensures
            controls == (Controls {
                quit: false,
                paused: false,
                selected: -1isize,
                show_help: false,
                view: 0,
            }),
            controls.wf(),
    {
        Controls { quit: false, paused: false, selected: -1, show_help: false, view: 0 }
    }

    /// The selection names an event of the list, or none.
    pub open spec fn wf(self) -> bool {
        -1 <= self.selected <= MAX_SELECT
    }
}

#[derive(Clone, Copy, Debug, PartialEq, Eq, Structural)]
pub enum KeyCode {
    Char(char),
    Up,
    Down,
    Esc,
    Tab,
    Other,
}

#[derive(Clone, Copy, Debug, PartialEq, Eq, Structural)]
pub struct KeyPress {
    pub code: KeyCode,
    /// Whether the control key was held.
    pub control: bool,
}

/// The controls after `key` was pressed.
pub open spec fn after_key(key: KeyPress, controls: Controls) -> Controls {
    let up = if controls.selected + 1 <= MAX_SELECT {
        (controls.selected + 1) as isize
    } else {
        MAX_SELECT
    };
    let down = if controls.selected - 1 >= -1 {
        (controls.selected - 1) as isize
    } else {
        -1isize
    };
    match key.code {
        KeyCode::Char(c) => {
            if c == 'q' || (c == 'c' && key.control) {
                Controls { quit: true, ..controls }
            } else if c == ' ' {
                Controls { paused: !controls.paused, ..controls }
            } else if c == '?' || c == 'h' {
                Controls { show_help: !controls.show_help, ..controls }
            } else if c == 'k' {
                Controls { selected: up, ..controls }
            } else if c == 'j' {
                Controls { selected: down, ..controls }
            } else if c == '1' {
                Controls { view: ViewMode::Live.as_u8(), ..controls }
            } else if c == '2' {
                Controls { view: ViewMode::Flame.as_u8(), ..controls }
            } else if c == '3' {
                Controls { view: ViewMode::Heatmap.as_u8(), ..controls }
            } else if c == '4' {
                Controls { view: ViewMode::Leaks.as_u8(), ..controls }
            } else {
                controls
            }
        },
        KeyCode::Up => Controls { selected: up, ..controls },
        KeyCode::Down => Controls { selected: down, ..controls },
        KeyCode::Esc => Controls { selected: -1isize, ..controls },
        KeyCode::Tab => Controls {
            view: ViewMode::from_u8(controls.view).next().as_u8(),
            ..controls
        },
        KeyCode::Other => controls,
    }
}

/// Does what `key` asks for.
pub fn handle_key(key: KeyPress, controls: &mut Controls)
    requires
        isize::MIN < old(controls).selected < isize::MAX,
    ensures
        *final(controls) == after_key(key, *old(controls)),
{
    let v: isize = controls.selected;
    match key.code {
        KeyCode::Char('q') => {
            controls.quit = true;
        },
        KeyCode::Char('c') if key.control => {
            controls.quit = true;
        },
        KeyCode::Char(' ') => {
            controls.paused = !controls.paused;
        },
        KeyCode::Char('?') | KeyCode::Char('h') => {
            controls.show_help = !controls.show_help;
        },
        KeyCode::Up | KeyCode::Char('k') => {
            controls.selected = if v + 1 < MAX_SELECT {
                v + 1
            } else {
                MAX_SELECT
            };
        },
        KeyCode::Down | KeyCode::Char('j') => {
            controls.selected = if v - 1 > -1 {
                v - 1
            } else {
                -1
            };
        },
        KeyCode::Esc => {
            controls.selected = -1;
        },
        KeyCode::Char('1') => {
            controls.view = ViewMode::Live.as_u8();
        },
        KeyCode::Char('2') => {
            controls.view = ViewMode::Flame.as_u8();
        },
        KeyCode::Char('3') => {
            controls.view = ViewMode::Heatmap.as_u8();
        },
        KeyCode::Char('4') => {
            controls.view = ViewMode::Leaks.as_u8();
        },
        KeyCode::Tab => {
            controls.view = ViewMode::from_u8(controls.view).next().as_u8();
        },
        _ => {},
    }
}

/// No key moves the selection out of the list.
pub proof fn law_selection_stays_in_the_list(key: KeyPress, controls: Controls)
    requires
        controls.wf(),
    ensures
        after_key(key, controls).wf(),
{
}

/// Once asked to quit, no key takes it back.
pub proof fn law_quit_is_final(key: KeyPress, controls: Controls)
    requires
        controls.quit,
    ensures
        after_key(key, controls).quit,
{
}

/// Pressing a switch twice leaves everything as it was.
pub proof fn law_switches_toggle(key: KeyPress, controls: Controls)
    requires
        key.code == KeyCode::Char(' ') || key.code == KeyCode::Char('?') || key.code
            == KeyCode::Char('h'),
    ensures
        after_key(key, after_key(key, controls)) == controls,
        after_key(key, controls) != controls,
{
}

/// The event whose call stack is shown, and that stack.
pub struct SelectedView {
    pub header: String,
    pub stack: Vec<String>,
}

/// One box of the flame graph: what is live below one call path.
pub struct FlameNode {
    pub label: String,
    pub bytes: u64,
    pub children: Vec<FlameNode>,
}

pub struct FlameView {
    pub total: u64,
    pub roots: Vec<FlameNode>,
}

/// Bytes per call site (row) and tick (column, the oldest first).
pub struct HeatView {
    pub sites: Vec<String>,
    pub cells: Vec<Vec<u64>>,
    pub max: u64,
    pub buckets: usize,
}

pub struct LeakRow {
    pub site: String,
    pub bytes: u64,
    pub count: u64,
    /// The age of the oldest block, in ticks.
    pub oldest_age: u64,
}

pub struct LeakView {
    pub rows: Vec<LeakRow>,
    pub total_bytes: u64,
    pub total_count: u64,
    pub definite: bool,
    pub age_threshold: u64,
}

/// Everything that one frame of the user interface shows.
pub struct Snapshot {
    pub status: &'static str,
    pub active_count: usize,
    pub active_bytes: u64,
    pub peak_bytes: u64,
    pub total_allocated: u64,
    pub alloc_count: u64,
    pub free_count: u64,
    pub temporary_count: u64,
    pub heap_series: Vec<u64>,
    pub total_events: u64,
    pub dropped: u64,
    pub paused: bool,
    pub offender_depth: usize,
    pub view: ViewMode,
    pub recent: Vec<DisplayEvent>,
    pub offenders: Vec<(String, u64)>,
    pub crash: Option<CrashInfo>,
    pub selected: Option<usize>,
    pub selected_view: Option<SelectedView>,
    pub flame: Option<FlameView>,
    pub heatmap: Option<HeatView>,
    pub leaks: Option<LeakView>,
    pub show_help: bool,
    pub note: Option<String>,
}

impl Default for Snapshot {
    /// What is shown before the first snapshot has been published.
    fn default() -> (snap: Self)
        ensures
            snap.status@ == "connecting"@,
            snap.active_count == 0,
            snap.active_bytes == 0,
            snap.peak_bytes == 0,
            snap.total_allocated == 0,
            snap.alloc_count == 0,
            snap.free_count == 0,
            snap.temporary_count == 0,
            snap.heap_series@ == Seq::<u64>::empty(),
            snap.total_events == 0,
            snap.dropped == 0,
            !snap.paused,
            snap.offender_depth == 0,
            snap.view == ViewMode::Live,
            snap.recent@ == Seq::<DisplayEvent>::empty(),
            snap.offenders@ == Seq::<(String, u64)>::empty(),
            snap.crash is None,
            snap.selected is None,
            snap.selected_view is None,
            snap.flame is None,
            snap.heatmap is None,
            snap.leaks is None,
            !snap.show_help,
            snap.note is None,
    {
        Snapshot {
            status: "connecting",
            active_count: 0,
            active_bytes: 0,
            peak_bytes: 0,
            total_allocated: 0,
            alloc_count: 0,
            free_count: 0,
            temporary_count: 0,
            heap_series: Vec::new(),
            total_events: 0,
            dropped: 0,
            paused: false,
            offender_depth: 0,
            view: ViewMode::Live,
            recent: Vec::new(),
            offenders: Vec::new(),
            crash: None,
            selected: None,
            selected_view: None,
            flame: None,
            heatmap: None,
            leaks: None,
            show_help: false,
            note: None,
        }
    }
}

/// What the event kind `kind` is called.
pub open spec fn kind_text(kind: u8) -> Seq<char> {
    if kind == 0 {
        "malloc"@
    } else if kind == 1 {
        "free"@
    } else if kind == 2 {
        "calloc"@
    } else if kind == 3 {
        "realloc"@
    } else if kind == 4 {
        "posix_memalign"@
    } else if kind == 5 {
        "aligned_alloc"@
    } else if kind == 6 {
        "CRASH"@
    } else {
        "?"@
    }
}

pub fn kind_name(kind: u8) -> (name: &'static str)
    ensures
        name@ == kind_text(kind),
{
    match kind {
        0 => "malloc",
        1 => "free",
        2 => "calloc",
        3 => "realloc",
        4 => "posix_memalign",
        5 => "aligned_alloc",
        6 => "CRASH",
        _ => "?",
    }
}

/// What the signal `sig` is called.
pub open spec fn signal_text(sig: i32) -> Seq<char> {
    if sig == 4 {
        "SIGILL"@
    } else if sig == 6 {
        "SIGABRT"@
    } else if sig == 7 {
        "SIGBUS"@
    } else if sig == 8 {
        "SIGFPE"@
    } else if sig == 11 {
        "SIGSEGV"@
    } else {
        "signal"@
    }
}

pub fn signal_name(sig: i32) -> (name: &'static str)
    ensures
        name@ == signal_text(sig),
{
    match sig {
        4 => "SIGILL",
        6 => "SIGABRT",
        7 => "SIGBUS",
        8 => "SIGFPE",
        11 => "SIGSEGV",
        _ => "signal",
    }
}

} // verus!
