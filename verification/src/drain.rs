//! The draining side of the analyzer: its command line, and the order in which it ticks, takes
//! events, publishes and rests.

use crate::state::HEAT_TICK_MS;
use crate::symbols::text_of;
use crate::symbols::texts;
use crate::text::decimal;
use crate::text::number;
use crate::text::parse_decimal;
use crate::text::push_decimal;
use crate::text::same_text;
use crate::tracker::Counts;
use vstd::prelude::*;
use vstd::string::StringExecFns;

verus! {

/// How old a live block must be to count as leaked, unless another age is asked for.
pub const DEFAULT_LEAK_AGE_SECS: u64 = 3;

/// The time between two snapshots, in milliseconds.
pub const PUBLISH_MS: u64 = 33;

/// How many events are taken at most before the controls are looked at again.
pub const BATCH: u32 = 50000;

/// What the command line asks for.
pub struct Args {
    pub binary: Option<String>,
    pub pid: Option<u32>,
    pub shm_name: Option<String>,
    pub offender_depth: usize,
    pub leak_age_secs: u64,
    pub export: Option<String>,
    /// The arguments that were not recognized.
    pub unrecognized: Vec<String>,
}

/// What [`Args`] hold.
#[verifier::ext_equal]
pub struct Asked {
    pub binary: Option<Seq<char>>,
    pub pid: Option<u32>,
    pub shm_name: Option<Seq<char>>,
    pub offender_depth: nat,
    pub leak_age_secs: nat,
    pub export: Option<Seq<char>>,
    pub unrecognized: Seq<Seq<char>>,
}

impl View for Args {
    type V = Asked;

    open spec fn view(&self) -> Asked {
        Asked {
            binary: text_of(self.binary),
            pid: self.pid,
            shm_name: text_of(self.shm_name),
            offender_depth: self.offender_depth as nat,
            leak_age_secs: self.leak_age_secs as nat,
            export: text_of(self.export),
            unrecognized: texts(self.unrecognized@),
        }
    }
}

/// What an empty command line asks for.
pub open spec fn nothing_asked() -> Asked {
    Asked {
        binary: None,
        pid: None,
        shm_name: None,
        offender_depth: 0,
        leak_age_secs: DEFAULT_LEAK_AGE_SECS as nat,
        export: None,
        unrecognized: Seq::empty(),
    }
}

/// The argument at place `i`, if there is one.
pub open spec fn argument(args: Seq<Seq<char>>, i: int) -> Option<Seq<char>> {
    if i < args.len() {
        Some(args[i])
    } else {
        None
    }
}

/// The number that an argument gives; `None` if it is missing or no number of at most `max`.
pub open spec fn number_in(arg: Option<Seq<char>>, max: nat) -> Option<nat> {
    match arg {
        Some(text) => number(text, 10, max),
        None => None,
    }
}

/// What the arguments from place `i` on ask for, given what was asked for before them. A flag
/// takes the argument after it; the last flag of a kind counts.
pub open spec fn asked_from(args: Seq<Seq<char>>, i: int, so_far: Asked) -> Asked
    decreases args.len() + 1 - i,
{
    if i < 0 || i >= args.len() {
        so_far
    } else {
        let flag = args[i];
        let value = argument(args, i + 1);
        if flag == "--binary"@ {
            asked_from(args, i + 2, Asked { binary: value, ..so_far })
        } else if flag == "--pid"@ {
            let pid = match number_in(value, u32::MAX as nat) {
                Some(n) => Some(n as u32),
                None => None,
            };
            asked_from(args, i + 2, Asked { pid, ..so_far })
        } else if flag == "--shm-name"@ {
            asked_from(args, i + 2, Asked { shm_name: value, ..so_far })
        } else if flag == "--offender-depth"@ {
            let offender_depth = match number_in(value, usize::MAX as nat) {
                Some(n) => n,
                None => 0,
            };
            asked_from(args, i + 2, Asked { offender_depth, ..so_far })
        } else if flag == "--leak-age"@ {
            let leak_age_secs = match number_in(value, u64::MAX as nat) {
                Some(n) => n,
                None => DEFAULT_LEAK_AGE_SECS as nat,
            };
            asked_from(args, i + 2, Asked { leak_age_secs, ..so_far })
        } else if flag == "--export"@ {
            asked_from(args, i + 2, Asked { export: value, ..so_far })
        } else {
            asked_from(
                args,
                i + 1,
                Asked { unrecognized: so_far.unrecognized.push(flag), ..so_far },
            )
        }
    }
}

fn value_at(args: &Vec<String>, i: usize) -> (value: Option<String>)
    requires
        i <= args.len(),
    ensures
        text_of(value) == argument(texts(args@), i as int),
{
    if i < args.len() {
        Some(args[i].clone())
    } else {
        None
    }
}

fn number_at(args: &Vec<String>, i: usize, max: u64) -> (n: Option<u64>)
    requires
        i <= args.len(),
    ensures
        match n {
            Some(v) => number_in(argument(texts(args@), i as int), max as nat) == Some(v as nat),
            None => number_in(argument(texts(args@), i as int), max as nat) is None,
        },
{
    if i < args.len() {
        parse_decimal(args[i].as_str(), max)
    } else {
        None
    }
}

/// Reads the command line (without the name of the program).
pub fn parse_args(args: &Vec<String>) -> (asked: Args)
    ensures
        asked@ == asked_from(texts(args@), 0, nothing_asked()),
{
    let mut asked = Args {
        binary: None,
        pid: None,
        shm_name: None,
        offender_depth: 0,
        leak_age_secs: DEFAULT_LEAK_AGE_SECS,
        export: None,
        unrecognized: Vec::new(),
    };
    assert(asked@ =~= nothing_asked());
    let ghost list = texts(args@);
    let mut i: usize = 0;
    while i < args.len()
        invariant
            i <= args.len(),
            list == texts(args@),
            asked_from(list, i as int, asked@) == asked_from(list, 0, nothing_asked()),
        decreases args.len() - i,
    {
        let flag = args[i].as_str();
        let ghost before = asked@;
        let ghost place = i as int;
        assert(list[place] == flag@);
        let ghost value = argument(list, place + 1);
        let mut takes_value = true;
        if same_text(flag, "--binary") {
            asked.binary = value_at(args, i + 1);
            assert(asked@ =~= (Asked { binary: value, ..before }));
        } else if same_text(flag, "--pid") {
            asked.pid = match number_at(args, i + 1, u32::MAX as u64) {
                Some(n) => Some(n as u32),
                None => None,
            };
            assert(asked@ =~= (Asked { pid: asked.pid, ..before }));
        } else if same_text(flag, "--shm-name") {
            asked.shm_name = value_at(args, i + 1);
            assert(asked@ =~= (Asked { shm_name: value, ..before }));
        } else if same_text(flag, "--offender-depth") {
            asked.offender_depth = match number_at(args, i + 1, usize::MAX as u64) {
                Some(n) => n as usize,
                None => 0,
            };
            assert(asked@ =~= (Asked { offender_depth: asked@.offender_depth, ..before }));
        } else if same_text(flag, "--leak-age") {
            asked.leak_age_secs = match number_at(args, i + 1, u64::MAX) {
                Some(n) => n,
                None => DEFAULT_LEAK_AGE_SECS,
            };
            assert(asked@ =~= (Asked { leak_age_secs: asked@.leak_age_secs, ..before }));
        } else if same_text(flag, "--export") {
            asked.export = value_at(args, i + 1);
            assert(asked@ =~= (Asked { export: value, ..before }));
        } else {
            takes_value = false;
            asked.unrecognized.push(args[i].clone());
            assert(texts(asked.unrecognized@) =~= before.unrecognized.push(flag@));
            assert(asked@ =~= (Asked {
                unrecognized: before.unrecognized.push(flag@),
                ..before
            }));
        }
        proof {
            let after = if takes_value {
                place + 2
            } else {
                place + 1
            };
            assert(asked_from(list, place, before) == asked_from(list, after, asked@));
            if after >= list.len() {
                assert(asked_from(list, after, asked@) == asked@);
            }
        }
        i = if takes_value && i + 1 < args.len() {
            i + 2
        } else {
            i + 1
        };
    }
    asked
}

/// A time in seconds as a number of ticks: at least one.
pub open spec fn ticks_in(secs: nat) -> nat {
    if secs * 1000 / HEAT_TICK_MS as nat >= 1 {
        secs * 1000 / HEAT_TICK_MS as nat
    } else {
        1
    }
}

pub fn secs_to_ticks(secs: u64) -> (ticks: u64)
    requires
        secs * 1000 <= u64::MAX,
    ensures
        ticks == ticks_in(secs as nat),
{
    let ticks: u64 = secs * 1000 / HEAT_TICK_MS;
    if ticks >= 1 {
        ticks
    } else {
        1
    }
}

/// What is said about symbols in the header: nothing if they are there.
pub open spec fn note_text(attached: bool, failure: Option<Seq<char>>) -> Option<Seq<char>> {
    if !attached {
        Some("running without symbols (raw addresses)"@)
    } else {
        match failure {
            Some(error) => Some("symbols unavailable: "@ + error),
            None => None,
        }
    }
}

/// The note for the header. `attached` tells whether both a binary and a process were given,
/// `failure` what went wrong with finding its mappings.
pub fn symbols_note(attached: bool, failure: Option<String>) -> (note: Option<String>)
    ensures
        text_of(note) == note_text(attached, text_of(failure)),
{
    if !attached {
        return Some("running without symbols (raw addresses)".to_owned());
    }
    match failure {
        Some(error) => {
            let mut note = "symbols unavailable: ".to_owned();
            note.append(error.as_str());
            Some(note)
        },
        None => None,
    }
}

/// What the draining loop has to do next.
#[derive(Clone, Copy, Debug, PartialEq, Eq, Structural)]
pub enum Action {
    /// Look at the controls and the clock.
    Look,
    /// End a heat tick.
    Tick,
    /// Take an event from the ring, if there is one.
    Pop,
    /// Look at the clock.
    Check,
    /// Publish a snapshot.
    Publish,
    /// Sleep for a moment.
    Rest,
    /// Leave the loop.
    Finish,
}

/// What came of an [`Action`]. Times are in milliseconds since some moment in the past.
#[derive(Clone, Copy, Debug, PartialEq, Eq, Structural)]
pub enum Event {
    Looked { quit: bool, paused: bool, now: u64 },
    Ticked { now: u64 },
    Popped { found: bool },
    Checked { now: u64 },
    Published { now: u64 },
    Rested,
}

/// Where the draining loop stands.
#[derive(Clone, Copy, Debug, PartialEq, Eq, Structural)]
pub struct DrainLoop {
    pub last_heat: u64,
    /// `None` before the first snapshot.
    pub last_publish: Option<u64>,
    pub paused: bool,
    /// How many events were taken since the controls were last looked at.
    pub drained: u32,
}

/// The time from `since` to `now`; none, if the clock went back.
pub open spec fn elapsed(since: u64, now: u64) -> int {
    if now >= since {
        now - since
    } else {
        0
    }
}

pub open spec fn publish_due(state: DrainLoop, now: u64) -> bool {
    match state.last_publish {
        Some(last) => elapsed(last, now) >= PUBLISH_MS,
        None => true,
    }
}

/// What comes after a tick, or after none was due: events, unless draining is paused.
pub open spec fn after_tick(state: DrainLoop) -> Action {
    if state.paused {
        Action::Check
    } else {
        Action::Pop
    }
}

/// What comes after a snapshot, or after none was due: a rest, if there was nothing to do.
pub open spec fn after_publish(state: DrainLoop) -> Action {
    if state.drained == 0 {
        Action::Rest
    } else {
        Action::Look
    }
}

/// The state after `event`, and what to do next.
pub open spec fn drain_step(state: DrainLoop, event: Event) -> (DrainLoop, Action) {
    match event {
        Event::Looked { quit, paused, now } => {
            let next = DrainLoop { paused, drained: 0, ..state };
            if quit {
                (state, Action::Finish)
            } else if elapsed(state.last_heat, now) >= HEAT_TICK_MS {
                (next, Action::Tick)
            } else {
                (next, after_tick(next))
            }
        },
        Event::Ticked { now } => {
            let next = DrainLoop { last_heat: now, ..state };
            (next, after_tick(next))
        },
        Event::Popped { found } => {
            let drained = if found && state.drained < BATCH {
                (state.drained + 1) as u32
            } else {
                state.drained
            };
            let next = DrainLoop { drained, ..state };
            if found && drained < BATCH {
                (next, after_tick(next))
            } else {
                (next, Action::Check)
            }
        },
        Event::Checked { now } => if publish_due(state, now) {
            (state, Action::Publish)
        } else {
            (state, after_publish(state))
        },
        Event::Published { now } => {
            let next = DrainLoop { last_publish: Some(now), ..state };
            (next, after_publish(next))
        },
        Event::Rested => (state, Action::Look),
    }
}

impl DrainLoop {
    /// A loop that starts now; its first action is [`Action::Look`].
    pub fn new(now: u64) -> (state: Self)
        ensures
            state == (DrainLoop { last_heat: now, last_publish: None, paused: false, drained: 0 }),
    {
        DrainLoop { last_heat: now, last_publish: None, paused: false, drained: 0 }
    }

    fn tick_done(&self) -> (action: Action)
        ensures
            action == after_tick(*self),
    {
        if self.paused {
            Action::Check
        } else {
            Action::Pop
        }
    }

    fn publish_done(&self) -> (action: Action)
        ensures
            action == after_publish(*self),
    {
        if self.drained == 0 {
            Action::Rest
        } else {
            Action::Look
        }
    }

    /// Takes note of `event` and says what to do next.
    pub fn step(&mut self, event: Event) -> (action: Action)
        ensures
            (*final(self), action) == drain_step(*old(self), event),
    {
        match event {
            Event::Looked { quit, paused, now } => {
                if quit {
                    return Action::Finish;
                }
                self.paused = paused;
                self.drained = 0;
                if now.saturating_sub(self.last_heat) >= HEAT_TICK_MS {
                    Action::Tick
                } else {
                    self.tick_done()
                }
            },
            Event::Ticked { now } => {
                self.last_heat = now;
                self.tick_done()
            },
            Event::Popped { found } => {
                if found && self.drained < BATCH {
                    self.drained = self.drained + 1;
                }
                if found && self.drained < BATCH {
                    self.tick_done()
                } else {
                    Action::Check
                }
            },
            Event::Checked { now } => {
                let due = match self.last_publish {
                    Some(last) => now.saturating_sub(last) >= PUBLISH_MS,
                    None => true,
                };
                if due {
                    Action::Publish
                } else {
                    self.publish_done()
                }
            },
            Event::Published { now } => {
                self.last_publish = Some(now);
                self.publish_done()
            },
            Event::Rested => Action::Look,
        }
    }
}

/// Nothing is taken from the ring while draining is paused.
pub proof fn law_pause_stops_draining(state: DrainLoop, event: Event)
    ensures
        ({
            let (next, action) = drain_step(state, event);
            next.paused ==> action != Action::Pop
        }),
{
}

/// A batch starts empty when the controls are looked at, counts every event that was found, and
/// is never longer than [`BATCH`]: no event is asked for once it is full. (A tick ends before the
/// first event of a batch.)
pub proof fn law_batches_are_bounded(state: DrainLoop, event: Event)
    requires
        state.drained <= BATCH,
        event is Ticked ==> state.drained == 0,
    ensures
        ({
            let (next, action) = drain_step(state, event);
            &&& next.drained <= BATCH
            &&& action == Action::Pop ==> next.drained < BATCH
            &&& action == Action::Tick ==> next.drained == 0
            &&& (event matches Event::Looked { quit, .. } && !quit) ==> next.drained == 0
            &&& (event == (Event::Popped { found: true }) && state.drained < BATCH) ==> next.drained
                == state.drained + 1
        }),
{
}

/// The loop rests only in a round in which it took no event.
pub proof fn law_busy_loop_does_not_rest(state: DrainLoop, event: Event)
    ensures
        ({
            let (next, action) = drain_step(state, event);
            action == Action::Rest ==> next.drained == 0
        }),
{
}

/// The loop ends when it is asked to, and only then.
pub proof fn law_loop_ends_on_quit(state: DrainLoop, event: Event)
    ensures
        drain_step(state, event).1 == Action::Finish <==> (event matches Event::Looked {
            quit,
            ..
        } && quit),
{
}

/// A tick is never shorter than [`HEAT_TICK_MS`], and snapshots are never closer together than
/// [`PUBLISH_MS`].
pub proof fn law_intervals_are_kept(state: DrainLoop, event: Event)
    ensures
        match drain_step(state, event).1 {
            Action::Tick => event matches Event::Looked { now, .. } && elapsed(state.last_heat, now)
                >= HEAT_TICK_MS,
            Action::Publish => event matches Event::Checked { now } && publish_due(state, now),
            _ => true,
        },
{
}

/// How many lines a text has.
pub open spec fn line_count(text: Seq<char>) -> nat
    decreases text.len(),
{
    if text.len() == 0 {
        0
    } else {
        let before = text.drop_last();
        line_count(before) + if before.len() == 0 || before.last() == '\n' {
            1nat
        } else {
            0nat
        }
    }
}

fn count_lines(text: &str) -> (n: u64)
    requires
        line_count(text@) <= u64::MAX,
    ensures
        n == line_count(text@),
{
    let mut n: u64 = 0;
    let mut at_start = true;
    for c in it: text.chars()
        invariant
            it.seq() == text@,
            n == line_count(text@.take(it.index())),
            at_start == (it.index() == 0 || text@[it.index() - 1] == '\n'),
            line_count(text@) <= u64::MAX,
            text@.take(text@.len() as int) == text@,
    {
        proof {
            let k = it.index();
            assert(text@.take(k + 1).drop_last() =~= text@.take(k));
            if k > 0 {
                assert(text@.take(k).last() == text@[k - 1]);
            }
            lemma_line_count_grows(text@, k + 1);
        }
        if at_start {
            n = n + 1;
        }
        at_start = c == '\n';
    }
    n
}

/// A part of a text has no more lines than all of it.
proof fn lemma_line_count_grows(text: Seq<char>, k: int)
    requires
        0 <= k <= text.len(),
    ensures
        line_count(text.take(k)) <= line_count(text),
    decreases text.len(),
{
    if k == text.len() {
        assert(text.take(k) =~= text);
    } else {
        lemma_line_count_grows(text.drop_last(), k);
        assert(text.drop_last().take(k) =~= text.take(k));
    }
}

/// What is said once the folded stacks have been written to `path`.
pub fn export_message(folded: &str, path: &str) -> (message: String)
    requires
        line_count(folded@) <= u64::MAX,
    ensures
        message@ == "analyzer: wrote "@ + decimal(line_count(folded@))
            + " live-allocation stacks to "@ + path@ + " (open with flamegraph.pl or speedscope)"@,
{
    let mut message = "analyzer: wrote ".to_owned();
    push_decimal(&mut message, count_lines(folded));
    message.append(" live-allocation stacks to ");
    message.append(path);
    message.append(" (open with flamegraph.pl or speedscope)");
    message
}

/// What is said at the end of a session.
pub fn exit_summary(counts: &Counts) -> (message: String)
    ensures
        message@ == "analyzer: peak live heap "@ + decimal(counts.peak_bytes as nat) + " B · "@
            + decimal(counts.alloc_count as nat) + " allocations · "@ + decimal(
            counts.active_count as nat,
        ) + " still live at exit"@,
{
    let mut message = "analyzer: peak live heap ".to_owned();
    push_decimal(&mut message, counts.peak_bytes);
    message.append(" B · ");
    push_decimal(&mut message, counts.alloc_count);
    message.append(" allocations · ");
    push_decimal(&mut message, counts.active_count as u64);
    message.append(" still live at exit");
    message
}

} // verus!
