//! The events that the allocator hooks record, and the hooks' decisions: which allocator serves
//! a request, and what is recorded once it has been served.

use crate::bootstrap::in_arena;
use crate::bootstrap::ARENA_SIZE;
use crate::bootstrap::MIN_ALIGN;
use vstd::prelude::*;

verus! {

/// The shared-memory segment used when no other name is given.
pub const SHM_NAME: &'static str = "/profiler_ring";

/// How many events the shared ring holds.
pub const RING_CAPACITY: usize = 4096;

/// How many frames of a call stack an event carries at most.
pub const MAX_STACK_DEPTH: usize = 32;

/// The environment variable that names another shared-memory segment.
pub const SHM_NAME_ENV_VAR: &'static str = "SHERLOCK_PROFILER_SHM";

/// The shared-memory name to use, given what [`SHM_NAME_ENV_VAR`] holds, if it is set.
pub fn resolve_shm_name(from_env: Option<String>) -> (name: String)
    ensures
        name@ == match from_env {
            Some(given) => given@,
            None => SHM_NAME@,
        },
{
    match from_env {
        Some(given) => given,
        None => SHM_NAME.to_owned(),
    }
}

#[derive(Copy, Clone, Debug, PartialEq, Eq, Structural)]
pub enum EventKind {
    Malloc,
    Free,
    Calloc,
    Realloc,
    PosixMemalign,
    AlignedAlloc,
    Crash,
}

impl EventKind {
    /// The number that stands for this kind in a recorded event.
    pub open spec fn spec_code(self) -> u8 {
        match self {
            EventKind::Malloc => 0,
            EventKind::Free => 1,
            EventKind::Calloc => 2,
            EventKind::Realloc => 3,
            EventKind::PosixMemalign => 4,
            EventKind::AlignedAlloc => 5,
            EventKind::Crash => 6,
        }
    }

    #[verifier::when_used_as_spec(spec_code)]
    pub fn code(self) -> (code: u8)
        ensures
            code == self.spec_code(),
    {
        match self {
            EventKind::Malloc => 0,
            EventKind::Free => 1,
            EventKind::Calloc => 2,
            EventKind::Realloc => 3,
            EventKind::PosixMemalign => 4,
            EventKind::AlignedAlloc => 5,
            EventKind::Crash => 6,
        }
    }
}

/// One recorded event. For a crash, `ptr` is the faulting instruction, `old_ptr` the faulting
/// address, `size` the signal number, and the frames are the crash backtrace.
#[derive(Copy, Clone)]
pub struct AllocEvent {
    pub kind: u8,
    pub ptr: usize,
    pub old_ptr: usize,
    pub size: usize,
    pub align: usize,
    pub frames: [usize; MAX_STACK_DEPTH],
    pub frame_count: u8,
}

impl AllocEvent {
    /// The captured call stack, nearest caller first.
    pub open spec fn stack(self) -> Seq<usize> {
        self.frames@.take(self.frame_count as int)
    }
}

impl Default for AllocEvent {
    fn default() -> (event: Self)
        ensures
            event.kind == 0,
            event.ptr == 0,
            event.old_ptr == 0,
            event.size == 0,
            event.align == 0,
            event.frame_count == 0,
            forall|i: int| 0 <= i < MAX_STACK_DEPTH ==> event.frames@[i] == 0,
    {
        AllocEvent {
            kind: 0,
            ptr: 0,
            old_ptr: 0,
            size: 0,
            align: 0,
            frames: [0usize;32],
            frame_count: 0,
        }
    }
}

/// A call into one of the hooked allocator functions.
#[derive(Copy, Clone, Debug, PartialEq, Eq, Structural)]
pub enum Request {
    Malloc { size: usize },
    Free { ptr: usize },
    Calloc { nmemb: usize, size: usize },
    Realloc { ptr: usize, size: usize },
    PosixMemalign { alignment: usize, size: usize },
    AlignedAlloc { alignment: usize, size: usize },
}

/// Who serves a request.
#[derive(Copy, Clone, Debug, PartialEq, Eq, Structural)]
pub enum Route {
    /// Nothing is done and nothing is recorded.
    Ignore,
    /// Nothing can be done, but the call is recorded.
    RecordOnly,
    /// The real allocator.
    Real,
    /// The bootstrap arena, with the block cleared first if `zeroed`.
    Arena { size: usize, align: usize, zeroed: bool },
}

/// `nmemb * size`, held at the largest number if it does not fit.
pub open spec fn block_bytes(nmemb: usize, size: usize) -> usize {
    if nmemb * size > usize::MAX {
        usize::MAX
    } else {
        (nmemb * size) as usize
    }
}

/// Who serves `request`, given whether the real allocator function has been found and where the
/// arena lies. Memory that came from the arena never reaches the real allocator.
pub open spec fn route_of(request: Request, real_known: bool, arena_base: usize) -> Route {
    match request {
        Request::Free { ptr } => if ptr == 0 || in_arena(arena_base, ptr) {
            Route::Ignore
        } else if real_known {
            Route::Real
        } else {
            Route::RecordOnly
        },
        Request::Malloc { size } => if real_known {
            Route::Real
        } else {
            Route::Arena { size, align: MIN_ALIGN, zeroed: false }
        },
        Request::Calloc { nmemb, size } => if real_known {
            Route::Real
        } else {
            Route::Arena { size: block_bytes(nmemb, size), align: MIN_ALIGN, zeroed: true }
        },
        Request::Realloc { ptr, size } => if real_known && !(ptr != 0 && in_arena(
            arena_base,
            ptr,
        )) {
            Route::Real
        } else {
            Route::Arena { size, align: MIN_ALIGN, zeroed: true }
        },
        Request::PosixMemalign { alignment, size } => if real_known {
            Route::Real
        } else {
            Route::Arena { size, align: alignment, zeroed: false }
        },
        Request::AlignedAlloc { alignment, size } => if real_known {
            Route::Real
        } else {
            Route::Arena { size, align: alignment, zeroed: false }
        },
    }
}

fn total_bytes(nmemb: usize, size: usize) -> (total: usize)
    ensures
        total == block_bytes(nmemb, size),
{
    match nmemb.checked_mul(size) {
        Some(total) => total,
        None => usize::MAX,
    }
}

/// Decides who serves `request`.
pub fn route(request: Request, real_known: bool, arena_base: usize) -> (route: Route)
    requires
        arena_base + ARENA_SIZE <= usize::MAX,
    ensures
        route == route_of(request, real_known, arena_base),
{
    match request {
        Request::Free { ptr } => {
            if ptr == 0 || crate::bootstrap::is_bootstrap_ptr(arena_base, ptr) {
                Route::Ignore
            } else if real_known {
                Route::Real
            } else {
                Route::RecordOnly
            }
        },
        Request::Realloc { ptr, size } => {
            if !real_known || (ptr != 0 && crate::bootstrap::is_bootstrap_ptr(arena_base, ptr)) {
                Route::Arena { size, align: MIN_ALIGN, zeroed: true }
            } else {
                Route::Real
            }
        },
        _ if real_known => Route::Real,
        Request::Malloc { size } => Route::Arena { size, align: MIN_ALIGN, zeroed: false },
        Request::Calloc { nmemb, size } => Route::Arena {
            size: total_bytes(nmemb, size),
            align: MIN_ALIGN,
            zeroed: true,
        },
        Request::PosixMemalign { alignment, size } => Route::Arena {
            size,
            align: alignment,
            zeroed: false,
        },
        Request::AlignedAlloc { alignment, size } => Route::Arena {
            size,
            align: alignment,
            zeroed: false,
        },
    }
}

/// The event that a served request leaves. `ptr` is the block that was handed out (unused for a
/// free), `status` what `posix_memalign` returned (unused for the others).
pub open spec fn event_of(
    request: Request,
    ptr: usize,
    status: i32,
    frames: [usize; MAX_STACK_DEPTH],
    frame_count: u8,
) -> Option<AllocEvent> {
    let event = |kind: EventKind, ptr: usize, old_ptr: usize, size: usize, align: usize|
        AllocEvent { kind: kind.spec_code(), ptr, old_ptr, size, align, frames, frame_count };
    match request {
        Request::Malloc { size } => Some(event(EventKind::Malloc, ptr, 0, size, 0)),
        Request::Free { ptr: freed } => Some(event(EventKind::Free, freed, 0, 0, 0)),
        Request::Calloc { nmemb, size } => Some(
            event(EventKind::Calloc, ptr, 0, block_bytes(nmemb, size), 0),
        ),
        Request::Realloc { ptr: old, size } => Some(event(EventKind::Realloc, ptr, old, size, 0)),
        Request::PosixMemalign { alignment, size } => if status == 0 {
            Some(event(EventKind::PosixMemalign, ptr, 0, size, alignment))
        } else {
            None
        },
        Request::AlignedAlloc { alignment, size } => Some(
            event(EventKind::AlignedAlloc, ptr, 0, size, alignment),
        ),
    }
}

/// The event to record for a request that was served with `ptr` and `status`.
pub fn served(
    request: Request,
    ptr: usize,
    status: i32,
    frames: [usize; MAX_STACK_DEPTH],
    frame_count: u8,
) -> (event: Option<AllocEvent>)
    ensures
        event == event_of(request, ptr, status, frames, frame_count),
{
    let (kind, at, old_ptr, size, align): (EventKind, usize, usize, usize, usize) = match request {
        Request::Malloc { size } => (EventKind::Malloc, ptr, 0, size, 0),
        Request::Free { ptr: freed } => (EventKind::Free, freed, 0, 0, 0),
        Request::Calloc { nmemb, size } => {
            (EventKind::Calloc, ptr, 0, total_bytes(nmemb, size), 0)
        },
        Request::Realloc { ptr: old, size } => (EventKind::Realloc, ptr, old, size, 0),
        Request::PosixMemalign { alignment, size } => {
            if status != 0 {
                return None;
            }
            (EventKind::PosixMemalign, ptr, 0, size, alignment)
        },
        Request::AlignedAlloc { alignment, size } => {
            (EventKind::AlignedAlloc, ptr, 0, size, alignment)
        },
    };
    Some(AllocEvent { kind: kind.code(), ptr: at, old_ptr, size, align, frames, frame_count })
}

/// The event for a crash.
pub open spec fn crash_of(
    signal: i32,
    pc: usize,
    fault_addr: usize,
    frames: [usize; MAX_STACK_DEPTH],
    frame_count: u8,
) -> AllocEvent {
    AllocEvent {
        kind: EventKind::Crash.spec_code(),
        ptr: pc,
        old_ptr: fault_addr,
        size: signal as usize,
        align: 0,
        frames,
        frame_count,
    }
}

/// The event that a fatal signal leaves: where the program stood, what it touched, and how it
/// got there.
pub fn crash_event(
    signal: i32,
    pc: usize,
    fault_addr: usize,
    frames: [usize; MAX_STACK_DEPTH],
    frame_count: u8,
) -> (event: AllocEvent)
    ensures
        event == crash_of(signal, pc, fault_addr, frames, frame_count),
        event.kind == EventKind::Crash.spec_code(),
        event.ptr == pc,
        event.old_ptr == fault_addr,
        event.size == signal as usize,
        event.align == 0,
        event.frames == frames,
        event.frame_count == frame_count,
{
    AllocEvent {
        kind: EventKind::Crash.code(),
        ptr: pc,
        old_ptr: fault_addr,
        size: signal as usize,
        align: 0,
        frames,
        frame_count,
    }
}

/// What the handler of a fatal signal does.
#[derive(Copy, Clone, Debug, PartialEq, Eq, Structural)]
pub enum SignalStep {
    /// The profiler itself touched bad memory on a stack walk: resume behind the walk.
    ResumeWalk,
    /// A signal came while one was being handled: leave it to the default action.
    GiveUp,
    /// The target crashed: record it, then leave the signal to the default action.
    RecordCrash,
}

/// What to do on a fatal signal, given whether a guarded stack walk is under way and whether a
/// signal is already being handled.
pub fn on_fatal_signal(walking: bool, handling: bool) -> (step: SignalStep)
    ensures
        step == if walking {
            SignalStep::ResumeWalk
        } else if handling {
            SignalStep::GiveUp
        } else {
            SignalStep::RecordCrash
        },
{
    if walking {
        SignalStep::ResumeWalk
    } else if handling {
        SignalStep::GiveUp
    } else {
        SignalStep::RecordCrash
    }
}

/// Memory from the arena is never handed to the real allocator: neither freed nor resized by it.
pub proof fn law_arena_memory_stays_in_the_arena(ptr: usize, size: usize, arena_base: usize, real_known: bool)
    requires
        in_arena(arena_base, ptr),
        ptr != 0,
    ensures
        route_of(Request::Free { ptr }, real_known, arena_base) == Route::Ignore,
        route_of(Request::Realloc { ptr, size }, real_known, arena_base) == (Route::Arena {
            size,
            align: MIN_ALIGN,
            zeroed: true,
        }),
{
}

} // verus!
