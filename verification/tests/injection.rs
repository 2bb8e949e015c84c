use sherlock::bootstrap::bootstrap_place;
use sherlock::bootstrap::is_bootstrap_ptr;
use sherlock::bootstrap::ARENA_SIZE;
use sherlock::injection::crash_event;
use sherlock::injection::on_fatal_signal;
use sherlock::injection::resolve_shm_name;
use sherlock::injection::route;
use sherlock::injection::served;
use sherlock::injection::AllocEvent;
use sherlock::injection::EventKind;
use sherlock::injection::Request;
use sherlock::injection::Route;
use sherlock::injection::SignalStep;
use sherlock::injection::MAX_STACK_DEPTH;
use sherlock::injection::SHM_NAME;

const BASE: usize = 0x10_0000;
const FRAMES: [usize; MAX_STACK_DEPTH] = [7; MAX_STACK_DEPTH];

#[test]
fn the_segment_name_can_be_overridden() {
    assert_eq!(resolve_shm_name(None), SHM_NAME);
    assert_eq!(resolve_shm_name(Some("/mine".to_string())), "/mine");
}

#[test]
fn the_default_event_is_all_zeros() {
    let e = AllocEvent::default();
    assert_eq!((e.kind, e.ptr, e.old_ptr, e.size, e.align, e.frame_count), (0, 0, 0, 0, 0, 0));
    assert!(e.frames.iter().all(|&f| f == 0));
}

#[test]
fn blocks_are_aligned_and_follow_each_other() {
    let (first, used) = bootstrap_place(BASE, 0, 10, 1).unwrap();
    assert_eq!((first, used), (BASE, 10));
    let (second, used) = bootstrap_place(BASE, used, 100, 64).unwrap();
    assert_eq!((second, used), (BASE + 64, 164));
    assert_eq!(bootstrap_place(BASE, used, ARENA_SIZE, 16), None);
    assert_eq!(
        bootstrap_place(BASE, 0, ARENA_SIZE, 16),
        Some((BASE, ARENA_SIZE))
    );
    assert_eq!(bootstrap_place(BASE, ARENA_SIZE, 1, 16), None);
}

#[test]
fn the_arena_has_sharp_edges() {
    assert!(!is_bootstrap_ptr(BASE, BASE - 1));
    assert!(is_bootstrap_ptr(BASE, BASE));
    assert!(is_bootstrap_ptr(BASE, BASE + ARENA_SIZE - 1));
    assert!(!is_bootstrap_ptr(BASE, BASE + ARENA_SIZE));
}

#[test]
fn requests_go_to_the_right_allocator() {
    let arena = |size, align, zeroed| Route::Arena { size, align, zeroed };
    assert_eq!(route(Request::Malloc { size: 8 }, true, BASE), Route::Real);
    assert_eq!(route(Request::Malloc { size: 8 }, false, BASE), arena(8, 16, false));
    assert_eq!(
        route(Request::Calloc { nmemb: 3, size: 8 }, false, BASE),
        arena(24, 16, true)
    );
    assert_eq!(
        route(Request::Calloc { nmemb: usize::MAX, size: 2 }, false, BASE),
        arena(usize::MAX, 16, true)
    );
    assert_eq!(route(Request::Free { ptr: 0 }, true, BASE), Route::Ignore);
    assert_eq!(route(Request::Free { ptr: BASE + 5 }, true, BASE), Route::Ignore);
    assert_eq!(route(Request::Free { ptr: 5 }, true, BASE), Route::Real);
    assert_eq!(route(Request::Free { ptr: 5 }, false, BASE), Route::RecordOnly);
    assert_eq!(
        route(Request::Realloc { ptr: BASE, size: 9 }, true, BASE),
        arena(9, 16, true)
    );
    assert_eq!(route(Request::Realloc { ptr: 0, size: 9 }, true, BASE), Route::Real);
    assert_eq!(
        route(Request::PosixMemalign { alignment: 64, size: 9 }, false, BASE),
        arena(9, 64, false)
    );
    assert_eq!(
        route(Request::AlignedAlloc { alignment: 32, size: 9 }, false, BASE),
        arena(9, 32, false)
    );
}

#[test]
fn served_requests_leave_their_event() {
    let e = served(Request::Realloc { ptr: 4, size: 9 }, 8, 0, FRAMES, 2).unwrap();
    assert_eq!((e.kind, e.ptr, e.old_ptr, e.size, e.frame_count), (3, 8, 4, 9, 2));
    let e = served(Request::Calloc { nmemb: 3, size: 5 }, 8, 0, FRAMES, 2).unwrap();
    assert_eq!((e.kind, e.size), (EventKind::Calloc.code(), 15));
    let e = served(Request::Free { ptr: 6 }, 0, 0, FRAMES, 1).unwrap();
    assert_eq!((e.kind, e.ptr, e.size), (1, 6, 0));
    let memalign = Request::PosixMemalign { alignment: 64, size: 9 };
    let e = served(memalign, 128, 0, FRAMES, 1).unwrap();
    assert_eq!((e.kind, e.ptr, e.align), (4, 128, 64));
    assert!(served(memalign, 128, 12, FRAMES, 1).is_none());
    let e = served(Request::AlignedAlloc { alignment: 32, size: 9 }, 64, 0, FRAMES, 1).unwrap();
    assert_eq!((e.kind, e.align), (5, 32));
    let e = served(Request::Malloc { size: 3 }, 64, 0, FRAMES, 1).unwrap();
    assert_eq!((e.kind, e.size, e.frames), (0, 3, FRAMES));
}

#[test]
fn a_crash_leaves_its_event() {
    let e = crash_event(11, 0xF00, 0xBAD, FRAMES, 3);
    assert_eq!((e.kind, e.ptr, e.old_ptr, e.size, e.frame_count), (6, 0xF00, 0xBAD, 11, 3));
}

#[test]
fn a_fault_on_a_walk_is_no_crash() {
    assert_eq!(on_fatal_signal(true, false), SignalStep::ResumeWalk);
    assert_eq!(on_fatal_signal(true, true), SignalStep::ResumeWalk);
    assert_eq!(on_fatal_signal(false, true), SignalStep::GiveUp);
    assert_eq!(on_fatal_signal(false, false), SignalStep::RecordCrash);
}

#[test]
fn a_refused_block_changes_nothing() {
    let asks = [(10, 0), (ARENA_SIZE, 16), (100, 4096), (1, usize::MAX / 2 + 1), (7, 32)];
    let mut used = 0;
    let mut blocks: Vec<(usize, usize)> = Vec::new();
    for (size, align) in asks {
        if let Some((start, taken)) = bootstrap_place(BASE, used, size, align) {
            assert_eq!(start % align.max(16), 0);
            assert!(start + size <= BASE + ARENA_SIZE);
            assert!(blocks.iter().all(|(at, len)| at + len <= start));
            blocks.push((start, size));
            used = taken;
        }
    }
    assert_eq!(blocks.len(), 3);
    assert_eq!(blocks[2].0, (BASE + 4096 + 100 + 31) / 32 * 32);
    assert_eq!(bootstrap_place(usize::MAX, 1, 1, 16), None);
    assert_eq!(bootstrap_place(BASE, 0, usize::MAX, 16), None);
}
