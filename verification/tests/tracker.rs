use sherlock::injection::AllocEvent;
use sherlock::injection::MAX_STACK_DEPTH;
use sherlock::maps::Region;
use sherlock::resolver::Resolver;
use sherlock::symbols::RawFrame;
use sherlock::tracker::Tracker;

fn ev(kind: u8, ptr: usize, old_ptr: usize, size: usize, frames: &[usize]) -> AllocEvent {
    let mut f = [0usize; MAX_STACK_DEPTH];
    f[..frames.len()].copy_from_slice(frames);
    AllocEvent {
        kind,
        ptr,
        old_ptr,
        size,
        align: 0,
        frames: f,
        frame_count: frames.len() as u8,
    }
}

#[test]
fn malloc_then_free_balances_active_state() {
    let mut t = Tracker::default();
    let none = None;
    t.apply(ev(0, 0x10, 0, 100, &[0xAAAA]), &none);
    assert_eq!(t.active_count(), 1);
    assert_eq!(t.active_bytes, 100);
    t.apply(ev(1, 0x10, 0, 0, &[0xAAAA]), &none);
    assert_eq!(t.active_count(), 0);
    assert_eq!(t.active_bytes, 0);
}

#[test]
fn offenders_aggregate_by_top_frame() {
    let mut t = Tracker::default();
    let none = None;
    t.apply(ev(0, 0x10, 0, 100, &[0xAAAA]), &none);
    t.apply(ev(0, 0x20, 0, 50, &[0xAAAA]), &none);
    let top = t.top_offenders(10);
    assert_eq!(top.len(), 1);
    assert_eq!(top[0].1, 150);
}

#[test]
fn realloc_moves_bookkeeping_to_the_new_pointer() {
    let mut t = Tracker::default();
    let none = None;
    t.apply(ev(0, 0x10, 0, 100, &[0xAAAA]), &none);
    t.apply(ev(3, 0x30, 0x10, 200, &[0xAAAA]), &none);
    assert_eq!(t.active_count(), 1);
    assert_eq!(t.active_bytes, 200);
}

#[test]
fn stale_free_reconciles_a_reused_pointer() {
    let mut t = Tracker::default();
    let none = None;
    t.apply(ev(0, 0x10, 0, 100, &[0xAAAA]), &none);
    t.apply(ev(0, 0x10, 0, 70, &[0xAAAA]), &none);
    assert_eq!(t.active_count(), 1);
    assert_eq!(t.active_bytes, 70);
}

#[test]
fn crash_event_is_recorded_and_fully_decoded() {
    let mut t = Tracker::default();
    let none = None;
    t.apply(ev(6, 0xDEAD, 0x0, 11, &[0xBBBB, 0xCCCC]), &none);
    assert_eq!(t.active_count(), 0);
    let c = t.crash.expect("crash recorded");
    assert_eq!(c.signal, 11);
    assert_eq!(c.pc, 0xDEAD);
    assert_eq!(c.frames.len(), 2);
}

#[test]
fn offender_depth_aggregates_on_a_deeper_frame() {
    let mut t = Tracker::new(1);
    let none = None;
    t.apply(ev(0, 0x10, 0, 100, &[0xAAAA, 0xBBBB]), &none);
    t.apply(ev(0, 0x20, 0, 100, &[0xCCCC, 0xBBBB]), &none);
    let top = t.top_offenders(10);
    assert_eq!(top.len(), 1);
    assert_eq!(top[0].1, 200);
}

#[test]
fn flame_aggregates_active_bytes_by_call_path() {
    let mut t = Tracker::default();
    let none = None;
    t.apply(ev(0, 0x10, 0, 100, &[0xAAAA, 0xBBBB]), &none);
    t.apply(ev(0, 0x20, 0, 50, &[0xCCCC, 0xBBBB]), &none);

    let flame = t.build_flame(&none);
    assert_eq!(flame.total, 150);
    assert_eq!(flame.roots.len(), 1);
    assert_eq!(flame.roots[0].bytes, 150);
    assert_eq!(flame.roots[0].children.len(), 2);
}

#[test]
fn leaks_are_definite_after_exit_and_age_gated_while_running() {
    let mut t = Tracker::default();
    let none = None;
    t.apply(ev(0, 0x10, 0, 100, &[0xAAAA]), &none);
    t.apply(ev(0, 0x20, 0, 200, &[0xAAAA]), &none);

    let probable = t.build_leaks(1_000_000, false, 10);
    assert_eq!(probable.total_count, 0);
    assert!(probable.rows.is_empty());

    let definite = t.build_leaks(1_000_000, true, 10);
    assert!(definite.definite);
    assert_eq!(definite.total_bytes, 300);
    assert_eq!(definite.total_count, 2);
    assert_eq!(definite.rows.len(), 1);
    assert_eq!(definite.rows[0].bytes, 300);
}

#[test]
fn freeing_an_allocation_clears_it_from_leaks_and_flame() {
    let mut t = Tracker::default();
    let none = None;
    t.apply(ev(0, 0x10, 0, 100, &[0xAAAA]), &none);
    t.apply(ev(1, 0x10, 0, 0, &[0xAAAA]), &none);
    assert_eq!(t.build_leaks(0, true, 10).total_bytes, 0);
    assert_eq!(t.build_flame(&none).total, 0);
}

#[test]
fn tracks_peak_cumulative_and_churn() {
    let mut t = Tracker::default();
    let none = None;
    t.apply(ev(0, 0x10, 0, 100, &[0xAAAA]), &none);
    t.apply(ev(0, 0x20, 0, 50, &[0xAAAA]), &none);
    t.apply(ev(1, 0x10, 0, 0, &[0xAAAA]), &none);

    assert_eq!(t.active_bytes, 50);
    assert_eq!(t.peak_bytes, 150);
    assert_eq!(t.total_allocated, 150);
    assert_eq!(t.alloc_count, 2);
    assert_eq!(t.free_count, 1);
    assert_eq!(t.temporary_count, 1);

    t.heat_tick();
    assert_eq!(t.heap_series(), vec![50]);
}

#[test]
fn folded_stacks_are_outermost_first_and_aggregated() {
    let mut t = Tracker::default();
    let none = None;
    t.apply(ev(0, 0x10, 0, 100, &[0xAAAA, 0xBBBB]), &none);
    t.apply(ev(0, 0x20, 0, 40, &[0xAAAA, 0xBBBB]), &none);

    let folded = t.folded_stacks(&none);
    assert_eq!(folded.trim(), "0xbbbb;0xaaaa 140");
}

#[test]
fn heat_records_activity_per_site() {
    let mut t = Tracker::default();
    let none = None;
    t.apply(ev(0, 0x10, 0, 100, &[0xAAAA]), &none);
    t.apply(ev(0, 0x20, 0, 25, &[0xAAAA]), &none);

    let heat = t.build_heat(10);
    assert_eq!(heat.sites.len(), 1);
    let row_total: u64 = heat.cells[0].iter().sum();
    assert_eq!(row_total, 125);
    assert_eq!(heat.max, 125);
}

fn named_resolver() -> Option<Resolver> {
    let mut r = Resolver::from_regions(vec![Region {
        start: 0x1000,
        end: 0x9000,
        path: "/bin/app".to_string(),
    }]);
    r.file_loaded("/bin/app", Some(0x1000));
    for (addr, names) in [
        (0x1100usize, vec!["inner", "outer;x"]),
        (0x1200, vec!["main"]),
    ] {
        let frames = names
            .iter()
            .map(|n| RawFrame {
                name: Some(n.to_string()),
                language: Some(2),
                file: None,
                line: None,
            })
            .collect();
        r.answer(addr, frames, None);
    }
    Some(r)
}

#[test]
fn names_come_from_the_resolver_and_are_remembered() {
    let mut t = Tracker::default();
    let resolver = named_resolver();
    t.apply(ev(0, 0x10, 0, 8, &[0x1100, 0x1200]), &resolver);
    assert_eq!(t.recent[0].offender, "inner");
    t.apply(ev(0, 0x20, 0, 8, &[0x1100, 0x1200]), &None);
    assert_eq!(t.recent[1].offender, "inner");
    assert_eq!(
        t.resolve_stack(&[0x1100, 0x1200, 0x77], &resolver),
        vec!["inner", "outer;x", "main", "0x77"]
    );
    assert_eq!(t.folded_stacks(&resolver), "main;outer:x;inner 16\n");
    assert_eq!(t.build_flame(&resolver).roots[0].label, "main");
    assert_eq!(t.build_flame(&resolver).roots[0].children[0].label, "inner");
}

#[test]
fn addresses_are_asked_for_just_where_they_are_needed() {
    let mut t = Tracker::new(1);
    assert_eq!(t.addresses_asked(&ev(0, 0x10, 0, 8, &[1, 2, 3])), vec![2]);
    assert_eq!(t.addresses_asked(&ev(0, 0x10, 0, 8, &[1])), vec![1]);
    assert_eq!(t.addresses_asked(&ev(6, 0, 0, 11, &[1, 2, 3])), vec![1, 2, 3]);
    assert_eq!(t.addresses_asked(&ev(0, 0x10, 0, 8, &[])), Vec::<usize>::new());
    t.apply(ev(0, 0x10, 0, 8, &[1, 2, 3]), &None);
    let mut left = t.live_unnamed();
    left.sort();
    assert_eq!(left, vec![1, 3]);
}

#[test]
fn a_stack_without_frames_has_no_site() {
    let mut t = Tracker::default();
    t.apply(ev(0, 0x10, 0, 8, &[]), &None);
    assert_eq!(t.recent[0].offender, "?");
    assert_eq!(t.folded_stacks(&None), "[unknown] 8\n");
    t.apply(ev(6, 1, 2, 6, &[]), &None);
    assert_eq!(t.recent[1].offender, "?");
    assert_eq!(t.recent[1].size, 0);
}

#[test]
fn failed_allocations_leave_no_block() {
    let mut t = Tracker::default();
    t.apply(ev(0, 0x10, 0, 100, &[0xA]), &None);
    t.apply(ev(3, 0, 0x10, 500, &[0xA]), &None);
    assert_eq!((t.active_count(), t.active_bytes, t.alloc_count), (1, 100, 1));
    t.apply(ev(2, 0, 0, 500, &[0xB]), &None);
    assert_eq!((t.active_count(), t.active_bytes, t.alloc_count), (1, 100, 1));
    let heat = t.build_heat(10);
    assert_eq!(heat.sites, vec!["0xb", "0xa"]);
}

#[test]
fn only_the_last_events_are_kept() {
    let mut t = Tracker::default();
    for i in 0..250usize {
        t.apply(ev(0, 0x1000 + i, 0, 1, &[0xA]), &None);
    }
    assert_eq!(t.recent.len(), 200);
    assert_eq!(t.recent[0].seq, 51);
    assert_eq!(t.recent[199].seq, 250);
    assert_eq!(t.recent_events()[199].ptr, 0x1000 + 249);
}

#[test]
fn heat_and_heap_series_are_kept_for_their_windows() {
    let mut t = Tracker::default();
    t.apply(ev(0, 0x10, 0, 100, &[0xA]), &None);
    t.heat_tick();
    t.apply(ev(0, 0x20, 0, 7, &[0xA]), &None);
    let heat = t.build_heat(5);
    assert_eq!(heat.buckets, 48);
    assert_eq!(heat.cells[0][46..], [100, 7]);
    for _ in 0..46 {
        t.heat_tick();
    }
    assert_eq!(t.build_heat(5).cells[0][0], 100);
    t.heat_tick();
    assert_eq!(t.build_heat(5).cells[0][0], 7);
    t.heat_tick();
    assert!(t.build_heat(5).sites.is_empty());
    assert_eq!(t.build_heat(5).max, 1);
    for _ in 0..300 {
        t.heat_tick();
    }
    assert_eq!(t.heap_series().len(), 240);
    assert_eq!(t.heap_series()[0], 107);
}

#[test]
fn leaks_tell_age_and_rank_by_bytes() {
    let mut t = Tracker::default();
    t.apply(ev(0, 0x10, 0, 10, &[0xA]), &None);
    t.heat_tick();
    t.heat_tick();
    t.apply(ev(0, 0x20, 0, 30, &[0xB]), &None);
    t.apply(ev(0, 0x30, 0, 5, &[0xA]), &None);
    let all = t.build_leaks(0, false, 10);
    assert_eq!((all.total_bytes, all.total_count), (45, 3));
    assert_eq!(all.rows[0].site, "0xb");
    assert_eq!((all.rows[0].bytes, all.rows[0].count, all.rows[0].oldest_age), (30, 1, 0));
    assert_eq!((all.rows[1].bytes, all.rows[1].count, all.rows[1].oldest_age), (15, 2, 2));
    let old = t.build_leaks(2, false, 10);
    assert_eq!((old.total_bytes, old.total_count, old.rows.len()), (10, 1, 1));
    assert_eq!(t.build_leaks(3, false, 10).total_count, 0);
    assert_eq!(t.build_leaks(0, false, 1).rows.len(), 1);
}

#[test]
fn small_boxes_are_left_out_of_the_flame_graph() {
    let mut t = Tracker::default();
    t.apply(ev(0, 0x10, 0, 1000, &[0xA, 0xF]), &None);
    t.apply(ev(0, 0x20, 0, 4, &[0xB, 0xF]), &None);
    t.apply(ev(0, 0x30, 0, 0, &[0xC]), &None);
    let flame = t.build_flame(&None);
    assert_eq!(flame.total, 1004);
    assert_eq!(flame.roots.len(), 1);
    assert_eq!(flame.roots[0].label, "0xf");
    assert_eq!(flame.roots[0].bytes, 1004);
    assert_eq!(flame.roots[0].children.len(), 1);
    assert_eq!(flame.roots[0].children[0].bytes, 1000);
}

#[test]
fn offenders_are_ranked_and_freed_sites_disappear() {
    let mut t = Tracker::default();
    t.apply(ev(0, 0x10, 0, 10, &[0xA]), &None);
    t.apply(ev(0, 0x20, 0, 30, &[0xB]), &None);
    t.apply(ev(0, 0x30, 0, 20, &[0xC]), &None);
    let names: Vec<String> = t.top_offenders(2).into_iter().map(|r| r.0).collect();
    assert_eq!(names, vec!["0xb", "0xc"]);
    t.apply(ev(1, 0x20, 0, 0, &[0xD]), &None);
    let names: Vec<String> = t.top_offenders(5).into_iter().map(|r| r.0).collect();
    assert_eq!(names, vec!["0xc", "0xa"]);
}

#[test]
fn what_cannot_be_counted_is_not_accepted() {
    let mut t = Tracker::default();
    assert!(t.accepts(&ev(0, 0x10, 0, usize::MAX, &[0xA]), &None));
    t.apply(ev(0, 0x10, 0, usize::MAX, &[0xA]), &None);
    assert!(!t.accepts(&ev(0, 0x20, 0, 1, &[0xB]), &None));
    assert!(!t.accepts(&ev(0, 0, 0, 1, &[0xA]), &None));
    assert!(t.accepts(&ev(0, 0, 0, 1, &[0xB]), &None));
    assert!(t.accepts(&ev(1, 0x10, 0, 0, &[0xA]), &None));
    let mut long = ev(0, 0x20, 0, 0, &[]);
    long.frame_count = 33;
    assert!(!t.accepts(&long, &None));
    assert!(t.heat_sums_fit());
    t.heat_tick();
    t.apply(ev(0, 0, 0, 1, &[0xA]), &None);
    assert!(!t.heat_sums_fit());
}

#[test]
fn counts_agree_with_the_public_fields() {
    let mut t = Tracker::default();
    t.apply(ev(0, 0x10, 0, 10, &[0xA]), &None);
    t.heat_tick();
    t.apply(ev(1, 0x10, 0, 0, &[0xA]), &None);
    let c = t.counts();
    assert_eq!(c.active_count, 0);
    assert_eq!((c.active_bytes, t.active_bytes), (0, 0));
    assert_eq!((c.peak_bytes, t.peak_bytes), (10, 10));
    assert_eq!((c.total_allocated, t.total_allocated), (10, 10));
    assert_eq!((c.alloc_count, t.alloc_count), (1, 1));
    assert_eq!((c.free_count, t.free_count), (1, 1));
    assert_eq!((c.temporary_count, t.temporary_count), (0, 0));
    assert_eq!((c.total_events, t.total_events), (2, 2));
    assert_eq!(t.recent.len(), t.recent_events().len());
    assert!(t.crash.is_none());
    assert_eq!(t.offender_depth(), 0);
    assert!(t.crash_info().is_none());
}

#[test]
fn a_new_tracker_can_tick() {
    let mut t = Tracker::default();
    assert!(t.can_tick());
    t.heat_tick();
    assert!(t.can_tick());
    assert_eq!(t.heap_series(), vec![0]);
}

#[test]
fn the_full_list_of_offenders_adds_up() {
    let mut t = Tracker::default();
    t.apply(ev(0, 0x10, 0, 40, &[0xA]), &None);
    t.apply(ev(0, 0x20, 0, 0, &[0xB]), &None);
    t.apply(ev(0, 0x30, 0, 5, &[0xC]), &None);
    let all = t.top_offenders(usize::MAX);
    assert_eq!(all.len(), 2);
    assert_eq!(all.iter().map(|row| row.1).sum::<u64>(), t.active_bytes);
    assert_eq!(t.top_offenders(1).len(), 1);
}

#[test]
fn frees_leave_the_heatmap_alone() {
    let mut t = Tracker::default();
    t.apply(ev(0, 0x10, 0, 40, &[0xA]), &None);
    t.heat_tick();
    t.apply(ev(3, 0, 0x10, 9, &[0xA]), &None);
    t.apply(ev(3, 0x40, 0x10, 6, &[0xA]), &None);
    t.apply(ev(1, 0x40, 0, 0, &[0xA]), &None);
    let heat = t.build_heat(5);
    assert_eq!(heat.sites, vec!["0xa"]);
    assert_eq!(heat.cells[0][46..], [40, 6]);
}
