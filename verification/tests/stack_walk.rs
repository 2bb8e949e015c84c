use sherlock::injection::MAX_STACK_DEPTH;
use sherlock::stack_walk::walk_from_rbp;
use sherlock::stack_walk::StackImage;
use sherlock::stack_walk::Walk;

const BASE: usize = 0x7000_0000;

fn build_chain(n: usize) -> StackImage {
    let mut words = vec![0usize; n * 2];
    for i in 0..n {
        words[i * 2] = if i + 1 < n { BASE + (i + 1) * 16 } else { 0 };
        words[i * 2 + 1] = 0xC0DE_0000 + i;
    }
    StackImage { base: BASE, words }
}

#[test]
fn follows_a_clean_chain_nearest_caller_first() {
    const FRAMES: usize = 4;
    let stack = build_chain(FRAMES);

    let mut out = [0usize; MAX_STACK_DEPTH];
    let n = walk_from_rbp(&stack, BASE, 0, None, &mut out);

    assert_eq!(n as usize, FRAMES);
    for (i, &frame) in out.iter().take(FRAMES).enumerate() {
        assert_eq!(frame, 0xC0DE_0000 + i);
    }
}

#[test]
fn seed_pc_is_recorded_as_the_top_frame() {
    let stack = StackImage { base: 0, words: Vec::new() };
    let mut out = [0usize; MAX_STACK_DEPTH];
    let n = walk_from_rbp(&stack, 0, 0, Some(0xDEAD_BEEF), &mut out);
    assert_eq!(n, 1);
    assert_eq!(out[0], 0xDEAD_BEEF);
}

#[test]
fn stops_gracefully_on_a_backward_link() {
    let stack = StackImage { base: BASE, words: vec![BASE.wrapping_sub(4096), 0x1234, 0, 0] };

    let mut out = [0usize; MAX_STACK_DEPTH];
    let n = walk_from_rbp(&stack, BASE, 0, None, &mut out);
    assert_eq!(n, 1);
    assert_eq!(out[0], 0x1234);
}

#[test]
fn rejects_an_unaligned_rbp_without_dereferencing_it() {
    let stack = StackImage { base: 0, words: vec![1, 2, 3] };
    let mut out = [0usize; MAX_STACK_DEPTH];
    let n = walk_from_rbp(&stack, 0x3, 0, None, &mut out);
    assert_eq!(n, 0);
    assert_eq!(Walk::start(0x3, 0, None).next(), None);
}

#[test]
fn skip_drops_leading_frames() {
    const FRAMES: usize = 4;
    let stack = build_chain(FRAMES);

    let mut out = [0usize; MAX_STACK_DEPTH];
    let n = walk_from_rbp(&stack, BASE, 2, None, &mut out);

    assert_eq!(n as usize, FRAMES - 2);
    assert_eq!(out[0], 0xC0DE_0000 + 2);
    assert_eq!(out[1], 0xC0DE_0000 + 3);
}

#[test]
fn a_trace_never_outgrows_an_event() {
    let stack = build_chain(100);
    let mut out = [0usize; MAX_STACK_DEPTH];
    assert_eq!(walk_from_rbp(&stack, BASE, 0, None, &mut out) as usize, MAX_STACK_DEPTH);
    assert_eq!(out[31], 0xC0DE_0000 + 31);
    assert_eq!(walk_from_rbp(&stack, BASE, 0, Some(7), &mut out) as usize, MAX_STACK_DEPTH);
    assert_eq!(out[0], 7);
    assert_eq!(out[31], 0xC0DE_0000 + 30);
}

#[test]
fn steps_of_a_mebibyte_or_more_end_the_walk() {
    let near = StackImage { base: BASE, words: vec![BASE + 0x100_000, 0x1, 0, 0] };
    let mut walk = Walk::start(BASE, 0, None);
    walk.feed(near.read(BASE + 8));
    walk.feed(near.read(BASE));
    assert_eq!(walk.next(), None);

    let mut walk = Walk::start(BASE, 0, None);
    walk.feed(Some(0x1));
    walk.feed(Some(BASE + 0x100_000 - 8));
    assert_eq!(walk.next(), Some(BASE + 0x100_000));

    let mut walk = Walk::start(BASE, 1, None);
    assert_eq!(walk.next(), Some(BASE));
    walk.feed(Some(BASE + 0x100_000));
    assert_eq!(walk.next(), None);
}

#[test]
fn memory_that_cannot_be_read_leaves_a_partial_trace() {
    let mut walk = Walk::start(BASE, 0, Some(0xFEED));
    walk.feed(Some(0x1111));
    walk.feed(Some(BASE + 64));
    walk.feed(Some(0x2222));
    walk.feed(None);
    assert_eq!(walk.next(), None);
    let mut out = [9usize; MAX_STACK_DEPTH];
    assert_eq!(walk.write_to(&mut out), 3);
    assert_eq!(out[..4], [0xFEED, 0x1111, 0x2222, 9]);
}
