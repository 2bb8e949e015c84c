//! The bump arena that serves allocations made before the real allocator has been found.
//! Blocks are handed out once and never reclaimed.

use vstd::arithmetic::div_mod::lemma_fundamental_div_mod;
use vstd::arithmetic::div_mod::lemma_mod_multiples_basic;
use vstd::arithmetic::power::pow;
use vstd::arithmetic::power2::is_pow2;
use vstd::arithmetic::power2::is_pow2_equiv;
use vstd::arithmetic::power2::lemma2_to64;
use vstd::arithmetic::power2::lemma2_to64_rest;
use vstd::arithmetic::power2::lemma_pow2;
use vstd::arithmetic::power2::lemma_pow2_adds;
use vstd::arithmetic::power2::lemma_pow2_strictly_increases;
use vstd::arithmetic::power2::pow2;
use vstd::bits::lemma_usize_low_bits_mask_is_mod;
use vstd::bits::low_bits_mask;
use vstd::prelude::*;

verus! {

/// How many bytes the arena holds.
pub const ARENA_SIZE: usize = 65536;

/// Every block starts at a multiple of this, whatever alignment was asked for.
pub const MIN_ALIGN: usize = 16;

/// Whether `ptr` points into the arena at `base`.
pub open spec fn in_arena(base: usize, ptr: usize) -> bool {
    base <= ptr < base + ARENA_SIZE
}

pub fn is_bootstrap_ptr(base: usize, ptr: usize) -> (inside: bool)
    requires
        base + ARENA_SIZE <= usize::MAX,
    ensures
        inside == in_arena(base, ptr),
{
    ptr >= base && ptr < base + ARENA_SIZE
}

/// The alignment that is used when `align` is asked for.
pub open spec fn arena_align(align: usize) -> usize {
    if align < MIN_ALIGN {
        MIN_ALIGN
    } else {
        align
    }
}

/// Where a block of `size` bytes goes in the arena at `base` of which `used` bytes are taken, and
/// how many bytes are taken then: it starts at the next address with no bit of the alignment less
/// one set. `None` if it would not end within the arena.
pub open spec fn place(base: usize, used: usize, size: usize, align: usize) -> Option<
    (usize, usize),
> {
    let mask = (arena_align(align) - 1) as usize;
    if base + used + mask > usize::MAX {
        None
    } else {
        let start = ((base + used + mask) as usize) & !mask;
        if start - base + size > ARENA_SIZE {
            None
        } else {
            Some((start, (start - base + size) as usize))
        }
    }
}

/// Places a block of `size` bytes in the arena at `base` of which `used` bytes are taken. Gives
/// the block's address and how many bytes are taken then, or `None` if the block does not fit.
pub fn bootstrap_place(base: usize, used: usize, size: usize, align: usize) -> (placed: Option<
    (usize, usize),
>)
    ensures
        placed == place(base, used, size, align),
        placed matches Some((start, taken)) ==> {
            &&& start >= base + used
            &&& start & (arena_align(align) - 1) as usize == 0
            &&& taken == start - base + size
            &&& taken <= ARENA_SIZE
        },
{
    let align = if align < MIN_ALIGN {
        MIN_ALIGN
    } else {
        align
    };
    let mask: usize = align - 1;
    let free: usize = match base.checked_add(used) {
        Some(free) => free,
        None => return None,
    };
    let reach: usize = match free.checked_add(mask) {
        Some(reach) => reach,
        None => return None,
    };
    let start: usize = reach & !mask;
    proof {
        lemma_rounded_up(free, mask);
    }
    let offset: usize = start - base;
    if offset > ARENA_SIZE || size > ARENA_SIZE - offset {
        None
    } else {
        Some((start, offset + size))
    }
}

/// Rounding with a mask moves an address up, by at most the mask, and clears the masked bits.
pub proof fn lemma_rounded_up(address: usize, mask: usize)
    requires
        address + mask <= usize::MAX,
    ensures
        ((address + mask) as usize) & !mask >= address,
        ((address + mask) as usize) & !mask <= address + mask,
        ((address + mask) as usize) & !mask & mask == 0,
{
    let sum = (address + mask) as usize;
    assert((sum & !mask) + (sum & mask) == sum && (sum & mask) <= mask && (sum & !mask) & mask == 0)
        by (bit_vector);
}

/// The first multiple of `align` at or after `address`.
pub open spec fn first_aligned(address: int, align: int) -> int {
    (address + align - 1) / align * align
}

/// For an alignment that is 0 or a power of two, a block starts at the first address after the
/// taken bytes that is a multiple of the alignment in use, and is refused just if it would not
/// end within the arena from there.
pub proof fn law_blocks_are_aligned(base: usize, used: usize, size: usize, align: usize)
    requires
        align == 0 || is_pow2(align as int),
        used <= ARENA_SIZE,
        base + ARENA_SIZE <= usize::MAX,
    ensures
        ({
            let unit = arena_align(align) as int;
            let start = first_aligned(base + used, unit);
            &&& start % unit == 0
            &&& base + used <= start < base + used + unit
            &&& place(base, used, size, align) == if start - base + size <= ARENA_SIZE {
                Some((start as usize, (start - base + size) as usize))
            } else {
                None
            }
        }),
{
    let unit = arena_align(align) as int;
    let free = base + used;
    let start = first_aligned(free, unit);
    lemma_unit_is_pow2(align);
    is_pow2_equiv(unit);
    let n = choose|n: nat| pow(2, n) == unit;
    assert(pow2(n) == unit);
    let bits = usize::BITS as nat;
    lemma_usize_range();
    if n >= bits {
        if n > bits {
            lemma_pow2_strictly_increases(bits, n);
        }
        assert(false);
    }
    lemma_fundamental_div_mod(free + unit - 1, unit);
    let over = (free + unit - 1) % unit;
    assert(start == free + unit - 1 - over) by (nonlinear_arith)
        requires
            start == (free + unit - 1) / unit * unit,
            free + unit - 1 == unit * ((free + unit - 1) / unit) + over,
    ;
    lemma_mod_multiples_basic((free + unit - 1) / unit, unit);
    let mask = (unit - 1) as usize;
    if free + mask <= usize::MAX {
        let reach = (free + mask) as usize;
        lemma_usize_low_bits_mask_is_mod(reach, n);
        assert(mask == low_bits_mask(n) as usize);
        assert(reach & mask == over);
        assert((reach & !mask) + (reach & mask) == reach) by (bit_vector);
    } else {
        // The first address behind the last one is a multiple, too.
        lemma_pow2_adds(n, (bits - n) as nat);
        let rest = pow2((bits - n) as nat) as int;
        let q = (free + unit - 1) / unit;
        assert(q >= rest) by (nonlinear_arith)
            requires
                free + unit - 1 == unit * q + over,
                0 <= over < unit,
                free + unit - 1 >= unit * rest,
        ;
        assert(start >= unit * rest) by (nonlinear_arith)
            requires
                start == q * unit,
                q >= rest,
                unit > 0,
        ;
    }
}

/// The alignment in use is a power of two if the one that was asked for is one, or 0.
proof fn lemma_unit_is_pow2(align: usize)
    requires
        align == 0 || is_pow2(align as int),
    ensures
        is_pow2(arena_align(align) as int),
{
    lemma2_to64();
    lemma_pow2(4);
    assert(pow(2, 4) == 16);
    is_pow2_equiv(16);
}

/// There are as many addresses as the machine's bits can tell apart.
proof fn lemma_usize_range()
    ensures
        pow2(usize::BITS as nat) == usize::MAX + 1,
{
    lemma2_to64();
    lemma2_to64_rest();
}

/// A request for a block.
pub struct Ask {
    pub size: usize,
    pub align: usize,
}

/// How many bytes of the arena are taken after some requests.
pub open spec fn used_after(base: usize, asks: Seq<Ask>) -> usize
    decreases asks.len(),
{
    if asks.len() == 0 {
        0
    } else {
        let used = used_after(base, asks.drop_last());
        match place(base, used, asks.last().size, asks.last().align) {
            Some((_, taken)) => taken,
            None => used,
        }
    }
}

/// What the request with number `i` got: the address of its block.
pub open spec fn block_of(base: usize, asks: Seq<Ask>, i: int) -> Option<usize> {
    match place(base, used_after(base, asks.take(i)), asks[i].size, asks[i].align) {
        Some((start, _)) => Some(start),
        None => None,
    }
}

/// Every block lies in the arena, and no two blocks overlap: a later one starts where the earlier
/// one ends, or behind that.
pub proof fn law_blocks_are_disjoint(base: usize, asks: Seq<Ask>, i: int, j: int)
    requires
        base + ARENA_SIZE <= usize::MAX,
        0 <= i < j < asks.len(),
        block_of(base, asks, i) is Some,
        block_of(base, asks, j) is Some,
    ensures
        base <= block_of(base, asks, i)->0,
        block_of(base, asks, i)->0 + asks[i].size <= block_of(base, asks, j)->0,
        block_of(base, asks, j)->0 + asks[j].size <= base + ARENA_SIZE,
{
    lemma_used_grows(base, asks, i, i);
    lemma_used_grows(base, asks, i + 1, j);
    lemma_used_step(base, asks, i);
    lemma_placed(base, used_after(base, asks.take(i)), asks[i].size, asks[i].align);
    lemma_placed(base, used_after(base, asks.take(j)), asks[j].size, asks[j].align);
}

/// A request that is refused changes nothing: all others get what they would have got without it.
pub proof fn law_refused_request_changes_nothing(base: usize, asks: Seq<Ask>, i: int, j: int)
    requires
        0 <= i < asks.len(),
        block_of(base, asks, i) is None,
        0 <= j < asks.len(),
        j != i,
    ensures
        used_after(base, asks.remove(i)) == used_after(base, asks),
        block_of(base, asks, j) == block_of(
            base,
            asks.remove(i),
            if j < i {
                j
            } else {
                j - 1
            },
        ),
{
    lemma_without_refused(base, asks, i);
    let others = asks.remove(i);
    if j < i {
        assert(others.take(j) =~= asks.take(j));
    } else {
        assert(asks.take(j).take(i) =~= asks.take(i));
        lemma_without_refused(base, asks.take(j), i);
        assert(others.take(j - 1) =~= asks.take(j).remove(i));
    }
}

proof fn lemma_without_refused(base: usize, asks: Seq<Ask>, i: int)
    requires
        0 <= i < asks.len(),
        block_of(base, asks, i) is None,
    ensures
        used_after(base, asks.remove(i)) == used_after(base, asks),
    decreases asks.len(),
{
    if i == asks.len() - 1 {
        assert(asks.remove(i) =~= asks.drop_last());
        assert(asks.take(i) =~= asks.drop_last());
    } else {
        assert(asks.drop_last().take(i) =~= asks.take(i));
        lemma_without_refused(base, asks.drop_last(), i);
        assert(asks.remove(i).drop_last() =~= asks.drop_last().remove(i));
        assert(asks.remove(i).last() == asks.last());
    }
}

/// What holds of every block that is placed.
proof fn lemma_placed(base: usize, used: usize, size: usize, align: usize)
    ensures
        place(base, used, size, align) matches Some((start, taken)) ==> {
            &&& start >= base + used
            &&& taken == start - base + size
            &&& used <= taken <= ARENA_SIZE
        },
{
    let mask = (arena_align(align) - 1) as usize;
    if base + used + mask <= usize::MAX {
        lemma_rounded_up((base + used) as usize, mask);
    }
}

proof fn lemma_used_step(base: usize, asks: Seq<Ask>, i: int)
    requires
        0 <= i < asks.len(),
    ensures
        used_after(base, asks.take(i + 1)) == match place(
            base,
            used_after(base, asks.take(i)),
            asks[i].size,
            asks[i].align,
        ) {
            Some((_, taken)) => taken,
            None => used_after(base, asks.take(i)),
        },
{
    assert(asks.take(i + 1).drop_last() =~= asks.take(i));
}

/// Taken bytes stay taken.
proof fn lemma_used_grows(base: usize, asks: Seq<Ask>, i: int, j: int)
    requires
        0 <= i <= j <= asks.len(),
    ensures
        used_after(base, asks.take(i)) <= used_after(base, asks.take(j)) <= ARENA_SIZE,
    decreases j,
{
    if j > 0 {
        lemma_used_step(base, asks, j - 1);
        lemma_placed(
            base,
            used_after(base, asks.take(j - 1)),
            asks[j - 1].size,
            asks[j - 1].align,
        );
        if i < j {
            lemma_used_grows(base, asks, i, j - 1);
        } else {
            lemma_used_grows(base, asks, j - 1, j - 1);
        }
    }
}

} // verus!
