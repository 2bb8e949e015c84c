//! What the views on a ledger show: the ranking of call sites, the heatmap, the flame graph, the
//! leaks and the folded stacks.

use crate::injection::AllocEvent;
use crate::ledger::block_size;
use crate::ledger::heat_row;
use crate::ledger::live_bytes;
use crate::ledger::site_bytes;
use crate::ledger::stack_labels;
use crate::ledger::Block;
use crate::ledger::applied;
use crate::ledger::size_at_site;
use crate::ledger::sound;
use crate::ledger::Ledger;
use crate::ledger::Names;
use crate::ledger::HEAT_BUCKETS;
use crate::order::is_heaviest;
use crate::order::no_lighter;
use crate::state::FlameNode;
use crate::state::FlameView;
use crate::state::HeatView;
use crate::state::LeakRow;
use crate::state::LeakView;
use crate::tally::lemma_total_concat;
use crate::tally::lemma_total_le;
use crate::tally::lemma_total_push;
use crate::tally::lemma_tally_listing;
use crate::tally::lists;
use crate::tally::values_at;
use crate::tally::lemma_tally_classes_share;
use crate::tally::lemma_tally_counts;
use crate::tally::lemma_tally_le;
use crate::tally::lemma_tally_nothing;
use crate::tally::lemma_tally_remove;
use crate::tally::lemma_tally_same;
use crate::tally::weight_of_class;
use crate::tally::tally;
use crate::tally::total;
use crate::text::decimal;
use crate::text::replaced;
use vstd::prelude::*;
use vstd::set_lib::lemma_int_range;
use vstd::set_lib::lemma_len_subset;
use vstd::set_lib::lemma_map_size;
use vstd::set_lib::lemma_map_size_bound;
use vstd::set_lib::set_int_range;

verus! {

/// `rows` are the `n` heaviest call sites among those in `pool` (all of them if there are
/// fewer), each with its weight, the heaviest first. Which of two equally heavy call sites comes
/// first, or is left out, is open.
pub open spec fn is_ranking(
    rows: Seq<(Seq<char>, nat)>,
    pool: spec_fn(Seq<char>) -> bool,
    weight: spec_fn(Seq<char>) -> nat,
    n: nat,
) -> bool {
    &&& rows.len() <= n
    &&& forall|i: int|
        0 <= i < rows.len() ==> pool((#[trigger] rows[i]).0) && rows[i].1 == weight(rows[i].0)
    &&& forall|i: int, j: int|
        0 <= i < j < rows.len() ==> (#[trigger] rows[i]).0 != (#[trigger] rows[j]).0 && rows[i].1
            >= rows[j].1
    &&& forall|site: Seq<char>| #[trigger]
        pool(site) && !ranked(rows, site) ==> rows.len() == n && forall|i: int|
            0 <= i < rows.len() ==> weight(site) <= (#[trigger] rows[i]).1
}

/// The heaviest positions of a list of weighted call sites make a ranking, if the list holds
/// the call sites of the pool, and those are the ones that weigh at least `least`.
pub proof fn lemma_ranking(
    rows: Seq<(Seq<char>, nat)>,
    sites: Seq<Seq<char>>,
    weights: Seq<u64>,
    order: Seq<usize>,
    least: u64,
    pool: spec_fn(Seq<char>) -> bool,
    weight: spec_fn(Seq<char>) -> nat,
    n: nat,
)
    requires
        sites.no_duplicates(),
        sites.len() == weights.len(),
        sites.len() <= usize::MAX,
        forall|i: int|
            0 <= i < sites.len() ==> weights[i] == weight(#[trigger] sites[i]) && (pool(sites[i])
                <==> weights[i] >= least),
        forall|site: Seq<char>| #[trigger] pool(site) ==> sites.contains(site),
        is_heaviest(order, weights, least, n),
        rows.len() == order.len(),
        forall|i: int|
            0 <= i < rows.len() ==> (#[trigger] rows[i]).0 == sites[order[i] as int] && rows[i].1
                == weights[order[i] as int],
    ensures
        is_ranking(rows, pool, weight, n),
{
    assert forall|i: int| 0 <= i < rows.len() implies pool((#[trigger] rows[i]).0) && rows[i].1
        == weight(rows[i].0) by {
        assert(weights[order[i] as int] >= least);
        assert(weights[order[i] as int] == weight(sites[order[i] as int]));
    }
    assert forall|i: int, j: int| 0 <= i < j < rows.len() implies (#[trigger] rows[i]).0 != (
    #[trigger] rows[j]).0 && rows[i].1 >= rows[j].1 by {
        assert(order[i] != order[j]);
        assert(sites[order[i] as int] != sites[order[j] as int]);
        assert(weights[order[i] as int] >= weights[order[j] as int]);
    }
    assert forall|site: Seq<char>| #[trigger] pool(site) && !ranked(rows, site) implies rows.len()
        == n && forall|i: int| 0 <= i < rows.len() ==> weight(site) <= (#[trigger] rows[i]).1 by {
        let p = choose|p: int| 0 <= p < sites.len() && sites[p] == site;
        assert(weights[p] == weight(sites[p]));
        if order.contains(p as usize) {
            let k = choose|k: int| 0 <= k < order.len() && order[k] == p as usize;
            assert(rows[k].0 == site);
        }
        assert forall|i: int| 0 <= i < rows.len() implies weight(site) <= (#[trigger] rows[i]).1 by {
            assert(no_lighter(order, weights, weights[p]));
            assert(weights[p] <= weights[order[i] as int]);
        }
    }
}

/// Whether `site` is one of the rows.
pub open spec fn ranked(rows: Seq<(Seq<char>, nat)>, site: Seq<char>) -> bool {
    exists|i: int| 0 <= i < rows.len() && (#[trigger] rows[i]).0 == site
}

/// The rows of a list of offenders.
pub open spec fn offender_rows(rows: Seq<(String, u64)>) -> Seq<(Seq<char>, nat)> {
    rows.map_values(|row: (String, u64)| (row.0@, row.1 as nat))
}

/// The call sites that hold live bytes.
pub open spec fn holds_bytes(blocks: Map<usize, Block>) -> spec_fn(Seq<char>) -> bool {
    |site: Seq<char>| site_bytes(blocks, site) > 0
}

pub open spec fn bytes_held(blocks: Map<usize, Block>) -> spec_fn(Seq<char>) -> nat {
    |site: Seq<char>| site_bytes(blocks, site)
}

/// `rows` are the `n` call sites that hold most live bytes.
pub open spec fn is_offender_list(
    rows: Seq<(String, u64)>,
    blocks: Map<usize, Block>,
    n: nat,
) -> bool {
    is_ranking(offender_rows(rows), holds_bytes(blocks), bytes_held(blocks), n)
}

pub open spec fn cell_value() -> spec_fn(u64) -> nat {
    |v: u64| v as nat
}

/// The heat of a row in all.
pub open spec fn row_total(row: Seq<u64>) -> nat {
    total(row, cell_value())
}

/// The heat of every call site, summed up, can be counted.
pub open spec fn heat_countable(heat: Map<Seq<char>, Seq<u64>>) -> bool {
    forall|site: Seq<char>| #[trigger] heat.contains_key(site) ==> row_total(heat[site]) <= u64::MAX
}

/// A row of heat from the oldest tick to the current one.
pub open spec fn unrolled(row: Seq<u64>, cursor: nat) -> Seq<u64> {
    Seq::new(HEAT_BUCKETS as nat, |i: int| row[(cursor + 1 + i) % HEAT_BUCKETS as int])
}

/// Unrolling a row leaves its heat as it is.
pub proof fn lemma_unrolled_total(row: Seq<u64>, cursor: nat)
    requires
        row.len() == HEAT_BUCKETS,
        cursor < HEAT_BUCKETS,
    ensures
        row_total(unrolled(row, cursor)) == row_total(row),
{
    let newer = row.take(cursor as int + 1);
    let older = row.skip(cursor as int + 1);
    assert(row =~= newer + older);
    assert(unrolled(row, cursor) =~= older + newer);
    lemma_total_concat(newer, older, cell_value());
    lemma_total_concat(older, newer, cell_value());
}

/// A row without heat has none in all.
pub proof fn lemma_cold_total(row: Seq<u64>)
    requires
        forall|i: int| 0 <= i < row.len() ==> #[trigger] row[i] == 0,
    ensures
        row_total(row) == 0,
    decreases row.len(),
{
    if row.len() > 0 {
        lemma_cold_total(row.drop_last());
    }
}

pub open spec fn is_warm(heat: Map<Seq<char>, Seq<u64>>) -> spec_fn(Seq<char>) -> bool {
    |site: Seq<char>| row_total(heat_row(heat, site)) > 0
}

pub open spec fn warmth(heat: Map<Seq<char>, Seq<u64>>) -> spec_fn(Seq<char>) -> nat {
    |site: Seq<char>| row_total(heat_row(heat, site))
}

/// The call sites of a heatmap, each with its heat in all.
pub open spec fn heat_rows(view: HeatView) -> Seq<(Seq<char>, nat)> {
    Seq::new(
        view.sites@.len(),
        |i: int| (view.sites@[i]@, row_total(view.cells@[i]@)),
    )
}

/// Whether some cell holds `v`.
pub open spec fn holds_cell(cells: Seq<Vec<u64>>, v: u64) -> bool {
    exists|i: int, j: int|
        0 <= i < cells.len() && 0 <= j < cells[i]@.len() && #[trigger] cells[i]@[j] == v
}

/// `max` is the largest cell, and at least 1.
pub open spec fn is_largest_cell(max: u64, cells: Seq<Vec<u64>>) -> bool {
    &&& max >= 1
    &&& forall|i: int, j: int|
        0 <= i < cells.len() && 0 <= j < cells[i]@.len() ==> #[trigger] cells[i]@[j] <= max
    &&& max > 1 ==> holds_cell(cells, max)
}

/// `view` shows the `n` warmest call sites tick by tick.
pub open spec fn is_heat_view(view: HeatView, l: Ledger, n: nat) -> bool {
    &&& view.buckets == HEAT_BUCKETS
    &&& view.cells@.len() == view.sites@.len()
    &&& forall|i: int|
        0 <= i < view.sites@.len() ==> (#[trigger] view.cells@[i])@ == unrolled(
            heat_row(l.heat, view.sites@[i]@),
            l.cursor,
        )
    &&& is_ranking(heat_rows(view), is_warm(l.heat), warmth(l.heat), n)
    &&& is_largest_cell(view.max, view.cells@)
}

/// How many ticks ago a block was allocated.
pub open spec fn age(tick: nat, b: Block) -> nat {
    if tick >= b.alloc_tick {
        (tick - b.alloc_tick) as nat
    } else {
        0
    }
}

/// Whether a block counts as leaked: every live one does once the target is gone (`definite`),
/// and before that every one of at least the age `threshold`.
pub open spec fn is_leaked(tick: nat, threshold: nat, definite: bool, b: Block) -> bool {
    definite || age(tick, b) >= threshold
}

pub open spec fn leaked_size(tick: nat, threshold: nat, definite: bool) -> spec_fn(Block) -> nat {
    |b: Block|
        if is_leaked(tick, threshold, definite, b) {
            b.size
        } else {
            0
        }
}

pub open spec fn leaked_one(tick: nat, threshold: nat, definite: bool) -> spec_fn(Block) -> nat {
    |b: Block|
        if is_leaked(tick, threshold, definite, b) {
            1
        } else {
            0
        }
}

/// A weight, for the blocks of one call site only.
pub open spec fn only_at(site: Seq<char>, weight: spec_fn(Block) -> nat) -> spec_fn(Block) -> nat {
    |b: Block|
        if b.site == site {
            weight(b)
        } else {
            0
        }
}

/// The leaked bytes of a call site.
pub open spec fn leaked_bytes_at(
    l: Ledger,
    threshold: nat,
    definite: bool,
    site: Seq<char>,
) -> nat {
    tally(l.blocks, only_at(site, leaked_size(l.tick, threshold, definite)))
}

/// The number of leaked blocks of a call site.
pub open spec fn leaked_count_at(
    l: Ledger,
    threshold: nat,
    definite: bool,
    site: Seq<char>,
) -> nat {
    tally(l.blocks, only_at(site, leaked_one(l.tick, threshold, definite)))
}

pub open spec fn leaks_at(l: Ledger, threshold: nat, definite: bool) -> spec_fn(Seq<char>) -> bool {
    |site: Seq<char>| leaked_count_at(l, threshold, definite, site) > 0
}

pub open spec fn leaked_by(l: Ledger, threshold: nat, definite: bool) -> spec_fn(Seq<char>) -> nat {
    |site: Seq<char>| leaked_bytes_at(l, threshold, definite, site)
}

/// `oldest` is the age of the oldest leaked block of `site`.
pub open spec fn is_oldest(
    oldest: nat,
    l: Ledger,
    threshold: nat,
    definite: bool,
    site: Seq<char>,
) -> bool {
    &&& forall|ptr: usize| #[trigger]
        l.blocks.contains_key(ptr) && l.blocks[ptr].site == site && is_leaked(
            l.tick,
            threshold,
            definite,
            l.blocks[ptr],
        ) ==> age(l.tick, l.blocks[ptr]) <= oldest
    &&& exists|ptr: usize| #[trigger]
        l.blocks.contains_key(ptr) && l.blocks[ptr].site == site && is_leaked(
            l.tick,
            threshold,
            definite,
            l.blocks[ptr],
        ) && age(l.tick, l.blocks[ptr]) == oldest
}

/// `entry` holds what `site` has leaked among `items`: bytes, blocks, and the age of the oldest.
pub open spec fn leak_entry(
    entry: (u64, u64, u64),
    items: Seq<Block>,
    tick: nat,
    threshold: nat,
    definite: bool,
    site: Seq<char>,
) -> bool {
    &&& entry.0 == total(items, only_at(site, leaked_size(tick, threshold, definite)))
    &&& entry.1 == total(items, only_at(site, leaked_one(tick, threshold, definite)))
    &&& entry.1 > 0
    &&& forall|k: int|
        0 <= k < items.len() && (#[trigger] items[k]).site == site && is_leaked(
            tick,
            threshold,
            definite,
            items[k],
        ) ==> age(tick, items[k]) <= entry.2
    &&& exists|k: int|
        0 <= k < items.len() && (#[trigger] items[k]).site == site && is_leaked(
            tick,
            threshold,
            definite,
            items[k],
        ) && age(tick, items[k]) == entry.2
}

/// Nothing among `items` was leaked by `site`.
pub open spec fn leaks_none(
    items: Seq<Block>,
    tick: nat,
    threshold: nat,
    definite: bool,
    site: Seq<char>,
) -> bool {
    forall|k: int|
        0 <= k < items.len() ==> !((#[trigger] items[k]).site == site && is_leaked(
            tick,
            threshold,
            definite,
            items[k],
        ))
}

/// Where nothing was leaked, there is nothing to count.
proof fn lemma_leaks_none(
    items: Seq<Block>,
    tick: nat,
    threshold: nat,
    definite: bool,
    site: Seq<char>,
)
    requires
        leaks_none(items, tick, threshold, definite, site),
    ensures
        total(items, only_at(site, leaked_size(tick, threshold, definite))) == 0,
        total(items, only_at(site, leaked_one(tick, threshold, definite))) == 0,
    decreases items.len(),
{
    if items.len() > 0 {
        let rest = items.drop_last();
        assert(leaks_none(rest, tick, threshold, definite, site)) by {
            assert forall|k: int| 0 <= k < rest.len() implies !((#[trigger] rest[k]).site == site
                && is_leaked(tick, threshold, definite, rest[k])) by {
                assert(rest[k] == items[k]);
            }
        }
        lemma_leaks_none(rest, tick, threshold, definite, site);
        assert(items[items.len() - 1] == items.last());
    }
}

/// A block that the call site did not leak leaves its entry as it is.
pub proof fn lemma_leak_elsewhere(
    entry: (u64, u64, u64),
    items: Seq<Block>,
    block: Block,
    tick: nat,
    threshold: nat,
    definite: bool,
    site: Seq<char>,
)
    requires
        leak_entry(entry, items, tick, threshold, definite, site),
        !(block.site == site && is_leaked(tick, threshold, definite, block)),
    ensures
        leak_entry(entry, items.push(block), tick, threshold, definite, site),
{
    let next = items.push(block);
    lemma_total_push(items, block, only_at(site, leaked_size(tick, threshold, definite)));
    lemma_total_push(items, block, only_at(site, leaked_one(tick, threshold, definite)));
    let k = choose|k: int|
        0 <= k < items.len() && (#[trigger] items[k]).site == site && is_leaked(
            tick,
            threshold,
            definite,
            items[k],
        ) && age(tick, items[k]) == entry.2;
    assert(next[k] == items[k]);
    assert forall|k: int|
        0 <= k < next.len() && (#[trigger] next[k]).site == site && is_leaked(
            tick,
            threshold,
            definite,
            next[k],
        ) implies age(tick, next[k]) <= entry.2 by {
        if k < items.len() {
            assert(next[k] == items[k]);
        }
    }
}

/// A block that the call site leaked is added to its entry, which is all zeros at first.
pub proof fn lemma_leak_here(
    entry: (u64, u64, u64),
    items: Seq<Block>,
    block: Block,
    tick: nat,
    threshold: nat,
    definite: bool,
    site: Seq<char>,
    added: (u64, u64, u64),
)
    requires
        leak_entry(entry, items, tick, threshold, definite, site) || (entry == (0u64, 0u64, 0u64)
            && leaks_none(items, tick, threshold, definite, site)),
        block.site == site,
        is_leaked(tick, threshold, definite, block),
        added.0 == entry.0 + block.size,
        added.1 == entry.1 + 1,
        added.2 == if entry.2 >= age(tick, block) {
            entry.2 as nat
        } else {
            age(tick, block)
        },
    ensures
        leak_entry(added, items.push(block), tick, threshold, definite, site),
{
    let next = items.push(block);
    lemma_total_push(items, block, only_at(site, leaked_size(tick, threshold, definite)));
    lemma_total_push(items, block, only_at(site, leaked_one(tick, threshold, definite)));
    if leak_entry(entry, items, tick, threshold, definite, site) {
        let k = choose|k: int|
            0 <= k < items.len() && (#[trigger] items[k]).site == site && is_leaked(
                tick,
                threshold,
                definite,
                items[k],
            ) && age(tick, items[k]) == entry.2;
        assert(next[k] == items[k]);
    } else {
        lemma_leaks_none(items, tick, threshold, definite, site);
    }
    assert(next[items.len() as int] == block);
    assert forall|k: int|
        0 <= k < next.len() && (#[trigger] next[k]).site == site && is_leaked(
            tick,
            threshold,
            definite,
            next[k],
        ) implies age(tick, next[k]) <= added.2 by {
        if k < items.len() {
            assert(next[k] == items[k]);
        }
    }
}

/// What one call site leaked is part of what was leaked in all.
pub proof fn lemma_leak_part(
    items: Seq<Block>,
    tick: nat,
    threshold: nat,
    definite: bool,
    site: Seq<char>,
)
    ensures
        total(items, only_at(site, leaked_size(tick, threshold, definite))) <= total(
            items,
            leaked_size(tick, threshold, definite),
        ),
        total(items, only_at(site, leaked_one(tick, threshold, definite))) <= total(
            items,
            leaked_one(tick, threshold, definite),
        ),
{
    lemma_total_le(
        items,
        only_at(site, leaked_size(tick, threshold, definite)),
        leaked_size(tick, threshold, definite),
    );
    lemma_total_le(
        items,
        only_at(site, leaked_one(tick, threshold, definite)),
        leaked_one(tick, threshold, definite),
    );
}

/// The rows of a list of leaks.
pub open spec fn leak_rows(rows: Seq<LeakRow>) -> Seq<(Seq<char>, nat)> {
    rows.map_values(|row: LeakRow| (row.site@, row.bytes as nat))
}

/// `view` shows the `n` call sites with most leaked bytes, and what is leaked in all.
pub open spec fn is_leak_view(
    view: LeakView,
    l: Ledger,
    threshold: u64,
    definite: bool,
    n: nat,
) -> bool {
    &&& view.definite == definite
    &&& view.age_threshold == threshold
    &&& view.total_bytes == tally(l.blocks, leaked_size(l.tick, threshold as nat, definite))
    &&& view.total_count == tally(l.blocks, leaked_one(l.tick, threshold as nat, definite))
    &&& is_ranking(
        leak_rows(view.rows@),
        leaks_at(l, threshold as nat, definite),
        leaked_by(l, threshold as nat, definite),
        n,
    )
    &&& forall|i: int|
        0 <= i < view.rows@.len() ==> {
            let row = #[trigger] view.rows@[i];
            &&& row.count == leaked_count_at(l, threshold as nat, definite, row.site@)
            &&& is_oldest(row.oldest_age as nat, l, threshold as nat, definite, row.site@)
        }
}

/// `row` shows the entry of `site`.
pub open spec fn is_leak_row(row: LeakRow, site: Seq<char>, entry: (u64, u64, u64)) -> bool {
    &&& row.site@ == site
    &&& row.bytes == entry.0
    &&& row.count == entry.1
    &&& row.oldest_age == entry.2
}

/// `rows` show the `n` entries of `agg` with most bytes.
pub open spec fn is_leak_list(
    rows: Seq<LeakRow>,
    agg: Map<Seq<char>, (u64, u64, u64)>,
    n: nat,
) -> bool {
    &&& is_ranking(
        leak_rows(rows),
        |site: Seq<char>| agg.contains_key(site),
        |site: Seq<char>| agg[site].0 as nat,
        n,
    )
    &&& forall|i: int|
        0 <= i < rows.len() ==> is_leak_row(
            #[trigger] rows[i],
            rows[i].site@,
            agg[rows[i].site@],
        )
}

/// A list of entries that was gathered from a listing of the live blocks shows their leaks.
pub proof fn lemma_leak_view(
    view: LeakView,
    agg: Map<Seq<char>, (u64, u64, u64)>,
    l: Ledger,
    keys: Seq<usize>,
    threshold: u64,
    definite: bool,
    n: nat,
)
    requires
        lists(keys, l.blocks),
        is_leak_list(view.rows@, agg, n),
        view.definite == definite,
        view.age_threshold == threshold,
        view.total_bytes == total(
            values_at(l.blocks, keys),
            leaked_size(l.tick, threshold as nat, definite),
        ),
        view.total_count == total(
            values_at(l.blocks, keys),
            leaked_one(l.tick, threshold as nat, definite),
        ),
        forall|site: Seq<char>| #[trigger]
            agg.contains_key(site) ==> leak_entry(
                agg[site],
                values_at(l.blocks, keys),
                l.tick,
                threshold as nat,
                definite,
                site,
            ),
        forall|k: int|
            0 <= k < keys.len() && is_leaked(
                l.tick,
                threshold as nat,
                definite,
                #[trigger] values_at(l.blocks, keys)[k],
            ) ==> agg.contains_key(values_at(l.blocks, keys)[k].site),
    ensures
        is_leak_view(view, l, threshold, definite, n),
{
    let all = values_at(l.blocks, keys);
    let t = threshold as nat;
    let size = leaked_size(l.tick, t, definite);
    let one = leaked_one(l.tick, t, definite);
    lemma_tally_listing(l.blocks, keys, size);
    lemma_tally_listing(l.blocks, keys, one);
    assert forall|site: Seq<char>| leaked_bytes_at(l, t, definite, site) == total(
        all,
        only_at(site, size),
    ) && leaked_count_at(l, t, definite, site) == #[trigger] total(all, only_at(site, one)) by {
        lemma_tally_listing(l.blocks, keys, only_at(site, size));
        lemma_tally_listing(l.blocks, keys, only_at(site, one));
    }
    let pool = leaks_at(l, t, definite);
    let weight = leaked_by(l, t, definite);
    let listed = |site: Seq<char>| agg.contains_key(site);
    let bytes = |site: Seq<char>| agg[site].0 as nat;
    assert forall|site: Seq<char>| #[trigger] pool(site) <==> agg.contains_key(site) by {
        assert(leaked_count_at(l, t, definite, site) == total(all, only_at(site, one)));
        if agg.contains_key(site) {
            assert(leak_entry(agg[site], all, l.tick, t, definite, site));
        } else {
            assert forall|k: int| 0 <= k < all.len() implies !((#[trigger] all[k]).site == site
                && is_leaked(l.tick, t, definite, all[k])) by {}
            lemma_leaks_none(all, l.tick, t, definite, site);
        }
    }
    assert forall|site: Seq<char>| agg.contains_key(site) implies #[trigger] weight(site) == bytes(
        site,
    ) by {
        assert(leaked_count_at(l, t, definite, site) == total(all, only_at(site, one)));
        assert(leak_entry(agg[site], all, l.tick, t, definite, site));
    }
    let rows = leak_rows(view.rows@);
    assert(is_ranking(rows, listed, bytes, n));
    assert forall|i: int| 0 <= i < rows.len() implies pool((#[trigger] rows[i]).0) && rows[i].1
        == weight(rows[i].0) by {
        assert(listed(rows[i].0));
    }
    assert forall|site: Seq<char>| #[trigger] pool(site) && !ranked(rows, site) implies rows.len()
        == n && forall|i: int| 0 <= i < rows.len() ==> weight(site) <= (#[trigger] rows[i]).1 by {
        assert(listed(site));
    }
    assert forall|i: int| 0 <= i < view.rows@.len() implies {
        let row = #[trigger] view.rows@[i];
        &&& row.count == leaked_count_at(l, t, definite, row.site@)
        &&& is_oldest(row.oldest_age as nat, l, t, definite, row.site@)
    } by {
        let row = view.rows@[i];
        let site = row.site@;
        assert(listed(rows[i].0));
        assert(agg.contains_key(site));
        assert(is_leak_row(row, site, agg[site]));
        assert(leak_entry(agg[site], all, l.tick, t, definite, site));
        assert(leaked_count_at(l, t, definite, site) == total(all, only_at(site, one)));
        assert forall|ptr: usize| #[trigger]
            l.blocks.contains_key(ptr) && l.blocks[ptr].site == site && is_leaked(
                l.tick,
                t,
                definite,
                l.blocks[ptr],
            ) implies age(l.tick, l.blocks[ptr]) <= row.oldest_age by {
            assert(keys.to_set().contains(ptr));
            let k = choose|k: int| 0 <= k < keys.len() && keys[k] == ptr;
            assert(all[k] == l.blocks[ptr]);
        }
        let k = choose|k: int|
            0 <= k < all.len() && (#[trigger] all[k]).site == site && is_leaked(
                l.tick,
                t,
                definite,
                all[k],
            ) && age(l.tick, all[k]) == agg[site].2;
        assert(keys.to_set().contains(keys[k]));
        assert(l.blocks.contains_key(keys[k]));
    }
}

/// Whether a block was allocated below the call path `path`, which names its outermost function
/// first.
pub open spec fn is_under(path: Seq<usize>, b: Block) -> bool {
    path.is_prefix_of(b.frames.reverse())
}

pub open spec fn size_under(path: Seq<usize>) -> spec_fn(Block) -> nat {
    |b: Block|
        if is_under(path, b) {
            b.size
        } else {
            0
        }
}

/// The live bytes below each call path.
pub open spec fn path_bytes(blocks: Map<usize, Block>) -> spec_fn(Seq<usize>) -> nat {
    |path: Seq<usize>| tally(blocks, size_under(path))
}

/// `nodes` are the boxes right above the call path `path`: one for each next address under
/// which at least `min_bytes` are live, the largest first, each with its own boxes above it.
pub open spec fn is_flame(
    nodes: Seq<FlameNode>,
    path: Seq<usize>,
    bytes: spec_fn(Seq<usize>) -> nat,
    label: spec_fn(usize) -> Seq<char>,
    min_bytes: nat,
) -> bool
    decreases nodes,
{
    exists|addrs: Seq<usize>|
        {
            &&& #[trigger] addrs.no_duplicates()
            &&& addrs.len() == nodes.len()
            &&& forall|i: int|
                0 <= i < nodes.len() ==> {
                    &&& (#[trigger] nodes[i]).bytes == bytes(path.push(addrs[i]))
                    &&& nodes[i].bytes >= min_bytes
                    &&& nodes[i].label@ == label(addrs[i])
                    &&& is_flame(nodes[i].children@, path.push(addrs[i]), bytes, label, min_bytes)
                }
            &&& forall|i: int, j: int|
                0 <= i < j < nodes.len() ==> (#[trigger] nodes[i]).bytes >= (#[trigger] nodes[j]).bytes
            &&& forall|addr: usize|
                bytes(#[trigger] path.push(addr)) >= min_bytes ==> addrs.contains(addr)
        }
}

/// The smallest box that is shown: a two-hundredth of the whole, and never an empty one.
pub open spec fn smallest_box(whole: nat) -> nat {
    if whole / 200 >= 1 {
        whole / 200
    } else {
        1
    }
}

/// `view` shows the live bytes by call path.
pub open spec fn is_flame_view(
    view: FlameView,
    blocks: Map<usize, Block>,
    label: spec_fn(usize) -> Seq<char>,
) -> bool {
    &&& view.total == live_bytes(blocks)
    &&& is_flame(
        view.roots@,
        Seq::empty(),
        path_bytes(blocks),
        label,
        smallest_box(live_bytes(blocks)),
    )
}

/// The texts from the last to the first, with `;` between them and any `;` in them turned
/// into `:`.
pub open spec fn joined_back(list: Seq<Seq<char>>) -> Seq<char>
    decreases list.len(),
{
    if list.len() == 0 {
        Seq::empty()
    } else if list.len() == 1 {
        replaced(list[0], ';', ':')
    } else {
        joined_back(list.drop_first()) + ";"@ + replaced(list[0], ';', ':')
    }
}

/// The line that a block belongs to among the folded stacks: its call stack, outermost function
/// first.
pub open spec fn folded_key(names: Names, known: Names, b: Block) -> Seq<char> {
    let labels = stack_labels(names, known, b.frames);
    if labels.len() == 0 {
        "[unknown]"@
    } else {
        joined_back(labels)
    }
}

pub open spec fn folds(names: Names, known: Names) -> spec_fn(Block) -> Seq<char> {
    |b: Block| folded_key(names, known, b)
}

pub open spec fn size_at_key(
    class: spec_fn(Block) -> Seq<char>,
    key: Seq<char>,
) -> spec_fn(Block) -> nat {
    |b: Block|
        if class(b) == key {
            b.size
        } else {
            0
        }
}

/// The live bytes of one line of the folded stacks.
pub open spec fn folded_bytes(
    blocks: Map<usize, Block>,
    class: spec_fn(Block) -> Seq<char>,
    key: Seq<char>,
) -> nat {
    tally(blocks, size_at_key(class, key))
}

/// One line per key: the key and its bytes.
pub open spec fn folded_lines(
    keys: Seq<Seq<char>>,
    blocks: Map<usize, Block>,
    class: spec_fn(Block) -> Seq<char>,
) -> Seq<char>
    decreases keys.len(),
{
    if keys.len() == 0 {
        Seq::empty()
    } else {
        folded_lines(keys.drop_last(), blocks, class) + keys.last() + " "@ + decimal(
            folded_bytes(blocks, class, keys.last()),
        ) + "\n"@
    }
}

/// `keys` names every line of the folded stacks once.
pub open spec fn lists_keys(
    keys: Seq<Seq<char>>,
    blocks: Map<usize, Block>,
    class: spec_fn(Block) -> Seq<char>,
) -> bool {
    &&& keys.no_duplicates()
    &&& forall|ptr: usize| #[trigger] blocks.contains_key(ptr) ==> keys.contains(class(blocks[ptr]))
    &&& forall|i: int|
        0 <= i < keys.len() ==> exists|ptr: usize| #[trigger]
            blocks.contains_key(ptr) && class(blocks[ptr]) == #[trigger] keys[i]
}

/// `text` holds the folded stacks, in some order.
pub open spec fn is_folded(
    text: Seq<char>,
    blocks: Map<usize, Block>,
    class: spec_fn(Block) -> Seq<char>,
) -> bool {
    exists|keys: Seq<Seq<char>>| #[trigger]
        lists_keys(keys, blocks, class) && text == folded_lines(keys, blocks, class)
}

/// Once the target is gone, every block that is still live is a leak: none is left out and
/// nothing else is counted.
pub proof fn law_survivors_are_leaks(l: Ledger, threshold: nat)
    requires
        l.blocks.dom().finite(),
    ensures
        tally(l.blocks, leaked_size(l.tick, threshold, true)) == live_bytes(l.blocks),
        tally(l.blocks, leaked_one(l.tick, threshold, true)) == l.blocks.len(),
{
    lemma_tally_same(l.blocks, leaked_size(l.tick, threshold, true), block_size());
    lemma_tally_counts(l.blocks);
    lemma_tally_same(l.blocks, leaked_one(l.tick, threshold, true), |b: Block| 1nat);
}

/// While the target runs, leaks are gated by age: a higher threshold never shows more of them,
/// and they are never more than what is live.
pub proof fn law_leaks_are_gated_by_age(l: Ledger, low: nat, high: nat)
    requires
        l.blocks.dom().finite(),
        low <= high,
    ensures
        tally(l.blocks, leaked_size(l.tick, high, false)) <= tally(
            l.blocks,
            leaked_size(l.tick, low, false),
        ),
        tally(l.blocks, leaked_size(l.tick, low, false)) <= live_bytes(l.blocks),
        tally(l.blocks, leaked_one(l.tick, high, false)) <= tally(
            l.blocks,
            leaked_one(l.tick, low, false),
        ),
        tally(l.blocks, leaked_one(l.tick, low, false)) <= l.blocks.len(),
{
    lemma_tally_le(l.blocks, leaked_one(l.tick, high, false), leaked_one(l.tick, low, false));
    lemma_tally_le(l.blocks, leaked_one(l.tick, low, false), |b: Block| 1nat);
    lemma_tally_counts(l.blocks);
    lemma_tally_le(
        l.blocks,
        leaked_size(l.tick, high, false),
        leaked_size(l.tick, low, false),
    );
    lemma_tally_le(l.blocks, leaked_size(l.tick, low, false), block_size());
}

/// A block that is freed leaves every view: its bytes are taken from its call site, from the
/// leaks and from every call path that it lay under, and from nothing else.
pub proof fn law_freed_block_leaves_every_view(
    l: Ledger,
    ev: AllocEvent,
    known: Names,
    threshold: nat,
    definite: bool,
    site: Seq<char>,
    path: Seq<usize>,
)
    requires
        sound(l),
        ev.kind == 1,
        l.blocks.contains_key(ev.ptr),
    ensures
        ({
            let next = applied(l, ev, known);
            let gone = l.blocks[ev.ptr];
            &&& site_bytes(l.blocks, site) == site_bytes(next.blocks, site) + if gone.site == site {
                gone.size
            } else {
                0
            }
            &&& tally(l.blocks, leaked_size(l.tick, threshold, definite)) == tally(
                next.blocks,
                leaked_size(next.tick, threshold, definite),
            ) + if is_leaked(l.tick, threshold, definite, gone) {
                gone.size
            } else {
                0
            }
            &&& path_bytes(l.blocks)(path) == path_bytes(next.blocks)(path) + if is_under(
                path,
                gone,
            ) {
                gone.size
            } else {
                0
            }
        }),
{
    lemma_tally_remove(l.blocks, ev.ptr, size_at_site(site));
    lemma_tally_remove(l.blocks, ev.ptr, leaked_size(l.tick, threshold, definite));
    lemma_tally_remove(l.blocks, ev.ptr, size_under(path));
}

/// Call sites share the live bytes among them: any different ones hold no more than all that is
/// live, and just as much if no block but an empty one belongs to another.
pub proof fn law_sites_share_the_live_bytes(blocks: Map<usize, Block>, sites: Seq<Seq<char>>)
    requires
        blocks.dom().finite(),
        sites.no_duplicates(),
    ensures
        total(sites, bytes_held(blocks)) <= live_bytes(blocks),
        (forall|ptr: usize| #[trigger]
            blocks.contains_key(ptr) && blocks[ptr].size > 0 ==> sites.contains(blocks[ptr].site))
            ==> total(sites, bytes_held(blocks)) == live_bytes(blocks),
{
    let class = |b: Block| b.site;
    lemma_tally_classes_share(blocks, class, block_size(), sites);
    let shared = |s: Seq<char>| tally(blocks, weight_of_class(class, block_size(), s));
    assert forall|s: Seq<char>| #[trigger] shared(s) == bytes_held(blocks)(s) by {
        lemma_tally_same(blocks, weight_of_class(class, block_size(), s), size_at_site(s));
    }
    lemma_total_le(sites, shared, bytes_held(blocks));
    lemma_total_le(sites, bytes_held(blocks), shared);
}

/// The call sites of some rows.
pub open spec fn sites_in(rows: Seq<(Seq<char>, nat)>) -> Seq<Seq<char>> {
    rows.map_values(|row: (Seq<char>, nat)| row.0)
}

/// The weights of some rows, summed up.
pub open spec fn rows_total(rows: Seq<(Seq<char>, nat)>) -> nat {
    total(rows, |row: (Seq<char>, nat)| row.1)
}

/// A ranking shows as many call sites as it may and as there are.
pub proof fn law_ranking_is_full(
    rows: Seq<(Seq<char>, nat)>,
    pool: Set<Seq<char>>,
    weight: spec_fn(Seq<char>) -> nat,
    n: nat,
)
    requires
        pool.finite(),
        is_ranking(rows, |site: Seq<char>| pool.contains(site), weight, n),
    ensures
        rows.len() == if pool.len() <= n {
            pool.len()
        } else {
            n
        },
{
    let sites = sites_in(rows);
    let inside = |site: Seq<char>| pool.contains(site);
    assert(sites.no_duplicates());
    sites.unique_seq_to_set();
    assert(sites.to_set().subset_of(pool)) by {
        assert forall|site: Seq<char>| sites.to_set().contains(site) implies pool.contains(
            site,
        ) by {
            let k = choose|k: int| 0 <= k < sites.len() && sites[k] == site;
            assert(inside(rows[k].0));
        }
    }
    lemma_len_subset(sites.to_set(), pool);
    if rows.len() < n {
        assert forall|site: Seq<char>| pool.contains(site) implies sites.to_set().contains(site) by {
            assert(inside(site));
            assert(ranked(rows, site));
            let k = choose|k: int| 0 <= k < rows.len() && (#[trigger] rows[k]).0 == site;
            assert(sites[k] == site);
        }
        assert(sites.to_set() =~= pool);
    }
}

/// The call sites that hold live bytes, as a set.
pub open spec fn offending(blocks: Map<usize, Block>) -> Set<Seq<char>> {
    blocks.dom().map(|ptr: usize| blocks[ptr].site).filter(holds_bytes(blocks))
}

/// Whoever holds live bytes has a block.
proof fn lemma_offending(blocks: Map<usize, Block>, site: Seq<char>)
    requires
        blocks.dom().finite(),
    ensures
        offending(blocks).finite(),
        offending(blocks).contains(site) == holds_bytes(blocks)(site),
{
    let at = |ptr: usize| blocks[ptr].site;
    blocks.dom().lemma_map_finite(at);
    blocks.dom().map(at).lemma_len_filter(holds_bytes(blocks));
    if site_bytes(blocks, site) > 0 {
        if forall|ptr: usize| #[trigger] blocks.contains_key(ptr) ==> blocks[ptr].site != site {
            lemma_tally_same(blocks, size_at_site(site), |b: Block| 0nat);
            lemma_tally_nothing(blocks);
        }
        let ptr = choose|ptr: usize| #[trigger] blocks.contains_key(ptr) && blocks[ptr].site == site;
        assert(blocks.dom().contains(ptr) && at(ptr) == site);
        assert(blocks.dom().map(at).contains(site));
    }
}

/// There are no more blocks than addresses.
proof fn lemma_blocks_have_addresses(blocks: Map<usize, Block>)
    requires
        blocks.dom().finite(),
        !blocks.contains_key(0),
    ensures
        blocks.len() <= usize::MAX,
{
    let number = |ptr: usize| ptr as int;
    let numbers = blocks.dom().map(number);
    let all = set_int_range(1, usize::MAX + 1);
    lemma_map_size(blocks.dom(), numbers, number);
    lemma_int_range(1, usize::MAX + 1);
    assert forall|n: int| numbers.contains(n) implies all.contains(n) by {
        let ptr = choose|ptr: usize| blocks.dom().contains(ptr) && number(ptr) == n;
        assert(blocks.contains_key(ptr));
    }
    lemma_len_subset(numbers, all);
}

/// The list of offenders shows as many call sites as it may and as hold live bytes. If it may
/// show as many as there are blocks, or addresses, nothing is left out: its bytes add up to all
/// that is live.
pub proof fn law_offenders_add_up(rows: Seq<(String, u64)>, blocks: Map<usize, Block>, n: nat)
    requires
        blocks.dom().finite(),
        is_offender_list(rows, blocks, n),
    ensures
        rows.len() == if offending(blocks).len() <= n {
            offending(blocks).len()
        } else {
            n
        },
        offending(blocks).len() <= blocks.len(),
        rows_total(offender_rows(rows)) <= live_bytes(blocks),
        blocks.len() <= n || (n == usize::MAX && !blocks.contains_key(0)) ==> rows_total(
            offender_rows(rows),
        ) == live_bytes(blocks),
{
    let list = offender_rows(rows);
    let sites = sites_in(list);
    let pool = offending(blocks);
    lemma_offending(blocks, Seq::empty());
    let inside = |site: Seq<char>| pool.contains(site);
    assert forall|site: Seq<char>| #[trigger] inside(site) == holds_bytes(blocks)(site) by {
        lemma_offending(blocks, site);
    }
    assert(inside =~= holds_bytes(blocks));
    law_ranking_is_full(list, pool, bytes_held(blocks), n);
    assert(sites.no_duplicates());
    lemma_rows_total(list, bytes_held(blocks));
    law_sites_share_the_live_bytes(blocks, sites);
    let at = |ptr: usize| blocks[ptr].site;
    blocks.dom().lemma_map_finite(at);
    lemma_map_size_bound(blocks.dom(), blocks.dom().map(at), at);
    blocks.dom().map(at).lemma_len_filter(holds_bytes(blocks));
    if n == usize::MAX && !blocks.contains_key(0) {
        lemma_blocks_have_addresses(blocks);
    }
    if blocks.len() <= n {
        assert forall|ptr: usize| #[trigger]
            blocks.contains_key(ptr) && blocks[ptr].size > 0 implies sites.contains(
            blocks[ptr].site,
        ) by {
            let site = blocks[ptr].site;
            lemma_tally_remove(blocks, ptr, size_at_site(site));
            assert(holds_bytes(blocks)(site));
            lemma_full_ranking(list, pool, bytes_held(blocks), n, site);
        }
    }
}

/// A ranking that has room for the whole pool leaves no one out.
proof fn lemma_full_ranking(
    rows: Seq<(Seq<char>, nat)>,
    pool: Set<Seq<char>>,
    weight: spec_fn(Seq<char>) -> nat,
    n: nat,
    site: Seq<char>,
)
    requires
        pool.finite(),
        is_ranking(rows, |site: Seq<char>| pool.contains(site), weight, n),
        pool.len() <= n,
        pool.contains(site),
    ensures
        sites_in(rows).contains(site),
{
    let sites = sites_in(rows);
    let inside = |site: Seq<char>| pool.contains(site);
    law_ranking_is_full(rows, pool, weight, n);
    if !sites.contains(site) {
        assert(sites.no_duplicates());
        sites.unique_seq_to_set();
        assert forall|s: Seq<char>| sites.to_set().contains(s) implies pool.remove(site).contains(
            s,
        ) by {
            let k = choose|k: int| 0 <= k < sites.len() && sites[k] == s;
            assert(inside(rows[k].0));
        }
        lemma_len_subset(sites.to_set(), pool.remove(site));
    }
}

/// Rows that weigh what `weight` says of their call sites add up to what it says of all of them.
proof fn lemma_rows_total(rows: Seq<(Seq<char>, nat)>, weight: spec_fn(Seq<char>) -> nat)
    requires
        forall|i: int| 0 <= i < rows.len() ==> (#[trigger] rows[i]).1 == weight(rows[i].0),
    ensures
        rows_total(rows) == total(sites_in(rows), weight),
    decreases rows.len(),
{
    if rows.len() > 0 {
        assert(rows[rows.len() - 1] == rows.last());
        lemma_rows_total(rows.drop_last(), weight);
        assert(sites_in(rows).drop_last() =~= sites_in(rows.drop_last()));
    }
}

/// The bytes on the lines of the folded stacks add up to all that is live.
pub proof fn law_folded_stacks_add_up(
    keys: Seq<Seq<char>>,
    blocks: Map<usize, Block>,
    class: spec_fn(Block) -> Seq<char>,
)
    requires
        blocks.dom().finite(),
        lists_keys(keys, blocks, class),
    ensures
        total(keys, |key: Seq<char>| folded_bytes(blocks, class, key)) == live_bytes(blocks),
{
    lemma_tally_classes_share(blocks, class, block_size(), keys);
    let shared = |key: Seq<char>| tally(blocks, weight_of_class(class, block_size(), key));
    let folded = |key: Seq<char>| folded_bytes(blocks, class, key);
    assert forall|key: Seq<char>| #[trigger] shared(key) == folded(key) by {
        lemma_tally_same(blocks, weight_of_class(class, block_size(), key), size_at_key(class, key));
    }
    lemma_total_le(keys, shared, folded);
    lemma_total_le(keys, folded, shared);
}

/// The empty call path holds everything that is live.
pub proof fn law_root_holds_everything(blocks: Map<usize, Block>)
    ensures
        path_bytes(blocks)(Seq::empty()) == live_bytes(blocks),
{
    assert forall|ptr: usize| #[trigger] blocks.contains_key(ptr) implies size_under(
        Seq::empty(),
    )(blocks[ptr]) == block_size()(blocks[ptr]) by {
        assert(Seq::<usize>::empty() =~= blocks[ptr].frames.reverse().subrange(0, 0));
    }
    lemma_tally_same(blocks, size_under(Seq::empty()), block_size());
}

} // verus!
