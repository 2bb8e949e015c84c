//! What the views show of the live blocks.

use crate::flame::law_boxes_fit_on_each_other;
use crate::laws::tracking::lemma_ticks_keep_blocks;
use crate::ledger::live_bytes;
use crate::ledger::site_bytes;
use crate::ledger::size_at_site;
use crate::ledger::sound;
use crate::ledger::ticked_times;
use crate::ledger::Block;
use crate::ledger::Ledger;
use crate::state::FlameNode;
use crate::state::FlameView;
use crate::state::HeatView;
use crate::state::LeakView;
use crate::tally::lemma_tally_le;
use crate::tally::lemma_tally_same;
use crate::tally::tally;
use crate::tally::total;
use crate::views::bytes_held;
use crate::views::holds_bytes;
use crate::views::is_flame;
use crate::views::is_flame_view;
use crate::views::is_heat_view;
use crate::views::is_leak_view;
use crate::views::is_offender_list;
use crate::views::leak_rows;
use crate::views::leaked_count_at;
use crate::views::leaked_one;
use crate::views::leaked_size;
use crate::views::leaks_at;
use crate::views::offender_rows;
use crate::views::only_at;
use crate::views::path_bytes;
use crate::views::ranked;
use crate::views::size_under;
use crate::views::smallest_box;
use vstd::prelude::*;

verus! {

/// The size of a block, if it was allocated by `site`.
pub open spec fn size_if_by(site: Seq<char>) -> spec_fn(Block) -> nat {
    |b: Block|
        if b.site == site {
            b.size
        } else {
            0
        }
}

/// The list of offenders names different call sites, the ones with most live bytes first, each
/// with what its live blocks add up to; and whoever is left out holds no more than anyone listed.
pub proof fn law_offenders_are_the_heaviest(
    rows: Seq<(String, u64)>,
    blocks: Map<usize, Block>,
    n: nat,
)
    requires
        is_offender_list(rows, blocks, n),
    ensures
        rows.len() <= n,
        forall|i: int| #![trigger rows[i]]
            0 <= i < rows.len() ==> rows[i].1 == tally(blocks, size_if_by(rows[i].0@))
                && rows[i].1 > 0,
        forall|i: int, j: int| #![trigger rows[i], rows[j]]
            0 <= i < j < rows.len() ==> rows[i].0@ != rows[j].0@ && rows[i].1 >= rows[j].1,
        forall|site: Seq<char>| #![trigger size_if_by(site)]
            tally(blocks, size_if_by(site)) > 0 && (forall|i: int| #![trigger rows[i]]
                0 <= i < rows.len() ==> rows[i].0@ != site) ==> rows.len() == n && forall|i: int|
                #![trigger rows[i]]
                0 <= i < rows.len() ==> rows[i].1 >= tally(blocks, size_if_by(site)),
{
    let list = offender_rows(rows);
    assert forall|site: Seq<char>| #[trigger] site_bytes(blocks, site) == tally(
        blocks,
        size_if_by(site),
    ) by {
        lemma_tally_same(blocks, size_at_site(site), size_if_by(site));
    }
    assert forall|i: int| #![trigger rows[i]] 0 <= i < rows.len() implies rows[i].1 == tally(
        blocks,
        size_if_by(rows[i].0@),
    ) && rows[i].1 > 0 by {
        assert(holds_bytes(blocks)(list[i].0));
        assert(list[i].1 == bytes_held(blocks)(list[i].0));
        assert(site_bytes(blocks, rows[i].0@) == tally(blocks, size_if_by(rows[i].0@)));
    }
    assert forall|i: int, j: int| #![trigger rows[i], rows[j]]
        0 <= i < j < rows.len() implies rows[i].0@ != rows[j].0@ && rows[i].1 >= rows[j].1 by {
        assert(list[i].0 != list[j].0 && list[i].1 >= list[j].1);
    }
    assert forall|site: Seq<char>| #![trigger size_if_by(site)]
        tally(blocks, size_if_by(site)) > 0 && (forall|i: int| #![trigger rows[i]]
            0 <= i < rows.len() ==> rows[i].0@ != site) implies rows.len() == n && forall|i: int|
        #![trigger rows[i]]
        0 <= i < rows.len() ==> rows[i].1 >= tally(blocks, size_if_by(site)) by {
        assert(site_bytes(blocks, site) == tally(blocks, size_if_by(site)));
        assert(holds_bytes(blocks)(site));
        assert(!ranked(list, site)) by {
            if ranked(list, site) {
                let k = choose|k: int| 0 <= k < list.len() && (#[trigger] list[k]).0 == site;
                assert(rows[k].0@ == site);
            }
        }
        assert forall|i: int| #![trigger rows[i]] 0 <= i < rows.len() implies rows[i].1 >= tally(
            blocks,
            size_if_by(site),
        ) by {
            assert(bytes_held(blocks)(site) <= list[i].1);
        }
    }
}

/// The size of a block, if it was allocated at least `age` ticks before `tick`.
pub open spec fn size_if_old(tick: nat, age: nat) -> spec_fn(Block) -> nat {
    |b: Block|
        if b.alloc_tick + age <= tick {
            b.size
        } else {
            0
        }
}

/// 1 for a block that was allocated at least `age` ticks before `tick`.
pub open spec fn one_if_old(tick: nat, age: nat) -> spec_fn(Block) -> nat {
    |b: Block|
        if b.alloc_tick + age <= tick {
            1
        } else {
            0
        }
}

/// A weight, for the blocks of `site` alone.
pub open spec fn at_site(site: Seq<char>, weight: spec_fn(Block) -> nat) -> spec_fn(Block) -> nat {
    |b: Block|
        if b.site == site {
            weight(b)
        } else {
            0
        }
}

/// What the leaks show in all and of each call site: every block that is old enough, however old,
/// or simply every block once the target has exited.
pub proof fn law_leaks_are_the_old_blocks(
    view: LeakView,
    l: Ledger,
    threshold: u64,
    definite: bool,
    n: nat,
)
    requires
        sound(l),
        is_leak_view(view, l, threshold, definite, n),
    ensures
        ({
            let least = if definite {
                0
            } else {
                threshold as nat
            };
            let size = size_if_old(l.tick, least);
            let one = one_if_old(l.tick, least);
            &&& view.total_bytes == tally(l.blocks, size)
            &&& view.total_count == tally(l.blocks, one)
            &&& view.definite == definite
            &&& view.rows@.len() <= n
            &&& forall|i: int| #![trigger view.rows@[i]]
                0 <= i < view.rows@.len() ==> {
                    let row = view.rows@[i];
                    &&& row.bytes == tally(l.blocks, at_site(row.site@, size))
                    &&& row.count == tally(l.blocks, at_site(row.site@, one))
                    &&& row.count > 0
                    &&& forall|ptr: usize| #[trigger]
                        l.blocks.contains_key(ptr) && l.blocks[ptr].site == row.site@
                            && l.blocks[ptr].alloc_tick + least <= l.tick ==> l.tick
                            - l.blocks[ptr].alloc_tick <= row.oldest_age
                    &&& exists|ptr: usize| #[trigger]
                        l.blocks.contains_key(ptr) && l.blocks[ptr].site == row.site@
                            && l.blocks[ptr].alloc_tick + least <= l.tick && l.tick
                            - l.blocks[ptr].alloc_tick == row.oldest_age
                }
            &&& forall|i: int, j: int| #![trigger view.rows@[i], view.rows@[j]]
                0 <= i < j < view.rows@.len() ==> view.rows@[i].site@ != view.rows@[j].site@
                    && view.rows@[i].bytes >= view.rows@[j].bytes
            &&& forall|site: Seq<char>| #![trigger at_site(site, one)]
                tally(l.blocks, at_site(site, one)) > 0 && (forall|i: int| #![trigger view.rows@[i]]
                    0 <= i < view.rows@.len() ==> view.rows@[i].site@ != site)
                    ==> view.rows@.len() == n && forall|i: int| #![trigger view.rows@[i]]
                    0 <= i < view.rows@.len() ==> view.rows@[i].bytes >= tally(
                        l.blocks,
                        at_site(site, size),
                    )
        }),
{
    let t = threshold as nat;
    let least = if definite {
        0
    } else {
        t
    };
    let size = size_if_old(l.tick, least);
    let one = one_if_old(l.tick, least);
    let rows = view.rows@;
    let list = leak_rows(rows);
    lemma_tally_same(l.blocks, leaked_size(l.tick, t, definite), size);
    lemma_tally_same(l.blocks, leaked_one(l.tick, t, definite), one);
    assert forall|site: Seq<char>|
        #![trigger at_site(site, one)]
        #![trigger leaked_count_at(l, t, definite, site)]
        leaked_count_at(l, t, definite, site) == tally(l.blocks, at_site(site, one))
            && crate::views::leaked_bytes_at(l, t, definite, site) == tally(
            l.blocks,
            at_site(site, size),
        ) by {
        lemma_tally_same(
            l.blocks,
            only_at(site, leaked_size(l.tick, t, definite)),
            at_site(site, size),
        );
        lemma_tally_same(
            l.blocks,
            only_at(site, leaked_one(l.tick, t, definite)),
            at_site(site, one),
        );
    }
    assert forall|i: int| #![trigger rows[i]] 0 <= i < rows.len() implies {
        let row = rows[i];
        &&& row.bytes == tally(l.blocks, at_site(row.site@, size))
        &&& row.count == tally(l.blocks, at_site(row.site@, one))
        &&& row.count > 0
        &&& forall|ptr: usize| #[trigger]
            l.blocks.contains_key(ptr) && l.blocks[ptr].site == row.site@
                && l.blocks[ptr].alloc_tick + least <= l.tick ==> l.tick - l.blocks[ptr].alloc_tick
                <= row.oldest_age
        &&& exists|ptr: usize| #[trigger]
            l.blocks.contains_key(ptr) && l.blocks[ptr].site == row.site@
                && l.blocks[ptr].alloc_tick + least <= l.tick && l.tick - l.blocks[ptr].alloc_tick
                == row.oldest_age
    } by {
        let site = rows[i].site@;
        assert(leaks_at(l, t, definite)(list[i].0));
        assert(leaked_count_at(l, t, definite, site) == tally(l.blocks, at_site(site, one)));
    }
    assert forall|i: int, j: int| #![trigger rows[i], rows[j]]
        0 <= i < j < rows.len() implies rows[i].site@ != rows[j].site@ && rows[i].bytes
        >= rows[j].bytes by {
        assert(list[i].0 != list[j].0 && list[i].1 >= list[j].1);
    }
    assert forall|site: Seq<char>| #![trigger at_site(site, one)]
        tally(l.blocks, at_site(site, one)) > 0 && (forall|i: int| #![trigger rows[i]]
            0 <= i < rows.len() ==> rows[i].site@ != site) implies rows.len() == n && forall|i: int|
        #![trigger rows[i]]
        0 <= i < rows.len() ==> rows[i].bytes >= tally(l.blocks, at_site(site, size)) by {
        assert(leaks_at(l, t, definite)(site));
        assert(!ranked(list, site)) by {
            if ranked(list, site) {
                let k = choose|k: int| 0 <= k < list.len() && (#[trigger] list[k]).0 == site;
                assert(rows[k].site@ == site);
            }
        }
        assert forall|i: int| #![trigger rows[i]] 0 <= i < rows.len() implies rows[i].bytes
            >= tally(l.blocks, at_site(site, size)) by {
            assert(crate::views::leaked_by(l, t, definite)(site) <= list[i].1);
        }
    }
}

/// Leaks do not go away by themselves: as long as nothing is freed, what is shown as leaked only
/// grows from tick to tick; and after as many ticks as the threshold asks for, it is everything.
pub proof fn law_leaks_last(
    l: Ledger,
    now: LeakView,
    later: LeakView,
    threshold: u64,
    ticks: nat,
    n: nat,
)
    requires
        sound(l),
        is_leak_view(now, l, threshold, false, n),
        is_leak_view(later, ticked_times(l, ticks), threshold, false, n),
    ensures
        now.total_bytes <= later.total_bytes,
        now.total_count <= later.total_count,
        ticks >= threshold ==> later.total_bytes == live_bytes(l.blocks),
        ticks >= threshold ==> later.total_count == l.blocks.len(),
{
    let t = threshold as nat;
    let next = ticked_times(l, ticks);
    lemma_ticks_keep_blocks(l, ticks);
    lemma_tally_le(l.blocks, leaked_size(l.tick, t, false), leaked_size(next.tick, t, false));
    lemma_tally_le(l.blocks, leaked_one(l.tick, t, false), leaked_one(next.tick, t, false));
    if ticks >= threshold {
        lemma_tally_same(
            l.blocks,
            leaked_size(next.tick, t, false),
            crate::ledger::block_size(),
        );
        crate::tally::lemma_tally_counts(l.blocks);
        lemma_tally_same(l.blocks, leaked_one(next.tick, t, false), |b: Block| 1nat);
    }
}

/// The size of a block, if the outermost calls of its stack are those of `path`, outermost first.
pub open spec fn size_if_along(path: Seq<usize>) -> spec_fn(Block) -> nat {
    |b: Block|
        if path.len() <= b.frames.len() && forall|k: int|
            0 <= k < path.len() ==> #[trigger] path[k] == b.frames[b.frames.len() - 1 - k] {
            b.size
        } else {
            0
        }
}

/// Boxes upon each other: the first is one of `roots`, and each other one stands on the one
/// before it.
pub open spec fn is_tower(tower: Seq<FlameNode>, roots: Seq<FlameNode>) -> bool {
    forall|k: int| #![trigger tower[k]]
        0 <= k < tower.len() ==> if k == 0 {
            roots.contains(tower[0])
        } else {
            tower[k - 1].children@.contains(tower[k])
        }
}

/// `tower` shows the calls of `path`: their labels, and the live bytes below each of them.
pub open spec fn shows_path(
    tower: Seq<FlameNode>,
    path: Seq<usize>,
    blocks: Map<usize, Block>,
    label: spec_fn(usize) -> Seq<char>,
) -> bool {
    &&& tower.len() == path.len()
    &&& forall|k: int| #![trigger tower[k]]
        0 <= k < tower.len() ==> tower[k].label@ == label(path[k]) && tower[k].bytes == tally(
            blocks,
            size_if_along(path.take(k + 1)),
        )
}

proof fn lemma_along(blocks: Map<usize, Block>, path: Seq<usize>)
    ensures
        path_bytes(blocks)(path) == tally(blocks, size_if_along(path)),
{
    assert forall|ptr: usize| #[trigger] blocks.contains_key(ptr) implies size_under(path)(
        blocks[ptr],
    ) == size_if_along(path)(blocks[ptr]) by {
        let b = blocks[ptr];
        let down = b.frames.reverse();
        if path.is_prefix_of(down) {
            assert forall|k: int| 0 <= k < path.len() implies #[trigger] path[k] == b.frames[
            b.frames.len() - 1 - k] by {
                assert(path[k] == down.subrange(0, path.len() as int)[k]);
            }
        } else if path.len() <= b.frames.len() && (forall|k: int|
            0 <= k < path.len() ==> #[trigger] path[k] == b.frames[b.frames.len() - 1 - k]) {
            assert(path =~= down.subrange(0, path.len() as int));
        }
    }
    lemma_tally_same(blocks, size_under(path), size_if_along(path));
}

/// A longer path has no more bytes below it.
proof fn lemma_along_shrinks(blocks: Map<usize, Block>, path: Seq<usize>, k: int)
    requires
        0 <= k <= path.len(),
    ensures
        tally(blocks, size_if_along(path)) <= tally(blocks, size_if_along(path.take(k))),
{
    assert forall|ptr: usize| #[trigger] blocks.contains_key(ptr) implies size_if_along(path)(
        blocks[ptr],
    ) <= size_if_along(path.take(k))(blocks[ptr]) by {
        let b = blocks[ptr];
        if path.len() <= b.frames.len() && forall|j: int|
            0 <= j < path.len() ==> #[trigger] path[j] == b.frames[b.frames.len() - 1 - j] {
            assert forall|j: int| 0 <= j < k implies #[trigger] path.take(k)[j] == b.frames[
            b.frames.len() - 1 - j] by {
                assert(path[j] == path.take(k)[j]);
            }
        }
    }
    lemma_tally_le(blocks, size_if_along(path), size_if_along(path.take(k)));
}

/// Every call path below which a two-hundredth of the live bytes lies, and at least one byte, is
/// shown: a tower of boxes leads to it.
pub proof fn law_large_paths_are_shown(
    view: FlameView,
    blocks: Map<usize, Block>,
    label: spec_fn(usize) -> Seq<char>,
    path: Seq<usize>,
)
    requires
        is_flame_view(view, blocks, label),
        path.len() > 0,
        tally(blocks, size_if_along(path)) > 0,
        200 * tally(blocks, size_if_along(path)) >= live_bytes(blocks),
    ensures
        view.total == live_bytes(blocks),
        exists|tower: Seq<FlameNode>|
            #[trigger] is_tower(tower, view.roots@) && shows_path(tower, path, blocks, label),
{
    let min = smallest_box(live_bytes(blocks));
    assert forall|k: int| 0 <= k <= path.len() implies #[trigger] path_bytes(blocks)(path.take(k))
        >= min by {
        lemma_along(blocks, path.take(k));
        lemma_along_shrinks(blocks, path, k);
    }
    assert(path.take(0) =~= Seq::<usize>::empty());
    lemma_tower_exists(view.roots@, blocks, label, min, path, 0);
    let tower = choose|tower: Seq<FlameNode>|
        #[trigger] is_tower(tower, view.roots@) && tower.len() == path.len() && shows_from(
            tower,
            path,
            0,
            blocks,
            label,
        );
    assert forall|k: int| #![trigger tower[k]] 0 <= k < tower.len() implies tower[k].label@
        == label(path[k]) && tower[k].bytes == tally(
        blocks,
        size_if_along(path.take(k + 1)),
    ) by {
        lemma_along(blocks, path.take(k + 1));
    }
    assert(shows_path(tower, path, blocks, label));
}

/// The boxes of `tower` are those for `path` from the call with number `at` on.
spec fn shows_from(
    tower: Seq<FlameNode>,
    path: Seq<usize>,
    at: int,
    blocks: Map<usize, Block>,
    label: spec_fn(usize) -> Seq<char>,
) -> bool {
    forall|k: int| #![trigger tower[k]]
        0 <= k < tower.len() ==> tower[k].label@ == label(path[at + k]) && tower[k].bytes
            == path_bytes(blocks)(path.take(at + k + 1))
}

proof fn lemma_tower_exists(
    nodes: Seq<FlameNode>,
    blocks: Map<usize, Block>,
    label: spec_fn(usize) -> Seq<char>,
    min: nat,
    path: Seq<usize>,
    at: int,
)
    requires
        0 <= at < path.len(),
        is_flame(nodes, path.take(at), path_bytes(blocks), label, min),
        forall|k: int|
            0 <= k <= path.len() ==> #[trigger] path_bytes(blocks)(path.take(k)) >= min,
    ensures
        exists|tower: Seq<FlameNode>|
            #[trigger] is_tower(tower, nodes) && tower.len() == path.len() - at && shows_from(
                tower,
                path,
                at,
                blocks,
                label,
            ),
    decreases path.len() - at,
{
    let here = path.take(at);
    let next = path.take(at + 1);
    let bytes = path_bytes(blocks);
    let addrs = choose|addrs: Seq<usize>|
        {
            &&& #[trigger] addrs.no_duplicates()
            &&& addrs.len() == nodes.len()
            &&& forall|i: int|
                0 <= i < nodes.len() ==> {
                    &&& (#[trigger] nodes[i]).bytes == bytes(here.push(addrs[i]))
                    &&& nodes[i].bytes >= min
                    &&& nodes[i].label@ == label(addrs[i])
                    &&& is_flame(nodes[i].children@, here.push(addrs[i]), bytes, label, min)
                }
            &&& forall|i: int, j: int|
                0 <= i < j < nodes.len() ==> (#[trigger] nodes[i]).bytes >= (#[trigger] nodes[j]).bytes
            &&& forall|addr: usize|
                bytes(#[trigger] here.push(addr)) >= min ==> addrs.contains(addr)
        };
    assert(here.push(path[at]) =~= next);
    assert(bytes(next) >= min);
    assert(addrs.contains(path[at]));
    let i = choose|i: int| 0 <= i < addrs.len() && addrs[i] == path[at];
    let node = nodes[i];
    assert(node.bytes == bytes(next));
    if at + 1 == path.len() {
        let tower = seq![node];
        assert(is_tower(tower, nodes)) by {
            assert(nodes.contains(tower[0]));
        }
        assert(shows_from(tower, path, at, blocks, label));
    } else {
        lemma_tower_exists(node.children@, blocks, label, min, path, at + 1);
        let above = choose|above: Seq<FlameNode>|
            #[trigger] is_tower(above, node.children@) && above.len() == path.len() - (at + 1)
                && shows_from(above, path, at + 1, blocks, label);
        let tower = seq![node] + above;
        assert(is_tower(tower, nodes)) by {
            assert(nodes.contains(tower[0]));
            assert forall|k: int| #![trigger tower[k]] 0 < k < tower.len() implies tower[k
                - 1].children@.contains(tower[k]) by {
                assert(tower[k] == above[k - 1]);
                if k > 1 {
                    assert(tower[k - 1] == above[k - 2]);
                }
            }
        }
        assert(shows_from(tower, path, at, blocks, label)) by {
            assert forall|k: int| #![trigger tower[k]] 0 <= k < tower.len() implies tower[k].label@
                == label(path[at + k]) && tower[k].bytes == path_bytes(blocks)(
                path.take(at + k + 1),
            ) by {
                if k > 0 {
                    assert(tower[k] == above[k - 1]);
                }
            }
        }
    }
}

/// Nothing else is shown: every box stands for a call path of live blocks, below which at least
/// (nearly) a two-hundredth of the live bytes lies.
pub proof fn law_boxes_are_live_paths(
    view: FlameView,
    blocks: Map<usize, Block>,
    label: spec_fn(usize) -> Seq<char>,
    tower: Seq<FlameNode>,
)
    requires
        is_flame_view(view, blocks, label),
        is_tower(tower, view.roots@),
        tower.len() > 0,
    ensures
        exists|path: Seq<usize>| #[trigger] shows_path(tower, path, blocks, label),
        tower.last().bytes > 0,
        200 * (tower.last().bytes + 1) > live_bytes(blocks),
    decreases tower.len(),
{
    let min = smallest_box(live_bytes(blocks));
    lemma_tower_path(view.roots@, Seq::empty(), blocks, label, min, tower);
    let path = choose|path: Seq<usize>|
        path.len() == tower.len() && #[trigger] shows_from(tower, path, 0, blocks, label);
    assert forall|k: int| #![trigger tower[k]] 0 <= k < tower.len() implies tower[k].label@
        == label(path[k]) && tower[k].bytes == tally(
        blocks,
        size_if_along(path.take(k + 1)),
    ) by {
        lemma_along(blocks, path.take(k + 1));
    }
    assert(shows_path(tower, path, blocks, label));
}

proof fn lemma_tower_path(
    nodes: Seq<FlameNode>,
    here: Seq<usize>,
    blocks: Map<usize, Block>,
    label: spec_fn(usize) -> Seq<char>,
    min: nat,
    tower: Seq<FlameNode>,
)
    requires
        is_flame(nodes, here, path_bytes(blocks), label, min),
        is_tower(tower, nodes),
        tower.len() > 0,
    ensures
        exists|path: Seq<usize>|
            path.len() == here.len() + tower.len() && path.take(here.len() as int) == here
                && #[trigger] shows_from(tower, path, here.len() as int, blocks, label),
        tower.last().bytes >= min,
    decreases tower.len(),
{
    let bytes = path_bytes(blocks);
    let addrs = choose|addrs: Seq<usize>|
        {
            &&& #[trigger] addrs.no_duplicates()
            &&& addrs.len() == nodes.len()
            &&& forall|i: int|
                0 <= i < nodes.len() ==> {
                    &&& (#[trigger] nodes[i]).bytes == bytes(here.push(addrs[i]))
                    &&& nodes[i].bytes >= min
                    &&& nodes[i].label@ == label(addrs[i])
                    &&& is_flame(nodes[i].children@, here.push(addrs[i]), bytes, label, min)
                }
            &&& forall|i: int, j: int|
                0 <= i < j < nodes.len() ==> (#[trigger] nodes[i]).bytes >= (#[trigger] nodes[j]).bytes
            &&& forall|addr: usize|
                bytes(#[trigger] here.push(addr)) >= min ==> addrs.contains(addr)
        };
    assert(nodes.contains(tower[0]));
    let i = choose|i: int| 0 <= i < nodes.len() && nodes[i] == tower[0];
    let next = here.push(addrs[i]);
    if tower.len() == 1 {
        let path = next;
        assert(path.take(here.len() as int) =~= here);
        assert(path.take(here.len() as int + 1) =~= next);
        assert(shows_from(tower, path, here.len() as int, blocks, label));
    } else {
        let above = tower.skip(1);
        assert(is_tower(above, tower[0].children@)) by {
            assert forall|k: int| #![trigger above[k]] 0 <= k < above.len() implies if k == 0 {
                tower[0].children@.contains(above[0])
            } else {
                above[k - 1].children@.contains(above[k])
            } by {
                assert(above[k] == tower[k + 1]);
                if k > 0 {
                    assert(above[k - 1] == tower[k]);
                }
            }
        }
        lemma_tower_path(tower[0].children@, next, blocks, label, min, above);
        let path = choose|path: Seq<usize>|
            path.len() == next.len() + above.len() && path.take(next.len() as int) == next
                && #[trigger] shows_from(above, path, next.len() as int, blocks, label);
        assert(path.take(here.len() as int) =~= path.take(next.len() as int).take(
            here.len() as int,
        ));
        assert(next.take(here.len() as int) =~= here);
        assert(path[here.len() as int] == path.take(next.len() as int)[here.len() as int]);
        assert(shows_from(tower, path, here.len() as int, blocks, label)) by {
            assert forall|k: int| #![trigger tower[k]] 0 <= k < tower.len() implies tower[k].label@
                == label(path[here.len() + k]) && tower[k].bytes == path_bytes(blocks)(
                path.take(here.len() + k + 1),
            ) by {
                if k > 0 {
                    assert(tower[k] == above[k - 1]);
                }
            }
        }
        assert(above.last() == tower.last());
    }
}

/// Boxes side by side stand from the largest to the smallest, and together are no larger than
/// what they stand on.
pub proof fn law_boxes_side_by_side(
    nodes: Seq<FlameNode>,
    path: Seq<usize>,
    blocks: Map<usize, Block>,
    label: spec_fn(usize) -> Seq<char>,
    min: nat,
)
    requires
        blocks.dom().finite(),
        is_flame(nodes, path, path_bytes(blocks), label, min),
    ensures
        forall|i: int, j: int| #![trigger nodes[i], nodes[j]]
            0 <= i < j < nodes.len() ==> nodes[i].bytes >= nodes[j].bytes,
        total(nodes, |node: FlameNode| node.bytes as nat) <= tally(blocks, size_if_along(path)),
{
    let bytes = path_bytes(blocks);
    let addrs = choose|addrs: Seq<usize>|
        {
            &&& #[trigger] addrs.no_duplicates()
            &&& addrs.len() == nodes.len()
            &&& forall|i: int|
                0 <= i < nodes.len() ==> {
                    &&& (#[trigger] nodes[i]).bytes == bytes(path.push(addrs[i]))
                    &&& nodes[i].bytes >= min
                    &&& nodes[i].label@ == label(addrs[i])
                    &&& is_flame(nodes[i].children@, path.push(addrs[i]), bytes, label, min)
                }
            &&& forall|i: int, j: int|
                0 <= i < j < nodes.len() ==> (#[trigger] nodes[i]).bytes >= (#[trigger] nodes[j]).bytes
            &&& forall|addr: usize|
                bytes(#[trigger] path.push(addr)) >= min ==> addrs.contains(addr)
        };
    law_boxes_fit_on_each_other(blocks, path, addrs);
    lemma_same_sum(nodes, addrs, path, blocks);
    lemma_along(blocks, path);
}

proof fn lemma_same_sum(
    nodes: Seq<FlameNode>,
    addrs: Seq<usize>,
    path: Seq<usize>,
    blocks: Map<usize, Block>,
)
    requires
        nodes.len() == addrs.len(),
        forall|i: int|
            0 <= i < nodes.len() ==> (#[trigger] nodes[i]).bytes == path_bytes(blocks)(
                path.push(addrs[i]),
            ),
    ensures
        total(nodes, |node: FlameNode| node.bytes as nat) == total(
            addrs,
            |addr: usize| path_bytes(blocks)(path.push(addr)),
        ),
    decreases nodes.len(),
{
    if nodes.len() > 0 {
        assert(nodes[nodes.len() - 1] == nodes.last());
        lemma_same_sum(nodes.drop_last(), addrs.drop_last(), path, blocks);
    }
}

/// The heatmap covers 48 ticks, and its scale reaches just to its largest cell (or to 1).
pub proof fn law_heatmaps_have_a_scale(view: HeatView, l: Ledger, n: nat)
    requires
        is_heat_view(view, l, n),
    ensures
        view.buckets == 48,
        view.sites@.len() == view.cells@.len(),
        view.sites@.len() <= n,
        view.max >= 1,
        forall|i: int, j: int| #![trigger view.cells@[i]@[j]]
            0 <= i < view.cells@.len() && 0 <= j < view.cells@[i]@.len() ==> view.cells@[i]@[j]
                <= view.max,
        view.max > 1 ==> exists|i: int, j: int| #![trigger view.cells@[i]@[j]]
            0 <= i < view.cells@.len() && 0 <= j < view.cells@[i]@.len() && view.cells@[i]@[j]
                == view.max,
        forall|i: int| #![trigger view.cells@[i]]
            0 <= i < view.cells@.len() ==> view.cells@[i]@.len() == 48,
{
}

} // verus!
