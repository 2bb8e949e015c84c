//! The flame graph: live blocks grouped by call path, level by level.

use crate::injection::MAX_STACK_DEPTH;
use crate::ledger::block_size;
use crate::ledger::Block;
use crate::order::heaviest;
use crate::order::is_heaviest;
use crate::order::lemma_covers;
use crate::state::FlameNode;
use crate::symbols::texts;
use crate::tally::lemma_total_prefix;
use crate::tally::lemma_total_push;
use crate::tally::lemma_tally_classes_share;
use crate::tally::lemma_tally_same;
use crate::tally::tally_by_class;
use crate::tally::weight_of_class;
use crate::tally::total;
use crate::text::raw_address;
use crate::text::raw_address_text;
use crate::views::is_flame;
use crate::views::is_under;
use crate::views::path_bytes;
use crate::views::size_under;
use std::collections::HashMap;
use vstd::prelude::*;

verus! {

broadcast use vstd::std_specs::hash::group_hash_axioms;

/// A live block, as far as the flame graph goes.
pub(crate) struct Trace<'a> {
    pub frames: &'a Vec<usize>,
    pub size: u64,
}

/// `traces` show `blocks`, one by one.
pub(crate) open spec fn shows(traces: Seq<Trace>, blocks: Seq<Block>) -> bool {
    &&& traces.len() == blocks.len()
    &&& forall|i: int|
        0 <= i < traces.len() ==> (#[trigger] traces[i]).frames@ == blocks[i].frames
            && traces[i].size == blocks[i].size && blocks[i].frames.len() <= MAX_STACK_DEPTH
}

pub(crate) open spec fn under(path: Seq<usize>) -> spec_fn(Block) -> bool {
    |b: Block| is_under(path, b)
}

/// The address that a block's call path reaches after `depth` calls, outermost first.
pub open spec fn next_address(b: Block, depth: nat) -> Option<usize> {
    if depth < b.frames.len() {
        Some(b.frames[b.frames.len() - 1 - depth])
    } else {
        None
    }
}

pub(crate) open spec fn goes_to(depth: nat, addr: usize) -> spec_fn(Block) -> bool {
    |b: Block| next_address(b, depth) == Some(addr)
}

/// The blocks at the places in `members`.
pub(crate) open spec fn picked(blocks: Seq<Block>, members: Seq<usize>) -> Seq<Block> {
    members.map_values(|i: usize| blocks[i as int])
}

/// `cache` has the label of every address in the traces.
pub(crate) open spec fn labels_cached(
    cache: Map<usize, Vec<String>>,
    blocks: Seq<Block>,
    label: spec_fn(usize) -> Seq<char>,
) -> bool {
    forall|i: int, k: int|
        0 <= i < blocks.len() && 0 <= k < blocks[i].frames.len() ==> {
            let addr = #[trigger] blocks[i].frames[k];
            &&& cache.contains_key(addr)
            &&& label(addr) == if texts(cache[addr]@).len() > 0 {
                texts(cache[addr]@)[0]
            } else {
                raw_address(addr)
            }
        }
}

/// Filtering twice is filtering by both conditions.
proof fn lemma_filter_twice(
    blocks: Seq<Block>,
    first: spec_fn(Block) -> bool,
    second: spec_fn(Block) -> bool,
    both: spec_fn(Block) -> bool,
)
    requires
        forall|i: int|
            0 <= i < blocks.len() ==> both(#[trigger] blocks[i]) == (first(blocks[i]) && second(
                blocks[i],
            )),
    ensures
        blocks.filter(first).filter(second) == blocks.filter(both),
    decreases blocks.len(),
{
    reveal(Seq::filter);
    if blocks.len() > 0 {
        let rest = blocks.drop_last();
        assert forall|i: int| 0 <= i < rest.len() implies both(#[trigger] rest[i]) == (first(
            rest[i],
        ) && second(rest[i])) by {
            assert(rest[i] == blocks[i]);
        }
        lemma_filter_twice(rest, first, second, both);
        assert(blocks[blocks.len() - 1] == blocks.last());
        if first(blocks.last()) {
            rest.filter(first).lemma_filter_push(blocks.last(), second);
        }
    }
}

/// The blocks that a condition picks weigh what the others leave.
proof fn lemma_filtered_total(blocks: Seq<Block>, path: Seq<usize>)
    ensures
        total(blocks.filter(under(path)), block_size()) == total(blocks, size_under(path)),
    decreases blocks.len(),
{
    reveal(Seq::filter);
    if blocks.len() > 0 {
        let rest = blocks.drop_last();
        lemma_filtered_total(rest, path);
        if under(path)(blocks.last()) {
            lemma_total_push(rest.filter(under(path)), blocks.last(), block_size());
        }
    }
}

/// A filter never adds weight.
proof fn lemma_filter_shrinks(blocks: Seq<Block>, pred: spec_fn(Block) -> bool)
    ensures
        total(blocks.filter(pred), block_size()) <= total(blocks, block_size()),
    decreases blocks.len(),
{
    reveal(Seq::filter);
    if blocks.len() > 0 {
        let rest = blocks.drop_last();
        lemma_filter_shrinks(rest, pred);
        if pred(blocks.last()) {
            lemma_total_push(rest.filter(pred), blocks.last(), block_size());
        }
    }
}

/// A path can be followed by one more call just where the block's path goes there.
proof fn lemma_under_push(path: Seq<usize>, addr: usize, b: Block)
    ensures
        is_under(path.push(addr), b) == (is_under(path, b) && next_address(b, path.len()) == Some(
            addr,
        )),
{
    let back = b.frames.reverse();
    let longer = path.push(addr);
    if is_under(longer, b) {
        assert(longer =~= back.subrange(0, longer.len() as int));
        assert(path =~= back.subrange(0, path.len() as int)) by {
            assert forall|i: int| 0 <= i < path.len() implies path[i] == back[i] by {
                assert(longer[i] == back.subrange(0, longer.len() as int)[i]);
            }
        }
        assert(longer[path.len() as int] == back.subrange(0, longer.len() as int)[path.len() as int]);
    }
    if is_under(path, b) && next_address(b, path.len()) == Some(addr) {
        assert(path =~= back.subrange(0, path.len() as int));
        assert(longer =~= back.subrange(0, longer.len() as int)) by {
            assert forall|i: int| 0 <= i < path.len() implies path[i] == back[i] by {
                assert(path[i] == back.subrange(0, path.len() as int)[i]);
            }
        }
    }
}

/// Places, grouped by an address.
struct Groups {
    index: HashMap<usize, usize>,
    addrs: Vec<usize>,
    members: Vec<Vec<usize>>,
    weights: Vec<u64>,
}

impl Groups {
    /// The groups hold the places of `part` (some of `blocks`) by the address at `depth`.
    spec fn group(&self, blocks: Seq<Block>, part: Seq<Block>, depth: nat) -> bool {
        &&& self.addrs.len() == self.members.len()
        &&& self.addrs.len() == self.weights.len()
        &&& self.addrs@.no_duplicates()
        &&& forall|a: usize| #[trigger]
            self.index@.contains_key(a) ==> self.index@[a] < self.addrs.len()
                && self.addrs@[self.index@[a] as int] == a
        &&& forall|g: int|
            0 <= g < self.addrs.len() ==> self.index@.contains_key(#[trigger] self.addrs@[g])
        &&& forall|g: int|
            0 <= g < self.addrs.len() ==> {
                &&& picked(blocks, (#[trigger] self.members@[g])@) == part.filter(
                    goes_to(depth, self.addrs@[g]),
                )
                &&& self.weights@[g] == total(
                    part.filter(goes_to(depth, self.addrs@[g])),
                    block_size(),
                )
            }
        &&& forall|g: int, k: int|
            0 <= g < self.addrs.len() && 0 <= k < self.members@[g]@.len()
                ==> #[trigger] self.members@[g]@[k] < blocks.len()
        &&& forall|k: int|
            0 <= k < part.len() ==> match next_address(#[trigger] part[k], depth) {
                Some(a) => self.index@.contains_key(a),
                None => true,
            }
    }
}

/// Groups the places in `members` by the address that their call paths reach after `depth`
/// calls.
fn group_by_address(
    traces: &Vec<Trace>,
    members: &Vec<usize>,
    depth: usize,
    Ghost(blocks): Ghost<Seq<Block>>,
) -> (groups: Groups)
    requires
        shows(traces@, blocks),
        forall|k: int| 0 <= k < members.len() ==> #[trigger] members@[k] < blocks.len(),
        total(picked(blocks, members@), block_size()) <= u64::MAX,
    ensures
        groups.group(blocks, picked(blocks, members@), depth as nat),
{
    let ghost all = picked(blocks, members@);
    let ghost d = depth as nat;
    let mut groups = Groups {
        index: HashMap::new(),
        addrs: Vec::new(),
        members: Vec::new(),
        weights: Vec::new(),
    };
    let mut j: usize = 0;
    while j < members.len()
        invariant
            j <= members.len(),
            shows(traces@, blocks),
            all == picked(blocks, members@),
            d == depth,
            forall|k: int| 0 <= k < members.len() ==> #[trigger] members@[k] < blocks.len(),
            total(all, block_size()) <= u64::MAX,
            groups.group(blocks, all.take(j as int), d),
        decreases members.len() - j,
    {
        let place: usize = members[j];
        let trace = &traces[place];
        let ghost block = blocks[place as int];
        let ghost part = all.take(j as int);
        let ghost next = all.take(j + 1);
        let ghost before = groups;
        assert(next =~= part.push(block));
        proof {
            assert forall|p: spec_fn(Block) -> bool| #[trigger] next.filter(p) == if p(block) {
                part.filter(p).push(block)
            } else {
                part.filter(p)
            } by {
                part.lemma_filter_push(block, p);
            }
            assert(trace.frames@ == block.frames);
        }
        if depth < trace.frames.len() {
            let addr: usize = trace.frames[trace.frames.len() - 1 - depth];
            let ghost goes = goes_to(d, addr);
            proof {
                assert(next_address(block, d) == Some(addr));
                lemma_total_push(part.filter(goes), block, block_size());
                lemma_filter_shrinks(next, goes);
                lemma_total_prefix(all, j + 1, block_size());
            }
            match groups.index.get(&addr) {
                Some(at) => {
                    let g: usize = *at;
                    proof {
                        assert(before.addrs@[g as int] == addr);
                        assert(picked(blocks, before.members@[g as int]@) == part.filter(goes));
                        assert(next.filter(goes) == part.filter(goes).push(block));
                    }
                    let sum: u64 = groups.weights[g] + trace.size;
                    groups.weights.set(g, sum);
                    groups.members[g].push(place);
                    assert(picked(blocks, groups.members@[g as int]@) =~= picked(
                        blocks,
                        before.members@[g as int]@,
                    ).push(block));
                    assert forall|h: int| 0 <= h < groups.addrs.len() && h != g implies #[trigger] groups.members@[h]
                        == before.members@[h] && groups.weights@[h] == before.weights@[h] by {}
                },
                None => {
                    let g: usize = groups.addrs.len();
                    let mut first: Vec<usize> = Vec::new();
                    first.push(place);
                    groups.index.insert(addr, g);
                    groups.addrs.push(addr);
                    groups.members.push(first);
                    groups.weights.push(trace.size);
                    proof {
                        assert forall|k: int| 0 <= k < part.len() implies !goes(#[trigger] part[k]) by {}
                        assert(part.all(|b: Block| !goes(b))) by {
                            assert forall|k: int| 0 <= k < part.len() implies (|b: Block| !goes(b))(
                                part[k],
                            ) by {
                                assert(!goes(part[k]));
                            }
                        }
                        part.lemma_all_neg_filter_empty(goes);
                        assert(part.filter(goes) =~= Seq::<Block>::empty());
                        assert(picked(blocks, first@) =~= next.filter(goes));
                        assert forall|h: int| 0 <= h < g implies #[trigger] groups.addrs@[h] != addr by {
                            assert(before.index@.contains_key(before.addrs@[h]));
                        }
                    }
                },
            }
        }
        proof {
            assert forall|h: int| 0 <= h < groups.addrs.len() implies {
                &&& picked(blocks, (#[trigger] groups.members@[h])@) == next.filter(
                    goes_to(d, groups.addrs@[h]),
                )
                &&& groups.weights@[h] == total(
                    next.filter(goes_to(d, groups.addrs@[h])),
                    block_size(),
                )
            } by {
                let goes = goes_to(d, groups.addrs@[h]);
                assert(next.filter(goes) == if goes(block) {
                    part.filter(goes).push(block)
                } else {
                    part.filter(goes)
                });
                if h < before.addrs.len() {
                    assert(picked(blocks, before.members@[h]@) == part.filter(goes));
                }
            }
            assert forall|k: int| 0 <= k < next.len() implies match next_address(
                #[trigger] next[k],
                d,
            ) {
                Some(a) => groups.index@.contains_key(a),
                None => true,
            } by {
                if k < part.len() {
                    assert(next[k] == part[k]);
                }
            }
        }
        j += 1;
    }
    assert(all.take(j as int) =~= all);
    groups
}

/// The label of an address whose names are in `cache`.
fn cached_label(cache: &HashMap<usize, Vec<String>>, addr: usize) -> (label: String)
    ensures
        label@ == if cache@.contains_key(addr) && texts(cache@[addr]@).len() > 0 {
            texts(cache@[addr]@)[0]
        } else {
            raw_address(addr)
        },
{
    match cache.get(&addr) {
        Some(names) if names.len() > 0 => {
            assert(texts(names@)[0] == names@[0]@);
            names[0].clone()
        },
        _ => raw_address_text(addr),
    }
}

/// The boxes right above the call path `path`, where `members` are the places of the blocks
/// below that path.
pub(crate) fn flame_level(
    cache: &HashMap<usize, Vec<String>>,
    traces: &Vec<Trace>,
    members: &Vec<usize>,
    depth: usize,
    min_bytes: u64,
    Ghost(blocks): Ghost<Seq<Block>>,
    Ghost(path): Ghost<Seq<usize>>,
    Ghost(bytes): Ghost<spec_fn(Seq<usize>) -> nat>,
    Ghost(label): Ghost<spec_fn(usize) -> Seq<char>>,
) -> (nodes: Vec<FlameNode>)
    requires
        shows(traces@, blocks),
        labels_cached(cache@, blocks, label),
        path.len() == depth,
        depth <= MAX_STACK_DEPTH,
        min_bytes >= 1,
        forall|k: int| 0 <= k < members.len() ==> #[trigger] members@[k] < blocks.len(),
        picked(blocks, members@) == blocks.filter(under(path)),
        forall|p: Seq<usize>| #[trigger] bytes(p) == total(blocks, size_under(p)),
        total(blocks, block_size()) <= u64::MAX,
    ensures
        is_flame(nodes@, path, bytes, label, min_bytes as nat),
    decreases MAX_STACK_DEPTH - depth,
{
    let ghost d = depth as nat;
    let ghost part = picked(blocks, members@);
    proof {
        lemma_filter_shrinks(blocks, under(path));
    }
    let groups = group_by_address(traces, members, depth, Ghost(blocks));
    proof {
        assert forall|addr: usize| bytes(#[trigger] path.push(addr)) == total(
            part.filter(goes_to(d, addr)),
            block_size(),
        ) && part.filter(goes_to(d, addr)) == blocks.filter(under(path.push(addr))) by {
            assert forall|i: int| 0 <= i < blocks.len() implies under(path.push(addr))(
                #[trigger] blocks[i],
            ) == (under(path)(blocks[i]) && goes_to(d, addr)(blocks[i])) by {
                lemma_under_push(path, addr, blocks[i]);
            }
            lemma_filter_twice(blocks, under(path), goes_to(d, addr), under(path.push(addr)));
            lemma_filtered_total(blocks, path.push(addr));
        }
    }
    let order = heaviest(&groups.weights, min_bytes, groups.weights.len());
    let ghost addrs = order@.map_values(|g: usize| groups.addrs@[g as int]);
    let mut nodes: Vec<FlameNode> = Vec::new();
    let mut k: usize = 0;
    while k < order.len()
        invariant
            k <= order.len(),
            shows(traces@, blocks),
            labels_cached(cache@, blocks, label),
            path.len() == depth,
            depth <= MAX_STACK_DEPTH,
            d == depth,
            min_bytes >= 1,
            forall|k: int| 0 <= k < members.len() ==> #[trigger] members@[k] < blocks.len(),
            part == picked(blocks, members@),
            forall|p: Seq<usize>| #[trigger] bytes(p) == total(blocks, size_under(p)),
            total(blocks, block_size()) <= u64::MAX,
            groups.group(blocks, part, d),
            forall|addr: usize|
                bytes(#[trigger] path.push(addr)) == total(
                    part.filter(goes_to(d, addr)),
                    block_size(),
                ) && part.filter(goes_to(d, addr)) == blocks.filter(under(path.push(addr))),
            is_heaviest(order@, groups.weights@, min_bytes, groups.weights@.len()),
            addrs == order@.map_values(|g: usize| groups.addrs@[g as int]),
            nodes.len() == k,
            forall|m: int|
                0 <= m < k ==> {
                    &&& (#[trigger] nodes@[m]).bytes == bytes(path.push(addrs[m]))
                    &&& nodes@[m].bytes == groups.weights@[order@[m] as int]
                    &&& nodes@[m].label@ == label(addrs[m])
                    &&& is_flame(
                        nodes@[m].children@,
                        path.push(addrs[m]),
                        bytes,
                        label,
                        min_bytes as nat,
                    )
                },
        decreases order.len() - k,
    {
        let g: usize = order[k];
        let addr: usize = groups.addrs[g];
        let ghost longer = path.push(addr);
        proof {
            assert(addrs[k as int] == addr);
            assert(bytes(longer) == total(part.filter(goes_to(d, addr)), block_size()));
            assert(picked(blocks, groups.members@[g as int]@) == part.filter(goes_to(d, addr)));
            lemma_a_block_goes_there(blocks, groups.members@[g as int]@, longer);
            let i = choose|i: int| 0 <= i < blocks.len() && is_under(longer, #[trigger] blocks[i]);
            lemma_under_push(path, addr, blocks[i]);
            assert(blocks[i].frames[blocks[i].frames.len() - 1 - d] == addr);
            assert(traces@[i].frames@ == blocks[i].frames);
        }
        let children = flame_level(
            cache,
            traces,
            &groups.members[g],
            depth + 1,
            min_bytes,
            Ghost(blocks),
            Ghost(longer),
            Ghost(bytes),
            Ghost(label),
        );
        nodes.push(
            FlameNode { label: cached_label(cache, addr), bytes: groups.weights[g], children },
        );
        k += 1;
    }
    proof {
        assert forall|i: int, j: int| 0 <= i < addrs.len() && 0 <= j < addrs.len() && i
            != j implies addrs[i] != addrs[j] by {
            assert(order@[i] != order@[j]);
        }
        assert(addrs.no_duplicates());
        assert forall|i: int, j: int| 0 <= i < j < nodes.len() implies (#[trigger] nodes@[i]).bytes
            >= (#[trigger] nodes@[j]).bytes by {
            assert(groups.weights@[order@[i] as int] >= groups.weights@[order@[j] as int]);
        }
        assert forall|addr: usize|
            bytes(#[trigger] path.push(addr)) >= min_bytes implies addrs.contains(addr) by {
            let reached = part.filter(goes_to(d, addr));
            assert(reached.len() > 0);
            lemma_filtered_is_there(part, goes_to(d, addr));
            let i = choose|i: int| 0 <= i < part.len() && goes_to(d, addr)(#[trigger] part[i]);
            assert(groups.index@.contains_key(addr));
            let g = groups.index@[addr];
            assert(groups.addrs@[g as int] == addr);
            assert(picked(blocks, groups.members@[g as int]@) == reached);
            assert(groups.weights@[g as int] >= min_bytes);
            if !order@.contains(g) {
                lemma_covers(order@, groups.weights@.len());
            }
            let m = choose|m: int| 0 <= m < order@.len() && order@[m] == g;
            assert(addrs[m] == addr);
        }
        assert forall|i: int| 0 <= i < nodes@.len() implies (#[trigger] nodes@[i]).bytes >= min_bytes by {
            assert(groups.weights@[order@[i] as int] >= min_bytes);
        }
    }
    nodes
}

/// What a filter keeps comes from the list.
proof fn lemma_filtered_is_there(blocks: Seq<Block>, pred: spec_fn(Block) -> bool)
    requires
        blocks.filter(pred).len() > 0,
    ensures
        exists|i: int| 0 <= i < blocks.len() && pred(#[trigger] blocks[i]),
    decreases blocks.len(),
{
    reveal(Seq::filter);
    if blocks.len() > 0 {
        if pred(blocks.last()) {
            assert(pred(blocks[blocks.len() - 1]));
        } else {
            lemma_filtered_is_there(blocks.drop_last(), pred);
            let i = choose|i: int|
                0 <= i < blocks.len() - 1 && pred(#[trigger] blocks.drop_last()[i]);
            assert(pred(blocks[i]));
        }
    }
}

/// Where a path weighs something, some block lies below it.
proof fn lemma_a_block_goes_there(blocks: Seq<Block>, members: Seq<usize>, path: Seq<usize>)
    requires
        picked(blocks, members) == blocks.filter(under(path)),
        total(picked(blocks, members), block_size()) > 0,
    ensures
        exists|i: int| 0 <= i < blocks.len() && is_under(path, #[trigger] blocks[i]),
{
    assert(blocks.filter(under(path)).len() > 0);
    lemma_filtered_is_there(blocks, under(path));
    let i = choose|i: int| 0 <= i < blocks.len() && under(path)(#[trigger] blocks[i]);
    assert(is_under(path, blocks[i]));
}

/// Boxes never stick out: what lies above different next calls of a path is no more than what
/// lies above the path itself.
pub proof fn law_boxes_fit_on_each_other(
    blocks: Map<usize, Block>,
    path: Seq<usize>,
    addrs: Seq<usize>,
)
    requires
        blocks.dom().finite(),
        addrs.no_duplicates(),
    ensures
        total(addrs, |addr: usize| path_bytes(blocks)(path.push(addr))) <= path_bytes(blocks)(path),
{
    let class = |b: Block| next_address(b, path.len());
    let weight = size_under(path);
    let classes = addrs.map_values(|addr: usize| Some(addr));
    assert forall|i: int, j: int| 0 <= i < classes.len() && 0 <= j < classes.len() && i
        != j implies classes[i] != classes[j] by {
        assert(addrs[i] != addrs[j]);
    }
    lemma_tally_classes_share(blocks, class, weight, classes);
    lemma_boxes(blocks, path, addrs);
}

/// What a class of next calls weighs is what lies above that call.
proof fn lemma_boxes(blocks: Map<usize, Block>, path: Seq<usize>, addrs: Seq<usize>)
    ensures
        total(addrs, |addr: usize| path_bytes(blocks)(path.push(addr))) == tally_by_class(
            blocks,
            |b: Block| next_address(b, path.len()),
            size_under(path),
            addrs.map_values(|addr: usize| Some(addr)),
        ),
    decreases addrs.len(),
{
    let class = |b: Block| next_address(b, path.len());
    let classes = addrs.map_values(|addr: usize| Some(addr));
    if addrs.len() > 0 {
        let rest = addrs.drop_last();
        let addr = addrs.last();
        lemma_boxes(blocks, path, rest);
        assert(rest.map_values(|addr: usize| Some(addr)) =~= classes.drop_last());
        let one = weight_of_class(class, size_under(path), Some(addr));
        assert forall|ptr: usize| #[trigger] blocks.contains_key(ptr) implies one(blocks[ptr])
            == size_under(path.push(addr))(blocks[ptr]) by {
            lemma_under_push(path, addr, blocks[ptr]);
        }
        lemma_tally_same(blocks, one, size_under(path.push(addr)));
    }
}

} // verus!
