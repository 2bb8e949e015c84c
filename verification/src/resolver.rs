//! Which names are shown for a runtime address. The [`Resolver`] knows which file is mapped
//! where; reading those files is left to its user, who is told step by step what to read.

use crate::maps::mappings;
use crate::maps::mappings_of;
use crate::maps::parse_maps;
use crate::maps::Mapping;
use crate::maps::Region;
use crate::order::ascending;
use crate::order::is_ascending;
use crate::order::precedes;
use crate::paths::plain;
use crate::paths::plain_path;
use crate::sites::SiteTable;
use crate::symbols::infos;
use crate::symbols::names_from;
use crate::symbols::names_of;
use crate::symbols::static_address;
use crate::symbols::text_of;
use crate::symbols::texts;
use crate::symbols::RawFrame;
use std::collections::HashMap;
use vstd::prelude::*;

verus! {

broadcast use vstd::std_specs::hash::group_hash_axioms;

/// What has become of reading a mapped file.
#[derive(Clone, Copy, Debug, PartialEq, Eq, Structural)]
pub enum Load {
    Untried,
    Failed,
    /// The file was read, and was loaded at this address.
    At(u64),
}

/// A mapped file: where its lowest mapping starts, and whether it has been read.
#[derive(Clone, Copy, Debug, PartialEq, Eq, Structural)]
pub struct FileState {
    pub lowest_start: u64,
    pub load: Load,
}

/// What has to be done before the names for an address are known.
pub enum Step {
    /// Nothing: [`Resolver::resolve`] has the names.
    Done,
    /// Read the file, and report to [`Resolver::file_loaded`].
    Load { path: String, lowest_start: u64 },
    /// Look the address up in the file, and report to [`Resolver::answer`].
    Find { path: String, static_addr: u64 },
}

/// What a [`Step`] asks for.
pub enum Want {
    Nothing,
    Load { path: Seq<char>, lowest_start: u64 },
    Find { path: Seq<char>, static_addr: u64 },
}

impl View for Step {
    type V = Want;

    open spec fn view(&self) -> Want {
        match self {
            Step::Done => Want::Nothing,
            Step::Load { path, lowest_start } => Want::Load {
                path: path@,
                lowest_start: *lowest_start,
            },
            Step::Find { path, static_addr } => Want::Find {
                path: path@,
                static_addr: *static_addr,
            },
        }
    }
}

/// The start addresses of some mappings.
pub open spec fn starts(list: Seq<Mapping>) -> Seq<u64> {
    list.map_values(|m: Mapping| m.start)
}

/// The mappings of `list` at the places in `order`.
pub open spec fn arranged(list: Seq<Mapping>, order: Seq<usize>) -> Seq<Mapping> {
    order.map_values(|i: usize| list[i as int])
}

/// `sorted` is what a stable sort by start address makes of `list`.
pub open spec fn is_sorted_by_start(sorted: Seq<Mapping>, list: Seq<Mapping>) -> bool {
    exists|order: Seq<usize>|
        is_ascending(order, starts(list)) && sorted == #[trigger] arranged(list, order)
}

/// The mappings stand in the order of their start addresses.
pub open spec fn ascends(list: Seq<Mapping>) -> bool {
    forall|i: int, j: int| 0 <= i < j < list.len() ==> #[trigger] list[i].start <= #[trigger] list[j].start
}

/// Where the lowest mapping of the file with the plain path `file` starts, if it is mapped at all.
pub open spec fn lowest_start(list: Seq<Mapping>, file: Seq<char>) -> Option<u64>
    decreases list.len(),
{
    if list.len() == 0 {
        None
    } else {
        let m = list.last();
        match lowest_start(list.drop_last(), file) {
            Some(low) if plain(m.path) != file || low <= m.start => Some(low),
            None if plain(m.path) != file => None,
            _ => Some(m.start),
        }
    }
}

/// The mapped files by their plain paths, none of them read yet.
pub open spec fn files_of(list: Seq<Mapping>) -> Map<Seq<char>, FileState> {
    Map::new(
        |file: Seq<char>| lowest_start(list, file) is Some,
        |file: Seq<char>|
            FileState { lowest_start: lowest_start(list, file)->0, load: Load::Untried },
    )
}

/// The file that is mapped at `addr`: that of the last mapping to start at or below `addr`, if
/// it reaches that far.
pub open spec fn path_at(list: Seq<Mapping>, addr: u64) -> Option<Seq<char>>
    decreases list.len(),
{
    if list.len() == 0 {
        None
    } else if list.last().start <= addr {
        if addr < list.last().end {
            Some(list.last().path)
        } else {
            None
        }
    } else {
        path_at(list.drop_last(), addr)
    }
}

/// The names in `known` for `addr`: none, if nothing is known about it.
pub open spec fn names_at(known: Map<usize, Seq<Seq<char>>>, addr: usize) -> Seq<Seq<char>> {
    if known.contains_key(addr) {
        known[addr]
    } else {
        Seq::empty()
    }
}

/// What has to be done before the names for `addr` are known.
pub open spec fn step_for(
    list: Seq<Mapping>,
    files: Map<Seq<char>, FileState>,
    known: Map<usize, Seq<Seq<char>>>,
    addr: usize,
) -> Want {
    match path_at(list, addr as u64) {
        Some(path) if files.contains_key(plain(path)) => match files[plain(path)].load {
            Load::Untried => Want::Load { path, lowest_start: files[plain(path)].lowest_start },
            Load::Failed => Want::Nothing,
            Load::At(base) => match static_address(addr as u64, base) {
                Some(static_addr) if !known.contains_key(addr) => Want::Find { path, static_addr },
                _ => Want::Nothing,
            },
        },
        _ => Want::Nothing,
    }
}

/// The files after the one at `path` was read, or could not be.
pub open spec fn after_load(
    files: Map<Seq<char>, FileState>,
    path: Seq<char>,
    base: Option<u64>,
) -> Map<Seq<char>, FileState> {
    let file = plain(path);
    if files.contains_key(file) && files[file].load == Load::Untried {
        files.insert(
            file,
            FileState {
                lowest_start: files[file].lowest_start,
                load: match base {
                    Some(b) => Load::At(b),
                    None => Load::Failed,
                },
            },
        )
    } else {
        files
    }
}

pub struct Resolver {
    regions: Vec<Region>,
    files: SiteTable<FileState>,
    answers: HashMap<usize, Vec<String>>,
}

impl Resolver {
    /// The mapped files, in the order of their addresses.
    pub closed spec fn mapped(&self) -> Seq<Mapping> {
        mappings(self.regions@)
    }

    /// The state of each mapped file, by its plain path.
    pub closed spec fn files(&self) -> Map<Seq<char>, FileState> {
        self.files@
    }

    /// The names that have been found, by address.
    pub closed spec fn known(&self) -> Map<usize, Seq<Seq<char>>> {
        self.answers@.map_values(|names: Vec<String>| texts(names@))
    }

    pub closed spec fn wf(&self) -> bool {
        &&& self.files.wf()
        &&& ascends(mappings(self.regions@))
    }

    /// The resolver for a process whose maps file holds `maps`.
    pub fn new(maps: &str) -> (resolver: Self)
        ensures
            resolver.wf(),
            is_sorted_by_start(resolver.mapped(), mappings_of(maps@)),
            resolver.files() == files_of(mappings_of(maps@)),
            resolver.known() == Map::<usize, Seq<Seq<char>>>::empty(),
    {
        Self::from_regions(parse_maps(maps))
    }

    /// The resolver for a process with the given mappings.
    pub fn from_regions(list: Vec<Region>) -> (resolver: Self)
        ensures
            resolver.wf(),
            is_sorted_by_start(resolver.mapped(), mappings(list@)),
            resolver.files() == files_of(mappings(list@)),
            resolver.known() == Map::<usize, Seq<Seq<char>>>::empty(),
    {
        let ghost all = mappings(list@);
        let mut keys: Vec<u64> = Vec::new();
        let mut files: SiteTable<FileState> = SiteTable::new();
        let mut i: usize = 0;
        assert(files@ =~= files_of(all.take(0)));
        while i < list.len()
            invariant
                i <= list.len(),
                all == mappings(list@),
                keys.len() == i,
                forall|j: int| 0 <= j < i ==> #[trigger] keys@[j] == all[j].start,
                files.wf(),
                files@ == files_of(all.take(i as int)),
            decreases list.len() - i,
        {
            let region = &list[i];
            keys.push(region.start);
            proof {
                assert(all.take(i + 1).drop_last() =~= all.take(i as int));
                assert(all.take(i + 1).last() == region@);
            }
            let file = plain_path(region.path.as_str());
            let lowest: u64 = match files.position(file.as_str()) {
                Some(at) => {
                    let low: u64 = files.value(at).lowest_start;
                    if low <= region.start {
                        low
                    } else {
                        region.start
                    }
                },
                None => region.start,
            };
            files.put(
                file.as_str(),
                FileState { lowest_start: lowest, load: Load::Untried },
            );
            assert(files@ =~= files_of(all.take(i + 1)));
            i += 1;
        }
        assert(all.take(i as int) =~= all);
        assert(keys@ =~= starts(all));
        let order = ascending(&keys);
        let mut regions: Vec<Region> = Vec::new();
        let mut k: usize = 0;
        while k < order.len()
            invariant
                k <= order.len(),
                all == mappings(list@),
                keys@ == starts(all),
                is_ascending(order@, keys@),
                mappings(regions@) == arranged(all, order@.take(k as int)),
            decreases order.len() - k,
        {
            let region = &list[order[k]];
            let ghost before = mappings(regions@);
            regions.push(
                Region { start: region.start, end: region.end, path: region.path.clone() },
            );
            assert(mappings(regions@) =~= before.push(region@));
            k += 1;
            assert(mappings(regions@) =~= arranged(all, order@.take(k as int)));
        }
        assert(order@.take(k as int) =~= order@);
        let resolver = Resolver { regions, files, answers: HashMap::new() };
        proof {
            assert(resolver.mapped() == arranged(all, order@));
            assert forall|i: int, j: int| 0 <= i < j < resolver.mapped().len() implies (
            #[trigger] resolver.mapped()[i]).start <= (#[trigger] resolver.mapped()[j]).start by {
                assert(precedes(keys@, order@[i], order@[j]));
            }
            assert(resolver.known() =~= Map::<usize, Seq<Seq<char>>>::empty());
        }
        resolver
    }

    /// The file that is mapped at `addr`.
    pub fn path_for(&self, addr: u64) -> (path: Option<String>)
        requires
            self.wf(),
        ensures
            text_of(path) == path_at(self.mapped(), addr),
    {
        let mut low: usize = 0;
        let mut high: usize = self.regions.len();
        while low < high
            invariant
                low <= high <= self.regions.len(),
                self.wf(),
                forall|i: int| 0 <= i < low ==> #[trigger] self.mapped()[i].start <= addr,
                forall|i: int|
                    high <= i < self.mapped().len() ==> #[trigger] self.mapped()[i].start > addr,
            decreases high - low,
        {
            let mid: usize = low + (high - low) / 2;
            assert(self.mapped()[mid as int].start == self.regions[mid as int].start);
            if self.regions[mid].start <= addr {
                low = mid + 1;
            } else {
                high = mid;
            }
        }
        proof {
            lemma_path_at(self.mapped(), addr, low as int);
        }
        if low == 0 {
            return None;
        }
        let region = &self.regions[low - 1];
        assert(self.mapped()[low - 1] == region@);
        if addr < region.end {
            Some(region.path.clone())
        } else {
            None
        }
    }

    /// What has to be done before the names for `addr` are known.
    pub fn step(&self, addr: usize) -> (step: Step)
        requires
            self.wf(),
        ensures
            step@ == step_for(self.mapped(), self.files(), self.known(), addr),
    {
        match self.path_for(addr as u64) {
            None => Step::Done,
            Some(path) => match self.files.position(plain_path(path.as_str()).as_str()) {
                None => Step::Done,
                Some(at) => {
                    let state: FileState = *self.files.value(at);
                    match state.load {
                        Load::Untried => Step::Load { path, lowest_start: state.lowest_start },
                        Load::Failed => Step::Done,
                        Load::At(base) => {
                            if (addr as u64) < base || self.answers.contains_key(&addr) {
                                Step::Done
                            } else {
                                Step::Find { path, static_addr: addr as u64 - base }
                            }
                        },
                    }
                },
            },
        }
    }

    /// Takes note that the file at `path` was read and is loaded at `base`, or that it could not
    /// be read. A file is tried once; later reports change nothing.
    pub fn file_loaded(&mut self, path: &str, base: Option<u64>)
        requires
            old(self).wf(),
        ensures
            final(self).wf(),
            final(self).mapped() == old(self).mapped(),
            final(self).files() == after_load(old(self).files(), path@, base),
            final(self).known() == old(self).known(),
    {
        match self.files.position(plain_path(path).as_str()) {
            None => {},
            Some(at) => {
                let state: FileState = *self.files.value(at);
                if state.load == Load::Untried {
                    let load = match base {
                        Some(b) => Load::At(b),
                        None => Load::Failed,
                    };
                    self.files.set(at, FileState { lowest_start: state.lowest_start, load });
                }
            },
        }
    }

    /// Takes note of what is found at `addr`: the functions that debug information names, and
    /// the symbol that the address lies in.
    pub fn answer(&mut self, addr: usize, frames: Vec<RawFrame>, symbol: Option<String>)
        requires
            old(self).wf(),
        ensures
            final(self).wf(),
            final(self).mapped() == old(self).mapped(),
            final(self).files() == old(self).files(),
            final(self).known() == old(self).known().insert(
                addr,
                names_of(infos(frames@), text_of(symbol)),
            ),
    {
        let names = names_from(frames, symbol);
        self.answers.insert(addr, names);
        assert(self.known() =~= old(self).known().insert(addr, texts(names@)));
    }

    /// The names for `addr`, the innermost function first; none, if it lies in no mapped file,
    /// or the file could not be read, or has nothing on it.
    pub fn resolve(&self, addr: usize) -> (names: Vec<String>)
        ensures
            texts(names@) == names_at(self.known(), addr),
    {
        match self.answers.get(&addr) {
            Some(names) => {
                let copy = copy_texts(names);
                copy
            },
            None => {
                let names: Vec<String> = Vec::new();
                assert(texts(names@) =~= Seq::<Seq<char>>::empty());
                names
            },
        }
    }
}

/// A copy of a list of texts.
pub fn copy_texts(list: &Vec<String>) -> (copy: Vec<String>)
    ensures
        texts(copy@) == texts(list@),
{
    let mut copy: Vec<String> = Vec::new();
    let mut i: usize = 0;
    while i < list.len()
        invariant
            i <= list.len(),
            copy.len() == i,
            forall|j: int| 0 <= j < i ==> (#[trigger] copy@[j])@ == list@[j]@,
        decreases list.len() - i,
    {
        copy.push(list[i].clone());
        i += 1;
    }
    assert(texts(copy@) =~= texts(list@));
    copy
}

/// In a list that ascends, the last mapping to start at or below an address stands where the
/// others begin to start above it.
proof fn lemma_path_at(list: Seq<Mapping>, addr: u64, split: int)
    requires
        0 <= split <= list.len(),
        forall|i: int| 0 <= i < split ==> #[trigger] list[i].start <= addr,
        forall|i: int| split <= i < list.len() ==> #[trigger] list[i].start > addr,
    ensures
        path_at(list, addr) == if split > 0 && addr < list[split - 1].end {
            Some(list[split - 1].path)
        } else {
            None
        },
    decreases list.len(),
{
    if split < list.len() {
        assert(list[list.len() - 1].start > addr);
        lemma_path_at(list.drop_last(), addr, split);
    } else if list.len() > 0 {
        assert(list[list.len() - 1].start <= addr);
    }
}

/// Where mappings do not overlap, an address is found in the mapping that contains it.
pub proof fn law_containing_mapping_is_found(list: Seq<Mapping>, addr: u64, at: int)
    requires
        0 <= at < list.len(),
        forall|i: int, j: int| 0 <= i < j < list.len() ==> #[trigger] list[i].end <= #[trigger] list[j].start,
        forall|i: int| 0 <= i < list.len() ==> #[trigger] list[i].start <= list[i].end,
        list[at].start <= addr < list[at].end,
    ensures
        path_at(list, addr) == Some(list[at].path),
    decreases list.len(),
{
    let last = list.len() - 1;
    if at < last {
        assert(list[at].end <= list[last].start);
        law_containing_mapping_is_found(list.drop_last(), addr, at);
    }
}

/// A file is found only for an address that one of its mappings contains.
pub proof fn law_found_mapping_contains_the_address(list: Seq<Mapping>, addr: u64)
    requires
        path_at(list, addr) is Some,
    ensures
        exists|i: int|
            0 <= i < list.len() && #[trigger] list[i].start <= addr < list[i].end && list[i].path
                == path_at(list, addr)->0,
    decreases list.len(),
{
    let last = list.len() - 1;
    if list[last].start > addr {
        law_found_mapping_contains_the_address(list.drop_last(), addr);
        let i = choose|i: int|
            0 <= i < last && #[trigger] list.drop_last()[i].start <= addr < list.drop_last()[i].end
                && list.drop_last()[i].path == path_at(list.drop_last(), addr)->0;
        assert(list[i] == list.drop_last()[i]);
    }
}

/// Each step is asked for once: a file that was reported on is not asked for again, and once an
/// address has been answered nothing more is asked about it.
pub proof fn law_steps_come_to_an_end(
    list: Seq<Mapping>,
    files: Map<Seq<char>, FileState>,
    known: Map<usize, Seq<Seq<char>>>,
    addr: usize,
    base: Option<u64>,
    names: Seq<Seq<char>>,
)
    ensures
        match step_for(list, files, known, addr) {
            Want::Nothing => true,
            Want::Load { path, .. } => !(step_for(list, after_load(files, path, base), known, addr) is Load),
            Want::Find { .. } => step_for(list, files, known.insert(addr, names), addr) is Nothing,
        },
{
}

} // verus!
