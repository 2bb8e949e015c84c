//! From an address to its names.

use crate::laws::numerals::law_numbers_are_read;
use crate::laws::numerals::law_numbers_are_written;
use crate::laws::numerals::worth;
use crate::maps::field_bounds;
use crate::maps::find_char;
use crate::maps::is_space;
use crate::maps::mapping_of;
use crate::maps::mappings_of;
use crate::maps::range_of;
use crate::maps::run_end;
use crate::maps::Mapping;
use crate::order::is_ascending;
use crate::paths::parts_of;
use crate::paths::plain;
use crate::resolver::after_load;
use crate::resolver::arranged;
use crate::resolver::files_of;
use crate::resolver::is_sorted_by_start;
use crate::resolver::lowest_start;
use crate::resolver::path_at;
use crate::resolver::starts;
use crate::resolver::step_for;
use crate::resolver::FileState;
use crate::resolver::Load;
use crate::resolver::Want;
use crate::symbols::base_of;
use crate::symbols::demangled;
use crate::symbols::labels_of;
use crate::symbols::least;
use crate::symbols::names_of;
use crate::symbols::static_address;
use crate::symbols::FrameInfo;
use crate::text::decimal;
use crate::text::hex;
use vstd::prelude::*;

verus! {

/// `low` is the lowest of some addresses.
pub open spec fn is_lowest(low: u64, addresses: Seq<u64>) -> bool {
    &&& exists|i: int| 0 <= i < addresses.len() && #[trigger] addresses[i] == low
    &&& forall|i: int| 0 <= i < addresses.len() ==> low <= #[trigger] addresses[i]
}

/// A file is loaded as far above the lowest address that its segments ask for as its lowest
/// mapping starts: so an address that lies `offset` above the start of the lowest mapping is
/// looked up `offset` above the lowest segment.
pub proof fn law_lowest_mapping_holds_the_lowest_segment(
    segments: Seq<u64>,
    mapped_at: u64,
    low: u64,
    offset: u64,
)
    requires
        is_lowest(low, segments),
    ensures
        low <= mapped_at ==> base_of(segments, mapped_at) + low == mapped_at,
        low > mapped_at ==> base_of(segments, mapped_at) == 0,
        low <= mapped_at && mapped_at + offset <= u64::MAX ==> static_address(
            (mapped_at + offset) as u64,
            base_of(segments, mapped_at),
        ) == Some((low + offset) as u64),
{
    lemma_least_is_lowest(segments);
    let i = choose|i: int| 0 <= i < segments.len() && #[trigger] segments[i] == low;
    let k = choose|k: int| 0 <= k < segments.len() && #[trigger] segments[k] == least(segments);
    assert(least(segments) <= segments[i]);
    assert(low <= segments[k]);
}

/// A file without segments is loaded where its lowest mapping starts.
pub proof fn law_no_segments_no_shift(mapped_at: u64)
    ensures
        base_of(Seq::empty(), mapped_at) == mapped_at,
{
}

proof fn lemma_least_is_lowest(numbers: Seq<u64>)
    requires
        numbers.len() > 0,
    ensures
        is_lowest(least(numbers), numbers),
    decreases numbers.len(),
{
    let rest = numbers.drop_last();
    assert(numbers[numbers.len() - 1] == numbers.last());
    if rest.len() > 0 {
        lemma_least_is_lowest(rest);
        let k = choose|k: int| 0 <= k < rest.len() && #[trigger] rest[k] == least(rest);
        assert(numbers[k] == rest[k]);
        assert forall|i: int| 0 <= i < numbers.len() implies least(numbers)
            <= #[trigger] numbers[i] by {
            if i < rest.len() {
                assert(rest[i] == numbers[i]);
            }
        }
    }
}

/// An address has a place in a file just if it is not below where the file is loaded; the place
/// is its distance from there.
pub proof fn law_places_are_distances(addr: u64, base: u64)
    ensures
        match static_address(addr, base) {
            Some(place) => base + place == addr,
            None => addr < base,
        },
{
}

/// Sorting mappings loses none and makes up none, and puts each one behind all that start below
/// it.
pub proof fn law_mappings_are_sorted(sorted: Seq<Mapping>, list: Seq<Mapping>)
    requires
        is_sorted_by_start(sorted, list),
        list.len() <= usize::MAX,
    ensures
        sorted.len() == list.len(),
        forall|i: int, j: int| #![trigger sorted[i], sorted[j]]
            0 <= i < j < sorted.len() ==> sorted[i].start <= sorted[j].start,
        forall|k: int| 0 <= k < list.len() ==> sorted.contains(#[trigger] list[k]),
        forall|k: int| 0 <= k < sorted.len() ==> list.contains(#[trigger] sorted[k]),
{
    let order = choose|order: Seq<usize>|
        is_ascending(order, starts(list)) && sorted == #[trigger] arranged(list, order);
    crate::order::lemma_covers(order, starts(list).len());
    assert forall|i: int, j: int| #![trigger sorted[i], sorted[j]]
        0 <= i < j < sorted.len() implies sorted[i].start <= sorted[j].start by {
        assert(crate::order::precedes(starts(list), order[i], order[j]));
    }
    assert forall|k: int| 0 <= k < sorted.len() implies list.contains(#[trigger] sorted[k]) by {
        assert(sorted[k] == list[order[k] as int]);
    }
    assert forall|k: int| 0 <= k < list.len() implies sorted.contains(#[trigger] list[k]) by {
        assert(order.contains(k as usize));
        let i = choose|i: int| 0 <= i < order.len() && order[i] == k as usize;
        assert(sorted[i] == list[k]);
    }
}

/// A file is known by the start of its lowest mapping, whatever the spelling of its path; a file
/// without a mapping is not known.
pub proof fn law_files_start_at_their_lowest_mapping(list: Seq<Mapping>, file: Seq<char>)
    ensures
        files_of(list).contains_key(file) <==> exists|i: int|
            0 <= i < list.len() && plain((#[trigger] list[i]).path) == file,
        files_of(list).contains_key(file) ==> {
            let state = files_of(list)[file];
            &&& state.load == Load::Untried
            &&& exists|i: int|
                0 <= i < list.len() && plain((#[trigger] list[i]).path) == file && list[i].start
                    == state.lowest_start
            &&& forall|i: int|
                0 <= i < list.len() && plain((#[trigger] list[i]).path) == file ==> list[i].start
                    >= state.lowest_start
        },
    decreases list.len(),
{
    if list.len() > 0 {
        let rest = list.drop_last();
        law_files_start_at_their_lowest_mapping(rest, file);
        assert(list[list.len() - 1] == list.last());
        assert forall|i: int| 0 <= i < rest.len() implies #[trigger] list[i] == rest[i] by {}
        if lowest_start(rest, file) is Some {
            let i = choose|i: int|
                0 <= i < rest.len() && plain((#[trigger] rest[i]).path) == file && rest[i].start
                    == files_of(rest)[file].lowest_start;
            assert(list[i] == rest[i]);
        }
        if files_of(list).contains_key(file) {
            let low = files_of(list)[file].lowest_start;
            if plain(list.last().path) == file && list.last().start == low {
                assert(plain(list[list.len() - 1].path) == file);
            } else {
                assert(lowest_start(rest, file) == Some(low));
            }
        }
        if exists|i: int| 0 <= i < list.len() && plain((#[trigger] list[i]).path) == file {
            let i = choose|i: int|
                0 <= i < list.len() && plain((#[trigger] list[i]).path) == file;
            if i < rest.len() {
                assert(plain(rest[i].path) == file);
            }
        }
    }
}

/// What is asked for on the way from an address to its names: first that the file that is mapped
/// there be read, unless that was tried; then that the place of the address in the file be looked
/// up, unless it has an answer or lies below the file.
pub proof fn law_files_are_read_then_searched(
    list: Seq<Mapping>,
    files: Map<Seq<char>, FileState>,
    known: Map<usize, Seq<Seq<char>>>,
    addr: usize,
)
    ensures
        match path_at(list, addr as u64) {
            None => step_for(list, files, known, addr) == Want::Nothing,
            Some(path) => files.contains_key(plain(path)) ==> match files[plain(path)].load {
                Load::Untried => step_for(list, files, known, addr) == (Want::Load {
                    path,
                    lowest_start: files[plain(path)].lowest_start,
                }),
                Load::Failed => step_for(list, files, known, addr) == Want::Nothing,
                Load::At(base) => if base <= addr && !known.contains_key(addr) {
                    step_for(list, files, known, addr) == (Want::Find {
                        path,
                        static_addr: (addr - base) as u64,
                    })
                } else {
                    step_for(list, files, known, addr) == Want::Nothing
                },
            },
        },
{
}

/// The functions at an address are named one by one, in order; the symbol that the address lies
/// in serves only if none of them has a label.
pub proof fn law_functions_are_named_in_order(
    inner: Seq<FrameInfo>,
    outer: Seq<FrameInfo>,
    symbol: Seq<char>,
)
    ensures
        names_of(inner + outer, None) == names_of(inner, None) + names_of(outer, None),
        names_of(Seq::empty(), None) == Seq::<Seq<char>>::empty(),
        names_of(inner, Some(symbol)) == if names_of(inner, None).len() > 0 {
            names_of(inner, None)
        } else {
            seq![symbol]
        },
{
    lemma_labels_in_order(inner, outer);
}

proof fn lemma_labels_in_order(a: Seq<FrameInfo>, b: Seq<FrameInfo>)
    ensures
        labels_of(a + b) == labels_of(a) + labels_of(b),
    decreases b.len(),
{
    if b.len() == 0 {
        assert(a + b =~= a);
        assert(labels_of(a) + labels_of(b) =~= labels_of(a));
    } else {
        assert((a + b).drop_last() =~= a + b.drop_last());
        lemma_labels_in_order(a, b.drop_last());
        assert(labels_of(a + b) =~= labels_of(a) + labels_of(b));
    }
}

/// A function is labelled by its readable name and, if its line is known, by file and line in
/// brackets behind it; without a name just by file and line; without both not at all.
pub proof fn law_functions_are_labelled(frame: FrameInfo)
    ensures
        ({
            let names = names_of(seq![frame], None);
            let source = match frame.file {
                Some(f) => f,
                None => "?"@,
            };
            match (frame.name, frame.line) {
                (Some(n), Some(l)) => names == seq![
                    demangled(n, frame.language) + " ("@ + source + ":"@ + decimal(l as nat)
                        + ")"@,
                ],
                (Some(n), None) => names == seq![demangled(n, frame.language)],
                (None, Some(l)) => names == seq![source + ":"@ + decimal(l as nat)],
                (None, None) => names.len() == 0,
            }
        }),
{
    let source = match frame.file {
        Some(f) => f,
        None => "?"@,
    };
    reveal_with_fuel(labels_of, 3);
    assert(seq![frame].drop_last() =~= Seq::<FrameInfo>::empty());
    assert(labels_of(Seq::<FrameInfo>::empty()) =~= Seq::<Seq<char>>::empty());
    let names = names_of(seq![frame], None);
    match (frame.name, frame.line) {
        (Some(n), Some(l)) => {
            let text = demangled(n, frame.language) + " ("@ + source + ":"@ + decimal(l as nat)
                + ")"@;
            assert(names[0] =~= text);
            assert(names =~= seq![text]);
        },
        (Some(n), None) => {
            assert(names =~= seq![demangled(n, frame.language)]);
        },
        (None, Some(l)) => {
            assert(names[0] =~= source + ":"@ + decimal(l as nat));
            assert(names =~= seq![source + ":"@ + decimal(l as nat)]);
        },
        (None, None) => {},
    }
}

/// White space, as Unicode has it.
pub open spec fn is_white(c: char) -> bool {
    let n = c as nat;
    ||| 9 <= n <= 13
    ||| n == 32 || n == 133 || n == 160 || n == 5760
    ||| 8192 <= n <= 8202
    ||| n == 8232 || n == 8233 || n == 8239 || n == 8287 || n == 12288
}

/// A field of a line: at least one character, none of them white space.
pub open spec fn is_word(text: Seq<char>) -> bool {
    text.len() > 0 && forall|i: int| 0 <= i < text.len() ==> !is_white(#[trigger] text[i])
}

/// A run of white space.
pub open spec fn is_gap(text: Seq<char>) -> bool {
    text.len() > 0 && forall|i: int| 0 <= i < text.len() ==> is_white(#[trigger] text[i])
}

/// Some fields, each with the gap behind it, and then the last one, which may hold gaps itself.
pub open spec fn row(words: Seq<Seq<char>>, gaps: Seq<Seq<char>>, last: Seq<char>) -> Seq<char>
    decreases words.len(),
{
    if words.len() == 0 {
        last
    } else {
        words[0] + gaps[0] + row(words.skip(1), gaps.skip(1), last)
    }
}

/// A line for a mapped file as the kernel writes it is read back: the range in hexadecimal, then
/// four more fields, then the path of the file, blanks and all. A file that was deleted, or what
/// is no file, is passed over.
pub proof fn law_mapped_files_are_read_back(
    start: u64,
    end: u64,
    words: Seq<Seq<char>>,
    gaps: Seq<Seq<char>>,
    path: Seq<char>,
)
    requires
        words.len() == 5,
        gaps.len() == 5,
        words[0] == hex(start as nat) + seq!['-'] + hex(end as nat),
        forall|i: int| 1 <= i < 5 ==> is_word(#[trigger] words[i]),
        forall|i: int| 0 <= i < 5 ==> is_gap(#[trigger] gaps[i]),
        path.len() > 0 && !is_white(path[0]),
    ensures
        mapping_of(row(words, gaps, path)) == if path[0] == '/' && !"(deleted)"@.is_suffix_of(
            row(words, gaps, path),
        ) {
            Some(Mapping { start, end, path })
        } else {
            None
        },
{
    let line = row(words, gaps, path);
    let range = words[0];
    lemma_range(start, end);
    assert forall|i: int| 0 <= i < 5 implies is_word(#[trigger] words[i]) by {}
    assert(Seq::<char>::empty() + line =~= line);
    lemma_last_field(line, Seq::empty(), words, gaps, path);
    let begin = line.len() - path.len();
    assert(line.subrange(begin, line.len() as int) =~= line.skip(begin));
    let rest = row(words.skip(1), gaps.skip(1), path);
    assert(words.skip(1)[0] == words[1]);
    assert(is_word(words[1]));
    assert(rest[0] == words[1][0]);
    assert(is_word(words[0]) && is_gap(gaps[0]));
    assert(line =~= Seq::<char>::empty() + range + gaps[0] + rest);
    lemma_next_field(line, Seq::empty(), range, gaps[0], rest, 0);
    assert(line.subrange(0, range.len() as int) =~= range);
}

proof fn lemma_range(start: u64, end: u64)
    ensures
        is_word(hex(start as nat) + seq!['-'] + hex(end as nat)),
        range_of(hex(start as nat) + seq!['-'] + hex(end as nat)) == Some((start, end)),
{
    let a = hex(start as nat);
    let b = hex(end as nat);
    let range = a + seq!['-'] + b;
    law_numbers_are_written(start as nat, 0);
    law_numbers_are_written(end as nat, 0);
    law_numbers_are_read(a, 16, u64::MAX as nat);
    law_numbers_are_read(b, 16, u64::MAX as nat);
    assert forall|i: int| 0 <= i < a.len() implies a[i] != '-' && a[i] != '+' && !is_white(a[i]) by {
        assert(worth(a[i]) >= 0);
    }
    assert forall|i: int| 0 <= i < b.len() implies b[i] != '-' && b[i] != '+' && !is_white(b[i]) by {
        assert(worth(b[i]) >= 0);
    }
    assert(a[0] != '+' && b[0] != '+');
    assert forall|i: int| 0 <= i < range.len() implies !is_white(#[trigger] range[i]) by {
        if i < a.len() {
            assert(range[i] == a[i]);
        } else if i > a.len() {
            assert(range[i] == b[i - a.len() - 1]);
        }
    }
    lemma_found(range, '-', 0, a.len() as int);
    assert(range.take(a.len() as int) =~= a);
    assert(range.skip(a.len() as int + 1) =~= b);
}

/// The last field of a row begins where the fields before it and their gaps end.
proof fn lemma_last_field(
    line: Seq<char>,
    before: Seq<char>,
    words: Seq<Seq<char>>,
    gaps: Seq<Seq<char>>,
    last: Seq<char>,
)
    requires
        line == before + row(words, gaps, last),
        words.len() == gaps.len(),
        forall|i: int| 0 <= i < words.len() ==> is_word(#[trigger] words[i]),
        forall|i: int| 0 <= i < gaps.len() ==> is_gap(#[trigger] gaps[i]),
        last.len() > 0 && !is_white(last[0]),
    ensures
        field_bounds(line, before.len() as int, words.len()) matches Some((begin, _)) && begin
            == line.len() - last.len(),
        row(words, gaps, last).len() >= last.len(),
        row(words, gaps, last).skip(row(words, gaps, last).len() - last.len()) == last,
        !is_white(row(words, gaps, last)[0]),
    decreases words.len(),
{
    if words.len() == 0 {
        assert(last.skip(0) =~= last);
        assert(line[before.len() as int] == last[0]);
        lemma_run(line, true, before.len() as int, before.len() as int);
    } else {
        let word = words[0];
        let gap = gaps[0];
        assert(is_word(word) && is_gap(gap));
        let rest = row(words.skip(1), gaps.skip(1), last);
        let next = before + word + gap;
        assert(line =~= next + rest);
        assert forall|i: int| 0 <= i < words.skip(1).len() implies is_word(
            #[trigger] words.skip(1)[i],
        ) by {
            assert(words.skip(1)[i] == words[i + 1]);
        }
        assert forall|i: int| 0 <= i < gaps.skip(1).len() implies is_gap(
            #[trigger] gaps.skip(1)[i],
        ) by {
            assert(gaps.skip(1)[i] == gaps[i + 1]);
        }
        lemma_last_field(line, next, words.skip(1), gaps.skip(1), last);
        lemma_next_field(line, before, word, gap, rest, words.len());
        let all = row(words, gaps, last);
        assert(all[0] == word[0]);
        assert(all.skip(all.len() - last.len()) =~= rest.skip(rest.len() - last.len()));
    }
}

proof fn lemma_found(s: Seq<char>, c: char, from: int, at: int)
    requires
        0 <= from <= at < s.len(),
        s[at] == c,
        forall|i: int| from <= i < at ==> s[i] != c,
    ensures
        find_char(s, c, from) == at,
    decreases at - from,
{
    if from < at {
        lemma_found(s, c, from + 1, at);
    }
}

/// A run ends where the first character stands that does not belong to it.
proof fn lemma_run(s: Seq<char>, space: bool, from: int, to: int)
    requires
        0 <= from <= to <= s.len(),
        forall|i: int| from <= i < to ==> is_white(#[trigger] s[i]) == space,
        to < s.len() ==> is_white(s[to]) != space,
    ensures
        run_end(s, space, from) == to,
    decreases to - from,
{
    assert(forall|c: char| is_space(c) == is_white(c));
    if from < to {
        assert(is_white(s[from]) == space);
        lemma_run(s, space, from + 1, to);
    }
}

/// Passing over one field and the gap behind it leads to the next one.
proof fn lemma_next_field(
    line: Seq<char>,
    before: Seq<char>,
    word: Seq<char>,
    gap: Seq<char>,
    rest: Seq<char>,
    n: nat,
)
    requires
        line == before + word + gap + rest,
        is_word(word),
        is_gap(gap),
        rest.len() > 0 && !is_white(rest[0]),
    ensures
        n == 0 ==> field_bounds(line, before.len() as int, n) == Some(
            (before.len() as int, (before + word).len() as int),
        ),
        n > 0 ==> field_bounds(line, before.len() as int, n) == field_bounds(
            line,
            (before + word + gap).len() as int,
            (n - 1) as nat,
        ),
{
    let a = before.len() as int;
    let b = a + word.len();
    let c = b + gap.len();
    assert forall|i: int| a <= i < b implies !is_white(#[trigger] line[i]) by {
        assert(line[i] == word[i - a]);
    }
    assert forall|i: int| b <= i < c implies is_white(#[trigger] line[i]) by {
        assert(line[i] == gap[i - b]);
    }
    assert(line[c] == rest[0]);
    lemma_run(line, true, a, a);
    lemma_run(line, false, a, b);
    lemma_run(line, true, b, c);
    lemma_run(line, true, c, c);
    if n > 0 {
        reveal_with_fuel(field_bounds, 3);
    }
}

/// A maps file is read line by line, in order.
pub proof fn law_maps_are_read_line_by_line(line: Seq<char>, rest: Seq<char>)
    requires
        !line.contains('\n'),
        line.len() > 0 ==> line.last() != '\r',
    ensures
        mappings_of(line + seq!['\n'] + rest) == match mapping_of(line) {
            Some(mapping) => seq![mapping] + mappings_of(rest),
            None => mappings_of(rest),
        },
        mappings_of(line + seq!['\r', '\n'] + rest) == mappings_of(line + seq!['\n'] + rest),
        mappings_of(Seq::empty()) == Seq::<Mapping>::empty(),
{
    let text = line + seq!['\n'] + rest;
    assert forall|i: int| 0 <= i < line.len() implies text[i] != '\n' by {
        assert(line.contains(line[i]));
    }
    lemma_found(text, '\n', 0, line.len() as int);
    assert(text.take(line.len() as int) =~= line);
    assert(text.skip(line.len() as int + 1) =~= rest);
    let other = line + seq!['\r', '\n'] + rest;
    assert forall|i: int| 0 <= i < line.len() + 1 implies other[i] != '\n' by {
        if i < line.len() {
            assert(line.contains(line[i]));
        }
    }
    lemma_found(other, '\n', 0, line.len() as int + 1);
    assert(other.take(line.len() as int) =~= line);
    assert(other.skip(line.len() as int + 2) =~= rest);
}

/// A file is tried once: what was found of it first is kept; and a report on one file changes
/// nothing about another.
pub proof fn law_files_are_tried_once(
    files: Map<Seq<char>, FileState>,
    path: Seq<char>,
    base: Option<u64>,
    other: Seq<char>,
)
    ensures
        ({
            let next = after_load(files, path, base);
            &&& next.dom() == files.dom()
            &&& files.contains_key(other) ==> {
                &&& next[other].lowest_start == files[other].lowest_start
                &&& other != plain(path) || files[other].load != Load::Untried ==> next[other]
                    == files[other]
                &&& other == plain(path) && files[other].load == Load::Untried ==> next[other].load
                    == match base {
                    Some(b) => Load::At(b),
                    None => Load::Failed,
                }
            }
        }),
{
    assert(after_load(files, path, base).dom() =~= files.dom());
}

/// The parts of a path are what stands between its slashes, in order, but for nothing at all and
/// for a dot that does not stand at the very start.
pub proof fn law_paths_fall_into_parts(word: Seq<char>, rest: Seq<char>, first: bool)
    requires
        !word.contains('/'),
    ensures
        parts_of(word, first) == if word.len() == 0 || (word == seq!['.'] && !first) {
            Seq::empty()
        } else {
            seq![word]
        },
        parts_of(word + seq!['/'] + rest, first) == parts_of(word, first) + parts_of(rest, false),
{
    assert forall|i: int| 0 <= i < word.len() implies word[i] != '/' by {
        assert(word.contains(word[i]));
    }
    lemma_absent(word, '/', 0);
    assert(word.take(word.len() as int) =~= word);
    assert(parts_of(word, first) =~= if word.len() == 0 || (word == seq!['.'] && !first) {
        Seq::empty()
    } else {
        seq![word]
    });
    let path = word + seq!['/'] + rest;
    lemma_found(path, '/', 0, word.len() as int);
    assert(path.take(word.len() as int) =~= word);
    assert(path.skip(word.len() as int + 1) =~= rest);
    assert(parts_of(path, first) =~= parts_of(word, first) + parts_of(rest, false));
}

proof fn lemma_absent(s: Seq<char>, c: char, from: int)
    requires
        0 <= from <= s.len(),
        forall|i: int| from <= i < s.len() ==> s[i] != c,
    ensures
        find_char(s, c, from) == s.len(),
    decreases s.len() - from,
{
    if from < s.len() {
        lemma_absent(s, c, from + 1);
    }
}

} // verus!
