//! The kernel's list of a process's memory mappings (the text of `/proc/<pid>/maps`): one mapping
//! per line, in fields separated by white space. The address range comes first; the sixth field is
//! the path of the file, which may hold blanks itself and goes on to the end of the line.

use crate::text::chars_of;
use crate::text::number;
use crate::text::parse_number;
use crate::text::text_between;
use vstd::prelude::*;

verus! {

/// A mapped file and the addresses that it takes up, from `start` up to but without `end`.
pub struct Region {
    pub start: u64,
    pub end: u64,
    pub path: String,
}

/// What a [`Region`] holds.
pub struct Mapping {
    pub start: u64,
    pub end: u64,
    pub path: Seq<char>,
}

impl View for Region {
    type V = Mapping;

    open spec fn view(&self) -> Mapping {
        Mapping { start: self.start, end: self.end, path: self.path@ }
    }
}

/// Whether `c` is white space, as Unicode has it.
pub open spec fn is_space(c: char) -> bool {
    let n = c as nat;
    ||| 0x9 <= n <= 0xd
    ||| n == 0x20
    ||| n == 0x85
    ||| n == 0xa0
    ||| n == 0x1680
    ||| 0x2000 <= n <= 0x200a
    ||| n == 0x2028
    ||| n == 0x2029
    ||| n == 0x202f
    ||| n == 0x205f
    ||| n == 0x3000
}

fn space(c: char) -> (yes: bool)
    ensures
        yes == is_space(c),
{
    let n: u32 = c as u32;
    (0x9 <= n && n <= 0xd) || n == 0x20 || n == 0x85 || n == 0xa0 || n == 0x1680 || (0x2000 <= n
        && n <= 0x200a) || n == 0x2028 || n == 0x2029 || n == 0x202f || n == 0x205f || n == 0x3000
}

/// The first place at or after `from` that holds `c`, or the end.
pub open spec fn find_char(s: Seq<char>, c: char, from: int) -> int
    decreases s.len() - from,
{
    if from >= s.len() || s[from] == c {
        from
    } else {
        find_char(s, c, from + 1)
    }
}

pub(crate) fn find(s: &Vec<char>, c: char, from: usize, to: usize) -> (at: usize)
    requires
        from <= to <= s.len(),
    ensures
        at == find_char(s@.take(to as int), c, from as int),
        from <= at <= to,
        at < to ==> s@[at as int] == c,
{
    let mut at: usize = from;
    while at < to && s[at] != c
        invariant
            from <= at <= to <= s.len(),
            find_char(s@.take(to as int), c, from as int) == find_char(
                s@.take(to as int),
                c,
                at as int,
            ),
        decreases to - at,
    {
        at += 1;
    }
    at
}

/// The range `start-end` in hexadecimal.
pub open spec fn range_of(range: Seq<char>) -> Option<(u64, u64)> {
    let dash = find_char(range, '-', 0);
    if dash >= range.len() {
        None
    } else {
        match (
            number(range.take(dash), 16, u64::MAX as nat),
            number(range.skip(dash + 1), 16, u64::MAX as nat),
        ) {
            (Some(start), Some(end)) => Some((start as u64, end as u64)),
            _ => None,
        }
    }
}

fn range_between(chars: &Vec<char>, from: usize, to: usize) -> (bounds: Option<(u64, u64)>)
    requires
        from <= to <= chars.len(),
    ensures
        bounds == range_of(chars@.subrange(from as int, to as int)),
{
    let ghost range = chars@.subrange(from as int, to as int);
    let dash = find(chars, '-', from, to);
    proof {
        lemma_find_in_part(chars@, '-', from as int, to as int, from as int);
    }
    if dash == to {
        return None;
    }
    assert(range.take(dash - from) =~= chars@.subrange(from as int, dash as int));
    assert(range.skip(dash - from + 1) =~= chars@.subrange(dash + 1, to as int));
    match (
        parse_number(chars, from, dash, 16, u64::MAX),
        parse_number(chars, dash + 1, to, 16, u64::MAX),
    ) {
        (Some(start), Some(end)) => Some((start, end)),
        _ => None,
    }
}

/// Searching a part of a text is searching the text from where the part begins.
proof fn lemma_find_in_part(s: Seq<char>, c: char, from: int, to: int, at: int)
    requires
        0 <= from <= at <= to <= s.len(),
    ensures
        find_char(s.subrange(from, to), c, at - from) == find_char(s.take(to), c, at) - from,
    decreases to - at,
{
    if at < to && s[at] != c {
        lemma_find_in_part(s, c, from, to, at + 1);
    }
}

/// The bounds that `range` gives.
pub fn parse_range(range: &str) -> (bounds: Option<(u64, u64)>)
    ensures
        bounds == range_of(range@),
{
    let chars = chars_of(range);
    assert(chars@.subrange(0, chars@.len() as int) =~= range@);
    range_between(&chars, 0, chars.len())
}

/// The end of the run, from `from` on, of characters that are white space (or are not).
pub open spec fn run_end(s: Seq<char>, space: bool, from: int) -> int
    decreases s.len() - from,
{
    if from >= s.len() || is_space(s[from]) != space {
        from
    } else {
        run_end(s, space, from + 1)
    }
}

fn end_of_run(s: &Vec<char>, spaces: bool, from: usize, to: usize) -> (at: usize)
    requires
        from <= to <= s.len(),
    ensures
        at == run_end(s@.take(to as int), spaces, from as int),
        from <= at <= to,
        at < to ==> is_space(s@[at as int]) != spaces,
        forall|i: int| from <= i < at ==> is_space(#[trigger] s@[i]) == spaces,
{
    let mut at: usize = from;
    while at < to && space(s[at]) == spaces
        invariant
            from <= at <= to <= s.len(),
            run_end(s@.take(to as int), spaces, from as int) == run_end(
                s@.take(to as int),
                spaces,
                at as int,
            ),
            forall|i: int| from <= i < at ==> is_space(#[trigger] s@[i]) == spaces,
        decreases to - at,
    {
        at += 1;
    }
    at
}

/// Where the `n`-th field (from 0) at or after `from` begins and ends; `None` if there are fewer.
pub open spec fn field_bounds(s: Seq<char>, from: int, n: nat) -> Option<(int, int)>
    decreases n,
{
    let begin = run_end(s, true, from);
    let end = run_end(s, false, begin);
    if begin >= s.len() {
        None
    } else if n == 0 {
        Some((begin, end))
    } else {
        field_bounds(s, end, (n - 1) as nat)
    }
}

/// The `n`-th field of a line (from 0): the `n`-th longest run without white space.
pub open spec fn field(line: Seq<char>, n: nat) -> Option<Seq<char>> {
    match field_bounds(line, 0, n) {
        Some((begin, end)) => Some(line.subrange(begin, end)),
        None => None,
    }
}

fn bounds_of_field(line: &Vec<char>, n: usize) -> (bounds: Option<(usize, usize)>)
    ensures
        match bounds {
            Some((begin, end)) => {
                &&& field_bounds(line@, 0, n as nat) == Some((begin as int, end as int))
                &&& begin < end <= line.len()
            },
            None => field_bounds(line@, 0, n as nat) is None,
        },
{
    assert(line@.take(line@.len() as int) =~= line@);
    let mut from: usize = 0;
    let mut left: usize = n;
    loop
        invariant
            from <= line.len(),
            left <= n,
            line@.take(line@.len() as int) == line@,
            field_bounds(line@, from as int, left as nat) == field_bounds(line@, 0, n as nat),
        decreases left,
    {
        let begin = end_of_run(line, true, from, line.len());
        let end = end_of_run(line, false, begin, line.len());
        if begin >= line.len() {
            return None;
        }
        if end == begin {
            assert(is_space(line@[begin as int]) != true);
        }
        if left == 0 {
            return Some((begin, end));
        }
        from = end;
        left -= 1;
    }
}

/// `line` ends with `suffix`.
pub open spec fn ends_with(line: Seq<char>, suffix: Seq<char>) -> bool {
    suffix.is_suffix_of(line)
}

fn has_suffix(line: &Vec<char>, suffix: &str) -> (yes: bool)
    ensures
        yes == ends_with(line@, suffix@),
{
    let tail = chars_of(suffix);
    if tail.len() > line.len() {
        return false;
    }
    let skip: usize = line.len() - tail.len();
    let mut i: usize = 0;
    while i < tail.len()
        invariant
            i <= tail.len(),
            tail@ == suffix@,
            skip == line.len() - tail.len(),
            forall|j: int| 0 <= j < i ==> line@[skip + j] == tail@[j],
        decreases tail.len() - i,
    {
        if line[skip + i] != tail[i] {
            assert(line@.subrange(skip as int, line@.len() as int)[i as int] != tail@[i as int]);
            return false;
        }
        i += 1;
    }
    assert(line@.subrange(skip as int, line@.len() as int) =~= tail@);
    true
}

/// The mapping that a line describes: one of a file that is still there, with a readable range.
pub open spec fn mapping_of(line: Seq<char>) -> Option<Mapping> {
    match (field(line, 0), field_bounds(line, 0, 5)) {
        (Some(range), Some((begin, _))) => if line[begin] == '/' && !ends_with(
            line,
            "(deleted)"@,
        ) {
            match range_of(range) {
                Some((start, end)) => Some(
                    Mapping { start, end, path: line.subrange(begin, line.len() as int) },
                ),
                None => None,
            }
        } else {
            None
        },
        _ => None,
    }
}

fn parse_line(line: &Vec<char>) -> (region: Option<Region>)
    ensures
        match region {
            Some(r) => mapping_of(line@) == Some(r@),
            None => mapping_of(line@) is None,
        },
{
    match (bounds_of_field(line, 0), bounds_of_field(line, 5)) {
        (Some((from, to)), Some((begin, _))) => {
            if line[begin] != '/' || has_suffix(line, "(deleted)") {
                return None;
            }
            match range_between(line, from, to) {
                Some((start, stop)) => Some(
                    Region { start, end: stop, path: text_between(line, begin, line.len()) },
                ),
                None => None,
            }
        },
        _ => None,
    }
}

/// The first line of a text: up to the first line feed (and without a carriage return right
/// before it), or all of it.
pub open spec fn first_line(text: Seq<char>) -> Seq<char> {
    let feed = find_char(text, '\n', 0);
    if feed < text.len() && feed > 0 && text[feed - 1] == '\r' {
        text.take(feed - 1)
    } else {
        text.take(feed)
    }
}

/// The mappings that a text lists, line by line.
pub open spec fn mappings_of(text: Seq<char>) -> Seq<Mapping>
    decreases text.len(),
{
    if text.len() == 0 {
        Seq::empty()
    } else {
        let feed = find_char(text, '\n', 0);
        let rest = if 0 <= feed < text.len() {
            mappings_of(text.skip(feed + 1))
        } else {
            Seq::empty()
        };
        match mapping_of(first_line(text)) {
            Some(m) => seq![m] + rest,
            None => rest,
        }
    }
}

/// What the regions in a list hold.
pub open spec fn mappings(regions: Seq<Region>) -> Seq<Mapping> {
    regions.map_values(|r: Region| r@)
}

/// The regions that the text of a maps file lists, in its order.
pub fn parse_maps(text: &str) -> (regions: Vec<Region>)
    ensures
        mappings(regions@) == mappings_of(text@),
{
    let chars = chars_of(text);
    let mut regions: Vec<Region> = Vec::new();
    let mut from: usize = 0;
    assert(chars@.skip(0) =~= chars@);
    assert(mappings(regions@) + mappings_of(chars@) =~= mappings_of(chars@));
    while from < chars.len()
        invariant
            from <= chars.len(),
            chars@ == text@,
            mappings(regions@) + mappings_of(chars@.skip(from as int)) == mappings_of(text@),
        decreases chars.len() - from,
    {
        let ghost tail = chars@.skip(from as int);
        let ghost before = mappings(regions@);
        let feed = find(&chars, '\n', from, chars.len());
        proof {
            lemma_find_in_part(chars@, '\n', from as int, chars@.len() as int, from as int);
            assert(chars@.subrange(from as int, chars@.len() as int) =~= tail);
        }
        let mut to: usize = feed;
        if feed < chars.len() && feed > from && chars[feed - 1] == '\r' {
            to = feed - 1;
        }
        let mut line: Vec<char> = Vec::new();
        let mut i: usize = from;
        while i < to
            invariant
                from <= i <= to <= chars.len(),
                line@ == chars@.subrange(from as int, i as int),
            decreases to - i,
        {
            line.push(chars[i]);
            i += 1;
            assert(line@ =~= chars@.subrange(from as int, i as int));
        }
        assert(line@ =~= first_line(tail));
        match parse_line(&line) {
            Some(region) => {
                regions.push(region);
                assert(mappings(regions@) =~= before.push(region@));
            },
            None => {},
        }
        if feed < chars.len() {
            from = feed + 1;
        } else {
            from = feed;
        }
        proof {
            let done = feed as int - (chars@.len() - tail.len());
            if feed < chars.len() {
                assert(chars@.skip(feed + 1) =~= tail.skip(done + 1));
            } else {
                assert(chars@.skip(feed as int) =~= Seq::<char>::empty());
            }
            assert(mappings(regions@) + mappings_of(chars@.skip(from as int)) =~= before
                + mappings_of(tail));
        }
    }
    assert(chars@.skip(from as int) =~= Seq::<char>::empty());
    assert(mappings(regions@) + Seq::<Mapping>::empty() =~= mappings(regions@));
    regions
}

} // verus!
