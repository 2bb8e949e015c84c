//! From what an object file says about an address to the names that are shown for it: where the
//! file was loaded, and one label per (possibly inlined) function.

use crate::text::decimal;
use crate::text::push_decimal;
use object::Object;
use object::ObjectSegment;
use vstd::prelude::*;
use vstd::string::StringExecFns;

verus! {

/// The code for Rust in debug information.
pub const LANG_RUST: u16 = 28;

/// The codes for C++ in debug information, one per edition of its standard.
pub open spec fn is_cpp(language: u16) -> bool {
    language == 4 || language == 25 || language == 26 || language == 33 || language == 42
        || language == 43
}

/// A function at an address, as debug information has it. Inlined calls give several of these
/// for one address, the innermost first.
pub struct RawFrame {
    /// The function's name as it stands in the file.
    pub name: Option<String>,
    /// The code of the language that the function was written in.
    pub language: Option<u16>,
    pub file: Option<String>,
    pub line: Option<u32>,
}

/// What a [`RawFrame`] holds.
pub struct FrameInfo {
    pub name: Option<Seq<char>>,
    pub language: Option<u16>,
    pub file: Option<Seq<char>>,
    pub line: Option<u32>,
}

/// The characters of a text that may be missing.
pub open spec fn text_of(text: Option<String>) -> Option<Seq<char>> {
    match text {
        Some(t) => Some(t@),
        None => None,
    }
}

impl View for RawFrame {
    type V = FrameInfo;

    open spec fn view(&self) -> FrameInfo {
        FrameInfo {
            name: text_of(self.name),
            language: self.language,
            file: text_of(self.file),
            line: self.line,
        }
    }
}

/// What `addr2line::demangle_auto` makes of a function's name.
pub uninterp spec fn demangled(name: Seq<char>, language: Option<u16>) -> Seq<char>;

/// Calls `addr2line::demangle_auto`, which turns a mangled name into a readable one by the rules
/// of the given language, or of Rust and then C++ if none is given. A language that has no such
/// rules leaves the name as it is. How a name is demangled is left to that function.
#[verifier::external_body]
fn demangle(name: &str, language: Option<u16>) -> (readable: String)
    ensures
        readable@ == demangled(name@, language),
        language matches Some(l) && l != LANG_RUST && !is_cpp(l) ==> readable@ == name@,
{
    addr2line::demangle_auto(
        std::borrow::Cow::Borrowed(name),
        language.map(addr2line::gimli::DwLang),
    ).into_owned()
}

/// Where a function stands: its file (`?` if that is not known) and line, if the line is known.
pub open spec fn location_of(file: Option<Seq<char>>, line: Option<u32>) -> Option<Seq<char>> {
    match line {
        Some(n) => Some(
            (match file {
                Some(f) => f,
                None => "?"@,
            }) + ":"@ + decimal(n as nat),
        ),
        None => None,
    }
}

/// The label of a function: its name, then its location in brackets; or just one of the two.
pub open spec fn label_of(
    name: Option<Seq<char>>,
    file: Option<Seq<char>>,
    line: Option<u32>,
) -> Option<Seq<char>> {
    match (name, location_of(file, line)) {
        (Some(name), Some(location)) => Some(name + " ("@ + location + ")"@),
        (Some(name), None) => Some(name),
        (None, location) => location,
    }
}

/// The label for a function with the readable name `name`.
pub fn frame_label(name: Option<String>, file: Option<String>, line: Option<u32>) -> (label: Option<
    String,
>)
    ensures
        text_of(label) == label_of(text_of(name), text_of(file), line),
{
    let location: Option<String> = match line {
        Some(n) => {
            let mut text = match file {
                Some(f) => f,
                None => "?".to_owned(),
            };
            text.append(":");
            push_decimal(&mut text, n as u64);
            Some(text)
        },
        None => None,
    };
    match (name, location) {
        (Some(name), Some(location)) => {
            let mut text = name;
            text.append(" (");
            text.append(location.as_str());
            text.append(")");
            Some(text)
        },
        (Some(name), None) => Some(name),
        (None, location) => location,
    }
}

/// The label of a function whose name has yet to be demangled.
pub open spec fn frame_text(frame: FrameInfo) -> Option<Seq<char>> {
    label_of(
        match frame.name {
            Some(name) => Some(demangled(name, frame.language)),
            None => None,
        },
        frame.file,
        frame.line,
    )
}

/// The labels of the functions that have one, in order.
pub open spec fn labels_of(frames: Seq<FrameInfo>) -> Seq<Seq<char>>
    decreases frames.len(),
{
    if frames.len() == 0 {
        Seq::empty()
    } else {
        match frame_text(frames.last()) {
            Some(label) => labels_of(frames.drop_last()).push(label),
            None => labels_of(frames.drop_last()),
        }
    }
}

/// The names shown for an address: the labels of its functions, or else the symbol it lies in.
pub open spec fn names_of(frames: Seq<FrameInfo>, symbol: Option<Seq<char>>) -> Seq<Seq<char>> {
    let labels = labels_of(frames);
    match symbol {
        Some(name) if labels.len() == 0 => seq![name],
        _ => labels,
    }
}

/// What the texts in a list hold.
pub open spec fn texts(list: Seq<String>) -> Seq<Seq<char>> {
    list.map_values(|s: String| s@)
}

/// What the frames in a list hold.
pub open spec fn infos(frames: Seq<RawFrame>) -> Seq<FrameInfo> {
    frames.map_values(|f: RawFrame| f@)
}

/// The names for an address of which debug information gives `frames` and the symbol table
/// gives `symbol`.
pub fn names_from(frames: Vec<RawFrame>, symbol: Option<String>) -> (names: Vec<String>)
    ensures
        texts(names@) == names_of(infos(frames@), text_of(symbol)),
{
    let mut names: Vec<String> = Vec::new();
    let mut i: usize = 0;
    let ghost all = infos(frames@);
    assert(texts(names@) =~= labels_of(all.take(0)));
    while i < frames.len()
        invariant
            i <= frames.len(),
            all == infos(frames@),
            texts(names@) == labels_of(all.take(i as int)),
        decreases frames.len() - i,
    {
        let frame = &frames[i];
        let name = match &frame.name {
            Some(name) => Some(demangle(name.as_str(), frame.language)),
            None => None,
        };
        let file = match &frame.file {
            Some(file) => Some(file.clone()),
            None => None,
        };
        let ghost before = texts(names@);
        assert(all.take(i + 1).drop_last() =~= all.take(i as int));
        assert(all.take(i + 1).last() == frame@);
        match frame_label(name, file, frame.line) {
            Some(label) => {
                names.push(label);
                assert(texts(names@) =~= before.push(label@));
            },
            None => {},
        }
        i += 1;
    }
    assert(all.take(i as int) =~= all);
    if names.len() == 0 {
        match symbol {
            Some(name) => {
                names.push(name);
                assert(texts(names@) =~= seq![name@]);
            },
            None => {},
        }
    }
    names
}

/// The smallest of some numbers; 0 if there is none.
pub open spec fn least(numbers: Seq<u64>) -> u64
    decreases numbers.len(),
{
    if numbers.len() == 0 {
        0
    } else if numbers.len() == 1 || numbers.last() < least(numbers.drop_last()) {
        numbers.last()
    } else {
        least(numbers.drop_last())
    }
}

/// Where a file was loaded whose lowest mapping starts at `lowest_start` and whose segments ask
/// for the addresses in `segments`.
pub open spec fn base_of(segments: Seq<u64>, lowest_start: u64) -> u64 {
    if lowest_start < least(segments) {
        0
    } else {
        (lowest_start - least(segments)) as u64
    }
}

/// The load base of a file, from the addresses that its segments ask for.
pub fn load_base(segments: &Vec<u64>, lowest_start: u64) -> (base: u64)
    ensures
        base == base_of(segments@, lowest_start),
{
    let mut min: u64 = 0;
    let mut i: usize = 0;
    while i < segments.len()
        invariant
            i <= segments.len(),
            min == least(segments@.take(i as int)),
        decreases segments.len() - i,
    {
        assert(segments@.take(i + 1).drop_last() =~= segments@.take(i as int));
        if i == 0 || segments[i] < min {
            min = segments[i];
        }
        i += 1;
    }
    assert(segments@.take(i as int) =~= segments@);
    lowest_start.saturating_sub(min)
}

/// What `object::File::parse` makes of a file's bytes: the addresses of its segments, or the
/// text of the error.
pub uninterp spec fn object_segments(data: Seq<u8>) -> Result<Seq<u64>, Seq<char>>;

/// Calls `object::File::parse` and lists the `address` of each of the file's `segments`. How a
/// file's bytes are read is left to that crate; the result depends on the bytes alone.
#[verifier::external_body]
fn segment_addresses(data: &[u8]) -> (segments: Result<Vec<u64>, String>)
    ensures
        match (segments, object_segments(data@)) {
            (Ok(list), Ok(named)) => list@ == named,
            (Err(message), Err(named)) => message@ == named,
            _ => false,
        },
{
    match object::File::parse(data) {
        Ok(file) => Ok(file.segments().map(|segment| segment.address()).collect()),
        Err(e) => Err(e.to_string()),
    }
}

/// The load base of the file with the content `data` whose lowest mapping starts at
/// `lowest_start`.
pub fn compute_load_base(data: &[u8], lowest_start: u64) -> (base: Result<u64, String>)
    ensures
        match (base, object_segments(data@)) {
            (Ok(b), Ok(segments)) => b == base_of(segments, lowest_start),
            (Err(message), Err(named)) => message@ == named,
            _ => false,
        },
{
    match segment_addresses(data) {
        Ok(segments) => Ok(load_base(&segments, lowest_start)),
        Err(message) => Err(message),
    }
}

/// The address within a file of the address `addr` at which it is mapped.
pub open spec fn static_address(addr: u64, base: u64) -> Option<u64> {
    if addr < base {
        None
    } else {
        Some((addr - base) as u64)
    }
}

/// Where a file is mapped does not matter: moving it, and an address in it, by the same distance
/// leads to the same place in the file.
pub proof fn law_mapping_address_does_not_matter(
    segments: Seq<u64>,
    lowest_start: u64,
    addr: u64,
    distance: u64,
)
    requires
        least(segments) <= lowest_start,
        lowest_start + distance <= u64::MAX,
        addr + distance <= u64::MAX,
    ensures
        static_address(
            (addr + distance) as u64,
            base_of(segments, (lowest_start + distance) as u64),
        ) == static_address(addr, base_of(segments, lowest_start)),
{
}

} // verus!
