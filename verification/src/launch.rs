//! What the launcher runs: the builds, the target's compiler, the target and the analyzer.

use crate::drain::asked_from;
use crate::drain::nothing_asked;
use crate::drain::Asked;
use crate::symbols::text_of;
use crate::symbols::texts;
use crate::text::decimal;
use crate::text::decimal_text;
use crate::text::law_numbers_round_trip;
use crate::text::push_decimal;
use crate::text::same_text;
use vstd::prelude::*;

verus! {

/// The list with one more text at its end.
fn add_text(list: &mut Vec<String>, text: &str)
    ensures
        texts(final(list)@) == texts(old(list)@).push(text@),
{
    let ghost before = texts(list@);
    list.push(text.to_owned());
    assert(texts(list@) =~= before.push(text@));
}

/// The list with all of `more` at its end.
fn add_texts(list: &mut Vec<String>, more: &Vec<String>)
    ensures
        texts(final(list)@) == texts(old(list)@) + texts(more@),
{
    let ghost before = texts(list@);
    let mut i: usize = 0;
    assert(texts(list@) =~= before + texts(more@).take(0));
    while i < more.len()
        invariant
            i <= more.len(),
            texts(list@) == before + texts(more@).take(i as int),
        decreases more.len() - i,
    {
        add_text(list, more[i].as_str());
        i += 1;
        assert(texts(list@) =~= before + texts(more@).take(i as int));
    }
    assert(texts(more@).take(i as int) =~= texts(more@));
}

/// The compiler for a source file with the given extension: C for `c`, or else C++.
pub fn compiler_for(extension: Option<&str>) -> (compiler: &'static str)
    ensures
        compiler@ == match extension {
            Some(e) => if e@ == "c"@ {
                "cc"@
            } else {
                "c++"@
            },
            None => "c++"@,
        },
{
    match extension {
        Some(e) => if same_text(e, "c") {
            "cc"
        } else {
            "c++"
        },
        None => "c++",
    }
}

/// The name of the compiled target: the source file's without its extension, if it has one.
pub fn target_name(stem: Option<&str>) -> (name: String)
    ensures
        name@ == match stem {
            Some(s) => s@,
            None => "target"@,
        },
{
    match stem {
        Some(s) => s.to_owned(),
        None => "target".to_owned(),
    }
}

/// The compiler's arguments: debug information and frame pointers, no optimization, and whatever
/// else was asked for.
pub fn compile_args(extra: &Vec<String>, output: &str, source: &str) -> (args: Vec<String>)
    ensures
        texts(args@) == seq!["-g"@, "-fno-omit-frame-pointer"@, "-O0"@] + texts(extra@) + seq![
            "-o"@,
            output@,
            source@,
        ],
{
    let mut args: Vec<String> = Vec::new();
    add_text(&mut args, "-g");
    add_text(&mut args, "-fno-omit-frame-pointer");
    add_text(&mut args, "-O0");
    add_texts(&mut args, extra);
    add_text(&mut args, "-o");
    add_text(&mut args, output);
    add_text(&mut args, source);
    assert(texts(args@) =~= seq!["-g"@, "-fno-omit-frame-pointer"@, "-O0"@] + texts(extra@) + seq![
        "-o"@,
        output@,
        source@,
    ]);
    args
}

/// The arguments that build the library to preload.
pub fn profiler_build_args() -> (args: Vec<String>)
    ensures
        texts(args@) == seq![
            "rustc"@,
            "-p"@,
            "profiler"@,
            "--lib"@,
            "--crate-type"@,
            "cdylib"@,
            "--features"@,
            "profiler-hooks"@,
        ],
{
    let mut args: Vec<String> = Vec::new();
    add_text(&mut args, "rustc");
    add_text(&mut args, "-p");
    add_text(&mut args, "profiler");
    add_text(&mut args, "--lib");
    add_text(&mut args, "--crate-type");
    add_text(&mut args, "cdylib");
    add_text(&mut args, "--features");
    add_text(&mut args, "profiler-hooks");
    assert(texts(args@) =~= seq![
        "rustc"@,
        "-p"@,
        "profiler"@,
        "--lib"@,
        "--crate-type"@,
        "cdylib"@,
        "--features"@,
        "profiler-hooks"@,
    ]);
    args
}

/// The arguments that build the analyzer.
pub fn analyzer_build_args() -> (args: Vec<String>)
    ensures
        texts(args@) == seq!["build"@, "-p"@, "analyzer"@],
{
    let mut args: Vec<String> = Vec::new();
    add_text(&mut args, "build");
    add_text(&mut args, "-p");
    add_text(&mut args, "analyzer");
    assert(texts(args@) =~= seq!["build"@, "-p"@, "analyzer"@]);
    args
}

/// The shared-memory segment of the launcher with process id `pid`.
pub open spec fn ring_name(pid: u32) -> Seq<char> {
    "/profiler_ring_"@ + decimal(pid as nat)
}

pub fn shm_name_for(pid: u32) -> (name: String)
    ensures
        name@ == ring_name(pid),
{
    let mut name = "/profiler_ring_".to_owned();
    push_decimal(&mut name, pid as u64);
    name
}

/// The directory, among the temporary ones, of the launcher with process id `pid`.
pub fn run_dir_name(pid: u32) -> (name: String)
    ensures
        name@ == "sherlock-"@ + decimal(pid as nat),
{
    let mut name = "sherlock-".to_owned();
    push_decimal(&mut name, pid as u64);
    name
}

/// The analyzer's arguments.
pub open spec fn analyzer_line(
    binary: Seq<char>,
    pid: u32,
    shm_name: Seq<char>,
    report: Seq<char>,
) -> Seq<Seq<char>> {
    seq![
        "--binary"@,
        binary,
        "--pid"@,
        decimal(pid as nat),
        "--shm-name"@,
        shm_name,
        "--export"@,
        report,
    ]
}

pub fn analyzer_args(binary: &str, pid: u32, shm_name: &str, report: &str) -> (args: Vec<String>)
    ensures
        texts(args@) == analyzer_line(binary@, pid, shm_name@, report@),
{
    let mut args: Vec<String> = Vec::new();
    add_text(&mut args, "--binary");
    add_text(&mut args, binary);
    add_text(&mut args, "--pid");
    let pid_text = decimal_text(pid as u64);
    add_text(&mut args, pid_text.as_str());
    add_text(&mut args, "--shm-name");
    add_text(&mut args, shm_name);
    add_text(&mut args, "--export");
    add_text(&mut args, report);
    assert(texts(args@) =~= analyzer_line(binary@, pid, shm_name@, report@));
    args
}

/// The places to look for the sources, in order: the one that was asked for, then upwards from
/// the working directory, then upwards from the launcher itself, then where it was built.
pub fn root_candidates(
    asked: Option<String>,
    from_cwd: &Vec<String>,
    from_exe: &Vec<String>,
    built_in: Option<String>,
) -> (places: Vec<String>)
    ensures
        texts(places@) == listed(text_of(asked)) + texts(from_cwd@) + texts(from_exe@) + listed(
            text_of(built_in),
        ),
{
    let mut places: Vec<String> = Vec::new();
    if let Some(place) = asked {
        places.push(place);
    }
    assert(texts(places@) =~= listed(text_of(asked)));
    add_texts(&mut places, from_cwd);
    add_texts(&mut places, from_exe);
    let ghost before = texts(places@);
    if let Some(place) = built_in {
        places.push(place);
    }
    assert(texts(places@) =~= before + listed(text_of(built_in)));
    places
}

/// Chooses among the places to look for the sources: the first that qualifies.
pub fn first_root(candidates: &Vec<String>, qualifies: &Vec<bool>) -> (root: Option<String>)
    requires
        candidates.len() == qualifies.len(),
    ensures
        match root {
            Some(place) => exists|i: int|
                0 <= i < candidates.len() && #[trigger] qualifies@[i] && candidates@[i]@ == place@
                    && forall|j: int| 0 <= j < i ==> !(#[trigger] qualifies@[j]),
            None => forall|j: int| 0 <= j < qualifies.len() ==> !(#[trigger] qualifies@[j]),
        },
{
    let mut i: usize = 0;
    while i < candidates.len()
        invariant
            i <= candidates.len() == qualifies.len(),
            forall|j: int| 0 <= j < i ==> !(#[trigger] qualifies@[j]),
        decreases candidates.len() - i,
    {
        if qualifies[i] {
            return Some(candidates[i].clone());
        }
        i += 1;
    }
    None
}

/// A text that may be missing, as a list.
pub open spec fn listed(text: Option<Seq<char>>) -> Seq<Seq<char>> {
    match text {
        Some(t) => seq![t],
        None => Seq::empty(),
    }
}

/// The analyzer understands what the launcher hands it: it gets the binary, the process, the
/// segment and the report that were meant, and finds nothing that it does not know.
pub proof fn law_analyzer_understands_the_launcher(
    binary: Seq<char>,
    pid: u32,
    shm_name: Seq<char>,
    report: Seq<char>,
)
    ensures
        asked_from(analyzer_line(binary, pid, shm_name, report), 0, nothing_asked()) == (Asked {
            binary: Some(binary),
            pid: Some(pid),
            shm_name: Some(shm_name),
            export: Some(report),
            ..nothing_asked()
        }),
{
    reveal_strlit("--binary");
    reveal_strlit("--pid");
    reveal_strlit("--shm-name");
    reveal_strlit("--offender-depth");
    reveal_strlit("--leak-age");
    reveal_strlit("--export");
    let args = analyzer_line(binary, pid, shm_name, report);
    law_numbers_round_trip(pid as nat, 10, u32::MAX as nat);
    assert("--pid"@.len() == 5);
    assert("--binary"@.len() == 8);
    assert("--shm-name"@.len() == 10);
    assert("--export"@.len() == 8);
    assert("--export"@[2] != "--binary"@[2]);
    assert("--offender-depth"@.len() == 16);
    assert("--leak-age"@.len() == 10);
    assert("--leak-age"@[2] != "--shm-name"@[2]);
    let first = Asked { binary: Some(binary), ..nothing_asked() };
    assert(asked_from(args, 0, nothing_asked()) == asked_from(args, 2, first));
    let second = Asked { pid: Some(pid), ..first };
    assert(asked_from(args, 2, first) == asked_from(args, 4, second));
    let third = Asked { shm_name: Some(shm_name), ..second };
    assert(asked_from(args, 4, second) == asked_from(args, 6, third));
    let fourth = Asked { export: Some(report), ..third };
    assert(asked_from(args, 6, third) == asked_from(args, 8, fourth));
    assert(asked_from(args, 8, fourth) == fourth);
}

} // verus!
