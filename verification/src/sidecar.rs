//! The phoneme server as a process: which form of it is launched, when, and
//! what its start can end with.
use crate::error::{AppError, AppResult};
use crate::text;
use crate::text::{append_str, chars_of, is_at, string_of};
use vstd::prelude::*;

verus! {

// ---------- Finding it ----------

/// A place where something may be found, and whether it is there. A place that
/// could not be named has no path.
#[derive(Debug)]
pub struct Candidate {
    pub path: Option<String>,
    pub there: bool,
}

/// The first place at which something is there.
pub open spec fn first_there(places: Seq<Candidate>) -> Option<String>
    decreases places.len(),
{
    if places.len() == 0 {
        None
    } else if places[0].path is Some && places[0].there {
        places[0].path
    } else {
        first_there(places.skip(1))
    }
}

/// Find the first place at which something is there.
pub fn find_first(places: &[Candidate]) -> (r: Option<String>)
    ensures
        r == first_there(places@),
{
    proof {
        assert(places@.skip(0) =~= places@);
    }
    for i in 0..places.len()
        invariant
            first_there(places@) == first_there(places@.skip(i as int)),
    {
        proof {
            assert(places@.skip(i as int)[0] == places@[i as int]);
            assert(places@.skip(i as int).skip(1) =~= places@.skip(i + 1));
        }
        if places[i].there {
            if let Some(p) = &places[i].path {
                return Some(p.clone());
            }
        }
    }
    None
}

/// The form in which the server was found.
#[derive(Debug)]
pub enum SidecarResolution {
    /// A standalone binary.
    Frozen(String),
    /// A directory with its source.
    Dev(String),
    /// Nothing was found.
    Missing,
}

/// The binary if it was found, or else the source, or else nothing.
pub open spec fn resolution(frozen: Option<String>, dev: Option<String>) -> SidecarResolution {
    match (frozen, dev) {
        (Some(bin), _) => SidecarResolution::Frozen(bin),
        (None, Some(dir)) => SidecarResolution::Dev(dir),
        (None, None) => SidecarResolution::Missing,
    }
}

/// Decide which form of the server is launched: a standalone binary goes before
/// the source.
pub fn resolve_sidecar(binaries: &[Candidate], sources: &[Candidate]) -> (r: SidecarResolution)
    ensures
        r == resolution(first_there(binaries@), first_there(sources@)),
{
    match find_first(binaries) {
        Some(bin) => SidecarResolution::Frozen(bin),
        None => match find_first(sources) {
            Some(dir) => SidecarResolution::Dev(dir),
            None => SidecarResolution::Missing,
        },
    }
}

// ---------- Launching it ----------

/// A program to start.
#[derive(Debug)]
pub struct Launch {
    pub program: String,
    pub args: Vec<String>,
    pub work_dir: String,
}

/// What is known of the machine and decides how the source is run.
#[derive(Debug)]
pub struct Machine {
    /// The `uv` launcher answers.
    pub has_uv: bool,
    /// The interpreter of the directory's own environment, if it is there.
    pub venv_python: Option<String>,
}

/// The program that runs the source.
pub open spec fn dev_program(m: Machine) -> Seq<char> {
    if m.has_uv {
        "uv"@
    } else {
        match m.venv_python {
            Some(p) => p@,
            None => "python3"@,
        }
    }
}

/// The arguments with which it runs it.
pub open spec fn dev_arguments(m: Machine) -> Seq<Seq<char>> {
    if m.has_uv {
        seq!["run"@, "g2p_server.py"@]
    } else {
        seq!["g2p_server.py"@]
    }
}

/// Plan the start of the server. A binary runs in its own directory, the source
/// by the launcher or by the interpreter that is there; with neither there is
/// nothing to start.
pub fn plan_launch(
    found: SidecarResolution,
    parent: Option<String>,
    machine: &Machine,
) -> (r: AppResult<Launch>)
    ensures
        match found {
            SidecarResolution::Frozen(bin) => r matches Ok(l) && l.program@ == bin@
                && l.args@.len() == 0 && l.work_dir@ == match parent {
                Some(d) => d@,
                None => "."@,
            },
            SidecarResolution::Dev(dir) => r matches Ok(l) && l.program@ == dev_program(*machine)
                && text::texts(l.args@) == dev_arguments(*machine) && l.work_dir@ == dir@,
            SidecarResolution::Missing => r matches Err(AppError::Sidecar(m)) && m@
                == "g2p_server not found (no frozen binary or g2p_server.py)"@,
        },
{
    match found {
        SidecarResolution::Frozen(bin) => {
            let work_dir = match parent {
                Some(d) => d,
                None => ".".to_owned(),
            };
            Ok(Launch { program: bin, args: Vec::new(), work_dir })
        },
        SidecarResolution::Dev(dir) => {
            let mut args: Vec<String> = Vec::new();
            let program: String;
            if machine.has_uv {
                program = "uv".to_owned();
                args.push("run".to_owned());
                args.push("g2p_server.py".to_owned());
            } else {
                program = match &machine.venv_python {
                    Some(p) => p.clone(),
                    None => "python3".to_owned(),
                };
                args.push("g2p_server.py".to_owned());
            }
            assert(text::texts(args@) =~= dev_arguments(*machine));
            Ok(Launch { program, args, work_dir: dir })
        },
        SidecarResolution::Missing => Err(
            AppError::Sidecar(
                "g2p_server not found (no frozen binary or g2p_server.py)".to_owned(),
            ),
        ),
    }
}

/// How a start ended.
#[derive(Debug)]
pub enum Start {
    Ready,
    SpawnFailed(String),
    NoInput,
    NoOutput,
    /// The server never said that it was ready.
    TimedOut,
}

/// Whether the server runs.
#[derive(Debug, Clone, Copy, PartialEq, Eq, Structural)]
pub enum ServerState {
    Down,
    Up,
}

/// A line with which the server says that it is ready.
pub fn is_ready_line(line: &str) -> (r: bool)
    ensures
        r == text::starts_with(line@, "__READY__"@),
{
    is_at(chars_of(line).as_slice(), chars_of("__READY__").as_slice(), 0)
}

/// What a start is told as if it failed.
pub open spec fn start_failure(start: Start) -> Option<Seq<char>> {
    match start {
        Start::Ready => None,
        Start::SpawnFailed(e) => Some("spawn g2p_server: "@ + e@),
        Start::NoInput => Some("no stdin"@),
        Start::NoOutput => Some("no stdout"@),
        Start::TimedOut => Some("g2p_server did not become ready in time"@),
    }
}

/// Settle a start: the server is up, or the error says why it is not.
pub fn settle_start(start: &Start) -> (r: AppResult<ServerState>)
    ensures
        match start_failure(*start) {
            None => r == Ok::<ServerState, AppError>(ServerState::Up),
            Some(t) => r matches Err(AppError::Sidecar(m)) && m@ == t,
        },
{
    match start {
        Start::Ready => Ok(ServerState::Up),
        Start::SpawnFailed(e) => {
            let mut m = chars_of("spawn g2p_server: ");
            append_str(&mut m, e.as_str());
            Err(AppError::Sidecar(string_of(m.as_slice())))
        },
        Start::NoInput => Err(AppError::Sidecar("no stdin".to_owned())),
        Start::NoOutput => Err(AppError::Sidecar("no stdout".to_owned())),
        Start::TimedOut => Err(
            AppError::Sidecar("g2p_server did not become ready in time".to_owned()),
        ),
    }
}

/// Ready the server: one that is up is kept, and one that is down is launched.
/// The answer says whether a launch is needed.
pub fn ensure_ready(state: ServerState) -> (launch: bool)
    ensures
        launch <==> state == ServerState::Down,
{
    match state {
        ServerState::Down => true,
        ServerState::Up => false,
    }
}

/// Shut the server down: one that is up is sent the line that ends it. After
/// that it is down.
pub fn shutdown(state: &mut ServerState) -> (r: Option<String>)
    ensures
        *final(state) == ServerState::Down,
        match *old(state) {
            ServerState::Up => r matches Some(line) && line@ == "__QUIT__\n"@,
            ServerState::Down => r is None,
        },
{
    match *state {
        ServerState::Up => {
            *state = ServerState::Down;
            Some("__QUIT__\n".to_owned())
        },
        ServerState::Down => None,
    }
}

// ---------- What is looked for first ----------

/// The first place that is named and there is found, whatever stands behind it;
/// without any nothing is.
pub proof fn first_place_that_is_there_wins(places: Seq<Candidate>, i: int)
    ensures
        0 <= i < places.len() && places[i].path is Some && places[i].there && (forall|j: int|
            0 <= j < i ==> !((#[trigger] places[j]).path is Some && places[j].there))
            ==> first_there(places) == places[i].path,
        (forall|j: int|
            0 <= j < places.len() ==> !((#[trigger] places[j]).path is Some && places[j].there))
            ==> first_there(places) is None,
    decreases places.len(),
{
    if places.len() > 0 && !(places[0].path is Some && places[0].there) {
        let rest = places.skip(1);
        assert(forall|j: int| 0 <= j < rest.len() ==> #[trigger] rest[j] == places[j + 1]);
        first_place_that_is_there_wins(rest, i - 1);
    }
}

/// A built server is preferred to its source, and the source to none.
pub proof fn built_server_is_preferred(bin: String, dev: Option<String>, dir: String)
    ensures
        resolution(Some(bin), dev) == SidecarResolution::Frozen(bin),
        resolution(None, Some(dir)) == SidecarResolution::Dev(dir),
        resolution(None, None) is Missing,
{
}

/// The source is run with the tool that brings its packages, where there is one;
/// else with the interpreter of its own, and else with that of the machine. The
/// script is always the last argument.
pub proof fn source_is_run(m: Machine)
    ensures
        dev_arguments(m).last() == "g2p_server.py"@,
        m.has_uv ==> dev_program(m) == "uv"@ && dev_arguments(m)[0] == "run"@,
        !m.has_uv ==> dev_arguments(m).len() == 1,
        !m.has_uv && m.venv_python is Some ==> dev_program(m) == m.venv_python->0@,
        !m.has_uv && m.venv_python is None ==> dev_program(m) == "python3"@,
{
}

/// Only a server that became ready started without failure.
pub proof fn only_readiness_is_success(start: Start)
    ensures
        start_failure(start) is None <==> start is Ready,
        start matches Start::SpawnFailed(e) ==> text::ends_with(start_failure(start)->0, e@),
{
    if let Start::SpawnFailed(e) = start {
        let m = start_failure(start)->0;
        assert(m.subrange(m.len() - e@.len(), m.len() as int) =~= e@);
    }
}

} // verus!
