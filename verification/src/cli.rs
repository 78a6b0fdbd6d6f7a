//! The command line: what can be asked of the program, what each command needs
//! before it runs, and how it ends.
use vstd::prelude::*;
use crate::commands::hooks::Hook;
use crate::error::{JavelinError, Result};

use crate::text;
use crate::text::Text;

verus! {

#[derive(Debug)]
pub struct Cli {
    pub project: Option<String>,
    pub json: bool,
    pub command: Command,
}

#[derive(Debug)]
#[allow(inconsistent_fields)]
pub enum Command {
    Init { path: Option<String> },
    Version,
    Completions { shell: String },
    Status { ignored: bool },
    Checkpoint { reason: Option<String> },
    Diff { from: Option<String>, to: Option<String>, path: Vec<String> },
    History { layer: Option<String>, path: Option<String> },
    Show { reference: String },
    Refresh { layer: Option<String> },
    Verify { layer: Option<String> },
    Publish { layer: Option<String>, idempotency_key: Option<String> },
    Discard {
        layer: Option<String>,
        cascade: bool,
        reparent: Option<String>,
        purge: bool,
    },
    World(WorldArgs),
    Layer(LayerArgs),
    Conflict(ConflictArgs),
    Provenance(ProvenanceArgs),
    Explain { path: String },
    Claim(ClaimArgs),
    Events { since: i64, follow: bool, jsonl: bool },
    Hook(HookArgs),
    Doctor,
    Fsck,
    Repair { view: Option<String> },
    Gc { dry_run: bool },
    Discarded(DiscardedArgs),
    Monitor,
}

#[derive(Debug)]
pub struct WorldArgs {
    pub command: WorldCommand,
}

#[derive(Debug)]
pub enum WorldCommand {
    Current,
    History,
    Restore { version: String, accept_failing: bool, reason: Option<String> },
}

#[derive(Debug)]
pub struct LayerArgs {
    pub command: LayerCommand,
}

#[derive(Debug)]
#[allow(inconsistent_fields)]
pub enum LayerCommand {
    Create {
        name: String,
        from: Option<String>,
        target: String,
        claim: Vec<String>,
    },
    List,
    Show { layer: String },
    Path { layer: String },
    Restore { checkpoint: String, layer: Option<String> },
}

#[derive(Debug)]
pub struct ConflictArgs {
    pub command: ConflictCommand,
}

#[derive(Debug)]
pub enum ConflictCommand {
    List { layer: Option<String> },
    Show { id: String },
    Resolve { id: String, choice: String },
}

#[derive(Debug)]
pub struct ProvenanceArgs {
    pub command: ProvenanceCommand,
}

#[derive(Debug)]
pub enum ProvenanceCommand {
    Begin {
        layer: Option<String>,
        actor: String,
        kind: Option<String>,
        model: Option<String>,
    },
    Event { session: String, event_type: String, payload: Option<String> },
    Attach { session: String, path: String, media_type: Option<String> },
    End { session: String },
    Show { session: String, raw: bool },
    Search { query: String },
    Purge { session: String },
}

#[derive(Debug)]
pub struct ClaimArgs {
    pub command: ClaimCommand,
}

#[derive(Debug)]
pub enum ClaimCommand {
    List,
    Renew { id: String, seconds: u64 },
    Release { id: String },
}

#[derive(Debug)]
pub struct HookArgs {
    pub command: HookCommand,
}

#[derive(Debug)]
pub enum HookCommand {
    OperationStart { session: Option<String> },
    OperationEnd { session: Option<String> },
    SessionStart { session: Option<String> },
    SessionEnd { session: Option<String> },
}

impl HookCommand {
    /// The hook, and the session that it is about.
    pub open spec fn terms_of(self) -> (Hook, Option<Text>) {
        match self {
            HookCommand::OperationStart { session } => (Hook::OperationStart, session.deep_view()),
            HookCommand::OperationEnd { session } => (Hook::OperationEnd, session.deep_view()),
            HookCommand::SessionStart { session } => (Hook::SessionStart, session.deep_view()),
            HookCommand::SessionEnd { session } => (Hook::SessionEnd, session.deep_view()),
        }
    }

    /// The hook, and the session that it is about.
    pub fn terms(&self) -> (r: (Hook, Option<String>))
        ensures
            (r.0, r.1.deep_view()) == self.terms_of(),
    {
        match self {
            HookCommand::OperationStart { session } => (
                Hook::OperationStart,
                text::copy_option(session),
            ),
            HookCommand::OperationEnd { session } => (
                Hook::OperationEnd,
                text::copy_option(session),
            ),
            HookCommand::SessionStart { session } => (
                Hook::SessionStart,
                text::copy_option(session),
            ),
            HookCommand::SessionEnd { session } => (Hook::SessionEnd, text::copy_option(session)),
        }
    }
}

#[derive(Debug)]
pub struct DiscardedArgs {
    pub command: DiscardedCommand,
}

#[derive(Debug)]
pub enum DiscardedCommand {
    List,
    Recover { layer: String },
    Purge { layer: String },
}

/// How a command holds the World's objects while it runs.
#[derive(Clone, Copy, Debug, PartialEq, Eq, Structural)]
pub enum Lease {
    /// Not at all.
    Free,
    /// So that none is collected.
    Reference,
    /// Alone.
    Collection,
}

/// What a command needs before it runs.
#[derive(Clone, Copy, Debug, PartialEq, Eq, Structural)]
pub struct Access {
    /// The World must be there.
    pub world: bool,
    /// A Monitor must run.
    pub monitor: bool,
    pub lease: Lease,
}

pub open spec fn access_of(command: Command) -> Access {
    match command {
        Command::Init { .. } | Command::Version | Command::Completions { .. } => Access {
            world: false,
            monitor: false,
            lease: Lease::Free,
        },
        Command::Monitor => Access { world: true, monitor: false, lease: Lease::Free },
        Command::Events { .. } => Access { world: true, monitor: true, lease: Lease::Free },
        Command::Repair { .. } => Access {
            world: true,
            monitor: false,
            lease: Lease::Reference,
        },
        Command::Gc { .. } => Access { world: true, monitor: true, lease: Lease::Collection },
        _ => Access { world: true, monitor: true, lease: Lease::Reference },
    }
}

impl Command {
    /// What the command needs before it runs.
    pub fn access(&self) -> (r: Access)
        ensures
            r == access_of(*self),
    {
        match self {
            Command::Init { path: _ } => Access {
                world: false,
                monitor: false,
                lease: Lease::Free,
            },
            Command::Version => Access { world: false, monitor: false, lease: Lease::Free },
            Command::Completions { shell: _ } => Access {
                world: false,
                monitor: false,
                lease: Lease::Free,
            },
            Command::Monitor => Access { world: true, monitor: false, lease: Lease::Free },
            Command::Events { since: _, follow: _, jsonl: _ } => Access {
                world: true,
                monitor: true,
                lease: Lease::Free,
            },
            Command::Repair { view: _ } => Access {
                world: true,
                monitor: false,
                lease: Lease::Reference,
            },
            Command::Gc { dry_run: _ } => Access {
                world: true,
                monitor: true,
                lease: Lease::Collection,
            },
            _ => Access { world: true, monitor: true, lease: Lease::Reference },
        }
    }
}

/// Objects are collected only while no other command holds them, and every
/// command that can refer to one holds them.
pub proof fn law_collection_is_alone(command: Command)
    ensures
        access_of(command).lease == Lease::Collection <==> command is Gc,
        access_of(command).world && !(command is Events) && !(command is Monitor) ==> access_of(
            command,
        ).lease != Lease::Free,
{
}

/// The exit code of the program: that of the failure, or zero.
pub fn run(outcome: &Result<()>) -> (r: i32)
    ensures
        r == match outcome {
            Ok(_) => 0,
            Err(error) => error@.exit_code as i32,
        },
{
    match outcome {
        Ok(_) => 0,
        Err(error) => error.exit_code as i32,
    }
}

/// What is said of a failure.
pub open spec fn failure_lines(code: Text, message: Text, recovery: Seq<Text>) -> Seq<Text> {
    seq!["error ["@ + code + "]: "@ + message] + Seq::new(
        recovery.len(),
        |i: int| "recovery: "@ + recovery[i],
    )
}

/// What is said of a failure: its code and message, then each way out.
pub fn render_error(error: &JavelinError) -> (r: Vec<String>)
    ensures
        r.deep_view() == failure_lines(error@.code, error@.message, error@.recovery),
{
    let mut out: Vec<String> = Vec::new();
    out.push(
        text::concat2(
            text::concat3("error [", error.code, "]: ").as_str(),
            error.message.as_str(),
        ),
    );
    let ghost head = out@[0]@;
    let ghost all = failure_lines(error@.code, error@.message, error@.recovery);
    let mut i: usize = 0;
    while i < error.recovery.len()
        invariant
            i <= error.recovery@.len(),
            out@.len() == i + 1,
            all == failure_lines(error@.code, error@.message, error@.recovery),
            forall|j: int| 0 <= j < i + 1 ==> (#[trigger] out@[j])@ == all[j],
        decreases error.recovery@.len() - i,
    {
        assert(error@.recovery[i as int] == error.recovery@[i as int]@);
        out.push(text::concat2("recovery: ", error.recovery[i].as_str()));
        i = i + 1;
    }
    assert(out.deep_view() =~= all);
    out
}

/// What a command needs before it begins: a World, unless it makes one or is not
/// about any; a Monitor, unless it is the Monitor or repairs what one would
/// watch.
pub proof fn law_commands_need_what_they_touch(command: Command)
    ensures
        access_of(command).world <==> !(command is Init) && !(command is Version) && !(command
            is Completions),
        access_of(command).monitor <==> access_of(command).world && !(command is Monitor) && !(
        command is Repair),
        command is Publish || command is Refresh || command is Discard || command is Checkpoint
            || command is Verify ==> access_of(command).lease == Lease::Reference,
        command is Repair ==> access_of(command).lease == Lease::Reference,
        !access_of(command).world ==> access_of(command).lease == Lease::Free,
{
}

/// A failure is told with its code and message first, and each way out of it on
/// a line of its own.
pub proof fn law_failure_tells_every_way_out(code: Text, message: Text, recovery: Seq<Text>, i: int)
    requires
        0 <= i < recovery.len(),
    ensures
        failure_lines(code, message, recovery).len() == recovery.len() + 1,
        failure_lines(code, message, recovery)[0] == "error ["@ + code + "]: "@ + message,
        failure_lines(code, message, recovery)[i + 1] == "recovery: "@ + recovery[i],
{
}

/// The program ends with 0 where the command succeeds, and with the code of its
/// failure where it does not.
pub proof fn law_exit_tells_the_outcome(outcome: Result<()>, code: i32)
    requires
        call_ensures(run, (&outcome,), code),
    ensures
        outcome is Ok ==> code == 0,
        outcome is Err ==> code == outcome->Err_0@.exit_code,
{
}

/// Each hook command is about the hook of its name and the session given to it.
pub proof fn law_hook_commands_are_about_their_hooks(session: Option<String>)
    ensures
        (HookCommand::OperationStart { session }).terms_of() == (
            Hook::OperationStart,
            session.deep_view(),
        ),
        (HookCommand::OperationEnd { session }).terms_of() == (
            Hook::OperationEnd,
            session.deep_view(),
        ),
        (HookCommand::SessionStart { session }).terms_of() == (
            Hook::SessionStart,
            session.deep_view(),
        ),
        (HookCommand::SessionEnd { session }).terms_of() == (Hook::SessionEnd, session.deep_view()),
{
}

} // verus!
