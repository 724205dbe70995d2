//! What is recorded of a command: metadata only, never generated rows.
use crate::text;
use vstd::prelude::*;

verus! {

/// A command, as far as it is recorded.
#[derive(Debug)]
pub enum SynthCommand {
    Train { tables: String },
    RulesDraft { tables: String, output: String },
    Generate { models: String, rules: String },
    Validate { model: String },
    Report { models: String, data: Option<String>, output: Option<String> },
}

/// The name of a command.
pub open spec fn command_name(command: SynthCommand) -> Seq<char> {
    match command {
        SynthCommand::Train { .. } => "train"@,
        SynthCommand::RulesDraft { .. } => "rules-draft"@,
        SynthCommand::Generate { .. } => "generate"@,
        SynthCommand::Validate { .. } => "validate"@,
        SynthCommand::Report { .. } => "report"@,
    }
}

/// What is recorded of a command's arguments.
pub open spec fn command_detail(command: SynthCommand) -> Seq<char> {
    match command {
        SynthCommand::Train { tables } => "tables="@ + tables@,
        SynthCommand::RulesDraft { tables, output } => "rules="@ + output@ + "; tables="@
            + tables@,
        SynthCommand::Generate { models, rules } => "models="@ + models@ + "; rules="@ + rules@,
        SynthCommand::Validate { model } => "model="@ + model@,
        SynthCommand::Report { models, data, output } => "models="@ + models@ + "; data="@ + (
        match data {
            Some(d) => d@,
            None => "(generated)"@,
        }) + (match output {
            Some(o) => "; output="@ + o@,
            None => ""@,
        }),
    }
}

/// The name of a command and what is recorded of its arguments.
pub fn synth_subcommand_detail(command: &SynthCommand) -> (r: (String, String))
    ensures
        r.0@ == command_name(*command),
        r.1@ == command_detail(*command),
{
    match command {
        SynthCommand::Train { tables } => {
            let mut d = "tables=".to_owned();
            text::push_text(&mut d, tables.as_str());
            ("train".to_owned(), d)
        },
        SynthCommand::RulesDraft { tables, output } => {
            let mut d = text::around("rules=", output.as_str(), "; tables=");
            text::push_text(&mut d, tables.as_str());
            ("rules-draft".to_owned(), d)
        },
        SynthCommand::Generate { models, rules } => {
            let mut d = text::around("models=", models.as_str(), "; rules=");
            text::push_text(&mut d, rules.as_str());
            ("generate".to_owned(), d)
        },
        SynthCommand::Validate { model } => {
            let mut d = "model=".to_owned();
            text::push_text(&mut d, model.as_str());
            ("validate".to_owned(), d)
        },
        SynthCommand::Report { models, data, output } => {
            let mut d = text::around("models=", models.as_str(), "; data=");
            match data {
                Some(dir) => {
                    text::push_text(&mut d, dir.as_str());
                },
                None => {
                    text::push_text(&mut d, "(generated)");
                },
            }
            match output {
                Some(o) => {
                    let ghost so_far = d@;
                    text::push_text(&mut d, "; output=");
                    text::push_text(&mut d, o.as_str());
                    proof {
                        assert(d@ =~= so_far + ("; output="@ + o@));
                    }
                },
                None => {
                    text::push_text(&mut d, "");
                },
            }
            ("report".to_owned(), d)
        },
    }
}

/// Where an event comes from.
#[derive(Debug, Clone, Copy, PartialEq, Eq, Structural)]
pub enum Channel {
    Synth,
}

/// What kind of action an event records.
#[derive(Debug, Clone, Copy, PartialEq, Eq, Structural)]
pub enum ActionClass {
    Meta,
}

/// What was decided about an action.
#[derive(Debug, Clone, Copy, PartialEq, Eq, Structural)]
pub enum Decision {
    Allow,
    Error,
}

/// The connection that an action used.
#[derive(Debug)]
pub struct ConnectionInfo {
    pub name: String,
    pub driver: String,
    pub user: Option<String>,
    pub host: Option<String>,
    pub port: Option<u16>,
    pub database: Option<String>,
    pub read_only_session: bool,
}

/// How an action ended.
#[derive(Debug)]
pub struct AuditOutcome {
    pub ok: bool,
    pub duration_ms: u64,
    pub row_count: Option<u64>,
    pub rows_affected: Option<u64>,
    pub error_kind: Option<String>,
}

impl AuditOutcome {
    pub fn ok(duration_ms: u64) -> (r: AuditOutcome)
        ensures
            r.ok,
            r.duration_ms == duration_ms,
            r.row_count is None,
            r.rows_affected is None,
            r.error_kind is None,
    {
        AuditOutcome {
            ok: true,
            duration_ms,
            row_count: None,
            rows_affected: None,
            error_kind: None,
        }
    }

    pub fn error(duration_ms: u64, kind: &str) -> (r: AuditOutcome)
        ensures
            !r.ok,
            r.duration_ms == duration_ms,
            r.row_count is None,
            r.rows_affected is None,
            r.error_kind.deep_view() == Some(kind@),
    {
        AuditOutcome {
            ok: false,
            duration_ms,
            row_count: None,
            rows_affected: None,
            error_kind: Some(kind.to_owned()),
        }
    }
}

/// What is recorded of a command.
#[derive(Debug)]
pub struct EventDetail {
    pub subcommand: String,
    pub detail: String,
}

/// An event to be recorded.
#[derive(Debug)]
pub struct DraftEvent {
    pub channel: Channel,
    pub connection: ConnectionInfo,
    pub action: String,
    pub class: ActionClass,
    pub decision: Decision,
    pub sql: Option<String>,
    pub detail: Option<EventDetail>,
    pub outcome: Option<AuditOutcome>,
}

/// A connection that is none: the commands work on local files.
pub open spec fn is_local(c: ConnectionInfo) -> bool {
    &&& c.name@ == "(local)"@
    &&& c.driver@ == "none"@
    &&& c.user is None
    &&& c.host is None
    &&& c.port is None
    &&& c.database is None
    &&& c.read_only_session
}

/// The connection of commands that work on local files.
pub fn synth_connection() -> (r: ConnectionInfo)
    ensures
        is_local(r),
{
    ConnectionInfo {
        name: "(local)".to_owned(),
        driver: "none".to_owned(),
        user: None,
        host: None,
        port: None,
        database: None,
        read_only_session: true,
    }
}

/// What every event of a command holds, whatever its outcome.
pub open spec fn names_command(
    e: DraftEvent,
    subcommand: Seq<char>,
    detail: Seq<char>,
    decision: Decision,
) -> bool {
    &&& e.channel == Channel::Synth
    &&& is_local(e.connection)
    &&& e.action@ == "synth"@
    &&& e.class == ActionClass::Meta
    &&& e.decision == decision
    &&& e.sql is None
    &&& e.detail is Some
    &&& e.detail->0.subcommand@ == subcommand
    &&& e.detail->0.detail@ == detail
}

fn synth_event(
    subcommand: &str,
    detail: &str,
    decision: Decision,
    outcome: Option<AuditOutcome>,
) -> (r: DraftEvent)
    ensures
        names_command(r, subcommand@, detail@, decision),
        r.outcome == outcome,
{
    DraftEvent {
        channel: Channel::Synth,
        connection: synth_connection(),
        action: "synth".to_owned(),
        class: ActionClass::Meta,
        decision,
        sql: None,
        detail: Some(
            EventDetail { subcommand: subcommand.to_owned(), detail: detail.to_owned() },
        ),
        outcome,
    }
}

/// The event of a command that begins.
pub fn synth_start_event(subcommand: &str, detail: &str) -> (r: DraftEvent)
    ensures
        names_command(r, subcommand@, detail@, Decision::Allow),
        r.outcome is None,
{
    synth_event(subcommand, detail, Decision::Allow, None)
}

/// The event of a command that ended.
pub fn synth_outcome_event(subcommand: &str, detail: &str, outcome: AuditOutcome) -> (r:
    DraftEvent)
    ensures
        names_command(
            r,
            subcommand@,
            detail@,
            if outcome.ok {
                Decision::Allow
            } else {
                Decision::Error
            },
        ),
        r.outcome == Some(outcome),
{
    let decision = if outcome.ok {
        Decision::Allow
    } else {
        Decision::Error
    };
    synth_event(subcommand, detail, decision, Some(outcome))
}

/// The events of a run, and its exit code.
#[derive(Debug)]
pub struct RunEnd {
    pub event: DraftEvent,
    pub exit_code: i32,
    /// What is written to the error stream.
    pub message: Option<String>,
}

/// The exit code of a run that succeeded.
pub const EXIT_OK: i32 = 0;

/// The exit code of a run that failed.
pub const EXIT_ERROR: i32 = 1;

/// What a run ends with: the event, the exit code, and the message where it
/// failed.
pub fn finish(command: &SynthCommand, result: Result<(), String>, duration_ms: u64) -> (r: RunEnd)
    ensures
        names_command(
            r.event,
            command_name(*command),
            command_detail(*command),
            if result is Ok {
                Decision::Allow
            } else {
                Decision::Error
            },
        ),
        r.event.outcome is Some,
        r.event.outcome->0.ok == (result is Ok),
        r.event.outcome->0.duration_ms == duration_ms,
        r.event.outcome->0.row_count is None,
        r.event.outcome->0.rows_affected is None,
        r.event.outcome->0.error_kind.deep_view() == (if result is Ok {
            None
        } else {
            Some("synth"@)
        }),
        match result {
            Ok(_) => r.exit_code == EXIT_OK && r.message is None,
            Err(e) => r.exit_code == EXIT_ERROR && r.message.deep_view() == Some("error: "@ + e@),
        },
{
    let (name, detail) = synth_subcommand_detail(command);
    match result {
        Ok(_) => RunEnd {
            event: synth_outcome_event(
                name.as_str(),
                detail.as_str(),
                AuditOutcome::ok(duration_ms),
            ),
            exit_code: EXIT_OK,
            message: None,
        },
        Err(e) => {
            let mut m = "error: ".to_owned();
            text::push_text(&mut m, e.as_str());
            RunEnd {
                event: synth_outcome_event(
                    name.as_str(),
                    detail.as_str(),
                    AuditOutcome::error(duration_ms, "synth"),
                ),
                exit_code: EXIT_ERROR,
                message: Some(m),
            }
        },
    }
}

} // verus!
