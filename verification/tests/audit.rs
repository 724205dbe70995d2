use synth::audit::{
    finish, synth_outcome_event, synth_start_event, synth_subcommand_detail, ActionClass,
    AuditOutcome, Channel, Decision, SynthCommand, EXIT_ERROR, EXIT_OK,
};

#[test]
fn synth_subcommand_detail_maps_every_variant() {
    assert_eq!(
        synth_subcommand_detail(&SynthCommand::Train {
            tables: "users,orders".to_string(),
        }),
        ("train".to_string(), "tables=users,orders".to_string())
    );
    assert_eq!(
        synth_subcommand_detail(&SynthCommand::RulesDraft {
            tables: "orders".to_string(),
            output: "rules.yaml".to_string(),
        }),
        (
            "rules-draft".to_string(),
            "rules=rules.yaml; tables=orders".to_string()
        )
    );
    assert_eq!(
        synth_subcommand_detail(&SynthCommand::Generate {
            models: "m".to_string(),
            rules: "r.yaml".to_string(),
        }),
        ("generate".to_string(), "models=m; rules=r.yaml".to_string())
    );
    assert_eq!(
        synth_subcommand_detail(&SynthCommand::Validate {
            model: "m.model.json".to_string()
        }),
        ("validate".to_string(), "model=m.model.json".to_string())
    );
}

#[test]
fn synth_start_event_has_channel_action_and_decision() {
    let e = synth_start_event("train", "tables=users");
    assert_eq!(e.channel, Channel::Synth);
    assert_eq!(e.action, "synth");
    assert_eq!(e.class, ActionClass::Meta);
    assert_eq!(e.decision, Decision::Allow);
    assert_eq!(e.connection.name, "(local)");
    assert!(e.outcome.is_none());
}

#[test]
fn synth_start_event_records_subcommand_and_detail() {
    let e = synth_start_event("generate", "models=m; rules=r.yaml");
    assert!(e.sql.is_none(), "synth has no SQL text");
    let v = e.detail.expect("detail");
    assert_eq!(v.subcommand, "generate");
    assert_eq!(v.detail, "models=m; rules=r.yaml");
}

#[test]
fn synth_outcome_records_duration_without_rows() {
    let e = synth_outcome_event("generate", "models=m; rules=r.yaml", AuditOutcome::ok(7));
    let o = e.outcome.expect("outcome");
    assert!(o.ok);
    assert_eq!(o.duration_ms, 7);
    assert!(o.row_count.is_none());
    assert!(o.rows_affected.is_none());
}

#[test]
fn synth_events_never_record_generated_rows() {
    let start = synth_start_event("generate", "models=m; rules=r.yaml");
    let v = start.detail.expect("detail");
    let text = format!("{} {}", v.subcommand, v.detail);
    assert!(text.len() < 512, "detail must stay metadata-only");
    assert!(!text.contains("row"), "must not record generated rows");
}

#[test]
fn synth_error_outcome_marks_decision_error() {
    let e = synth_outcome_event("train", "tables=users", AuditOutcome::error(3, "synth"));
    assert_eq!(e.decision, Decision::Error);
}

#[test]
fn a_report_names_its_data_and_its_file() {
    assert_eq!(
        synth_subcommand_detail(&SynthCommand::Report {
            models: "m".to_string(),
            data: None,
            output: Some("r.json".to_string()),
        }),
        (
            "report".to_string(),
            "models=m; data=(generated); output=r.json".to_string()
        )
    );
    assert_eq!(
        synth_subcommand_detail(&SynthCommand::Report {
            models: "m".to_string(),
            data: Some("d".to_string()),
            output: None,
        }),
        ("report".to_string(), "models=m; data=d".to_string())
    );
}

#[test]
fn a_run_ends_with_its_code() {
    let command = SynthCommand::Validate {
        model: "m".to_string(),
    };
    let good = finish(&command, Ok(()), 5);
    assert_eq!(good.exit_code, EXIT_OK);
    assert_eq!(good.message, None);
    assert_eq!(good.event.outcome.unwrap().error_kind, None);
    let bad = finish(&command, Err("no such file".to_string()), 5);
    assert_eq!(bad.exit_code, EXIT_ERROR);
    assert_eq!(bad.message.as_deref(), Some("error: no such file"));
    assert_eq!(bad.event.decision, Decision::Error);
    assert_eq!(bad.event.outcome.unwrap().error_kind.as_deref(), Some("synth"));
}
