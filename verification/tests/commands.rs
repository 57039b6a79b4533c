use bitctx::commands::dump::{dump_output, dump_result, render_text as render_dump, DumpOutput};
use bitctx::commands::error::CommandError;
use bitctx::commands::eval::{eval_output, evaluate, EvalArgs, EvalOutput, ShowFilter};
use bitctx::commands::explain::explain;
use bitctx::commands::init::init_report;
use bitctx::commands::reset::{reset_prompt, reset_report};
use bitctx::commands::resume::{resume_output, resume_result, select_mask, ResumeOutput};
use bitctx::commands::set::{apply_set, apply_set_at, parse_indices, parse_values, set_report};
use bitctx::models::decode::DecodeError;
use bitctx::models::schema::{Schema, SchemaError};
use bitctx::models::session::Session;
use bitctx::models::table::{BitDef, BitTable, MaskDef};
use bitctx::storage::{check_loaded, initial_session, replace_existing, schema_hash};

fn bit(name: &str, desc: &str) -> BitDef {
    BitDef { name: name.to_string(), desc: desc.to_string() }
}

fn mask(bits: Vec<u8>, desc: &str) -> MaskDef {
    MaskDef { bits, desc: desc.to_string() }
}

fn cli_schema() -> Schema {
    let mut schema = Schema::new(1, None);
    schema.bits.insert(0, bit("auth", "User is authenticated"));
    schema.bits.insert(1, bit("permission", "Permission is verified"));
    schema.bits.insert(3, bit("승인", "한국어 설명"));
    schema.masks.insert("required".to_string(), mask(vec![3, 0, 1], "Required conditions"));
    schema
}

fn multi_mask_schema(default_mask: Option<&str>) -> Schema {
    let mut schema = Schema::new(1, default_mask.map(|m| m.to_string()));
    schema.bits.insert(0, bit("auth", "User is authenticated"));
    schema.bits.insert(1, bit("permission", "Permission is verified"));
    schema.masks.insert("complete".to_string(), mask(vec![0, 1], "Complete conditions"));
    schema.masks.insert("required".to_string(), mask(vec![1], "Required conditions"));
    schema
}

fn eval_args(format: &str, show: Option<ShowFilter>) -> EvalArgs {
    EvalArgs {
        session: "s".to_string(),
        mask: "required".to_string(),
        format: format.to_string(),
        show,
    }
}

fn eval_text(schema: &Schema, bits: u64, show: Option<ShowFilter>) -> String {
    match eval_output(schema, bits, &eval_args("text", show)).expect("text eval should succeed") {
        EvalOutput::Text(t) => t,
        EvalOutput::Json(_) => panic!("expected text output"),
    }
}

fn expected_matrix(first_row: &str, result: char) -> String {
    let mut s = String::from("     0   1   2   3   4   5   6   7\n");
    let empty = "   │ · │ · │ · │ · │ · │ · │ · │ · │\n";
    for row in 0..8 {
        let label = format!("{:02}", row * 8);
        if row == 0 {
            s.push_str(&format!("{label} ┌───┬───┬───┬───┬───┬───┬───┬───┐\n"));
            s.push_str(first_row);
        } else {
            s.push_str(&format!("{label} ├───┼───┼───┼───┼───┼───┼───┼───┤\n"));
            s.push_str(empty);
        }
    }
    s.push_str("   └───┴───┴───┴───┴───┴───┴───┴───┘\n");
    s.push_str(&format!("\nRESULT: {result}\n"));
    s
}

#[test]
fn full_flow_starts_false_and_ends_true() {
    let schema = cli_schema();
    schema.validate().expect("schema should be valid");
    let mut session = initial_session("flow", &schema).expect("clock should be readable");

    let initial = match eval_output(&schema, session.bits, &eval_args("json", None)) {
        Ok(EvalOutput::Json(r)) => r,
        other => panic!("expected JSON result, got {other:?}"),
    };
    assert!(!initial.pass);
    assert_eq!(initial.missing, vec![3, 0, 1]);
    assert_eq!(
        initial.missing_labels,
        vec!["승인".to_string(), "auth".to_string(), "permission".to_string()]
    );
    assert_eq!(initial.missing_conditions[0].index, 3);
    assert_eq!(initial.missing_conditions[0].name, "승인");
    assert_eq!(initial.missing_conditions[0].desc, "한국어 설명");

    let updates = apply_set(&schema, &mut session, "승인,auth,permission", "true,true,true")
        .expect("set should succeed");
    assert_eq!(updates.len(), 3);

    let final_eval = evaluate(&schema, "required", session.bits).expect("mask should exist");
    assert!(final_eval.pass);
    assert!(final_eval.missing.is_empty());
    assert!(final_eval.missing_conditions.is_empty());

    let text = explain(&schema, "required", session.bits, "en").expect("explain should succeed");
    assert!(text.contains("All conditions satisfied"));

    let dump = dump_result(&schema, &session);
    assert_eq!(dump.bits, 11);
    assert_eq!(dump.bit_states[0].index, 0);
    assert_eq!(dump.bit_states[1].index, 1);
    assert_eq!(dump.bit_states[2].index, 3);

    assert_eq!(reset_report("flow", true), "Session 'flow' deleted.\n");
}

#[test]
fn resume_restores_missing_state_without_replaying_settled_bits() {
    let schema = cli_schema();
    let mut session = initial_session("resume-flow", &schema).expect("clock should be readable");
    apply_set(&schema, &mut session, "auth", "true").expect("set should succeed");

    let mask_name = select_mask(&schema, None).expect("only mask should resolve");
    let result = resume_result(&schema, &session, mask_name).expect("mask should exist");
    assert_eq!(result.session_id, "resume-flow");
    assert_eq!(result.mask, "required");
    assert!(!result.pass);
    assert_eq!(result.missing, vec![3, 1]);
    assert_eq!(result.missing_labels, vec!["승인".to_string(), "permission".to_string()]);
    assert_eq!(result.freshness, "unverified");

    let text = match resume_output(result, "text").expect("text should render") {
        ResumeOutput::Text(t) => t,
        ResumeOutput::Json(_) => panic!("expected text output"),
    };
    assert!(text.contains("Session: resume-flow\n"));
    assert!(text.contains("Mask: required\n"));
    assert!(text.contains("Freshness: unverified\n"));
    assert!(text.contains("RESULT: X\n"));
    assert!(text.contains("X bit 3: 승인 (한국어 설명)\n"));
    assert!(!text.contains("auth (User is authenticated)"));
}

#[test]
fn resume_uses_default_mask_and_allows_explicit_override() {
    let schema = multi_mask_schema(Some("required"));
    schema.validate().expect("schema should be valid");
    let session = initial_session("resume-default", &schema).expect("clock should be readable");

    let default = select_mask(&schema, None).expect("default mask should resolve");
    let result = resume_result(&schema, &session, default).expect("mask should exist");
    assert_eq!(result.mask, "required");
    assert_eq!(result.missing, vec![1]);

    let explicit = select_mask(&schema, Some("complete")).expect("explicit mask should resolve");
    let result = resume_result(&schema, &session, explicit).expect("mask should exist");
    assert_eq!(result.mask, "complete");
    assert_eq!(result.missing, vec![0, 1]);
}

#[test]
fn resume_rejects_ambiguous_or_invalid_default_masks() {
    let schema = multi_mask_schema(None);
    let ambiguous = select_mask(&schema, None).expect_err("multiple masks should be ambiguous");
    let message = ambiguous.message();
    assert!(message.contains("requires --mask"));
    assert!(message.contains("complete, required"));

    let unknown = select_mask(&schema, Some("unknown")).expect_err("unknown mask must fail");
    assert!(unknown.message().contains("mask 'unknown' not found"));

    let session = initial_session("resume-ambiguous", &schema).expect("clock should be readable");
    let result = resume_result(&schema, &session, "required".to_string()).expect("mask should exist");
    let invalid_format = resume_output(result, "yaml").expect_err("yaml must fail");
    assert!(invalid_format.message().contains("unknown format 'yaml': use json or text"));

    let invalid = multi_mask_schema(Some("unknown"));
    let error = invalid.validate().expect_err("unknown default must fail");
    assert!(error.message().contains("default mask 'unknown' not found in schema"));
}

#[test]
fn explicit_mask_overrides_default() {
    let mut schema = Schema::new(1, Some("first".to_string()));
    schema.masks.insert("first".to_string(), mask(vec![0], ""));
    schema.masks.insert("second".to_string(), mask(vec![0], ""));
    assert_eq!(select_mask(&schema, Some("second")).expect("explicit mask should resolve"), "second");
}

#[test]
fn default_and_single_masks_resolve() {
    let mut schema = Schema::new(1, Some("second".to_string()));
    schema.masks.insert("first".to_string(), mask(vec![0], ""));
    schema.masks.insert("second".to_string(), mask(vec![0], ""));
    assert_eq!(select_mask(&schema, None).expect("default mask should resolve"), "second");

    let mut only = Schema::new(1, None);
    only.masks.insert("only".to_string(), mask(vec![0], ""));
    assert_eq!(select_mask(&only, None).expect("only mask should resolve"), "only");
}

#[test]
fn ambiguous_masks_require_selection() {
    let mut schema = Schema::new(1, None);
    schema.masks.insert("first".to_string(), mask(vec![0], ""));
    schema.masks.insert("second".to_string(), mask(vec![0], ""));
    let error = select_mask(&schema, None).expect_err("multiple masks should be ambiguous");
    let message = error.message();
    assert!(message.contains("requires --mask"));
    assert!(message.contains("first, second"));
}

#[test]
fn resume_without_masks_is_refused() {
    let schema = Schema::new(1, None);
    let error = select_mask(&schema, None).expect_err("no masks must fail");
    assert!(matches!(error, CommandError::NoMasks));
    assert_eq!(error.message(), "resume requires a mask, but the schema defines no masks");
}

#[test]
fn text_eval_renders_fixed_matrix_and_filtered_details() {
    let schema = cli_schema();
    let mut session = initial_session("matrix", &schema).expect("clock should be readable");
    apply_set(&schema, &mut session, "auth", "true").expect("set should succeed");

    let expected = expected_matrix("   │ O │ X │ · │ X │ · │ · │ · │ · │\n", 'X');
    assert_eq!(eval_text(&schema, session.bits, None), expected);

    let cases = [
        (
            ShowFilter::All,
            [
                "\nDETAILS (all)\n",
                "  X bit 3: 승인 (한국어 설명)\n",
                "  O bit 0: auth (User is authenticated)\n",
                "  X bit 1: permission (Permission is verified)\n",
            ].concat(),
        ),
        (
            ShowFilter::Satisfied,
            ["\nDETAILS (satisfied)\n", "  O bit 0: auth (User is authenticated)\n"].concat(),
        ),
        (
            ShowFilter::Missing,
            [
                "\nDETAILS (missing)\n",
                "  X bit 3: 승인 (한국어 설명)\n",
                "  X bit 1: permission (Permission is verified)\n",
            ].concat(),
        ),
    ];
    for (filter, details) in cases {
        assert_eq!(eval_text(&schema, session.bits, Some(filter)), format!("{expected}{details}"));
    }
}

#[test]
fn text_eval_reports_success_and_empty_filtered_details() {
    let schema = cli_schema();
    let mut session = initial_session("matrix-pass", &schema).expect("clock should be readable");
    apply_set(&schema, &mut session, "승인,auth,permission", "true,true,true")
        .expect("set should succeed");
    let text = eval_text(&schema, session.bits, Some(ShowFilter::Missing));
    assert!(text.contains("RESULT: O\n"));
    assert!(text.ends_with("\nDETAILS (missing)\n  (none)\n"));
}

#[test]
fn show_filter_requires_text_format() {
    let schema = cli_schema();
    let error = eval_output(&schema, 0, &eval_args("json", Some(ShowFilter::All)))
        .expect_err("--show with JSON must fail");
    assert!(matches!(error, CommandError::ShowNeedsText));
    assert!(error.message().contains("--show can only be used with --format text"));
}

#[test]
fn eval_refuses_unknown_masks_and_formats() {
    let schema = cli_schema();
    let mut args = eval_args("yaml", None);
    let error = eval_output(&schema, 0, &args).expect_err("yaml must fail");
    assert!(matches!(&error, CommandError::UnknownFormat(f) if f == "yaml"));
    assert_eq!(error.message(), "unknown format 'yaml': use json or text");

    args.mask = "nope".to_string();
    let error = eval_output(&schema, 0, &args).expect_err("unknown mask must fail first");
    assert!(matches!(error, CommandError::Schema(SchemaError::MaskNotFound(_))));
    assert_eq!(error.message(), "mask 'nope' not found in schema");
    assert_eq!(ShowFilter::Satisfied.label(), "satisfied");
}

#[test]
fn matrix_marks_high_positions() {
    let mut schema = Schema::new(1, None);
    schema.bits.insert(63, bit("last", "Last position"));
    schema.bits.insert(9, bit("nine", ""));
    schema.masks.insert("required".to_string(), mask(vec![63, 9], ""));
    let text = eval_text(&schema, 1u64 << 63, None);
    assert!(text.contains("   │ · │ X │ · │ · │ · │ · │ · │ · │\n16 ├"));
    assert!(text.contains("   │ · │ · │ · │ · │ · │ · │ · │ O │\n   └"));
    assert!(text.ends_with("RESULT: X\n"));
}

#[test]
fn force_init_resets_bits_and_set_requires_initialization() {
    let schema = cli_schema();
    let mut session = initial_session("force", &schema).expect("clock should be readable");
    apply_set(&schema, &mut session, "auth", "true").expect("set should succeed");
    assert_eq!(session.bits, 1);

    assert!(replace_existing("force", true, false).is_err());
    assert!(replace_existing("force", true, true).expect("force should replace"));
    let fresh = initial_session("force", &schema).expect("clock should be readable");
    assert_eq!(fresh.bits, 0);
}

#[test]
fn duplicate_json_keys_are_rejected_by_init() {
    let entries = vec![("1".to_string(), bit("first", "")), ("01".to_string(), bit("second", ""))];
    let error = BitTable::from_entries(entries).expect_err("duplicate index must fail");
    assert!(matches!(error, DecodeError::DuplicateBitIndex(1)));
    assert!(error.message().contains("duplicate bit index"));
}

#[test]
fn v01_session_format_remains_readable() {
    let mut schema = Schema::new(1, None);
    schema.bits.insert(0, bit("user_authenticated", "사용자 인증 완료"));
    schema.bits.insert(1, bit("has_permission", "필요 권한 보유"));
    schema.bits.insert(2, bit("resource_exists", "대상 리소스 존재"));
    schema.bits.insert(3, bit("quota_ok", "쿼터 초과 안 함"));
    schema.bits.insert(4, bit("rate_limit_ok", "레이트리밋 여유"));
    schema.masks.insert("required".to_string(), mask(vec![0, 1, 3], "기본 실행 필수 조건"));
    schema.masks.insert("admin_only".to_string(), mask(vec![0, 1], "관리자 전용"));
    schema.masks.insert("read_access".to_string(), mask(vec![0, 2], "읽기 권한"));
    let session = Session {
        id: "compatibility".to_string(),
        schema_hash: "28a6fcebf6e2a82b".to_string(),
        bits: 1,
        created_at: "2026-08-29T11:00:11.685587+00:00".to_string(),
        updated_at: "2026-08-29T11:00:11.685591+00:00".to_string(),
    };
    check_loaded("compatibility", &schema, &session).expect("stored state should load");

    let state = dump_result(&schema, &session);
    assert_eq!(state.schema_hash, "28a6fcebf6e2a82b");
    assert_eq!(state.bits, 1);
    assert_eq!(state.bit_states[0].name, "user_authenticated");
    assert!(state.bit_states[0].value);
    assert_eq!(schema_hash(&schema), "28a6fcebf6e2a82b");
}

#[test]
fn dump_text_lists_every_bit() {
    let schema = cli_schema();
    let session = Session {
        id: "d".to_string(),
        schema_hash: "abc".to_string(),
        bits: 0b1001,
        created_at: "c".to_string(),
        updated_at: "u".to_string(),
    };
    let result = dump_result(&schema, &session);
    let mut expected = format!(
        "Session: d\nSchema Hash: abc\nBits: 0b{:064b} (0x{:016x})\nCreated: c\nUpdated: u\n\nBit States:\n",
        9u64, 9u64
    );
    for (index, name, value, desc) in [
        (0u8, "auth", true, "User is authenticated"),
        (1u8, "permission", false, "Permission is verified"),
        (3u8, "승인", true, "한국어 설명"),
    ] {
        let status = if value { "●" } else { "○" };
        expected.push_str(&format!("  {status} bit {index:2}: {name:20} = {value}  ({desc})\n"));
    }
    assert!(expected.contains("0b0000000000000000000000000000000000000000000000000000000000001001 (0x0000000000000009)"));
    assert_eq!(render_dump(&result), expected);

    match dump_output(dump_result(&schema, &session), "text").expect("text should render") {
        DumpOutput::Text(t) => assert_eq!(t, expected),
        DumpOutput::Json(_) => panic!("expected text output"),
    }
    match dump_output(dump_result(&schema, &session), "json").expect("json should pass through") {
        DumpOutput::Json(r) => assert_eq!(r.bit_states.len(), 3),
        DumpOutput::Text(_) => panic!("expected JSON output"),
    }
    let error = dump_output(result, "xml").expect_err("xml must fail");
    assert_eq!(error.message(), "unknown format 'xml': use json or text");
}

#[test]
fn explain_lists_missing_conditions_in_either_language() {
    let schema = cli_schema();
    let en = explain(&schema, "required", 0b1, "en").expect("en should succeed");
    assert_eq!(
        en,
        "Conditions not satisfied (Required conditions)\n  - 승인: 한국어 설명\n  - permission: Permission is verified\n"
    );
    let ko = explain(&schema, "required", 0b1011, "ko").expect("ko should succeed");
    assert_eq!(ko, "모든 조건이 충족되었습니다.\n");
    let ko_missing = explain(&schema, "required", 0b1010, "ko").expect("ko should succeed");
    assert_eq!(
        ko_missing,
        "다음 조건이 충족되지 않았습니다 (Required conditions)\n  - auth: User is authenticated\n"
    );
    let error = explain(&schema, "required", 0, "fr").expect_err("fr must fail");
    assert_eq!(error.message(), "unknown language 'fr': use ko or en");
    let error = explain(&schema, "nope", 0, "fr").expect_err("unknown mask must fail first");
    assert_eq!(error.message(), "mask 'nope' not found in schema");
}

#[test]
fn set_parses_names_indices_and_words() {
    let schema = cli_schema();
    assert_eq!(parse_indices(&schema, " auth , 3,permission").expect("bits should parse"), vec![0, 3, 1]);

    let error = parse_indices(&schema, "auth,64").expect_err("index 64 must fail");
    assert!(matches!(error, CommandError::Schema(SchemaError::BitIndexOutOfRange(64))));
    let error = parse_indices(&schema, "2").expect_err("undefined index must fail");
    assert_eq!(error.message(), "bit index 2 not defined in schema");
    let error = parse_indices(&schema, "auth,ghost,9").expect_err("unknown name must fail");
    assert_eq!(error.message(), "bit 'ghost' not found in schema");

    assert_eq!(
        parse_values("TRUE, off ,Yes,0,on,No,1,false", 8).expect("values should parse"),
        vec![true, false, true, false, true, false, true, false]
    );
    let error = parse_values("true,true", 3).expect_err("count must match");
    assert_eq!(error.message(), "expected 3 values, got 2");
    let error = parse_values("true,maybe", 2).expect_err("maybe must fail");
    assert!(matches!(&error, CommandError::InvalidValue(v) if v == "maybe"));
    assert_eq!(error.message(), "invalid value 'maybe': use true/false or 1/0");
}

#[test]
fn refused_set_leaves_the_session_unchanged() {
    let schema = cli_schema();
    let mut session = initial_session("s", &schema).expect("clock should be readable");
    apply_set(&schema, &mut session, "auth", "1").expect("set should succeed");
    let before = session.clone();
    assert!(apply_set(&schema, &mut session, "auth,permission", "true").is_err());
    assert!(apply_set(&schema, &mut session, "nobody", "true").is_err());
    assert!(apply_set(&schema, &mut session, "permission", "perhaps").is_err());
    assert_eq!(session, before);

    let updates = apply_set(&schema, &mut session, "auth,auth", "false,true").expect("set should succeed");
    assert_eq!(session.bits, 1);
    assert_eq!(
        set_report(&updates),
        "Set bit 0 (auth) = false\nSet bit 0 (auth) = true\n"
    );
}

#[test]
fn reports_of_init_and_reset() {
    assert_eq!(init_report("s1", "abc"), "Initialized session 's1' with schema hash abc\n");
    assert_eq!(reset_prompt("s1"), "Delete session 's1'? [y/N] ");
    assert_eq!(reset_report("s1", false), "Session 's1' did not exist.\n");
}

#[test]
fn clock_error_has_a_message() {
    assert_eq!(CommandError::ClockUnavailable.message(), "system time before Unix epoch");
}

#[test]
fn eval_text_lines_follow_the_layout() {
    let schema = cli_schema();
    let bits = 0b0001u64;
    let plain = eval_text(&schema, bits, None);
    let lines: Vec<&str> = plain.lines().collect();
    assert_eq!(lines.len(), 20);
    assert_eq!(lines[0], "     0   1   2   3   4   5   6   7");
    assert_eq!(lines[19], "RESULT: X");
    for k in 0..64usize {
        let line: Vec<char> = lines[2 + 2 * (k / 8)].chars().collect();
        assert_eq!(line.len(), 36);
        let expected = if ![3usize, 0, 1].contains(&k) {
            '·'
        } else if bits >> k & 1 == 1 {
            'O'
        } else {
            'X'
        };
        assert_eq!(line[5 + 4 * (k % 8)], expected);
    }
    let shown = eval_text(&schema, bits, Some(ShowFilter::Satisfied));
    let shown_lines: Vec<&str> = shown.lines().collect();
    assert_eq!(&shown_lines[..20], &lines[..]);
    assert_eq!(
        &shown_lines[20..],
        &["", "DETAILS (satisfied)", "  O bit 0: auth (User is authenticated)"]
    );
}

#[test]
fn apply_set_at_needs_a_time_only_for_accepted_input() {
    let schema = cli_schema();
    let mut session = Session::new_at("s".into(), "h".into(), "t0".into());
    let error = apply_set_at(&schema, &mut session, "auth", "true", None).expect_err("no time");
    assert!(matches!(error, CommandError::ClockUnavailable));
    assert_eq!(session.bits, 0);
    let error = apply_set_at(&schema, &mut session, "ghost", "true", None).expect_err("unknown bit");
    assert_eq!(error.message(), "bit 'ghost' not found in schema");
    let updates = apply_set_at(&schema, &mut session, "permission,3", "on,yes", Some("t1".into()))
        .expect("set should succeed");
    assert_eq!(updates.len(), 2);
    assert_eq!(session.bits, 0b1010);
    assert_eq!(session.updated_at, "t1");
    assert_eq!(session.created_at, "t0");
}
