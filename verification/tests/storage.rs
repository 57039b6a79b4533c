use bitctx::commands::reset::reset_report;
use bitctx::models::schema::{Schema, SchemaError};
use bitctx::models::session::Session;
use bitctx::models::table::{BitDef, BitTable, MaskDef, MaskTable};
use bitctx::storage::{
    canonical_schema_json, check_initialize, check_loaded, confirms_reset, hash_text,
    initial_session, replace_existing, schema_hash, validate_session_id, InitError, LoadError,
    SessionIdError,
};

fn bit(name: &str, desc: &str) -> BitDef {
    BitDef { name: name.to_string(), desc: desc.to_string() }
}

fn mask(bits: Vec<u8>, desc: &str) -> MaskDef {
    MaskDef { bits, desc: desc.to_string() }
}

fn small_schema() -> Schema {
    let mut schema = Schema::new(1, None);
    schema.bits.insert(0, bit("a", "first"));
    schema.bits.insert(1, bit("b", "second"));
    schema.masks.insert("req".to_string(), mask(vec![0, 1], ""));
    schema
}

fn compatibility_schema() -> Schema {
    let mut schema = Schema::new(1, None);
    schema.bits.insert(0, bit("user_authenticated", "사용자 인증 완료"));
    schema.bits.insert(1, bit("has_permission", "필요 권한 보유"));
    schema.bits.insert(2, bit("resource_exists", "대상 리소스 존재"));
    schema.bits.insert(3, bit("quota_ok", "쿼터 초과 안 함"));
    schema.bits.insert(4, bit("rate_limit_ok", "레이트리밋 여유"));
    schema.masks.insert("required".to_string(), mask(vec![0, 1, 3], "기본 실행 필수 조건"));
    schema.masks.insert("admin_only".to_string(), mask(vec![0, 1], "관리자 전용"));
    schema.masks.insert("read_access".to_string(), mask(vec![0, 2], "읽기 권한"));
    schema
}

#[test]
fn validates_session_ids() {
    for valid in ["a", "A0", "session.one_2-three"] {
        validate_session_id(valid).expect("id should be valid");
    }
    for invalid in ["", ".", "..", "-name", "_name", "a/b", r"a\b", "/tmp/x"] {
        assert!(validate_session_id(invalid).is_err(), "accepted {invalid:?}");
    }
    assert!(validate_session_id(&"a".repeat(129)).is_err());
}

#[test]
fn session_id_errors_name_the_rule() {
    assert_eq!(validate_session_id(""), Err(SessionIdError::Length));
    assert_eq!(validate_session_id(&"a".repeat(129)), Err(SessionIdError::Length));
    assert_eq!(validate_session_id(&"a".repeat(128)), Ok(()));
    assert_eq!(validate_session_id("../sentinel"), Err(SessionIdError::FirstChar));
    assert_eq!(validate_session_id("a\nb"), Err(SessionIdError::InvalidChar));
    assert_eq!(validate_session_id("a/b"), Err(SessionIdError::InvalidChar));
    assert_eq!(validate_session_id("é"), Err(SessionIdError::FirstChar));
    assert_eq!(
        SessionIdError::Length.message(),
        "session id must be between 1 and 128 ASCII characters"
    );
    assert_eq!(
        SessionIdError::FirstChar.message(),
        "session id must start with an ASCII letter or digit"
    );
    assert_eq!(
        SessionIdError::InvalidChar.message(),
        "session id may contain only ASCII letters, digits, '.', '_', and '-'"
    );
}

#[test]
fn canonical_json_sorts_keys_and_is_compact() {
    let mut schema = small_schema();
    schema.bits.insert(10, bit("t\"en", "line\nbreak"));
    schema.default_mask = Some("req".to_string());
    assert_eq!(
        canonical_schema_json(&schema),
        [
            r#"{"bits":{"0":{"desc":"first","name":"a"},"1":{"desc":"second","name":"b"},"#,
            r#""10":{"desc":"line\nbreak","name":"t\"en"}},"default_mask":"req","#,
            r#""masks":{"req":{"bits":[0,1],"desc":""}},"version":1}"#
        ].concat()
    );
}

#[test]
fn v01_schema_hash_is_stable() {
    assert_eq!(schema_hash(&compatibility_schema()), "28a6fcebf6e2a82b");
}

#[test]
fn schema_hash_changes_with_a_description() {
    let schema = small_schema();
    let mut changed = small_schema();
    changed.bits.insert(0, bit("a", "changed"));
    assert_ne!(schema_hash(&schema), schema_hash(&changed));
    assert_eq!(schema_hash(&schema), schema_hash(&small_schema()));
}

#[test]
fn hash_text_is_lower_hex_without_padding() {
    assert_eq!(hash_text(0), "0");
    assert_eq!(hash_text(255), "ff");
    assert_eq!(hash_text(0x0abc), "abc");
    assert_eq!(hash_text(u64::MAX), "ffffffffffffffff");
}

#[test]
fn loaded_state_must_match_id_and_hash() {
    let schema = small_schema();
    let session = initial_session("s1", &schema).expect("clock should be readable");
    assert_eq!(session.id, "s1");
    assert_eq!(session.bits, 0);
    assert_eq!(session.schema_hash, schema_hash(&schema));
    assert!(check_loaded("s1", &schema, &session).is_ok());

    let error = check_loaded("s2", &schema, &session).expect_err("id mismatch must fail");
    assert!(matches!(&error, LoadError::IdMismatch(found, expected) if found == "s1" && expected == "s2"));
    assert_eq!(error.message(), "session id mismatch: state has 's1', expected 's2'");

    let mut stale = session.clone();
    stale.schema_hash = "wrong".to_string();
    let error = check_loaded("s1", &schema, &stale).expect_err("mismatch must fail");
    assert!(error.message().contains("schema hash mismatch"));
    assert!(matches!(&error, LoadError::HashMismatch(found, _) if found == "wrong"));

    let mut invalid = small_schema();
    invalid.version = 0;
    assert!(matches!(
        check_loaded("s1", &invalid, &session),
        Err(LoadError::Schema(SchemaError::VersionMismatch(0)))
    ));
}

#[test]
fn schema_hash_mismatch_is_explicit() {
    let schema = small_schema();
    let session = initial_session("mismatch", &schema).expect("clock should be readable");
    let mut edited = small_schema();
    edited.bits.insert(0, bit("a", "Changed description"));
    let error = check_loaded("mismatch", &edited, &session).expect_err("mismatch must fail");
    assert!(error.message().contains("schema hash mismatch"));
}

#[test]
fn initialization_checks_id_then_schema() {
    let schema = small_schema();
    assert!(check_initialize("ok", &schema).is_ok());
    assert!(matches!(
        check_initialize("../x", &schema),
        Err(InitError::SessionId(SessionIdError::FirstChar))
    ));
    let mut invalid = small_schema();
    invalid.default_mask = Some("unknown".to_string());
    let error = check_initialize("ok", &invalid).expect_err("invalid schema must fail");
    assert_eq!(error.message(), "default mask 'unknown' not found in schema");
    assert!(matches!(
        check_initialize("a/b", &invalid),
        Err(InitError::SessionId(SessionIdError::InvalidChar))
    ));
}

#[test]
fn existing_sessions_need_force() {
    assert_eq!(replace_existing("s", false, false).expect("fresh session"), false);
    assert_eq!(replace_existing("s", false, true).expect("fresh session"), false);
    assert_eq!(replace_existing("s", true, true).expect("forced"), true);
    let error = replace_existing("s", true, false).expect_err("existing session must fail");
    assert_eq!(error.message(), "session 's' already exists; pass --force to reinitialize it");
}

#[test]
fn reset_confirmation_accepts_only_y() {
    assert!(confirms_reset("y\n"));
    assert!(confirms_reset("  Y  "));
    assert!(!confirms_reset("yes\n"));
    assert!(!confirms_reset("n"));
    assert!(!confirms_reset(""));
    assert!(!confirms_reset("\n"));
}

#[test]
fn initial_session_matches_fresh_session() {
    let schema = small_schema();
    let s = initial_session("fresh", &schema).expect("clock should be readable");
    let t = Session::new("fresh".to_string(), schema_hash(&schema)).expect("clock should be readable");
    assert_eq!(s.id, t.id);
    assert_eq!(s.schema_hash, t.schema_hash);
    assert_eq!(s.bits, t.bits);
    assert_eq!(s.created_at, s.updated_at);
}

#[test]
fn hash_ignores_listing_order() {
    let mut a = Schema::new(1, None);
    a.bits = BitTable::from_entries(vec![
        ("2".to_string(), bit("c", "")),
        ("0".to_string(), bit("a", "")),
        ("10".to_string(), bit("k", "")),
    ])
    .expect("bits should decode");
    a.masks = MaskTable::from_entries(vec![
        ("zeta".to_string(), mask(vec![2, 0], "")),
        ("alpha".to_string(), mask(vec![10], "")),
    ])
    .expect("masks should decode");

    let mut b = Schema::new(1, None);
    b.bits.insert(10, bit("k", ""));
    b.bits.insert(0, bit("a", ""));
    b.bits.insert(2, bit("c", ""));
    b.masks.insert("alpha".to_string(), mask(vec![10], ""));
    b.masks.insert("zeta".to_string(), mask(vec![2, 0], ""));

    assert_eq!(canonical_schema_json(&a), canonical_schema_json(&b));
    assert_eq!(schema_hash(&a), schema_hash(&b));
}

fn store_schema() -> Schema {
    let mut schema = Schema::new(1, None);
    schema.bits.insert(0, bit("auth", ""));
    schema.bits.insert(1, bit("perm", ""));
    schema.masks.insert("req".to_string(), mask(vec![0, 1], ""));
    schema
}

#[test]
fn initializes_reads_updates_and_resets() {
    let schema = store_schema();
    check_initialize("session-1", &schema).expect("session should initialize");
    assert_eq!(replace_existing("session-1", false, false).expect("fresh session"), false);
    let mut session = initial_session("session-1", &schema).expect("clock should be readable");
    assert_eq!(session.bits, 0);

    assert!(session.set_bit(1, true));
    check_loaded("session-1", &schema, &session).expect("session should load");
    assert!(session.get_bit(1));

    assert!(replace_existing("session-1", true, true).expect("session should reinitialize"));
    let forced = initial_session("session-1", &schema).expect("clock should be readable");
    assert_eq!(forced.bits, 0);
    assert_eq!(reset_report("session-1", true), "Session 'session-1' deleted.\n");
    assert_eq!(reset_report("session-1", false), "Session 'session-1' did not exist.\n");
}

#[test]
fn detects_schema_hash_mismatch() {
    let schema = store_schema();
    let mut session = initial_session("session", &schema).expect("clock should be readable");
    session.schema_hash = "wrong".into();
    let error = check_loaded("session", &schema, &session).expect_err("mismatch must fail");
    assert!(error.message().contains("schema hash mismatch"));
}
