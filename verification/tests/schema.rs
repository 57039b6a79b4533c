use bitctx::models::decode::DecodeError;
use bitctx::models::schema::{Schema, SchemaError};
use bitctx::models::table::{BitDef, BitTable, MaskDef, MaskTable};

fn bit(name: &str, desc: &str) -> BitDef {
    BitDef { name: name.to_string(), desc: desc.to_string() }
}

fn mask(bits: Vec<u8>, desc: &str) -> MaskDef {
    MaskDef { bits, desc: desc.to_string() }
}

fn test_schema() -> Schema {
    let mut schema = Schema::new(1, Some("required".to_string()));
    schema.bits.insert(0, bit("auth", "User authenticated"));
    schema.bits.insert(3, bit("승인", "한국어 설명"));
    schema.masks.insert("required".to_string(), mask(vec![3, 0], "Required"));
    schema
}

#[test]
fn validates_unicode_and_preserves_mask_order() {
    let schema = test_schema();
    schema.validate().expect("schema should be valid");

    let missing = schema.missing_conditions("required", 0).expect("mask should exist");
    assert_eq!(missing[0].index, 3);
    assert_eq!(missing[0].name, "승인");
    assert_eq!(missing[1].index, 0);
    assert_eq!(missing[1].name, "auth");
}

#[test]
fn rejects_duplicate_bit_names() {
    let mut schema = test_schema();
    let previous = schema.bits.insert(3, bit("auth", "한국어 설명"));
    assert!(previous.is_some(), "bit should exist");

    assert!(matches!(
        schema.validate(),
        Err(SchemaError::DuplicateBitName(name)) if name == "auth"
    ));
}

#[test]
fn rejects_invalid_bit_names() {
    let mut schema = test_schema();
    let previous = schema.bits.insert(0, bit("auth,admin", "User authenticated"));
    assert!(previous.is_some(), "bit should exist");

    assert!(matches!(
        schema.validate(),
        Err(SchemaError::InvalidBitName(name)) if name == "auth,admin"
    ));
}

#[test]
fn rejects_duplicate_json_bit_indices() {
    let entries = vec![("1".to_string(), bit("a", "")), ("01".to_string(), bit("b", ""))];
    let error = BitTable::from_entries(entries).expect_err("duplicate index must fail");
    assert!(error.message().contains("duplicate bit index: 1"));
}

#[test]
fn rejects_duplicate_json_mask_names() {
    let entries = vec![
        ("m".to_string(), mask(vec![1], "first")),
        ("m".to_string(), mask(vec![1], "second")),
    ];
    let error = MaskTable::from_entries(entries).expect_err("duplicate mask must fail");
    assert!(error.message().contains("duplicate mask name: 'm'"));
}

#[test]
fn rejects_unknown_default_mask() {
    let mut schema = test_schema();
    schema.default_mask = Some("unknown".to_string());

    assert!(matches!(
        schema.validate(),
        Err(SchemaError::DefaultMaskNotFound(name)) if name == "unknown"
    ));
}

#[test]
fn rejects_wrong_version() {
    let mut schema = test_schema();
    schema.version = 2;
    let error = schema.validate().expect_err("version 2 must fail");
    assert!(matches!(error, SchemaError::VersionMismatch(2)));
    assert_eq!(error.message(), "schema version mismatch: expected 1, got 2");
}

#[test]
fn rejects_bit_index_above_63() {
    let mut schema = test_schema();
    schema.bits.insert(64, bit("far", ""));
    let error = schema.validate().expect_err("index 64 must fail");
    assert!(matches!(error, SchemaError::BitIndexOutOfRange(64)));
    assert_eq!(error.message(), "bit index out of range (0-63): 64");
}

#[test]
fn rejects_empty_and_padded_bit_names() {
    let mut schema = test_schema();
    schema.bits.insert(5, bit("", ""));
    let error = schema.validate().expect_err("empty name must fail");
    assert!(matches!(error, SchemaError::EmptyBitName(5)));
    assert_eq!(error.message(), "bit at index 5 has an empty name");

    let mut schema = test_schema();
    schema.bits.insert(5, bit(" pad", ""));
    let error = schema.validate().expect_err("padded name must fail");
    assert!(matches!(&error, SchemaError::BitNameWhitespace(name) if name == " pad"));
    assert_eq!(error.message(), "bit name ' pad' has leading or trailing whitespace");
}

#[test]
fn rejects_control_characters_in_names() {
    let mut schema = test_schema();
    schema.bits.insert(5, bit("a\u{7}b", ""));
    assert!(matches!(
        schema.validate(),
        Err(SchemaError::InvalidBitName(name)) if name == "a\u{7}b"
    ));

    let mut schema = test_schema();
    schema.masks.insert("bad\tname".to_string(), mask(vec![0], ""));
    let error = schema.validate().expect_err("control character must fail");
    assert!(matches!(&error, SchemaError::InvalidMaskName(name) if name == "bad\tname"));
    assert_eq!(error.message(), "mask name 'bad\tname' contains a control character");
}

#[test]
fn rejects_faulty_masks() {
    let mut schema = test_schema();
    schema.masks.insert("  ".to_string(), mask(vec![0], ""));
    let error = schema.validate().expect_err("blank mask name must fail");
    assert!(matches!(error, SchemaError::EmptyMaskName));
    assert_eq!(error.message(), "mask name must not be empty");

    let mut schema = test_schema();
    schema.masks.insert("none".to_string(), mask(vec![], ""));
    let error = schema.validate().expect_err("empty mask must fail");
    assert!(matches!(&error, SchemaError::EmptyMask(name) if name == "none"));
    assert_eq!(error.message(), "mask 'none' is empty");

    let mut schema = test_schema();
    schema.masks.insert("unknown".to_string(), mask(vec![0, 7], ""));
    let error = schema.validate().expect_err("unknown bit must fail");
    assert!(matches!(&error, SchemaError::UnknownBitInMask(name, 7) if name == "unknown"));
    assert_eq!(error.message(), "mask 'unknown' references unknown bit index: 7");

    let mut schema = test_schema();
    schema.masks.insert("twice".to_string(), mask(vec![0, 3, 0], ""));
    let error = schema.validate().expect_err("duplicate bit must fail");
    assert!(matches!(&error, SchemaError::DuplicateBitInMask(name, 0) if name == "twice"));
    assert_eq!(error.message(), "mask 'twice' has duplicate bit index: 0");
}

#[test]
fn reports_the_first_fault_in_table_order() {
    let mut schema = test_schema();
    schema.bits.insert(1, bit("", ""));
    schema.bits.insert(2, bit("x,y", ""));
    assert!(matches!(schema.validate(), Err(SchemaError::EmptyBitName(1))));

    let mut schema = test_schema();
    schema.masks.insert("b".to_string(), mask(vec![], ""));
    schema.masks.insert("a".to_string(), mask(vec![9], ""));
    assert!(matches!(
        schema.validate(),
        Err(SchemaError::UnknownBitInMask(name, 9)) if name == "a"
    ));
}

#[test]
fn looks_up_bits_by_name() {
    let schema = test_schema();
    assert_eq!(schema.bit_index("승인").expect("bit should exist"), 3);
    assert_eq!(schema.bit_index("auth").expect("bit should exist"), 0);
    let error = schema.bit_index("nope").expect_err("unknown name must fail");
    assert!(matches!(&error, SchemaError::BitNotFound(name) if name == "nope"));
    assert_eq!(error.message(), "bit 'nope' not found in schema");
}

#[test]
fn lists_bit_names_in_index_order() {
    let mut schema = test_schema();
    schema.bits.insert(2, bit("middle", ""));
    let names = schema.all_bit_names();
    assert_eq!(
        names,
        vec![(0, "auth".to_string()), (2, "middle".to_string()), (3, "승인".to_string())]
    );
}

#[test]
fn missing_conditions_skip_set_bits() {
    let schema = test_schema();
    let missing = schema.missing_conditions("required", 0b1000).expect("mask should exist");
    assert_eq!(missing.len(), 1);
    assert_eq!(missing[0].index, 0);
    assert_eq!(missing[0].desc, "User authenticated");

    let none = schema.missing_conditions("required", 0b1001).expect("mask should exist");
    assert!(none.is_empty());

    let error = schema.missing_conditions("other", 0).expect_err("unknown mask must fail");
    assert!(matches!(&error, SchemaError::MaskNotFound(name) if name == "other"));
    assert_eq!(error.message(), "mask 'other' not found in schema");
}

#[test]
fn decodes_bit_keys_as_numerals() {
    let entries = vec![
        ("3".to_string(), bit("c", "")),
        ("+1".to_string(), bit("a", "")),
        ("002".to_string(), bit("b", "")),
    ];
    let table = BitTable::from_entries(entries).expect("keys should decode");
    assert_eq!(table.len(), 3);
    let keys: Vec<u8> = table.entries().iter().map(|e| e.0).collect();
    assert_eq!(keys, vec![1, 2, 3]);
    assert_eq!(table.get(2).expect("bit should exist").name, "b");

    let error = BitTable::from_entries(vec![("x1".to_string(), bit("a", ""))])
        .expect_err("non-numeral key must fail");
    assert!(matches!(&error, DecodeError::InvalidBitIndexKey(k) if k == "x1"));
    assert_eq!(error.message(), "invalid bit index key: 'x1'");

    let error = BitTable::from_entries(vec![("256".to_string(), bit("a", ""))])
        .expect_err("key above 255 must fail");
    assert!(matches!(&error, DecodeError::InvalidBitIndexKey(k) if k == "256"));
}

#[test]
fn decodes_masks_in_name_order() {
    let entries = vec![
        ("zeta".to_string(), mask(vec![1], "z")),
        ("alpha".to_string(), mask(vec![0], "a")),
    ];
    let table = MaskTable::from_entries(entries).expect("masks should decode");
    let names: Vec<String> = table.entries().iter().map(|e| e.0.clone()).collect();
    assert_eq!(names, vec!["alpha".to_string(), "zeta".to_string()]);
    assert!(table.contains_key("zeta"));
    assert!(!table.contains_key("beta"));
}

#[test]
fn table_insert_replaces_and_returns_previous() {
    let mut table = BitTable::new();
    assert!(table.insert(5, bit("five", "")).is_none());
    let previous = table.insert(5, bit("FIVE", "")).expect("previous definition");
    assert_eq!(previous.name, "five");
    assert_eq!(table.len(), 1);
    assert_eq!(table.get(5).expect("bit should exist").name, "FIVE");
    assert!(table.get(4).is_none());
    assert_eq!(table.position(5), Some(0));
}
