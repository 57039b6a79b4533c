use bitctx::models::session::Session;

#[test]
fn test_session_bit_ops() {
    let mut s = Session::new("test".into(), "hash".into()).expect("clock should be readable");
    assert_eq!(s.bits, 0);

    assert!(s.set_bit(0, true));
    assert_eq!(s.bits, 1);
    assert!(s.get_bit(0));
    assert!(!s.get_bit(1));

    assert!(s.set_bit(3, true));
    assert_eq!(s.bits, 0b1001);

    assert!(s.set_bit(0, false));
    assert_eq!(s.bits, 0b1000);
    assert!(!s.get_bit(0));
}

#[test]
fn new_session_is_zeroed_and_stamped_once() {
    let s = Session::new("id".into(), "h".into()).expect("clock should be readable");
    assert_eq!(s.id, "id");
    assert_eq!(s.schema_hash, "h");
    assert_eq!(s.bits, 0);
    assert_eq!(s.created_at, s.updated_at);
    assert!(s.created_at.contains('T'));

    let fixed = Session::new_at("id".into(), "h".into(), "2026-01-01T00:00:00+00:00".into());
    assert_eq!(fixed.created_at, "2026-01-01T00:00:00+00:00");
    assert_eq!(fixed.updated_at, "2026-01-01T00:00:00+00:00");
}

#[test]
fn write_then_read_gives_the_written_value() {
    let mut s = Session::new_at("id".into(), "h".into(), "t0".into());
    s.set_bit_at(63, true, "t1".into());
    assert!(s.get_bit(63));
    assert_eq!(s.bits, 1u64 << 63);
    assert_eq!(s.updated_at, "t1");
    assert_eq!(s.created_at, "t0");
    s.set_bit_at(63, true, "t2".into());
    assert_eq!(s.bits, 1u64 << 63);
    s.set_bit_at(62, false, "t3".into());
    assert_eq!(s.bits, 1u64 << 63);
    assert!(!s.get_bit(62));
}

#[test]
fn set_bits_applies_pairs_in_order_and_ignores_extras() {
    let mut s = Session::new_at("id".into(), "h".into(), "t0".into());
    assert!(s.set_bits(&[2, 2, 5], &[true, false, true]));
    assert_eq!(s.bits, 1 << 5);
    assert!(!s.get_bit(2));

    assert!(s.set_bits(&[1, 7], &[true]));
    assert_eq!(s.bits, (1 << 5) | (1 << 1));

    let before = s.clone();
    assert!(s.set_bits(&[], &[true, true]));
    assert_eq!(s, before);
}

#[test]
fn set_bits_at_keeps_the_last_write_and_stamps() {
    let mut s = Session::new_at("id".into(), "h".into(), "t0".into());
    s.set_bits_at(&[4, 1, 4], &[true, true, false], "t1".into());
    assert!(!s.get_bit(4));
    assert!(s.get_bit(1));
    assert_eq!(s.updated_at, "t1");
    assert_eq!(s.created_at, "t0");
    s.set_bits_at(&[], &[], "t2".into());
    assert_eq!(s.updated_at, "t1");
}
