use openclaw::ids::{parse_uuid, parse_uuid_or_nil, uuid_to_text};

#[test]
fn uuid_text_round_trip() {
    let u = uuid::Uuid::new_v4();
    let text = uuid_to_text(u.as_u128());
    assert_eq!(text, u.to_string());
    assert_eq!(parse_uuid(&text), Ok(u.as_u128()));
}

#[test]
fn uuid_text_is_hyphenated_lowercase() {
    assert_eq!(uuid_to_text(0x0123_4567_89ab_cdef_0123_4567_89ab_cdef), "01234567-89ab-cdef-0123-456789abcdef");
    assert_eq!(uuid_to_text(0), "00000000-0000-0000-0000-000000000000");
}

#[test]
fn bad_uuid_reads_as_nil() {
    assert!(parse_uuid("not a uuid").is_err());
    assert_eq!(parse_uuid_or_nil("not a uuid"), 0);
    assert_eq!(parse_uuid_or_nil("00000000-0000-0000-0000-00000000002a"), 42);
}
