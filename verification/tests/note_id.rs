use ohw_server::note_id::NoteId;

#[test]
fn parse_reads_the_hexadecimal_value() {
    let id = NoteId::parse(b"12345678-9abc-def0-1234-56789abcdef0").unwrap();
    assert_eq!(id.bits, 0x12345678_9abc_def0_1234_56789abcdef0u128);
}

#[test]
fn parse_accepts_upper_case_digits() {
    let id = NoteId::parse(b"12345678-9ABC-DEF0-1234-56789ABCDEF0").unwrap();
    assert_eq!(id.bits, 0x12345678_9abc_def0_1234_56789abcdef0u128);
}

#[test]
fn parse_of_the_smallest_ids() {
    let zero = NoteId::parse(b"00000000-0000-0000-0000-000000000000").unwrap();
    assert_eq!(zero.bits, 0u128);
    let one = NoteId::parse(b"00000000-0000-0000-0000-000000000001").unwrap();
    assert_eq!(one.bits, 1u128);
}

#[test]
fn parse_rejects_malformed_text() {
    // wrong length
    assert_eq!(NoteId::parse(b""), None);
    assert_eq!(NoteId::parse(b"12345678-9abc-def0-1234-56789abcdef"), None);
    assert_eq!(NoteId::parse(b"12345678-9abc-def0-1234-56789abcdef00"), None);
    // hyphen out of place
    assert_eq!(NoteId::parse(b"123456789-abc-def0-1234-56789abcdef0"), None);
    // a digit where the hyphen belongs
    assert_eq!(NoteId::parse(b"12345678a9abc-def0-1234-56789abcdef0"), None);
    // a non-digit in a digit position
    assert_eq!(NoteId::parse(b"1234567g-9abc-def0-1234-56789abcdef0"), None);
}

#[test]
fn hyphenated_writes_lower_case_text() {
    let id = NoteId { bits: 0x12345678_9abc_def0_1234_56789abcdef0u128 };
    assert_eq!(id.hyphenated(), b"12345678-9abc-def0-1234-56789abcdef0".to_vec());
    let zero = NoteId { bits: 0 };
    assert_eq!(zero.hyphenated(), b"00000000-0000-0000-0000-000000000000".to_vec());
}

#[test]
fn hyphenated_then_parse_round_trips() {
    let id = NoteId { bits: 0xdead_beef_dead_beef_dead_beef_dead_beefu128 };
    assert_eq!(NoteId::parse(&id.hyphenated()), Some(id));
}

#[test]
fn fresh_ids_carry_version_four() {
    // the version nibble and the variant bits are pinned; the rest is random
    let id = NoteId::fresh();
    let text = id.hyphenated();
    assert_eq!(text[14], b'4');
    assert!(matches!(text[19], b'8' | b'9' | b'a' | b'b'));
    // and the text form is a valid identifier
    assert_eq!(NoteId::parse(&text), Some(id));
}
