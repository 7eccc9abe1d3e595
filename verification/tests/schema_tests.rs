use asn1jsonl::compile::SchemaError;
use asn1jsonl::hexjson::{write_hex_json, write_json_key, write_u32_dec};
use asn1jsonl::schema::{is_synth_choice_tag, tag_class_from_word, Asn1Schema, TagKey};
use asn1jsonl::util::{bytes_eq, parse_u32_digits, to_ascii_upper};

#[test]
fn tag_classes_from_words() {
    assert_eq!(tag_class_from_word(Some(b"APPLICATION")), 1);
    assert_eq!(tag_class_from_word(Some(b"universal")), 0);
    assert_eq!(tag_class_from_word(Some(b"PRIVATE")), 3);
    assert_eq!(tag_class_from_word(Some(b"CONTEXT")), 2);
    assert_eq!(tag_class_from_word(Some(b"CONTEXT-SPECIFIC")), 2);
    assert_eq!(tag_class_from_word(Some(b"anythingelse")), 2);
    assert_eq!(tag_class_from_word(None), 2);
}

#[test]
fn synthetic_tag_range_is_reserved() {
    assert!(is_synth_choice_tag(0xffff_ff00));
    assert!(is_synth_choice_tag(0xffff_ffff));
    assert!(!is_synth_choice_tag(0xffff_feff));
    assert!(!is_synth_choice_tag(0));
}

#[test]
fn byte_helpers_work() {
    assert!(bytes_eq(b"abc", b"abc"));
    assert!(!bytes_eq(b"abc", b"abd"));
    assert!(!bytes_eq(b"abc", b"ab"));
    assert_eq!(to_ascii_upper(b"IA5String-x"), b"IA5STRING-X".to_vec());
    assert_eq!(parse_u32_digits(b"0"), Some(0));
    assert_eq!(parse_u32_digits(b"4294967295"), Some(u32::MAX));
    assert_eq!(parse_u32_digits(b"4294967296"), None);
    assert_eq!(parse_u32_digits(b""), None);
    assert_eq!(parse_u32_digits(b"12a"), None);
}

#[test]
fn json_token_writers_are_exact() {
    let mut out = Vec::new();
    write_hex_json(&mut out, &[0x00, 0xde, 0xad, 0x0f]);
    assert_eq!(String::from_utf8(out).unwrap(), "\"00dead0f\"");

    let mut out = Vec::new();
    write_json_key(&mut out, b"plain-key");
    assert_eq!(String::from_utf8(out).unwrap(), "\"plain-key\"");

    let mut out = Vec::new();
    write_json_key(&mut out, b"q\"b\\n\nr\rt\tv\x0b");
    assert_eq!(
        String::from_utf8(out).unwrap(),
        "\"q\\\"b\\\\n\\nr\\rt\\tv\\u000b\""
    );

    let mut out = Vec::new();
    write_u32_dec(&mut out, 0);
    write_u32_dec(&mut out, 10);
    write_u32_dec(&mut out, 4294967295);
    assert_eq!(String::from_utf8(out).unwrap(), "0104294967295");
}

#[test]
fn parses_aliases_and_resolves_them() {
    let text = b"A ::= B\nB ::= SEQUENCE {\n    f [0] INTEGER\n}\n";
    let s = Asn1Schema::parse(text).unwrap();
    assert_eq!(s.resolve_alias(b"A"), b"B");
    assert!(s.knows_type(b"A"));
    assert!(s.knows_type(b"B"));
    assert!(!s.knows_type(b"C"));
}

#[test]
fn alias_resolution_is_idempotent() {
    let text = b"A ::= B\nB ::= C\nC ::= SEQUENCE {\n    f [0] INTEGER\n}\n";
    let s = Asn1Schema::parse(text).unwrap();
    let once = s.resolve_alias(b"A").to_vec();
    let twice = s.resolve_alias(&once).to_vec();
    assert_eq!(once, b"C".to_vec());
    assert_eq!(once, twice);
}

#[test]
fn cyclic_aliases_terminate_and_stay_unknown() {
    let text = b"X ::= Y\nY ::= X\n";
    let s = Asn1Schema::parse(text).unwrap();
    // resolution stops at the step bound instead of looping; the bound is
    // even, so the cycle of two ends where it started
    let r = s.resolve_alias(b"X").to_vec();
    assert_eq!(r, b"X".to_vec());
}

#[test]
fn keyword_right_hand_sides_are_no_aliases() {
    let text = b"A ::= INTEGER\n";
    let s = Asn1Schema::parse(text).unwrap();
    // INTEGER is a keyword: A is a primitive, not an alias
    assert_eq!(s.resolve_alias(b"A"), b"A");
    assert!(s.knows_type(b"A"));
    assert_eq!(
        s.universal_tag_for_type(b"A"),
        Some(TagKey { class: 0, num: 2 })
    );
}

#[test]
fn universal_tags_cover_the_primitive_kinds() {
    let s = Asn1Schema::parse(b"").unwrap();
    let cases: [(&[u8], u32); 12] = [
        (b"INTEGER", 2),
        (b"OCTET STRING", 4),
        (b"BIT STRING", 3),
        (b"BOOLEAN", 1),
        (b"NULL", 5),
        (b"ENUMERATED", 10),
        (b"IA5String", 22),
        (b"UTF8String", 12),
        (b"OBJECT IDENTIFIER", 6),
        (b"TBCD-STRING", 4),
        (b"GraphicString", 25),
        (b"VisibleString", 26),
    ];
    for (name, num) in cases {
        assert_eq!(
            s.universal_tag_for_type(name),
            Some(TagKey { class: 0, num }),
        );
    }
    assert_eq!(s.universal_tag_for_type(b"NoSuchType"), None);
}

#[test]
fn declared_outer_tag_wins_over_universal() {
    let text = b"T ::= [APPLICATION 5] SEQUENCE {\n    a [0] INTEGER\n}\n";
    let s = Asn1Schema::parse(text).unwrap();
    assert_eq!(s.tag_for_type(b"T"), Some(TagKey { class: 1, num: 5 }));
    assert_eq!(
        s.universal_tag_for_type(b"T"),
        Some(TagKey { class: 0, num: 16 })
    );
}

#[test]
fn comments_are_stripped_before_matching() {
    // the commented-out assignment would otherwise register a type
    let text = b"-- Bad ::= SEQUENCE OF INTEGER\nR ::= SEQUENCE { -- trailing\n    a [0] INTEGER\n}\n";
    let s = Asn1Schema::parse(text).unwrap();
    assert!(s.knows_type(b"R"));
    assert!(!s.knows_type(b"Bad"));
}

#[test]
fn snacc_directive_blocks_are_stripped_whole() {
    // the middle line of the directive block would otherwise register a
    // type, since line comments alone do not cover it
    let text = b"--snacc\nZap ::= INTEGER\n--\nR ::= SEQUENCE {\n    a [0] INTEGER\n}\n";
    let s = Asn1Schema::parse(text).unwrap();
    assert!(s.knows_type(b"R"));
    assert!(!s.knows_type(b"Zap"));
}

#[test]
fn oversized_choice_tag_number_fails_compilation() {
    let text = b"C ::= CHOICE {\n    x [99999999999] Foo\n}\n";
    assert_eq!(Asn1Schema::parse(text).unwrap_err(), SchemaError::TagNumber);
}

#[test]
fn oversized_field_tag_number_fails_compilation() {
    let text = b"R ::= SEQUENCE {\n    a [99999999999] INTEGER\n}\n";
    assert_eq!(Asn1Schema::parse(text).unwrap_err(), SchemaError::TagNumber);
}

#[test]
fn top_level_sequence_of_records_its_element() {
    let text = b"L ::= SEQUENCE OF OCTET STRING\nM ::= SET OF INTEGER\n";
    let s = Asn1Schema::parse(text).unwrap();
    assert!(s.knows_type(b"L"));
    assert!(s.knows_type(b"M"));
    assert_eq!(s.tag_for_type(b"L"), Some(TagKey { class: 0, num: 16 }));
    assert_eq!(s.tag_for_type(b"M"), Some(TagKey { class: 0, num: 17 }));
}
