use asn1jsonl::decode::DecodeError;
use asn1jsonl::schema::Asn1Schema;

fn decode_lines(schema_text: &[u8], root: &[u8], data: &[u8]) -> (String, usize) {
    let s = Asn1Schema::parse(schema_text).unwrap();
    let (out, count) = s.decode_stream(data, root).unwrap();
    (String::from_utf8(out).unwrap(), count)
}

#[test]
fn primitive_integer_field() {
    let (out, count) = decode_lines(
        b"R ::= SEQUENCE {\n    a [0] INTEGER\n}\n",
        b"R",
        &[0x30, 0x05, 0x80, 0x03, 0x01, 0x02, 0x03],
    );
    assert_eq!(out, "{\"a\":\"010203\"}\n");
    assert_eq!(count, 1);
}

#[test]
fn optional_absent_field_is_simply_missing() {
    let (out, count) = decode_lines(
        b"R ::= SEQUENCE {\n    a [0] INTEGER,\n    b [1] OCTET STRING OPTIONAL\n}\n",
        b"R",
        &[0x30, 0x05, 0x80, 0x03, 0x01, 0x02, 0x03],
    );
    assert_eq!(out, "{\"a\":\"010203\"}\n");
    assert_eq!(count, 1);
}

#[test]
fn tagged_choice_picks_the_matching_alternative() {
    let (out, count) = decode_lines(
        b"C ::= CHOICE {\n    x [0] OCTET STRING,\n    y [1] OCTET STRING\n}\n",
        b"C",
        &[0x81, 0x02, 0xaa, 0xbb],
    );
    assert_eq!(out, "{\"y\":\"aabb\"}\n");
    assert_eq!(count, 1);
}

#[test]
fn untagged_choice_distinguishes_sequence_from_set() {
    let schema = b"S ::= SEQUENCE {\n    a [0] INTEGER\n}\nT ::= SET {\n    b [0] INTEGER\n}\nC ::= CHOICE {\n    s S,\n    t T\n}\n";
    let (out, count) = decode_lines(schema, b"C", &[0x31, 0x05, 0x80, 0x03, 0x07, 0x08, 0x09]);
    assert_eq!(out, "{\"t\":{\"b\":\"070809\"}}\n");
    assert_eq!(count, 1);
}

#[test]
fn sequence_of_with_indefinite_length() {
    let (out, count) = decode_lines(
        b"L ::= SEQUENCE OF OCTET STRING\n",
        b"L",
        &[0x30, 0x80, 0x04, 0x01, 0x11, 0x04, 0x01, 0x22, 0x00, 0x00],
    );
    assert_eq!(out, "[\"11\",\"22\"]\n");
    assert_eq!(count, 1);
}

#[test]
fn unknown_tag_is_tolerated_and_reported() {
    let (out, count) = decode_lines(
        b"R ::= SEQUENCE {\n    a [0] INTEGER\n}\n",
        b"R",
        &[0x30, 0x08, 0x80, 0x01, 0x05, 0x82, 0x03, 0xde, 0xad, 0xbe],
    );
    assert_eq!(out, "{\"a\":\"05\",\"unknown_tag_2_2\":\"deadbe\"}\n");
    assert_eq!(count, 1);
}

#[test]
fn unknown_root_type_fails_fast() {
    let s = Asn1Schema::parse(b"R ::= SEQUENCE {\n    a [0] INTEGER\n}\n").unwrap();
    let r = s.decode_stream(&[0x30, 0x00], b"NoSuch");
    assert_eq!(r.unwrap_err(), DecodeError::UnknownRootType);
}

#[test]
fn empty_input_yields_no_records() {
    let (out, count) = decode_lines(b"R ::= SEQUENCE {\n    a [0] INTEGER\n}\n", b"R", &[]);
    assert_eq!(out, "");
    assert_eq!(count, 0);
}

#[test]
fn root_scan_skips_padding_bytes() {
    let (out, count) = decode_lines(
        b"R ::= SEQUENCE {\n    a [0] INTEGER\n}\n",
        b"R",
        &[0xff, 0xff, 0x30, 0x05, 0x80, 0x03, 0x01, 0x02, 0x03],
    );
    assert_eq!(out, "{\"a\":\"010203\"}\n");
    assert_eq!(count, 1);
}

#[test]
fn two_records_in_one_stream_keep_input_order() {
    let (out, count) = decode_lines(
        b"R ::= SEQUENCE {\n    a [0] INTEGER\n}\n",
        b"R",
        &[0x30, 0x03, 0x80, 0x01, 0x11, 0x30, 0x03, 0x80, 0x01, 0x22],
    );
    assert_eq!(out, "{\"a\":\"11\"}\n{\"a\":\"22\"}\n");
    assert_eq!(count, 2);
}

#[test]
fn decoding_is_deterministic() {
    let schema = b"S ::= SEQUENCE {\n    a [0] INTEGER\n}\nT ::= SET {\n    b [0] INTEGER\n}\nC ::= CHOICE {\n    s S,\n    t T\n}\n";
    let s = Asn1Schema::parse(schema).unwrap();
    let data = [0x31, 0x05, 0x80, 0x03, 0x07, 0x08, 0x09];
    let first = s.decode_stream(&data, b"C").unwrap();
    let second = s.decode_stream(&data, b"C").unwrap();
    assert_eq!(first.0, second.0);
    assert_eq!(first.1, second.1);
}

#[test]
fn every_emitted_line_parses_as_json() {
    let schema = b"S ::= SEQUENCE {\n    a [0] INTEGER\n}\nT ::= SET {\n    b [0] INTEGER\n}\nC ::= CHOICE {\n    s S,\n    t T\n}\n";
    let s = Asn1Schema::parse(schema).unwrap();
    let data = [
        0x31, 0x05, 0x80, 0x03, 0x07, 0x08, 0x09, // a SET record
        0x30, 0x05, 0x80, 0x03, 0x01, 0x02, 0x03, // a SEQUENCE record
    ];
    let (out, count) = s.decode_stream(&data, b"C").unwrap();
    let text = String::from_utf8(out).unwrap();
    let lines: Vec<&str> = text.lines().collect();
    assert_eq!(lines.len(), count);
    for line in lines {
        let v: serde_json::Value = serde_json::from_str(line).unwrap();
        assert!(v.is_object() || v.is_array() || v.is_null() || v.is_string());
    }
}

#[test]
fn hex_values_match_the_lowercase_hex_shape() {
    let (out, _) = decode_lines(
        b"R ::= SEQUENCE {\n    a [0] INTEGER\n}\n",
        b"R",
        &[0x30, 0x05, 0x80, 0x03, 0xde, 0xad, 0x0f],
    );
    let v: serde_json::Value = serde_json::from_str(out.trim_end()).unwrap();
    let hex = v.get("a").unwrap().as_str().unwrap();
    assert!(hex.bytes().all(|b| b.is_ascii_digit() || (b'a'..=b'f').contains(&b)));
    assert_eq!(hex, "dead0f");
}

#[test]
fn nested_sequences_recurse_on_contents() {
    let schema = b"Inner ::= SEQUENCE {\n    x [0] INTEGER\n}\nOuter ::= SEQUENCE {\n    i [1] Inner\n}\n";
    // implicit tagging: the [1] wrapper directly holds Inner's fields
    let (out, _) = decode_lines(schema, b"Outer", &[0x30, 0x05, 0xa1, 0x03, 0x80, 0x01, 0x42]);
    assert_eq!(out, "{\"i\":{\"x\":\"42\"}}\n");
}

#[test]
fn sequence_of_field_renders_an_array() {
    let schema = b"R ::= SEQUENCE {\n    xs [0] SEQUENCE OF OCTET STRING\n}\n";
    let (out, _) = decode_lines(
        schema,
        b"R",
        &[0x30, 0x08, 0xa0, 0x06, 0x04, 0x01, 0x11, 0x04, 0x01, 0x22],
    );
    assert_eq!(out, "{\"xs\":[\"11\",\"22\"]}\n");
}

#[test]
fn choice_inside_sequence_sees_the_outer_tag() {
    let schema = b"C ::= CHOICE {\n    x [0] OCTET STRING,\n    y [1] OCTET STRING\n}\nR ::= SEQUENCE {\n    c [5] C\n}\n";
    // the [5] wrapper is constructed; the alternative is the inner TLV
    let (out, _) = decode_lines(schema, b"R", &[0x30, 0x05, 0xa5, 0x03, 0x81, 0x01, 0xaa]);
    assert_eq!(out, "{\"c\":{\"y\":\"aa\"}}\n");
}

#[test]
fn unrecognised_choice_alternative_is_reported_verbatim() {
    let schema = b"C ::= CHOICE {\n    x [0] OCTET STRING\n}\nR ::= SEQUENCE {\n    c [5] C\n}\n";
    let (out, _) = decode_lines(schema, b"R", &[0x30, 0x05, 0xa5, 0x03, 0x87, 0x01, 0xaa]);
    assert_eq!(out, "{\"c\":{\"unknown_alternative\":\"a5038701aa\"}}\n");
}

#[test]
fn octet_string_wrapped_choice_alternative_is_unwrapped() {
    let schema = b"C ::= CHOICE {\n    x [0] OCTET STRING\n}\nL ::= SEQUENCE OF C\n";
    let (out, _) = decode_lines(schema, b"L", &[0x30, 0x05, 0x04, 0x03, 0x80, 0x01, 0xaa]);
    assert_eq!(out, "[{\"x\":\"aa\"}]\n");
}

#[test]
fn components_of_inlines_the_source_fields() {
    let schema = b"Base ::= SEQUENCE {\n    a [0] INTEGER\n}\nExt ::= SEQUENCE {\n    b [1] INTEGER,\n    COMPONENTS OF Base\n}\n";
    let (out, _) = decode_lines(
        schema,
        b"Ext",
        &[0x30, 0x06, 0x80, 0x01, 0x11, 0x81, 0x01, 0x22],
    );
    assert_eq!(out, "{\"a\":\"11\",\"b\":\"22\"}\n");
}

#[test]
fn outer_tagged_root_dispatches_by_its_tag() {
    let schema = b"T ::= [APPLICATION 5] SEQUENCE {\n    a [0] INTEGER\n}\n";
    let (out, count) = decode_lines(schema, b"T", &[0x65, 0x05, 0x80, 0x03, 0x01, 0x02, 0x03]);
    assert_eq!(out, "{\"a\":\"010203\"}\n");
    assert_eq!(count, 1);
}

#[test]
fn alias_root_decodes_as_its_target() {
    let schema = b"A ::= R\nR ::= SEQUENCE {\n    a [0] INTEGER\n}\n";
    let (out, _) = decode_lines(schema, b"A", &[0x30, 0x03, 0x80, 0x01, 0x42]);
    assert_eq!(out, "{\"a\":\"42\"}\n");
}

#[test]
fn unknown_field_type_decodes_as_hex() {
    let schema = b"R ::= SEQUENCE {\n    a [0] Mystery\n}\n";
    let (out, _) = decode_lines(schema, b"R", &[0x30, 0x04, 0x80, 0x02, 0xbe, 0xef]);
    assert_eq!(out, "{\"a\":\"beef\"}\n");
}

#[test]
fn malformed_record_tail_ends_the_scan() {
    // one good record, then a truncated header that never parses
    let (out, count) = decode_lines(
        b"R ::= SEQUENCE {\n    a [0] INTEGER\n}\n",
        b"R",
        &[0x30, 0x03, 0x80, 0x01, 0x11, 0x30, 0x7f],
    );
    assert_eq!(out, "{\"a\":\"11\"}\n");
    assert_eq!(count, 1);
}

#[test]
fn duplicate_field_tags_keep_the_last_binding() {
    // both fields claim tag [0]: the later declaration replaces the earlier
    let schema = b"R ::= SEQUENCE {\n    a [0] INTEGER,\n    b [0] INTEGER\n}\n";
    let (out, _) = decode_lines(schema, b"R", &[0x30, 0x03, 0x80, 0x01, 0x11]);
    assert_eq!(out, "{\"b\":\"11\"}\n");
}

#[test]
fn untagged_choice_probes_alternatives_in_declaration_order() {
    // both alternatives are SEQUENCE-shaped: the first declared wins
    let schema = b"S ::= SEQUENCE {\n    a [0] INTEGER\n}\nT ::= SEQUENCE {\n    b [0] INTEGER\n}\nC ::= CHOICE {\n    s S,\n    t T\n}\n";
    let (out, _) = decode_lines(schema, b"C", &[0x30, 0x03, 0x80, 0x01, 0x11]);
    assert_eq!(out, "{\"s\":{\"a\":\"11\"}}\n");
}

#[test]
fn long_form_field_tags_dispatch_correctly() {
    // tag number 31 needs the long tag form: 0x9f 0x1f
    let schema = b"R ::= SEQUENCE {\n    a [31] INTEGER\n}\n";
    let (out, _) = decode_lines(schema, b"R", &[0x30, 0x04, 0x9f, 0x1f, 0x01, 0x11]);
    assert_eq!(out, "{\"a\":\"11\"}\n");
}

#[test]
fn root_scan_advances_strictly_past_each_record() {
    let s = Asn1Schema::parse(b"R ::= SEQUENCE {\n    a [0] INTEGER\n}\n").unwrap();
    let data = [
        0xff, 0x30, 0x03, 0x80, 0x01, 0x11, 0xee, 0x30, 0x03, 0x80, 0x01, 0x22,
    ];
    let first = s.find_next_root_tlv(&data, 0, b"R").unwrap();
    assert!(first.end > 0);
    assert_eq!(first.start, 1);
    let second = s.find_next_root_tlv(&data, first.end, b"R").unwrap();
    assert!(second.end > first.end);
    assert_eq!(second.start, 7);
    assert!(s.find_next_root_tlv(&data, second.end, b"R").is_none());
}

#[test]
fn structural_matching_distinguishes_shapes() {
    let schema = b"S ::= SEQUENCE {\n    a [0] INTEGER\n}\nT ::= SET {\n    b [0] INTEGER\n}\n";
    let s = Asn1Schema::parse(schema).unwrap();
    // a SEQUENCE shape is the universal constructed tag 16
    assert!(s.choice_alt_matches_tlv(b"S", 0, 16, true));
    assert!(!s.choice_alt_matches_tlv(b"S", 0, 16, false));
    assert!(!s.choice_alt_matches_tlv(b"S", 0, 17, true));
    // a SET shape is the universal constructed tag 17
    assert!(s.choice_alt_matches_tlv(b"T", 0, 17, true));
    // a primitive kind matches its universal tag, constructed or not
    assert!(s.choice_alt_matches_tlv(b"INTEGER", 0, 2, false));
    assert!(!s.choice_alt_matches_tlv(b"INTEGER", 0, 4, false));
}

#[test]
fn untagged_field_dispatches_by_its_universal_tag() {
    // no explicit tag: the field's key is GraphicString's universal tag 25
    let schema = b"R ::= SEQUENCE {\n    g GraphicString\n}\n";
    let (out, _) = decode_lines(schema, b"R", &[0x30, 0x04, 0x19, 0x02, 0xaa, 0xbb]);
    assert_eq!(out, "{\"g\":\"aabb\"}\n");
}

#[test]
fn aliased_choice_field_still_sees_the_outer_tag() {
    let schema = b"C ::= CHOICE {\n    x [0] OCTET STRING\n}\nD ::= C\nR ::= SEQUENCE {\n    c [5] D\n}\n";
    let (out, _) = decode_lines(schema, b"R", &[0x30, 0x05, 0xa5, 0x03, 0x80, 0x01, 0xaa]);
    assert_eq!(out, "{\"c\":{\"x\":\"aa\"}}\n");
}

#[test]
fn primitive_root_matches_only_its_universal_tag() {
    // the root's derived universal tag is INTEGER's (UNIVERSAL, 2):
    // an OCTET STRING TLV opens no record
    let schema = b"P ::= INTEGER\n";
    let (out, count) = decode_lines(schema, b"P", &[0x04, 0x01, 0x2a]);
    assert_eq!(out, "");
    assert_eq!(count, 0);
    let (out, count) = decode_lines(schema, b"P", &[0x02, 0x01, 0x2a]);
    assert_eq!(out, "\"2a\"\n");
    assert_eq!(count, 1);
}

#[test]
fn primitive_root_scan_skips_foreign_tags() {
    // a stream holding an OCTET STRING between two INTEGERs yields the
    // two INTEGER records only
    let schema = b"P ::= INTEGER\n";
    let data = [
        0x02, 0x01, 0x11, 0x04, 0x01, 0x99, 0x02, 0x01, 0x22,
    ];
    let (out, count) = decode_lines(schema, b"P", &data);
    assert_eq!(out, "\"11\"\n\"22\"\n");
    assert_eq!(count, 2);
}
