use asn1jsonl::tlv::{find_eoc, parse_tlv};

#[test]
fn parses_short_definite_tlv() {
    let data = [0x30u8, 0x05, 0x80, 0x03, 0x01, 0x02, 0x03];
    let t = parse_tlv(&data, 0).unwrap();
    assert_eq!(t.tag_class, 0);
    assert!(t.constructed);
    assert_eq!(t.tag_num, 16);
    assert_eq!(t.start, 0);
    assert_eq!(t.value_start, 2);
    assert_eq!(t.value_end, 7);
    assert_eq!(t.end, 7);
}

#[test]
fn tag_round_trip_value_is_suffix_of_raw() {
    let data = [0x30u8, 0x05, 0x80, 0x03, 0x01, 0x02, 0x03];
    let t = parse_tlv(&data, 0).unwrap();
    let raw = &data[t.start..t.end];
    let value = &data[t.value_start..t.value_end];
    assert_eq!(raw.len(), t.end - t.start);
    assert_eq!(&raw[raw.len() - value.len()..], value);
}

#[test]
fn parses_long_form_tag_number() {
    // tag byte 0x1f marks a long tag; 0x81 0x49 encodes 201 base-128.
    let data = [0x1fu8, 0x81, 0x49, 0x01, 0xaa];
    let t = parse_tlv(&data, 0).unwrap();
    assert_eq!(t.tag_num, 201);
    assert_eq!(t.value_start, 4);
    assert_eq!(t.end, 5);
}

#[test]
fn parses_long_form_length() {
    let mut data = vec![0x04u8, 0x82, 0x01, 0x00];
    data.extend(std::iter::repeat(0xabu8).take(256));
    let t = parse_tlv(&data, 0).unwrap();
    assert_eq!(t.value_end - t.value_start, 256);
    assert_eq!(t.end, data.len());
}

#[test]
fn parses_indefinite_length_with_sentinel() {
    let data = [0x30u8, 0x80, 0x04, 0x01, 0x11, 0x04, 0x01, 0x22, 0x00, 0x00];
    let t = parse_tlv(&data, 0).unwrap();
    assert_eq!(t.value_start, 2);
    assert_eq!(t.value_end, 8);
    assert_eq!(t.end, 10);
    // the contents are a prefix of the raw bytes short of the sentinel
    assert_eq!(&data[t.value_start..t.value_end], &[0x04, 0x01, 0x11, 0x04, 0x01, 0x22]);
}

#[test]
fn nested_indefinite_lengths_balance() {
    let data = [0x30u8, 0x80, 0x30, 0x80, 0x04, 0x01, 0x11, 0x00, 0x00, 0x00, 0x00];
    assert_eq!(find_eoc(&data, 2), Some(11));
    let t = parse_tlv(&data, 0).unwrap();
    assert_eq!(t.end, 11);
    assert_eq!(t.value_end, 9);
}

#[test]
fn indefinite_on_primitive_is_rejected() {
    let data = [0x04u8, 0x80, 0x00, 0x00];
    assert!(parse_tlv(&data, 0).is_none());
}

#[test]
fn truncated_and_empty_inputs_are_soft_failures() {
    assert!(parse_tlv(&[], 0).is_none());
    assert!(parse_tlv(&[0x30], 0).is_none());
    assert!(parse_tlv(&[0x30, 0x05, 0x01], 0).is_none());
    assert!(parse_tlv(&[0x30, 0x81], 0).is_none());
    // a long length with zero octets is malformed
    assert!(parse_tlv(&[0x30, 0x80, 0x00], 0).is_none());
    // missing end-of-contents sentinel
    assert!(parse_tlv(&[0x30, 0x80, 0x04, 0x01, 0x11], 0).is_none());
}

#[test]
fn parse_past_end_returns_none() {
    let data = [0x01u8, 0x01, 0xff];
    assert!(parse_tlv(&data, 3).is_none());
    assert!(parse_tlv(&data, 7).is_none());
}
