use std::cmp::Ordering;

use infra::ids::{IdGen, IdParseError};
use infra::untyped_ids::{decode_body, UntypedId};

#[test]
fn untyped_ids_round_trips_via_to_from_str() {
    let id = UntypedId::hashed("Hi!");
    let s = id.to_string();
    println!("String: {}", s);
    let id2 = s.parse::<UntypedId>().expect("parse id");
    assert_eq!(id, id2);
}

#[test]
fn untyped_ids_round_trips_via_to_from_str_now() {
    let id = IdGen::new().untyped();
    let s = id.to_string();
    println!("String: {}", s);
    let id2 = s.parse::<UntypedId>().expect("parse id");
    assert_eq!(id, id2);
}

#[test]
fn untyped_ids_should_allow_random_generation() {
    let idgen = IdGen::new();
    let id = idgen.untyped();
    let id2 = idgen.untyped();

    assert_ne!(id, id2);
}

#[test]
fn untyped_ids_should_allow_ordering() {
    let idgen = IdGen::new();
    let id = idgen.untyped();
    let mut id2 = idgen.untyped();
    while id2 == id {
        id2 = idgen.untyped();
    }

    assert!(id < id2 || id > id2);
}

#[test]
fn should_parse_expected_len() {
    let s = "0000000000001q5nnvfqq7krfo";

    let result = s.parse::<UntypedId>();

    assert!(
        result.is_ok(),
        "Parsing {:?} should return ok; got {:?}",
        s,
        result,
    )
}

#[test]
fn should_verify_has_no_entity_prefix() {
    let s = "wrong.0000000000001q5nnvfqq7krfo";

    let result = s.parse::<UntypedId>();

    assert!(
        result.is_err(),
        "Parsing {:?} should return error; got {:?}",
        s,
        result,
    )
}

#[test]
fn should_return_error_on_truncation() {
    let s = "0000000000001q5nnvfqq7krf";

    let result = s.parse::<UntypedId>();

    assert!(
        result.is_err(),
        "Parsing {:?} should return error; got {:?}",
        s,
        result,
    )
}

#[test]
fn should_return_error_on_extension() {
    let s = "0000000000001q5nnvfqq7krfoa";

    let result = s.parse::<UntypedId>();

    assert!(
        result.is_err(),
        "Parsing {:?} should return error; got {:?}",
        s,
        result,
    )
}

#[test]
fn untyped_parse_gives_the_decoded_identifier() {
    let id = UntypedId::parse("0000000000001q5nnvfqq7krfo").expect("parse id");
    assert_eq!(id.stamp(), 0);
    assert_eq!(id.random(), 16769082704940407678);
}

#[test]
fn untyped_text_of_known_identifiers() {
    assert_eq!(UntypedId::from_parts(1, 2).to_string(), "00000000000020000000000008");
    assert_eq!(
        UntypedId::from_parts(0x0102030405060708, 0x0fffffffffffffff).to_string(),
        "041061050o3gg3vvvvvvvvvvvs"
    );
    assert_eq!(UntypedId::from_parts(0, 0).to_string(), "00000000000000000000000000");
}

#[test]
fn untyped_parse_refuses_the_divider_and_other_symbols() {
    assert_eq!(
        UntypedId::parse("0000000000001q5nnvfqq7kr.o"),
        Err(IdParseError::Unparseable)
    );
    assert_eq!(
        UntypedId::parse("0000000000001q5nnvfqq7krfw"),
        Err(IdParseError::Unparseable)
    );
    assert_eq!(UntypedId::parse(""), Err(IdParseError::Unparseable));
    assert_eq!(
        UntypedId::parse("0000000000001q5nnvfqq7krfé"),
        Err(IdParseError::Unparseable)
    );
}

#[test]
fn binary_form_is_big_endian_stamp_then_random() {
    let id = UntypedId::from_parts(0x0102030405060708, 0x1112131415161718);
    assert_eq!(
        id.to_bytes(),
        vec![1, 2, 3, 4, 5, 6, 7, 8, 0x11, 0x12, 0x13, 0x14, 0x15, 0x16, 0x17, 0x18]
    );
    assert_eq!(UntypedId::from_bytes(&id.to_bytes()), id);
}

#[test]
fn binary_order_matches_identifier_order() {
    let a = UntypedId::from_parts(5, u64::MAX);
    let b = UntypedId::from_parts(6, 0);
    assert!(a < b);
    assert!(a.to_bytes() < b.to_bytes());
    assert!(a.to_string() < b.to_string());
}

#[test]
fn order_is_stamp_then_random() {
    let a = UntypedId::from_parts(1, 9);
    let b = UntypedId::from_parts(2, 0);
    let c = UntypedId::from_parts(2, 1);
    assert_eq!(a.partial_cmp(&b), Some(Ordering::Less));
    assert_eq!(c.partial_cmp(&b), Some(Ordering::Greater));
    assert_eq!(b.partial_cmp(&b), Some(Ordering::Equal));
    assert_eq!(a.cmp(&c), Ordering::Less);
}

#[test]
fn clock_readings_become_stamps() {
    assert_eq!(UntypedId::from_clock(Some(1_500), 7), UntypedId::from_parts(1_500, 7));
    assert_eq!(UntypedId::from_clock(None, 7).stamp(), 0);
    assert_eq!(UntypedId::from_clock(Some(0), 7).stamp(), 0);
    assert_eq!(UntypedId::from_clock(Some(1), 7).stamp(), 1);
    assert!(UntypedId::hashed("x") < UntypedId::from_clock(Some(1), 0));
    assert_eq!(
        UntypedId::from_clock(Some(u64::MAX as u128 + 5), 7).stamp(),
        u64::MAX
    );
}

#[test]
fn generated_stamps_follow_the_clock() {
    let idgen = IdGen::new();
    let a = idgen.untyped();
    let start = std::time::Instant::now();
    while start.elapsed() < std::time::Duration::from_millis(2) {}
    let b = idgen.untyped();
    assert!(a.stamp() < b.stamp());
    assert!(a < b);
}

#[test]
fn hashed_untyped_is_deterministic() {
    assert_eq!(UntypedId::hashed("boo"), UntypedId::hashed("boo"));
    assert_ne!(UntypedId::hashed("boo"), UntypedId::hashed("Boo"));
    assert_eq!(UntypedId::hashed("boo").stamp(), 0);
}

#[test]
fn body_decoder_checks_length() {
    assert!(decode_body(b"0000000000001q5nnvfqq7krfo").is_ok());
    assert_eq!(decode_body(b"0000000000001q5nnvfqq7krf"), Err(IdParseError::Unparseable));
}
