use infra::ids::{Entity, Id, IdGen, IdParseError};
use infra::untyped_ids::UntypedId;

#[derive(Debug)]
struct Canary;

impl Entity for Canary {
    fn prefix() -> &'static str {
        "canary"
    }
}

#[derive(Debug)]
struct Long;

impl Entity for Long {
    // Longer than the whole text of an identifier.
    fn prefix() -> &'static str {
        "pseudopseudohypoparathyroidism"
    }
}

#[test]
fn ids_round_trips_via_to_from_str() {
    let id = Id::<Canary>::hashed("Hi!");
    let s = id.to_string();
    println!("String: {}", s);
    let id2 = s.parse::<Id<Canary>>().expect("parse id");
    assert_eq!(id, id2);
}

#[test]
fn ids_round_trips_via_to_from_str_now() {
    let id = IdGen::new().generate::<Canary>();
    let s = id.to_string();
    println!("String: {}", s);
    let id2 = s.parse::<Id<Canary>>().expect("parse id");
    assert_eq!(id, id2);
}

#[test]
fn round_trips_via_untyped() {
    let id = Id::<Canary>::hashed("boo");

    let untyped: UntypedId = id.untyped();
    println!("untyped: {}", untyped.to_string());
    let id2: Id<Canary> = Id::from_untyped(untyped);
    assert_eq!(id, id2);
}

#[test]
fn ids_should_allow_random_generation() {
    let idgen = IdGen::new();
    let id = idgen.generate::<Canary>();
    let id2 = idgen.generate::<Canary>();

    assert_ne!(id, id2);
}

#[test]
fn ids_should_allow_ordering() {
    let idgen = IdGen::new();
    let id = idgen.generate::<Canary>();
    let mut id2 = idgen.generate::<Canary>();
    while id2 == id {
        id2 = idgen.generate::<Canary>();
    }

    assert!(id < id2 || id > id2);
}

#[test]
fn to_string_should_be_prefixed_with_type_name() {
    let idgen = IdGen::new();
    let id = idgen.generate::<Canary>();

    let s = id.to_string();

    assert!(
        s.starts_with("canary"),
        "string: {:?} starts with {:?}",
        s,
        "canary"
    )
}

#[test]
fn should_parse_correct_example() {
    let s = "canary.0000000000001q5nnvfqq7krfo";

    let result = s.parse::<Id<Canary>>();

    assert!(
        result.is_ok(),
        "Parsing {:?} should return ok; got {:?}",
        s,
        result,
    )
}

#[test]
fn should_verify_has_correct_entity_prefix() {
    let s = "wrongy-0000000000001q5nnvfqq7krfo";

    let result = s.parse::<Id<Canary>>();

    assert!(
        result.is_err(),
        "Parsing {:?} should return error; got {:?}",
        s,
        result,
    )
}

#[test]
fn should_yield_useful_error_when_invalid_prefix() {
    let s = "wrong-0000000000001q5nnvfqq7krfo";

    let result = s.parse::<Id<Long>>();

    assert!(
        result.is_err(),
        "Parsing {:?} should return error; got {:?}",
        s,
        result,
    )
}

#[test]
fn should_yield_useful_error_when_just_prefix() {
    let s = "canary";
    let result = s.parse::<Id<Canary>>();

    assert!(
        result.is_err(),
        "Parsing {:?} should return error; got {:?}",
        s,
        result,
    )
}

#[test]
fn should_yield_useful_error_when_wrong_divider() {
    let s = "canary#0000000000001q5nnvfqq7krfo";
    let result = s.parse::<Id<Canary>>();

    assert!(
        result.is_err(),
        "Parsing {:?} should return error; got {:?}",
        s,
        result,
    )
}

#[test]
fn typed_parse_gives_the_decoded_identifier() {
    let id = Id::<Canary>::parse("canary.0000000000001q5nnvfqq7krfo").expect("parse id");
    assert_eq!(id.untyped(), UntypedId::from_parts(0, 16769082704940407678));
}

#[test]
fn typed_text_is_prefix_divider_body() {
    let id: Id<Canary> = UntypedId::from_parts(1, 2).typed();
    assert_eq!(id.to_string(), "canary.00000000000020000000000008");
}

#[test]
fn typed_parse_error_kinds() {
    let body = "0000000000001q5nnvfqq7krfo";
    assert_eq!(Id::<Canary>::parse("canary"), Err(IdParseError::InvalidPrefix));
    assert_eq!(Id::<Canary>::parse("canar"), Err(IdParseError::InvalidPrefix));
    assert_eq!(
        Id::<Canary>::parse(&format!("wrongy.{}", body)),
        Err(IdParseError::InvalidPrefix)
    );
    assert_eq!(
        Id::<Long>::parse(&format!("wrong.{}", body)),
        Err(IdParseError::InvalidPrefix)
    );
    assert_eq!(
        Id::<Canary>::parse(&format!("canary#{}", body)),
        Err(IdParseError::Unparseable)
    );
    assert_eq!(
        Id::<Canary>::parse(&format!("canary{}", body)),
        Err(IdParseError::Unparseable)
    );
    assert_eq!(
        Id::<Canary>::parse("canary.0000000000001q5nnvfqq7krf"),
        Err(IdParseError::Unparseable)
    );
    assert_eq!(
        Id::<Canary>::parse("canary.0000000000001q5nnvfqq7krfoa"),
        Err(IdParseError::Unparseable)
    );
    assert_eq!(
        Id::<Canary>::parse("canary.0000000000001q5nnvfqq7krf!"),
        Err(IdParseError::Unparseable)
    );
    assert_eq!(Id::<Canary>::parse("canary."), Err(IdParseError::Unparseable));
}

#[test]
fn typed_parse_accepts_upper_case_body() {
    let lower = Id::<Canary>::parse("canary.0000000000001q5nnvfqq7krfo").expect("lower");
    let upper = Id::<Canary>::parse("canary.0000000000001Q5NNVFQQ7KRFO").expect("upper");
    assert_eq!(lower, upper);
}

#[test]
fn typed_round_trip_over_many_generated() {
    let idgen = IdGen::new();
    for _ in 0..200 {
        let id = idgen.generate::<Canary>();
        let s = id.to_string();
        assert!(s.starts_with("canary."));
        assert_eq!(s.len(), "canary.".len() + 26);
        assert_eq!(Id::<Canary>::parse(&s), Ok(id));
    }
}

#[test]
fn hashed_ids_sit_at_time_zero_and_are_deterministic() {
    let a = Id::<Canary>::hashed("Hi!");
    let b = Id::<Canary>::hashed("Hi!");
    let c = Id::<Canary>::hashed("boo");
    assert_eq!(a, b);
    assert_ne!(a, c);
    assert_eq!(a.untyped().stamp(), 0);
    assert_eq!(c.untyped().stamp(), 0);
}

#[test]
fn generated_ids_are_distinct() {
    let idgen = IdGen::new();
    let mut seen: Vec<Id<Canary>> = Vec::new();
    for _ in 0..1000 {
        let id = idgen.generate::<Canary>();
        assert!(!seen.contains(&id));
        seen.push(id);
    }
    assert_eq!(seen.len(), 1000);
}

#[test]
fn clone_keeps_the_identifier() {
    let a = Id::<Canary>::hashed("x");
    let b = a.clone();
    assert_eq!(a, b);
}

#[derive(Debug, Hash)]
struct Tagged;

impl Entity for Tagged {
    fn prefix() -> &'static str {
        "tägged"
    }
}

#[test]
fn typed_parse_refuses_non_ascii_body() {
    // Thirteen two-byte characters: twenty-six bytes, none of them a symbol.
    let body = "ééééééééééééé";
    assert_eq!(body.len(), 26);
    assert_eq!(
        Id::<Canary>::parse(&format!("canary.{}", body)),
        Err(IdParseError::Unparseable)
    );
}

#[test]
fn typed_parse_is_prefix_then_untyped_parse() {
    for body in ["0000000000001q5nnvfqq7krfo", "0000000000001q5nnvfqq7krf", "xyz", ""] {
        let typed = Id::<Canary>::parse(&format!("canary.{}", body)).map(|id| id.untyped());
        assert_eq!(typed, UntypedId::parse(body));
    }
}

#[test]
fn non_ascii_prefix_round_trips() {
    let id = Id::<Tagged>::hashed("x");
    let s = id.to_string();
    assert!(s.starts_with("tägged."));
    assert_eq!(Id::<Tagged>::parse(&s), Ok(id));
}

#[test]
fn ids_hash_like_their_untyped_form() {
    let mut set = std::collections::HashSet::new();
    set.insert(Id::<Tagged>::hashed("a"));
    set.insert(Id::<Tagged>::hashed("a"));
    set.insert(Id::<Tagged>::hashed("b"));
    assert_eq!(set.len(), 2);
}
