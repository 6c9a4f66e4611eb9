use layout::direction::Direction;
use layout::identifier::Identifier;
use layout::length::Length;
use layout::text::ParseError;
use Direction::{Horizontal, Vertical};
use Length::{Absolute, AtLeast, AtMost, Relative};

fn gadget(s: &str) -> Identifier {
    Identifier::Gadget(s.to_string())
}

fn container(s: &str) -> Identifier {
    Identifier::Container(s.to_string())
}

#[test]
fn identifier_identifier_set() {
    let container_identifiers = ["TopArea", "Something", "Uppercase"];
    let gadget_identifiers = ["searchbar", "something", "lowercase", "_Started", "_starts"];

    for name in container_identifiers {
        assert_eq!(container(name), Identifier::parse(name.to_string()).unwrap());
    }

    for name in gadget_identifiers {
        assert_eq!(gadget(name), Identifier::parse(name.to_string()).unwrap());
    }
}

#[test]
fn identifier_serialization_and_deserialization() {
    let from_str = |s: &str| Identifier::parse(s.to_string());
    let to_string = |v: Identifier| v.as_str().to_string();

    assert_eq!(gadget("cUstom"), from_str("cUstom").unwrap());
    assert_eq!(gadget("a_name"), from_str("a_name").unwrap());
    for name in ["TopArea", "Constainer", "Apple"] {
        assert_eq!(container(name), from_str(name).unwrap());
        assert_eq!(name.to_string(), to_string(gadget(name)));
    }

    assert_eq!("cUstom", to_string(container("cUstom")));
    assert_eq!("my_Name", to_string(container("my_Name")));
    assert_eq!("cUst0m@", to_string(container("cUst0m@")));
}

#[test]
fn identifier_empty_is_rejected() {
    assert!(matches!(Identifier::parse(String::new()), Err(ParseError::Empty)));
}

#[test]
fn identifier_unicode_capital_makes_a_container() {
    assert_eq!(container("Éclair"), Identifier::parse("Éclair".to_string()).unwrap());
    assert_eq!(gadget("ébène"), Identifier::parse("ébène".to_string()).unwrap());
    assert_eq!(gadget("9lives"), Identifier::parse("9lives".to_string()).unwrap());
}

#[test]
fn identifier_kinds() {
    assert!(container("Top").is_container());
    assert!(!container("Top").is_gadget());
    assert!(gadget("gauge").is_gadget());
    assert!(!gadget("gauge").is_container());
    assert_ne!(container("gauge"), gadget("gauge"));
}

#[test]
fn gadget_instance_names_parent_and_gadget() {
    let inst = Identifier::gadget_instance(&container("MidArea"), &gadget("shortcuts"));
    assert_eq!(gadget("MidArea->shortcuts"), inst);
}

#[test]
fn length_serialization_and_deserialization() {
    let from_str = |s: &str| Length::parse(s);
    let to_string = |v: Length| v.to_code();

    assert_eq!(Absolute(0), from_str("0a").unwrap());
    assert_eq!(Relative(10), from_str("10%").unwrap());
    assert_eq!(AtLeast(30), from_str("30l").unwrap());
    assert_eq!(AtMost(50), from_str("50m").unwrap());
    assert!(from_str(" 10u").is_err());
    assert!(from_str("10 u").is_err());
    assert!(from_str("100u ").is_err());
    assert!(from_str("u").is_err());
    assert!(from_str("100").is_err());
    assert!(from_str("100p").is_err());

    assert_eq!("10a", to_string(Absolute(10)));
    assert_eq!("50%", to_string(Relative(50)));
    assert_eq!("20m", to_string(AtMost(20)));
    assert_eq!("30l", to_string(AtLeast(30)));
}

#[test]
fn length_fill_and_limits() {
    assert_eq!(Length::Fill, Length::parse("0f").unwrap());
    assert_eq!("0f", Length::Fill.to_code());
    assert_eq!(Length::Absolute(65535), Length::parse("65535a").unwrap());
    assert_eq!("65535a", Length::Absolute(65535).to_code());
    assert_eq!("0%", Length::Relative(0).to_code());
    assert_eq!("1234m", Length::AtMost(1234).to_code());
}

#[test]
fn length_parse_errors_carry_the_literal() {
    assert!(matches!(Length::parse(""), Err(ParseError::Empty)));
    match Length::parse("65536a") {
        Err(ParseError::InvalidValue(lit)) => assert_eq!("65536a", lit),
        other => panic!("unexpected {other:?}"),
    }
    match Length::parse("10 u") {
        Err(ParseError::InvalidValue(lit)) => assert_eq!("10 u", lit),
        other => panic!("unexpected {other:?}"),
    }
    match Length::parse("100p") {
        Err(ParseError::InvalidUnit(lit)) => assert_eq!("100p", lit),
        other => panic!("unexpected {other:?}"),
    }
}

#[test]
fn direction_serialization_and_deserialization() {
    let from_str = |s: &str| Direction::parse(s);
    let to_string = |v: Direction| v.as_str().to_string();

    assert_eq!(Vertical, from_str("vertical").unwrap());
    assert_eq!(Horizontal, from_str("horizontal").unwrap());
    assert!(from_str("Horizontal").is_err());
    assert!(from_str("verTical").is_err());
    assert!(from_str(" vertical").is_err());

    assert_eq!("vertical", to_string(Vertical));
    assert_eq!("horizontal", to_string(Horizontal));
}

#[test]
fn direction_error_carries_the_literal() {
    match Direction::parse("diagonal") {
        Err(ParseError::InvalidDirection(lit)) => assert_eq!("diagonal", lit),
        other => panic!("unexpected {other:?}"),
    }
}
