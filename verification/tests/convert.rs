//! Ticket codes, ballot numbers and jurisdiction conversions.

use nparty::ballot::parse_u8_b10;
use nparty::utils::{PrettifyNumber, StateAb, ToBallotNumber, ToStateAb, ToTicket};

#[test]
fn u8_b10_test() {
    assert_eq!(0, parse_u8_b10(b""));

    assert_eq!(0, parse_u8_b10(b"   "));

    assert_eq!(100, parse_u8_b10(b" 1 0 0"));

    for i in 0..255 {
        assert_eq!(i, parse_u8_b10(i.to_string().as_bytes()));
    }
}

#[test]
fn test_ballot_number_conversions() {
    assert_eq!("AE", 31.to_ticket());
    assert_eq!(31, "AE".to_number());
    assert_eq!("123 thousand", 123000.pretty_number());
}

#[test]
fn test_state_ab_conversions() {
    assert_eq!("ACT", StateAb::ACT.name());
    assert_eq!(StateAb::NSW, "nsw".to_state_ab());
    assert!(StateAb::from_bytes(b"this is not a state").is_none());
}

#[test]
fn ticket_round_trip() {
    for n in 1..1000u32 {
        assert_eq!(n, n.to_ticket().to_number());
    }
    assert_eq!("A", 1.to_ticket());
    assert_eq!("Z", 26.to_ticket());
    assert_eq!("AA", 27.to_ticket());
}

#[test]
fn pretty_number_scales() {
    assert_eq!("999", 999.pretty_number());
    assert_eq!("1 thousand", 1000.pretty_number());
    assert_eq!("2 million", 2_000_000.pretty_number());
    assert_eq!("3 billion", 3_000_000_000u32.pretty_number());
}
