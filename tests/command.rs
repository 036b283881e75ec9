use sacand::{parse_msg, parse_u32, Msg};

#[test]
fn parses_ok_plus0() {
    assert_eq!(parse_msg("+0"), Msg::Inc(0));
}

#[test]
fn parses_increment() {
    assert_eq!(parse_msg("+5"), Msg::Inc(5));
}

#[test]
fn parses_decrement() {
    assert_eq!(parse_msg("-3"), Msg::Dec(3));
}

#[test]
fn empty_message_is_nop() {
    assert_eq!(parse_msg(""), Msg::Nop);
}

#[test]
fn malformed_amount_is_zero() {
    assert_eq!(parse_msg("+abc"), Msg::Inc(0));
    assert_eq!(parse_msg("-abc"), Msg::Dec(0));
    assert_eq!(parse_msg("+"), Msg::Inc(0));
    assert_eq!(parse_msg("-"), Msg::Dec(0));
    assert_eq!(parse_msg("+5\n"), Msg::Inc(0));
    assert_eq!(parse_msg("--3"), Msg::Dec(0));
}

#[test]
fn other_first_character_is_nop() {
    assert_eq!(parse_msg("x"), Msg::Nop);
    assert_eq!(parse_msg("5"), Msg::Nop);
    assert_eq!(parse_msg(" +5"), Msg::Nop);
    assert_eq!(parse_msg("é+5"), Msg::Nop);
}

#[test]
fn amount_takes_one_plus_sign() {
    assert_eq!(parse_msg("++7"), Msg::Inc(7));
    assert_eq!(parse_msg("-+7"), Msg::Dec(7));
    assert_eq!(parse_msg("+++7"), Msg::Inc(0));
}

#[test]
fn amount_largest_and_overflow() {
    assert_eq!(parse_msg("+4294967295"), Msg::Inc(4294967295));
    assert_eq!(parse_msg("+4294967296"), Msg::Inc(0));
    assert_eq!(parse_msg("-0004294967295"), Msg::Dec(4294967295));
    assert_eq!(parse_msg("+99999999999"), Msg::Inc(0));
}

#[test]
fn parse_u32_agrees_with_std() {
    let cases = [
        "", "+", "-", "0", "+0", "-0", "12", "+12", "1a", "a1", "4294967295", "4294967296",
        "007", " 7", "7 ", "++1", "٣",
    ];
    for c in cases {
        assert_eq!(parse_u32(c), c.parse::<u32>().ok(), "{c:?}");
    }
}
