use orderbook::command::{parse_instruction, read_in_quantity_and_price, Instruction, ParseError};
use orderbook::OrderType;

fn order(side: OrderType, quantity: i32, price: Option<i32>) -> Result<Instruction, ParseError> {
    Ok(Instruction::Order { side, quantity, price })
}

#[test]
fn parses_market_and_limit_instructions() {
    assert_eq!(parse_instruction(b"BUY 5"), order(OrderType::BUY, 5, None));
    assert_eq!(parse_instruction(b"SELL 4 8"), order(OrderType::SELL, 4, Some(8)));
    assert_eq!(parse_instruction(b"  BUY\t10   14 \n"), order(OrderType::BUY, 10, Some(14)));
    assert_eq!(parse_instruction(b"BUY +7 +9"), order(OrderType::BUY, 7, Some(9)));
}

#[test]
fn parses_exit() {
    assert_eq!(parse_instruction(b"EXIT"), Ok(Instruction::Exit));
    assert_eq!(parse_instruction(b"EXIT 5 6\n"), Ok(Instruction::Exit));
}

#[test]
fn words_after_price_are_ignored() {
    assert_eq!(parse_instruction(b"SELL 2 3 extra"), order(OrderType::SELL, 2, Some(3)));
}

#[test]
fn rejects_missing_or_unknown_verb() {
    assert_eq!(parse_instruction(b""), Err(ParseError::NoCommand));
    assert_eq!(parse_instruction(b"   \n"), Err(ParseError::NoCommand));
    assert_eq!(parse_instruction(b"HOLD 5"), Err(ParseError::UnknownCommand));
    assert_eq!(parse_instruction(b"buy 5"), Err(ParseError::UnknownCommand));
    assert_eq!(parse_instruction(b"BUYS 5"), Err(ParseError::UnknownCommand));
}

#[test]
fn rejects_bad_quantity() {
    assert_eq!(parse_instruction(b"BUY"), Err(ParseError::NoQuantity));
    assert_eq!(parse_instruction(b"BUY x"), Err(ParseError::InvalidQuantity));
    assert_eq!(parse_instruction(b"BUY 5x 3"), Err(ParseError::InvalidQuantity));
    assert_eq!(parse_instruction(b"BUY -"), Err(ParseError::InvalidQuantity));
    assert_eq!(parse_instruction(b"BUY 0"), Err(ParseError::NonPositiveQuantity));
    assert_eq!(parse_instruction(b"SELL -3 4"), Err(ParseError::NonPositiveQuantity));
}

#[test]
fn rejects_bad_price() {
    assert_eq!(parse_instruction(b"BUY 5 abc"), Err(ParseError::InvalidPrice));
    assert_eq!(parse_instruction(b"BUY 5 0"), Err(ParseError::NonPositivePrice));
    assert_eq!(parse_instruction(b"SELL 5 -8"), Err(ParseError::NonPositivePrice));
}

#[test]
fn quantity_range_is_that_of_i32() {
    assert_eq!(parse_instruction(b"BUY 2147483647"), order(OrderType::BUY, 2147483647, None));
    assert_eq!(parse_instruction(b"BUY 2147483648"), Err(ParseError::InvalidQuantity));
    assert_eq!(parse_instruction(b"BUY 99999999999999999999"), Err(ParseError::InvalidQuantity));
    assert_eq!(parse_instruction(b"BUY -2147483648"), Err(ParseError::NonPositiveQuantity));
    assert_eq!(parse_instruction(b"BUY -2147483649"), Err(ParseError::InvalidQuantity));
    assert_eq!(parse_instruction(b"BUY 0007 0012"), order(OrderType::BUY, 7, Some(12)));
}

#[test]
fn reads_quantity_and_price_after_index() {
    let line = b"SELL 12 30";
    assert_eq!(read_in_quantity_and_price(line, 4), Ok((12, Some(30))));
    assert_eq!(read_in_quantity_and_price(line, 7), Ok((30, None)));
    assert_eq!(read_in_quantity_and_price(line, 10), Err(ParseError::NoQuantity));
}
