use batch_auction::price::Price;
use batch_auction::command::{
    find_comma, parse_command, price_from_hundredths, read_command_type, read_order_type, read_price,
    read_quantity, trim, Command, CommandError, CommandType, OrderType,
};

fn parts(c: Command) -> (bool, bool, i128, u8, u32) {
    (
        matches!(c.command_type, CommandType::Add),
        matches!(c.order_type, OrderType::Buy),
        c.price.unscaled,
        c.price.scale,
        c.qty,
    )
}

#[test]
fn a_line_is_read_as_a_command() {
    assert_eq!(parts(parse_command(b"ADD,BUY,111.45,200\n").unwrap()), (true, true, 11145, 2, 200));
    assert_eq!(parts(parse_command(b"CANCEL,SELL,110,2").unwrap()), (false, false, 11000, 2, 2));
    assert_eq!(parts(parse_command(b"ADD,SELL,-0.5,1\r\n").unwrap()), (true, false, -50, 2, 1));
    assert_eq!(parts(parse_command(b"CANCEL,BUY,7.,4294967295").unwrap()), (false, true, 700, 2, u32::MAX));
    assert_eq!(parts(parse_command(b"ADD,BUY,.5,+7").unwrap()), (true, true, 50, 2, 7));
    // what follows the fourth field is not looked at
    assert_eq!(parts(parse_command(b"ADD,BUY,1.5,10,rest,of,line").unwrap()), (true, true, 150, 2, 10));
    assert_eq!(parts(parse_command(b"ADD,BUY,1.5, \t12 \n").unwrap()), (true, true, 150, 2, 12));
}

#[test]
fn a_price_is_rounded_to_hundredths_half_to_even() {
    let hundredths = |text: &[u8]| read_price(text).unwrap().unscaled;
    assert_eq!(hundredths(b"111.454"), 11145);
    assert_eq!(hundredths(b"111.456"), 11146);
    assert_eq!(hundredths(b"1.005"), 100);
    assert_eq!(hundredths(b"1.015"), 102);
    assert_eq!(hundredths(b"1.025"), 102);
    assert_eq!(hundredths(b"1.0250001"), 103);
    assert_eq!(hundredths(b"-1.015"), -102);
    assert_eq!(hundredths(b"2.675"), 268);
    assert_eq!(hundredths(b"0.004"), 0);
    assert_eq!(hundredths(b"3"), 300);
    assert_eq!(read_price(b"3").unwrap().scale, 2);
}

#[test]
fn a_price_must_fit_the_book() {
    assert_eq!(read_price(b"92233720368547758.07").unwrap().unscaled, i64::MAX as i128);
    assert!(read_price(b"92233720368547758.08").is_none());
    assert_eq!(read_price(b"-92233720368547758.08").unwrap().unscaled, i64::MIN as i128);
    assert!(read_price(b"-92233720368547758.09").is_none());
    assert!(read_price(b"123456789012345678901234567890123456789012345678901234567890").is_none());
    assert!(read_price(b"1e2").is_none());
    assert!(read_price(b"1E-2").is_none());
    assert!(read_price(b"").is_none());
    assert!(read_price(b"abc").is_none());
    assert!(read_price(b" 1.5").is_none());
    assert!(read_price(b"1.5\n").is_none());
    assert!(read_price(&[0xff, 0x31]).is_none());
    assert!(price_from_hundredths(None).is_none());
    assert!(price_from_hundredths(Some(i64::MAX as i128 + 1)).is_none());
    let p = price_from_hundredths(Some(-250)).unwrap();
    assert_eq!((p.unscaled, p.scale), (-250, 2));
}

#[test]
fn each_fault_of_a_line_has_its_error() {
    let fault = |line: &[u8]| parse_command(line).unwrap_err();
    assert!(matches!(fault(b""), CommandError::UnknownCommand));
    assert!(matches!(fault(b"add,BUY,1,1"), CommandError::UnknownCommand));
    assert!(matches!(fault(b"ADD ,BUY,1,1"), CommandError::UnknownCommand));
    assert!(matches!(fault(b"ADDX"), CommandError::UnknownCommand));
    assert!(matches!(fault(b"ADD"), CommandError::MissingField));
    assert!(matches!(fault(b"CANCEL"), CommandError::MissingField));
    assert!(matches!(fault(b"ADD,"), CommandError::UnknownOrderType));
    assert!(matches!(fault(b"ADD,HOLD,1,1"), CommandError::UnknownOrderType));
    assert!(matches!(fault(b"ADD,buy,1,1"), CommandError::UnknownOrderType));
    assert!(matches!(fault(b"ADD,BUY"), CommandError::MissingField));
    assert!(matches!(fault(b"ADD,SELL,"), CommandError::BadPrice));
    assert!(matches!(fault(b"ADD,BUY,abc,1"), CommandError::BadPrice));
    assert!(matches!(fault(b"ADD,BUY,1e2,1"), CommandError::BadPrice));
    assert!(matches!(fault(b"ADD,BUY,,1"), CommandError::BadPrice));
    assert!(matches!(fault(b"ADD,BUY,1.5"), CommandError::MissingField));
    assert!(matches!(fault(b"ADD,BUY,1.5,"), CommandError::BadQuantity));
    assert!(matches!(fault(b"ADD,BUY,1.5,0"), CommandError::BadQuantity));
    assert!(matches!(fault(b"ADD,BUY,1.5,000"), CommandError::BadQuantity));
    assert!(matches!(fault(b"ADD,BUY,1.5,-7"), CommandError::BadQuantity));
    assert!(matches!(fault(b"ADD,BUY,1.5,+"), CommandError::BadQuantity));
    assert!(matches!(fault(b"ADD,BUY,1.5,1 2"), CommandError::BadQuantity));
    assert!(matches!(fault(b"ADD,BUY,1.5,1.0"), CommandError::BadQuantity));
    assert!(matches!(fault(b"ADD,BUY,1.5,4294967296"), CommandError::BadQuantity));
    assert!(matches!(fault(b"ADD,BUY,1.5,99999999999999999999999999"), CommandError::BadQuantity));
    assert!(matches!(fault(b"ADD,BUY,1.5,\n"), CommandError::BadQuantity));
    // the first fault from the left counts
    assert!(matches!(fault(b"DROP,HOLD,x,y"), CommandError::UnknownCommand));
    assert!(matches!(fault(b"ADD,HOLD,x,y"), CommandError::UnknownOrderType));
    assert!(matches!(fault(b"ADD,BUY,x,y"), CommandError::BadPrice));
}

#[test]
fn the_parts_of_a_line() {
    assert_eq!(find_comma(b"ADD,BUY", 0), 3);
    assert_eq!(find_comma(b"ADD,BUY", 3), 3);
    assert_eq!(find_comma(b"ADD,BUY", 4), 7);
    assert_eq!(find_comma(b"ADD,BUY", 7), 7);
    assert_eq!(find_comma(b"", 0), 0);
    assert!(matches!(read_command_type(b"ADD"), Some(CommandType::Add)));
    assert!(matches!(read_command_type(b"CANCEL"), Some(CommandType::Cancel)));
    assert!(read_command_type(b"CANCEl").is_none());
    assert!(read_command_type(b"AD").is_none());
    assert!(matches!(read_order_type(b"BUY"), Some(OrderType::Buy)));
    assert!(matches!(read_order_type(b"SELL"), Some(OrderType::Sell)));
    assert!(read_order_type(b"SELL ").is_none());
    assert_eq!(trim(b"  12\t\r\n"), b"12");
    assert_eq!(trim(b"1 2"), b"1 2");
    assert_eq!(trim(b" \n "), b"");
    assert_eq!(trim(b""), b"");
    assert_eq!(trim(b"\x0b\x0cx\x0b"), b"x");
    assert_eq!(read_quantity(b"0042"), Some(42));
    assert_eq!(read_quantity(b"+4294967295"), Some(u32::MAX));
    assert_eq!(read_quantity(b"4294967296"), None);
    assert_eq!(read_quantity(b"++1"), None);
    assert_eq!(read_quantity(b""), None);
}

#[test]
fn commands_are_equal_by_what_they_say() {
    let command = parse_command(b"ADD,BUY,7.5,3").unwrap();
    assert_eq!(
        command,
        Command { command_type: CommandType::Add, order_type: OrderType::Buy, price: Price::new(75, 1), qty: 3 }
    );
    assert_eq!(parse_command(b"ADD,BUY,7.5"), Err(CommandError::MissingField));
}
