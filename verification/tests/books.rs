use batch_auction::auction::batch::BatchReport;
use batch_auction::auction::order::Order;
use batch_auction::book::{cancel_order, DoubleSidedBook};
use batch_auction::command::{parse_command, Command, CommandType, OrderType};
use batch_auction::price::Price;

fn shape(orders: &[Order]) -> Vec<(i128, u8, u32, u64)> {
    orders.iter().map(|o| (o.price.unscaled, o.price.scale, o.qty, o.seniority)).collect()
}

fn command(command_type: CommandType, order_type: OrderType, price: i128, scale: u8, qty: u32) -> Command {
    Command { command_type, order_type, price: Price::new(price, scale), qty }
}

#[test]
fn a_new_book_is_empty() {
    let book = DoubleSidedBook::new();
    assert!(book.bids.is_empty() && book.asks.is_empty());
}

#[test]
fn an_add_puts_a_new_order_at_the_end_of_its_side() {
    let mut book = DoubleSidedBook::new();
    book.apply(&command(CommandType::Add, OrderType::Buy, 105, 1, 3));
    book.apply(&command(CommandType::Add, OrderType::Sell, 11, 0, 4));
    book.apply(&command(CommandType::Add, OrderType::Buy, 12, 0, 5));
    assert_eq!(shape(&book.bids), vec![(105, 1, 3, 0), (12, 0, 5, 0)]);
    assert_eq!(shape(&book.asks), vec![(11, 0, 4, 0)]);
    assert!(book.bids.iter().chain(book.asks.iter()).all(|o| !o.cleared));
}

#[test]
fn a_cancel_takes_the_oldest_order_it_speaks_of() {
    let order = |qty, seniority| Order { qty, price: Price::new(10, 0), seniority, cleared: false };
    let mut asks = vec![order(3, 1), order(4, 9), order(3, 5), order(3, 5), Order::new(Price::new(100, 1), 3)];
    asks[3].price = Price::new(1000, 2);
    let removed = cancel_order(&mut asks, &Price::new(10, 0), 3).unwrap();
    assert_eq!((removed.price.scale, removed.seniority), (0, 5));
    assert_eq!(shape(&asks), vec![(10, 0, 3, 1), (10, 0, 4, 9), (1000, 2, 3, 5), (100, 1, 3, 0)]);
    let removed = cancel_order(&mut asks, &Price::new(10, 0), 3).unwrap();
    assert_eq!((removed.price.scale, removed.seniority), (2, 5));
    let removed = cancel_order(&mut asks, &Price::new(10, 0), 3).unwrap();
    assert_eq!(removed.seniority, 1);
    let removed = cancel_order(&mut asks, &Price::new(10, 0), 3).unwrap();
    assert_eq!(removed.seniority, 0);
    assert_eq!(shape(&asks), vec![(10, 0, 4, 9)]);
}

#[test]
fn a_cancel_of_no_order_changes_nothing() {
    let mut book = DoubleSidedBook::new();
    book.apply(&command(CommandType::Add, OrderType::Buy, 10, 0, 3));
    book.apply(&command(CommandType::Add, OrderType::Sell, 11, 0, 3));
    book.apply(&command(CommandType::Cancel, OrderType::Buy, 10, 0, 4));
    book.apply(&command(CommandType::Cancel, OrderType::Buy, 11, 0, 3));
    book.apply(&command(CommandType::Cancel, OrderType::Sell, 10, 0, 3));
    assert_eq!(shape(&book.bids), vec![(10, 0, 3, 0)]);
    assert_eq!(shape(&book.asks), vec![(11, 0, 3, 0)]);
    book.apply(&command(CommandType::Cancel, OrderType::Sell, 1100, 2, 3));
    book.apply(&command(CommandType::Cancel, OrderType::Buy, 100, 1, 3));
    assert!(book.bids.is_empty() && book.asks.is_empty());
    let mut none: Vec<Order> = vec![];
    assert!(cancel_order(&mut none, &Price::new(1, 0), 1).is_none());
}

#[test]
fn lines_fill_the_book_and_a_batch_clears_it() {
    let mut book = DoubleSidedBook::new();
    let lines: [&[u8]; 9] = [
        b"ADD,BUY,112,2\n",
        b"ADD,BUY,111.76,21\n",
        b"ADD,BUY,111.45,200\n",
        b"ADD,BUY,111.35,100\n",
        b"ADD,SELL,110,2\n",
        b"ADD,SELL,111.32,21\n",
        b"ADD,SELL,111.45,100\n",
        b"ADD,SELL,112.35,100\n",
        b"CANCEL,BUY,111.350,100\n",
    ];
    for line in lines {
        book.apply(&parse_command(line).unwrap());
    }
    assert_eq!(book.bids.len(), 3);
    match book.run_batch() {
        Some(BatchReport::Trade { price, qty, cleared_bids, cleared_asks }) => {
            assert_eq!(price, Price::new(11145, 2));
            assert_eq!(qty, 123);
            assert_eq!(cleared_bids.len(), 2);
            assert_eq!(cleared_asks.len(), 3);
        },
        _ => panic!(),
    }
    assert_eq!(shape(&book.bids), vec![(11145, 2, 100, 1)]);
    assert_eq!(shape(&book.asks), vec![(11235, 2, 100, 1)]);
    assert!(matches!(book.run_batch(), Some(BatchReport::NoTrade)));
    assert_eq!(shape(&book.bids), vec![(11145, 2, 100, 2)]);
}

#[test]
fn a_book_beyond_the_limits_is_left_alone() {
    let mut book = DoubleSidedBook::new();
    book.apply(&command(CommandType::Add, OrderType::Buy, 10, 0, u32::MAX));
    book.apply(&command(CommandType::Add, OrderType::Buy, 11, 0, 1));
    book.apply(&command(CommandType::Add, OrderType::Sell, 9, 0, 1));
    assert!(book.run_batch().is_none());
    assert_eq!(shape(&book.bids), vec![(10, 0, u32::MAX, 0), (11, 0, 1, 0)]);
    assert_eq!(shape(&book.asks), vec![(9, 0, 1, 0)]);
    book.apply(&command(CommandType::Cancel, OrderType::Buy, 11, 0, 1));
    assert!(matches!(book.run_batch(), Some(BatchReport::Trade { qty: 1, .. })));
    let mut book = DoubleSidedBook::new();
    book.apply(&command(CommandType::Add, OrderType::Sell, 1, 18, 1));
    assert!(book.run_batch().is_none());
}
