use batch_auction::auction::batch::{batch_ready, calculate_batch, BatchReport};
use batch_auction::auction::order::Order;
use batch_auction::price::Price;
use bigdecimal::{BigDecimal, FromPrimitive, ToPrimitive};
use rand::rngs::StdRng;
use rand::{Rng, SeedableRng};

fn random_order(rng: &mut StdRng, low: f32, high: f32) -> Order {
    let random_price: f32 = rng.gen_range(low..high);
    let random_qty: u32 = rng.gen_range(1..200);
    let (digits, scale) = BigDecimal::from_f32(random_price).unwrap().round(3).into_bigint_and_exponent();
    Order::new(Price::new(digits.to_i128().unwrap(), u8::try_from(scale).unwrap()), random_qty)
}

fn total(orders: &[Order]) -> u64 {
    orders.iter().map(|o| o.qty as u64).sum()
}

fn shape(orders: &[Order]) -> Vec<(i128, u8, u32, u64, bool)> {
    orders.iter().map(|o| (o.price.unscaled, o.price.scale, o.qty, o.seniority, o.cleared)).collect()
}

fn check_batch(bids_before: &[Order], asks_before: &[Order]) -> (Vec<Order>, Vec<Order>) {
    assert!(batch_ready(bids_before, asks_before));
    let (mut bids, mut asks) = (bids_before.to_vec(), asks_before.to_vec());
    let report = calculate_batch(&mut bids, &mut asks);
    // the book is left in priority order, and nothing in it is marked
    assert!(bids.windows(2).all(|w| !w[0].price.is_below(&w[1].price)));
    assert!(asks.windows(2).all(|w| !w[0].price.is_above(&w[1].price)));
    assert!(bids.iter().chain(asks.iter()).all(|o| !o.cleared && o.qty > 0));
    match &report {
        BatchReport::NoTrade => {
            assert_eq!(bids.len(), bids_before.len());
            assert_eq!(asks.len(), asks_before.len());
            assert!(bids.is_empty() || asks.is_empty() || bids[0].price.is_below(&asks[0].price));
        },
        BatchReport::Trade { price, qty, cleared_bids, cleared_asks } => {
            assert!(*qty > 0);
            // volume
            assert_eq!(total(bids_before) - total(&bids), *qty as u64);
            assert_eq!(total(asks_before) - total(&asks), *qty as u64);
            assert!(total(cleared_bids) <= *qty as u64 && total(cleared_asks) <= *qty as u64);
            assert_eq!(bids.len() + cleared_bids.len(), bids_before.len());
            assert_eq!(asks.len() + cleared_asks.len(), asks_before.len());
            // prices
            assert!(cleared_bids.iter().all(|o| o.cleared && !o.price.is_below(price)));
            assert!(cleared_asks.iter().all(|o| o.cleared && !o.price.is_above(price)));
            // priority
            let bids_out = bids.iter().all(|o| o.price.is_below(price));
            let asks_out = asks.iter().all(|o| o.price.is_above(price));
            assert!(bids_out || asks_out);
            // the price is written in lowest terms
            assert!(price.scale == 0 || price.unscaled % 10 != 0);
        },
    }
    // the same book gives the same batch
    let (mut bids_again, mut asks_again) = (bids_before.to_vec(), asks_before.to_vec());
    let again = calculate_batch(&mut bids_again, &mut asks_again);
    assert_eq!(shape(&bids), shape(&bids_again));
    assert_eq!(shape(&asks), shape(&asks_again));
    match (&report, &again) {
        (BatchReport::NoTrade, BatchReport::NoTrade) => {},
        (
            BatchReport::Trade { price, qty, cleared_bids, cleared_asks },
            BatchReport::Trade { price: p2, qty: q2, cleared_bids: cb2, cleared_asks: ca2 },
        ) => {
            assert_eq!((price.unscaled, price.scale, *qty), (p2.unscaled, p2.scale, *q2));
            assert_eq!(shape(cleared_bids), shape(cb2));
            assert_eq!(shape(cleared_asks), shape(ca2));
        },
        _ => panic!(),
    }
    (bids, asks)
}

#[test]
fn batch() {
    let mut rng = StdRng::seed_from_u64(20);
    let mut bids: Vec<Order> = vec![];
    let mut asks: Vec<Order> = vec![];
    // pretty heterogeneous data
    for _ in 0..400 {
        let order = random_order(&mut rng, 140.0, 150.0);
        bids.push(order.clone());
        asks.push(order.clone());
    }
    let (bids, asks) = check_batch(&bids, &asks);
    assert!(bids.iter().chain(asks.iter()).all(|o| o.seniority == 1));
    // once cleared, the book does not cross
    let (bids, asks) = check_batch(&bids, &asks);
    assert!(bids.iter().chain(asks.iter()).all(|o| o.seniority == 2));
}

#[test]
fn random_books_keep_the_guarantees() {
    let mut rng = StdRng::seed_from_u64(7);
    for round in 0..60 {
        let mut bids: Vec<Order> = vec![];
        let mut asks: Vec<Order> = vec![];
        for _ in 0..rng.gen_range(0..40) {
            bids.push(random_order(&mut rng, 95.0, 105.0 + round as f32 / 10.0));
        }
        for _ in 0..rng.gen_range(0..40) {
            asks.push(random_order(&mut rng, 100.0 - round as f32 / 10.0, 110.0));
        }
        let (mut bids, mut asks) = check_batch(&bids, &asks);
        for batch in 2..5u64 {
            for _ in 0..rng.gen_range(0..10) {
                bids.push(random_order(&mut rng, 95.0, 105.0));
                asks.push(random_order(&mut rng, 100.0, 110.0));
            }
            let (b, a) = check_batch(&bids, &asks);
            assert!(b.iter().chain(a.iter()).all(|o| 1 <= o.seniority && o.seniority <= batch));
            bids = b;
            asks = a;
        }
    }
}
