use substratekitties::balances::Balances;
use substratekitties::genetics::generate_id;
use substratekitties::registry::Registry;
use substratekitties::types::{Error, Event, Hash256};

fn h(b: u8) -> Hash256 {
    Hash256::from_bytes(vec![b; 32]).unwrap()
}

#[test]
fn buy_moves_payment_ownership_and_resets_price() {
    // mint X to A (price 0, gen 0); A lists it at 100; B buys with a
    // ceiling of 150: 100 moves from B to A, X moves to B, X's price
    // resets to 0, A's count drops by one and B's rises by one.
    let mut r = Registry::new();
    let mut bal = Balances::new();
    let mut events: Vec<Event> = Vec::new();
    let a = 1u64;
    let b = 2u64;
    r.create_kitty(a, &h(11), &mut events).unwrap();
    let x = generate_id(&h(11), a, 0);
    assert_eq!(r.kitty(&x).unwrap().price, 0);
    assert_eq!(r.kitty(&x).unwrap().gen, 0);
    r.set_price(a, &x, 100, &mut events).unwrap();
    bal.deposit(b, 500).unwrap();
    bal.deposit(a, 50).unwrap();
    assert_eq!(r.buy_kitty(&mut bal, b, &x, 150, &mut events), Ok(()));
    assert_eq!(bal.free_balance(b), 400);
    assert_eq!(bal.free_balance(a), 150);
    assert_eq!(r.owner_of(&x), Some(b));
    assert_eq!(r.kitty(&x).unwrap().price, 0);
    assert_eq!(r.owned_kitty_count(a), 0);
    assert_eq!(r.owned_kitty_count(b), 1);
    assert_eq!(events.len(), 4);
    match &events[2] {
        Event::Transferred(from, to, moved) => {
            assert_eq!(*from, a);
            assert_eq!(*to, b);
            assert!(moved.eq_bytes(&x));
        }
        _ => panic!("expected a transferred notification"),
    }
    match &events[3] {
        Event::Bought(buyer, seller, bought, price) => {
            assert_eq!(*buyer, b);
            assert_eq!(*seller, a);
            assert!(bought.eq_bytes(&x));
            assert_eq!(*price, 100);
        }
        _ => panic!("expected a bought notification"),
    }
}

#[test]
fn buy_rejections() {
    let mut r = Registry::new();
    let mut bal = Balances::new();
    let mut events: Vec<Event> = Vec::new();
    r.create_kitty(1, &h(11), &mut events).unwrap();
    let x = generate_id(&h(11), 1, 0);
    bal.deposit(2, 10).unwrap();
    assert_eq!(
        r.buy_kitty(&mut bal, 2, &h(42), 100, &mut events),
        Err(Error::NotFound)
    );
    assert_eq!(
        r.buy_kitty(&mut bal, 1, &x, 100, &mut events),
        Err(Error::SelfPurchase)
    );
    assert_eq!(
        r.buy_kitty(&mut bal, 2, &x, 100, &mut events),
        Err(Error::NotForSale)
    );
    r.set_price(1, &x, 60, &mut events).unwrap();
    assert_eq!(
        r.buy_kitty(&mut bal, 2, &x, 50, &mut events),
        Err(Error::PriceTooHigh)
    );
    // ceiling is fine but the buyer holds only 10
    assert_eq!(
        r.buy_kitty(&mut bal, 2, &x, 60, &mut events),
        Err(Error::PaymentFailed)
    );
    assert_eq!(bal.free_balance(2), 10);
    assert_eq!(bal.free_balance(1), 0);
    assert_eq!(r.owner_of(&x), Some(1));
    assert_eq!(r.kitty(&x).unwrap().price, 60);
}

#[test]
fn ledger_transfers_and_limits() {
    let mut bal = Balances::new();
    assert_eq!(bal.free_balance(1), 0);
    bal.deposit(1, 100).unwrap();
    assert_eq!(bal.make_transfer(1, 2, 40), Ok(()));
    assert_eq!(bal.free_balance(1), 60);
    assert_eq!(bal.free_balance(2), 40);
    assert_eq!(bal.make_transfer(1, 2, 100), Err(Error::PaymentFailed));
    assert_eq!(bal.free_balance(1), 60);
    assert_eq!(bal.free_balance(2), 40);
    // moving funds to oneself only checks the balance
    assert_eq!(bal.make_transfer(1, 1, 60), Ok(()));
    assert_eq!(bal.free_balance(1), 60);
    assert_eq!(bal.make_transfer(1, 1, 61), Err(Error::PaymentFailed));
    // a transfer from an account that was never funded moves nothing
    assert_eq!(bal.make_transfer(9, 2, 0), Ok(()));
    assert_eq!(bal.free_balance(2), 40);
}

#[test]
fn ledger_deposit_overflow() {
    let mut bal = Balances::new();
    bal.deposit(3, u64::MAX).unwrap();
    assert_eq!(bal.deposit(3, 1), Err(Error::Overflow));
    assert_eq!(bal.free_balance(3), u64::MAX);
    // the receiving side of a transfer is bounded the same way
    bal.deposit(4, 1).unwrap();
    assert_eq!(bal.make_transfer(4, 3, 1), Err(Error::PaymentFailed));
    assert_eq!(bal.free_balance(3), u64::MAX);
    assert_eq!(bal.free_balance(4), 1);
}
