use spot_exchange::engine::balance::{AssetBalance, AssetCode, Balances, UserBalance};
use spot_exchange::engine::error::EngineError;
use spot_exchange::engine::orderbook::{Order, OrderBook, Side};

fn ask(id: u128, user_id: u128, price: u64, quantity: u64) -> Order {
    Order { id, user_id, side: Side::Ask, price, quantity }
}

fn bid(id: u128, user_id: u128, price: u64, quantity: u64) -> Order {
    Order { id, user_id, side: Side::Bid, price, quantity }
}

#[test]
fn ledger_starts_empty() {
    let ledger = Balances::new();
    assert!(!ledger.contains(1));
    assert_eq!(ledger.get(1), None);
}

#[test]
fn ledger_opens_an_account_once() {
    let mut ledger = Balances::new();
    assert!(ledger.open_account(1));
    assert_eq!(ledger.deposit(1, AssetCode::Usdc, 10), Ok(()));
    assert!(!ledger.open_account(1));
    assert_eq!(ledger.get(1).unwrap().usdc, AssetBalance { available: 10, locked: 0 });
}

#[test]
fn ledger_locks_and_unlocks() {
    let mut ledger = Balances::new();
    assert!(ledger.open_account(1));
    assert_eq!(ledger.deposit(1, AssetCode::Btc, 100), Ok(()));
    assert_eq!(ledger.lock(1, AssetCode::Btc, 101), Err(EngineError::InsufficientFunds));
    assert_eq!(ledger.lock(2, AssetCode::Btc, 1), Err(EngineError::UnknownUser));
    assert_eq!(ledger.lock(1, AssetCode::Btc, 60), Ok(()));
    assert_eq!(ledger.get(1).unwrap().btc, AssetBalance { available: 40, locked: 60 });
    ledger.unlock(1, AssetCode::Btc, 25);
    assert_eq!(ledger.get(1).unwrap().btc, AssetBalance { available: 65, locked: 35 });
    assert_eq!(ledger.get(1).unwrap().usdc, AssetBalance { available: 0, locked: 0 });
}

#[test]
fn ledger_transfers_locked_funds() {
    let mut ledger = Balances::new();
    assert!(ledger.open_account(1));
    assert!(ledger.open_account(2));
    assert_eq!(ledger.deposit(1, AssetCode::Usdc, 100), Ok(()));
    assert_eq!(ledger.lock(1, AssetCode::Usdc, 70), Ok(()));
    ledger.transfer(1, 2, AssetCode::Usdc, 30);
    assert_eq!(ledger.get(1).unwrap().usdc, AssetBalance { available: 30, locked: 40 });
    assert_eq!(ledger.get(2).unwrap().usdc, AssetBalance { available: 30, locked: 0 });
    ledger.transfer(1, 1, AssetCode::Usdc, 40);
    assert_eq!(ledger.get(1).unwrap().usdc, AssetBalance { available: 70, locked: 0 });
}

#[test]
fn ledger_refuses_deposits_beyond_64_bits() {
    let mut ledger = Balances::new();
    assert!(ledger.open_account(1));
    assert!(ledger.open_account(2));
    assert_eq!(ledger.deposit(3, AssetCode::Btc, 1), Err(EngineError::UnknownUser));
    assert_eq!(ledger.deposit(1, AssetCode::Btc, u64::MAX), Ok(()));
    assert_eq!(ledger.deposit(1, AssetCode::Btc, 1), Err(EngineError::Overflow));
    assert_eq!(ledger.deposit(1, AssetCode::Btc, 0), Ok(()));
    assert_eq!(ledger.deposit(2, AssetCode::Btc, 1), Ok(()));
    assert_eq!(ledger.get(1).unwrap().btc, AssetBalance { available: u64::MAX, locked: 0 });
    assert_eq!(ledger.get(2).unwrap().btc, AssetBalance { available: 1, locked: 0 });
    assert_eq!(ledger.get(1).unwrap().usdc, AssetBalance { available: 0, locked: 0 });
}

#[test]
fn ledger_refuses_locks_beyond_64_bits() {
    let mut ledger = Balances::new();
    assert!(ledger.open_account(1));
    assert_eq!(ledger.deposit(1, AssetCode::Usdc, u64::MAX), Ok(()));
    assert_eq!(ledger.lock(1, AssetCode::Usdc, u64::MAX), Ok(()));
    assert_eq!(ledger.deposit(1, AssetCode::Usdc, 5), Ok(()));
    assert_eq!(ledger.lock(1, AssetCode::Usdc, 1), Err(EngineError::Overflow));
    assert_eq!(ledger.lock(1, AssetCode::Usdc, 6), Err(EngineError::InsufficientFunds));
    assert_eq!(ledger.lock(1, AssetCode::Usdc, 0), Ok(()));
    assert_eq!(ledger.get(1).unwrap().usdc, AssetBalance { available: 5, locked: u64::MAX });
}

#[test]
fn book_takes_back_a_fill() {
    let mut book = OrderBook::new();
    book.add_order(ask(1, 7, 100, 5));
    book.add_order(ask(2, 8, 100, 6));
    // a fill of a part is taken back in place
    assert_eq!(book.fill_front(Side::Ask, 100, 2), ask(1, 7, 100, 5));
    book.restore_front(ask(1, 7, 100, 5), true);
    assert_eq!(book.front(Side::Ask, 100), Some(ask(1, 7, 100, 5)));
    assert_eq!(book.orders_of(7), vec![ask(1, 7, 100, 5)]);
    assert_eq!(book.orders_of(8), vec![ask(2, 8, 100, 6)]);
    // a fill of the whole is taken back before the next order
    assert_eq!(book.fill_front(Side::Ask, 100, 5), ask(1, 7, 100, 5));
    assert_eq!(book.front(Side::Ask, 100), Some(ask(2, 8, 100, 6)));
    book.restore_front(ask(1, 7, 100, 5), false);
    assert_eq!(book.front(Side::Ask, 100), Some(ask(1, 7, 100, 5)));
    assert_eq!(book.fill_front(Side::Ask, 100, 5), ask(1, 7, 100, 5));
    assert_eq!(book.fill_front(Side::Ask, 100, 6), ask(2, 8, 100, 6));
    // and so is the fill that emptied the queue
    assert_eq!(book.best_price(Side::Ask), None);
    book.restore_front(ask(2, 8, 100, 6), false);
    assert_eq!(book.best_price(Side::Ask), Some(100));
    assert_eq!(book.orders_of(8), vec![ask(2, 8, 100, 6)]);
    assert_eq!(book.best_price(Side::Bid), None);
}

#[test]
fn account_holds_one_balance_for_each_asset() {
    let mut account = UserBalance::new();
    account.set(AssetCode::Usdc, AssetBalance { available: 3, locked: 4 });
    assert_eq!(account.get(AssetCode::Usdc), AssetBalance { available: 3, locked: 4 });
    assert_eq!(account.get(AssetCode::Btc), AssetBalance { available: 0, locked: 0 });
    account.set(AssetCode::Btc, AssetBalance { available: 1, locked: 2 });
    assert_eq!(account.btc, AssetBalance { available: 1, locked: 2 });
    assert_eq!(account.usdc, AssetBalance { available: 3, locked: 4 });
}

#[test]
fn sides_are_opposite() {
    assert_eq!(Side::Ask.other(), Side::Bid);
    assert_eq!(Side::Bid.other(), Side::Ask);
}

#[test]
fn book_starts_empty() {
    let book = OrderBook::new();
    assert_eq!(book.best_price(Side::Ask), None);
    assert_eq!(book.best_price(Side::Bid), None);
    assert_eq!(book.front(Side::Ask, 5), None);
    assert_eq!(book.find(Side::Bid, 5, 1), None);
    assert!(book.orders_of(1).is_empty());
}

#[test]
fn book_knows_its_best_prices() {
    let mut book = OrderBook::new();
    book.add_order(ask(1, 7, 120, 5));
    book.add_order(ask(2, 7, 110, 5));
    book.add_order(ask(3, 7, 130, 5));
    book.add_order(bid(4, 8, 90, 5));
    book.add_order(bid(5, 8, 100, 5));
    book.add_order(bid(6, 8, 80, 5));
    assert_eq!(book.best_price(Side::Ask), Some(110));
    assert_eq!(book.best_price(Side::Bid), Some(100));
    assert_eq!(book.remove(Side::Ask, 110, 2), Some(ask(2, 7, 110, 5)));
    assert_eq!(book.remove(Side::Bid, 100, 5), Some(bid(5, 8, 100, 5)));
    assert_eq!(book.best_price(Side::Ask), Some(120));
    assert_eq!(book.best_price(Side::Bid), Some(90));
}

#[test]
fn book_queues_orders_first_come_first_served() {
    let mut book = OrderBook::new();
    book.add_order(ask(1, 7, 100, 5));
    book.add_order(ask(2, 8, 100, 6));
    book.add_order(ask(3, 7, 100, 7));
    assert_eq!(book.front(Side::Ask, 100), Some(ask(1, 7, 100, 5)));
    assert_eq!(book.fill_front(Side::Ask, 100, 2), ask(1, 7, 100, 5));
    assert_eq!(book.front(Side::Ask, 100), Some(ask(1, 7, 100, 3)));
    assert_eq!(book.fill_front(Side::Ask, 100, 3), ask(1, 7, 100, 3));
    assert_eq!(book.front(Side::Ask, 100), Some(ask(2, 8, 100, 6)));
    assert_eq!(book.orders_of(7), vec![ask(3, 7, 100, 7)]);
    assert_eq!(book.fill_front(Side::Ask, 100, 6), ask(2, 8, 100, 6));
    assert_eq!(book.fill_front(Side::Ask, 100, 7), ask(3, 7, 100, 7));
    assert_eq!(book.front(Side::Ask, 100), None);
    assert_eq!(book.best_price(Side::Ask), None);
}

#[test]
fn book_finds_and_removes_by_id() {
    let mut book = OrderBook::new();
    book.add_order(bid(1, 7, 100, 5));
    book.add_order(bid(2, 8, 100, 6));
    book.add_order(bid(3, 7, 100, 7));
    assert_eq!(book.find(Side::Bid, 100, 2), Some(bid(2, 8, 100, 6)));
    assert_eq!(book.find(Side::Bid, 100, 9), None);
    assert_eq!(book.find(Side::Bid, 101, 2), None);
    assert_eq!(book.find(Side::Ask, 100, 2), None);
    assert_eq!(book.remove(Side::Bid, 100, 9), None);
    assert_eq!(book.remove(Side::Bid, 101, 2), None);
    assert_eq!(book.remove(Side::Bid, 100, 2), Some(bid(2, 8, 100, 6)));
    assert_eq!(book.remove(Side::Bid, 100, 2), None);
    assert_eq!(book.orders_of(7), vec![bid(1, 7, 100, 5), bid(3, 7, 100, 7)]);
    assert_eq!(book.remove(Side::Bid, 100, 1), Some(bid(1, 7, 100, 5)));
    assert_eq!(book.remove(Side::Bid, 100, 3), Some(bid(3, 7, 100, 7)));
    assert_eq!(book.best_price(Side::Bid), None);
}

#[test]
fn book_lists_the_orders_of_a_user() {
    let mut book = OrderBook::new();
    book.add_order(bid(1, 7, 100, 5));
    book.add_order(ask(2, 7, 130, 6));
    book.add_order(bid(3, 8, 100, 7));
    book.add_order(ask(4, 7, 120, 8));
    book.add_order(bid(5, 7, 90, 9));
    assert_eq!(
        book.orders_of(7),
        vec![bid(5, 7, 90, 9), bid(1, 7, 100, 5), ask(4, 7, 120, 8), ask(2, 7, 130, 6)]
    );
    assert_eq!(book.orders_of(8), vec![bid(3, 8, 100, 7)]);
    assert!(book.orders_of(9).is_empty());
}
