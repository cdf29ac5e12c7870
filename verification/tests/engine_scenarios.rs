use spot_exchange::engine::balance::{AssetBalance, AssetCode, UserBalance};
use spot_exchange::engine::error::EngineError;
use spot_exchange::engine::orderbook::{Order, Side};
use spot_exchange::engine::state::OrderOutcome;
use spot_exchange::engine::{run, Engine, EngineCommand, EngineReply};

const BTC: u64 = 100_000_000;
const USDC: u64 = 1_000_000;
const PRICE_50K: u64 = 50_000_000_000;
const PRICE_51K: u64 = 51_000_000_000;

const U1: u128 = 1;
const U2: u128 = 2;
const U3: u128 = 3;

fn balance(available: u64, locked: u64) -> AssetBalance {
    AssetBalance { available, locked }
}

/// An engine with three users, each holding 2 BTC and 200,000 USDC.
fn funded_engine() -> Engine {
    let mut engine = Engine::new();
    for user in [U1, U2, U3] {
        assert_eq!(engine.register_user(user), Ok(()));
        assert_eq!(engine.deposit(user, AssetCode::Btc, 2 * BTC), Ok(()));
        assert_eq!(engine.deposit(user, AssetCode::Usdc, 200_000 * USDC), Ok(()));
    }
    engine
}

fn total(engine: &Engine, code: AssetCode) -> u128 {
    let mut sum: u128 = 0;
    for user in [U1, U2, U3] {
        let account = engine.get_balances(user).unwrap();
        let held = account.get(code);
        sum += held.available as u128 + held.locked as u128;
    }
    sum
}

#[test]
fn init_deposit_read() {
    let mut engine = Engine::new();
    let user = engine.initialize_user().unwrap();
    let reply = engine.handle(&EngineCommand::Deposit {
        user_id: user,
        asset: "BTC".to_string(),
        amount: 100_000_000,
    });
    assert_eq!(
        reply,
        EngineReply::Deposited { user_id: user, asset: AssetCode::Btc, amount: 100_000_000 }
    );
    assert_eq!(
        engine.handle(&EngineCommand::GetBalances { user_id: user }),
        EngineReply::Balances(Some(UserBalance {
            btc: balance(100_000_000, 0),
            usdc: balance(0, 0),
        }))
    );
}

#[test]
fn new_user_has_every_asset_at_zero() {
    let mut engine = Engine::new();
    assert_eq!(engine.register_user(9), Ok(()));
    let account = engine.get_balances(9).unwrap();
    assert_eq!(account.get(AssetCode::Btc), balance(0, 0));
    assert_eq!(account.get(AssetCode::Usdc), balance(0, 0));
    assert_eq!(engine.get_balances(10), None);
}

#[test]
fn rest_then_match_exact() {
    let mut engine = funded_engine();
    assert_eq!(
        engine.place_order(U1, Side::Ask, PRICE_50K, BTC, 77),
        Ok(OrderOutcome::Resting { order_id: 77 })
    );
    assert_eq!(engine.place_order(U2, Side::Bid, PRICE_50K, BTC, 78), Ok(OrderOutcome::Filled));
    assert_eq!(engine.best_price(Side::Ask), None);
    assert_eq!(engine.best_price(Side::Bid), None);
    let seller = engine.get_balances(U1).unwrap();
    assert_eq!(seller.btc, balance(BTC, 0));
    assert_eq!(seller.usdc, balance(200_000 * USDC + 50_000_000_000, 0));
    let buyer = engine.get_balances(U2).unwrap();
    assert_eq!(buyer.btc, balance(3 * BTC, 0));
    assert_eq!(buyer.usdc, balance(200_000 * USDC - 50_000_000_000, 0));
    assert!(engine.get_user_orders(U1).is_empty());
    assert!(engine.get_user_orders(U2).is_empty());
}

#[test]
fn partial_fill_then_rest() {
    let mut engine = funded_engine();
    assert_eq!(
        engine.place_order(U1, Side::Ask, PRICE_50K, BTC, 10),
        Ok(OrderOutcome::Resting { order_id: 10 })
    );
    assert_eq!(
        engine.place_order(U2, Side::Bid, PRICE_50K, 150_000_000, 11),
        Ok(OrderOutcome::Resting { order_id: 11 })
    );
    assert_eq!(engine.best_price(Side::Ask), None);
    assert_eq!(engine.best_price(Side::Bid), Some(PRICE_50K));
    assert_eq!(
        engine.get_user_orders(U2),
        vec![Order { id: 11, user_id: U2, side: Side::Bid, price: PRICE_50K, quantity: 50_000_000 }]
    );
    let buyer = engine.get_balances(U2).unwrap();
    assert_eq!(buyer.usdc.locked, 25_000_000_000);
    assert_eq!(buyer.usdc.available, 200_000 * USDC - 75_000_000_000);
    assert_eq!(buyer.btc, balance(3 * BTC, 0));
    let seller = engine.get_balances(U1).unwrap();
    assert_eq!(seller.btc, balance(BTC, 0));
    assert_eq!(seller.usdc, balance(200_000 * USDC + 50_000_000_000, 0));
}

#[test]
fn no_cross_both_rest() {
    let mut engine = funded_engine();
    assert_eq!(
        engine.place_order(U1, Side::Ask, PRICE_51K, BTC, 20),
        Ok(OrderOutcome::Resting { order_id: 20 })
    );
    assert_eq!(
        engine.place_order(U2, Side::Bid, PRICE_50K, BTC, 21),
        Ok(OrderOutcome::Resting { order_id: 21 })
    );
    assert_eq!(engine.best_price(Side::Bid), Some(PRICE_50K));
    assert_eq!(engine.best_price(Side::Ask), Some(PRICE_51K));
    assert!(engine.best_price(Side::Bid).unwrap() < engine.best_price(Side::Ask).unwrap());
    assert_eq!(engine.get_balances(U1).unwrap().btc, balance(BTC, BTC));
    assert_eq!(
        engine.get_balances(U2).unwrap().usdc,
        balance(200_000 * USDC - 50_000_000_000, 50_000_000_000)
    );
}

#[test]
fn cancel_refund() {
    let mut engine = funded_engine();
    assert!(engine.place_order(U1, Side::Ask, PRICE_51K, BTC, 20).is_ok());
    assert!(engine.place_order(U2, Side::Bid, PRICE_50K, BTC, 21).is_ok());
    let before = engine.get_balances(U2).unwrap().usdc;
    assert_eq!(engine.cancel_order(U2, 21), Ok(()));
    let after = engine.get_balances(U2).unwrap().usdc;
    assert_eq!(before.locked - after.locked, 50_000_000_000);
    assert_eq!(after.available - before.available, 50_000_000_000);
    assert_eq!(after, balance(200_000 * USDC, 0));
    assert_eq!(engine.best_price(Side::Bid), None);
    assert!(engine.get_user_orders(U2).is_empty());
    assert_eq!(engine.best_price(Side::Ask), Some(PRICE_51K));
}

#[test]
fn cancel_ask_refunds_btc() {
    let mut engine = funded_engine();
    assert!(engine.place_order(U1, Side::Ask, PRICE_51K, 70_000_000, 20).is_ok());
    assert_eq!(engine.get_balances(U1).unwrap().btc, balance(2 * BTC - 70_000_000, 70_000_000));
    assert_eq!(engine.cancel_order(U1, 20), Ok(()));
    assert_eq!(engine.get_balances(U1).unwrap().btc, balance(2 * BTC, 0));
    assert_eq!(engine.best_price(Side::Ask), None);
}

#[test]
fn price_time_priority() {
    let mut engine = funded_engine();
    assert!(engine.place_order(U1, Side::Ask, PRICE_50K, BTC, 30).is_ok());
    assert!(engine.place_order(U2, Side::Ask, PRICE_50K, BTC, 31).is_ok());
    assert_eq!(engine.place_order(U3, Side::Bid, PRICE_50K, BTC, 32), Ok(OrderOutcome::Filled));
    assert!(engine.get_user_orders(U1).is_empty());
    assert_eq!(
        engine.get_user_orders(U2),
        vec![Order { id: 31, user_id: U2, side: Side::Ask, price: PRICE_50K, quantity: BTC }]
    );
    assert_eq!(engine.get_balances(U1).unwrap().btc, balance(BTC, 0));
    assert_eq!(engine.get_balances(U2).unwrap().btc, balance(BTC, BTC));
    assert_eq!(engine.get_balances(U3).unwrap().btc, balance(3 * BTC, 0));
    assert_eq!(engine.best_price(Side::Ask), Some(PRICE_50K));
}

#[test]
fn better_price_is_matched_before_earlier_order() {
    let mut engine = funded_engine();
    assert!(engine.place_order(U1, Side::Ask, PRICE_51K, BTC, 40).is_ok());
    assert!(engine.place_order(U2, Side::Ask, PRICE_50K, BTC, 41).is_ok());
    assert_eq!(engine.best_price(Side::Ask), Some(PRICE_50K));
    assert_eq!(engine.place_order(U3, Side::Bid, PRICE_51K, BTC, 42), Ok(OrderOutcome::Filled));
    assert!(engine.get_user_orders(U2).is_empty());
    assert_eq!(engine.get_user_orders(U1).len(), 1);
    assert_eq!(engine.best_price(Side::Ask), Some(PRICE_51K));
    // the trade was at the maker's price, and the rest of the reserve came back
    assert_eq!(
        engine.get_balances(U3).unwrap().usdc,
        balance(200_000 * USDC - 50_000_000_000, 0)
    );
    assert_eq!(
        engine.get_balances(U2).unwrap().usdc,
        balance(200_000 * USDC + 50_000_000_000, 0)
    );
}

#[test]
fn highest_bid_is_matched_first() {
    let mut engine = funded_engine();
    assert!(engine.place_order(U1, Side::Bid, PRICE_50K, BTC, 50).is_ok());
    assert!(engine.place_order(U2, Side::Bid, PRICE_51K, BTC, 51).is_ok());
    assert_eq!(engine.best_price(Side::Bid), Some(PRICE_51K));
    assert_eq!(engine.place_order(U3, Side::Ask, PRICE_50K, BTC, 52), Ok(OrderOutcome::Filled));
    assert!(engine.get_user_orders(U2).is_empty());
    assert_eq!(engine.best_price(Side::Bid), Some(PRICE_50K));
    assert_eq!(
        engine.get_balances(U3).unwrap().usdc,
        balance(200_000 * USDC + 51_000_000_000, 0)
    );
    assert_eq!(engine.get_balances(U2).unwrap().btc, balance(3 * BTC, 0));
}

#[test]
fn taker_walks_several_levels_and_rests() {
    let mut engine = funded_engine();
    assert!(engine.place_order(U1, Side::Ask, PRICE_50K, 50_000_000, 60).is_ok());
    assert!(engine.place_order(U1, Side::Ask, PRICE_51K, 50_000_000, 61).is_ok());
    assert!(engine.place_order(U2, Side::Ask, 52_000_000_000, 50_000_000, 62).is_ok());
    assert_eq!(
        engine.place_order(U3, Side::Bid, PRICE_51K, 2 * BTC, 63),
        Ok(OrderOutcome::Resting { order_id: 63 })
    );
    assert_eq!(engine.best_price(Side::Ask), Some(52_000_000_000));
    assert_eq!(engine.best_price(Side::Bid), Some(PRICE_51K));
    assert_eq!(
        engine.get_user_orders(U3),
        vec![Order { id: 63, user_id: U3, side: Side::Bid, price: PRICE_51K, quantity: BTC }]
    );
    let taker = engine.get_balances(U3).unwrap();
    assert_eq!(taker.btc, balance(3 * BTC, 0));
    // reserved 102,000 USDC, paid 25,000 + 25,500
    assert_eq!(taker.usdc.locked, 102_000 * USDC - 50_500 * USDC);
    assert_eq!(taker.usdc.available, 200_000 * USDC - 102_000 * USDC);
    assert_eq!(engine.get_balances(U1).unwrap().usdc, balance(200_000 * USDC + 50_500 * USDC, 0));
}

#[test]
fn full_fill_at_better_price_refunds_residual() {
    let mut engine = funded_engine();
    assert!(engine.place_order(U1, Side::Ask, 40_000_000_000, BTC, 70).is_ok());
    let before = engine.get_balances(U2).unwrap().usdc;
    assert_eq!(engine.place_order(U2, Side::Bid, PRICE_50K, BTC, 71), Ok(OrderOutcome::Filled));
    let after = engine.get_balances(U2).unwrap().usdc;
    assert_eq!(after.locked, before.locked);
    assert_eq!(after.locked, 0);
    assert_eq!(after.available, before.available - 40_000_000_000);
}

#[test]
fn rounding_residual_is_refunded_on_full_fill() {
    let mut engine = funded_engine();
    // cost(3, 50_000_000) = 1 and cost(3, 100_000_000) = 3: two fills of half
    // a coin cost 2, one less than the reserve
    assert!(engine.place_order(U1, Side::Ask, 3, 50_000_000, 80).is_ok());
    assert!(engine.place_order(U1, Side::Ask, 3, 50_000_000, 81).is_ok());
    assert_eq!(engine.place_order(U2, Side::Bid, 3, BTC, 82), Ok(OrderOutcome::Filled));
    assert_eq!(engine.get_balances(U2).unwrap().usdc, balance(200_000 * USDC - 2, 0));
    assert_eq!(engine.get_balances(U1).unwrap().usdc, balance(200_000 * USDC + 2, 0));
}

#[test]
fn self_trade_moves_funds_within_one_account() {
    let mut engine = funded_engine();
    assert!(engine.place_order(U1, Side::Ask, PRICE_50K, BTC, 90).is_ok());
    assert_eq!(engine.place_order(U1, Side::Bid, PRICE_50K, BTC, 91), Ok(OrderOutcome::Filled));
    assert_eq!(
        engine.get_balances(U1),
        Some(UserBalance { btc: balance(2 * BTC, 0), usdc: balance(200_000 * USDC, 0) })
    );
    assert_eq!(engine.best_price(Side::Ask), None);
}

#[test]
fn trades_conserve_both_assets() {
    let mut engine = funded_engine();
    let btc = total(&engine, AssetCode::Btc);
    let usdc = total(&engine, AssetCode::Usdc);
    assert!(engine.place_order(U1, Side::Ask, PRICE_50K, 70_000_000, 100).is_ok());
    assert!(engine.place_order(U2, Side::Ask, 49_999_999_999, 33_333_333, 101).is_ok());
    assert!(engine.place_order(U3, Side::Bid, PRICE_51K, 90_000_001, 102).is_ok());
    assert!(engine.place_order(U1, Side::Bid, 48_000_000_000, BTC, 103).is_ok());
    assert!(engine.place_order(U2, Side::Ask, 47_000_000_000, 12_345_678, 104).is_ok());
    assert_eq!(engine.cancel_order(U1, 103), Ok(()));
    assert_eq!(total(&engine, AssetCode::Btc), btc);
    assert_eq!(total(&engine, AssetCode::Usdc), usdc);
    assert_eq!(btc, 6 * BTC as u128);
    assert_eq!(usdc, 600_000 * USDC as u128);
}

#[test]
fn locked_btc_matches_resting_asks() {
    let mut engine = funded_engine();
    assert!(engine.place_order(U1, Side::Ask, PRICE_50K, 70_000_000, 110).is_ok());
    assert!(engine.place_order(U1, Side::Ask, PRICE_51K, 20_000_000, 111).is_ok());
    assert!(engine.place_order(U2, Side::Bid, PRICE_50K, 30_000_000, 112).is_ok());
    let resting: u64 = engine.get_user_orders(U1).iter().map(|order| order.quantity).sum();
    assert_eq!(resting, 60_000_000);
    assert_eq!(engine.get_balances(U1).unwrap().btc.locked, resting);
    assert_eq!(engine.get_balances(U2).unwrap().usdc.locked, 0);
}

#[test]
fn cancel_is_idempotent() {
    let mut engine = funded_engine();
    assert!(engine.place_order(U1, Side::Ask, PRICE_50K, BTC, 120).is_ok());
    assert_eq!(engine.cancel_order(U1, 120), Ok(()));
    let account = engine.get_balances(U1);
    assert_eq!(engine.cancel_order(U1, 120), Err(EngineError::OrderNotFound));
    assert_eq!(engine.cancel_order(U2, 120), Err(EngineError::OrderNotFound));
    assert_eq!(engine.get_balances(U1), account);
    assert_eq!(engine.best_price(Side::Ask), None);
}

#[test]
fn cancel_of_filled_order_is_not_found() {
    let mut engine = funded_engine();
    assert!(engine.place_order(U1, Side::Ask, PRICE_50K, BTC, 130).is_ok());
    assert_eq!(engine.place_order(U2, Side::Bid, PRICE_50K, BTC, 131), Ok(OrderOutcome::Filled));
    let account = engine.get_balances(U1);
    assert_eq!(engine.cancel_order(U1, 130), Err(EngineError::OrderNotFound));
    assert_eq!(engine.cancel_order(U2, 131), Err(EngineError::OrderNotFound));
    assert_eq!(engine.get_balances(U1), account);
}

#[test]
fn cancel_in_the_middle_of_a_queue_keeps_the_rest_in_order() {
    let mut engine = funded_engine();
    assert!(engine.place_order(U1, Side::Ask, PRICE_50K, 10_000_000, 140).is_ok());
    assert!(engine.place_order(U2, Side::Ask, PRICE_50K, 20_000_000, 141).is_ok());
    assert!(engine.place_order(U1, Side::Ask, PRICE_50K, 30_000_000, 142).is_ok());
    assert_eq!(engine.cancel_order(U2, 141), Ok(()));
    assert_eq!(
        engine.place_order(U3, Side::Bid, PRICE_50K, 15_000_000, 143),
        Ok(OrderOutcome::Filled)
    );
    assert_eq!(
        engine.get_user_orders(U1),
        vec![Order { id: 142, user_id: U1, side: Side::Ask, price: PRICE_50K, quantity: 25_000_000 }]
    );
    assert_eq!(engine.cancel_order(U1, 142), Ok(()));
    assert_eq!(engine.get_balances(U1).unwrap().btc, balance(2 * BTC - 15_000_000, 0));
}

#[test]
fn partly_filled_maker_can_be_cancelled_for_the_rest() {
    let mut engine = funded_engine();
    assert!(engine.place_order(U1, Side::Bid, PRICE_50K, BTC, 150).is_ok());
    assert_eq!(
        engine.place_order(U2, Side::Ask, PRICE_50K, 40_000_000, 151),
        Ok(OrderOutcome::Filled)
    );
    assert_eq!(
        engine.get_user_orders(U1),
        vec![Order { id: 150, user_id: U1, side: Side::Bid, price: PRICE_50K, quantity: 60_000_000 }]
    );
    assert_eq!(engine.get_balances(U1).unwrap().usdc.locked, 30_000_000_000);
    assert_eq!(engine.cancel_order(U1, 150), Ok(()));
    assert_eq!(
        engine.get_balances(U1).unwrap().usdc,
        balance(200_000 * USDC - 20_000_000_000, 0)
    );
    assert_eq!(engine.get_balances(U1).unwrap().btc, balance(2 * BTC + 40_000_000, 0));
}

#[test]
fn unknown_user_is_refused() {
    let mut engine = funded_engine();
    assert_eq!(engine.deposit(99, AssetCode::Btc, 1), Err(EngineError::UnknownUser));
    assert_eq!(
        engine.place_order(99, Side::Bid, PRICE_50K, BTC, 160),
        Err(EngineError::UnknownUser)
    );
    assert_eq!(
        engine.handle(&EngineCommand::Deposit {
            user_id: 99,
            asset: "DOGE".to_string(),
            amount: 1
        }),
        EngineReply::Failed(EngineError::UnknownUser)
    );
    assert_eq!(engine.best_price(Side::Bid), None);
}

#[test]
fn unknown_asset_is_refused() {
    let mut engine = funded_engine();
    for name in ["DOGE", "btc", "", "USDC "] {
        assert_eq!(
            engine.handle(&EngineCommand::Deposit {
                user_id: U1,
                asset: name.to_string(),
                amount: 5
            }),
            EngineReply::Failed(EngineError::UnknownAsset)
        );
    }
    assert_eq!(
        engine.get_balances(U1),
        Some(UserBalance { btc: balance(2 * BTC, 0), usdc: balance(200_000 * USDC, 0) })
    );
    assert_eq!(
        engine.handle(&EngineCommand::Deposit { user_id: U1, asset: "USDC".to_string(), amount: 5 }),
        EngineReply::Deposited { user_id: U1, asset: AssetCode::Usdc, amount: 5 }
    );
}

#[test]
fn deposit_overflow_is_refused_without_change() {
    let mut engine = Engine::new();
    assert_eq!(engine.register_user(U1), Ok(()));
    assert_eq!(engine.deposit(U1, AssetCode::Btc, u64::MAX - 5), Ok(()));
    assert_eq!(engine.deposit(U1, AssetCode::Btc, 6), Err(EngineError::Overflow));
    assert_eq!(engine.get_balances(U1).unwrap().btc, balance(u64::MAX - 5, 0));
    assert_eq!(engine.deposit(U1, AssetCode::Btc, 5), Ok(()));
    assert_eq!(engine.deposit(U1, AssetCode::Btc, 1), Err(EngineError::Overflow));
    assert_eq!(engine.deposit(U1, AssetCode::Usdc, u64::MAX), Ok(()));
    assert_eq!(
        engine.get_balances(U1),
        Some(UserBalance { btc: balance(u64::MAX, 0), usdc: balance(u64::MAX, 0) })
    );
}

#[test]
fn deposit_counts_the_depositor_alone() {
    let mut engine = Engine::new();
    assert_eq!(engine.register_user(U1), Ok(()));
    assert_eq!(engine.register_user(U2), Ok(()));
    assert_eq!(engine.deposit(U1, AssetCode::Btc, u64::MAX), Ok(()));
    assert_eq!(engine.deposit(U2, AssetCode::Btc, 1), Ok(()));
    assert_eq!(engine.deposit(U2, AssetCode::Btc, u64::MAX - 1), Ok(()));
    assert_eq!(engine.get_balances(U1).unwrap().btc, balance(u64::MAX, 0));
    assert_eq!(engine.get_balances(U2).unwrap().btc, balance(u64::MAX, 0));
}

#[test]
fn deposit_does_not_count_what_is_locked() {
    let mut engine = Engine::new();
    assert_eq!(engine.register_user(U1), Ok(()));
    assert_eq!(engine.deposit(U1, AssetCode::Btc, u64::MAX), Ok(()));
    assert!(engine.place_order(U1, Side::Ask, PRICE_50K, u64::MAX - 1, 300).is_ok());
    assert_eq!(engine.get_balances(U1).unwrap().btc, balance(1, u64::MAX - 1));
    assert_eq!(engine.deposit(U1, AssetCode::Btc, u64::MAX - 1), Ok(()));
    assert_eq!(engine.get_balances(U1).unwrap().btc, balance(u64::MAX, u64::MAX - 1));
}

#[test]
fn reserve_that_does_not_fit_with_what_is_locked_is_refused() {
    let mut engine = Engine::new();
    assert_eq!(engine.register_user(U1), Ok(()));
    assert_eq!(engine.deposit(U1, AssetCode::Btc, u64::MAX), Ok(()));
    assert!(engine.place_order(U1, Side::Ask, PRICE_50K, u64::MAX - 1, 301).is_ok());
    assert_eq!(engine.deposit(U1, AssetCode::Btc, 10), Ok(()));
    assert_eq!(
        engine.place_order(U1, Side::Ask, PRICE_50K, 2, 302),
        Err(EngineError::Overflow)
    );
    assert_eq!(engine.get_balances(U1).unwrap().btc, balance(11, u64::MAX - 1));
    assert_eq!(
        engine.place_order(U1, Side::Ask, PRICE_50K, 1, 303),
        Ok(OrderOutcome::Resting { order_id: 303 })
    );
    assert_eq!(engine.get_balances(U1).unwrap().btc, balance(10, u64::MAX));
}

#[test]
fn cancel_whose_release_does_not_fit_is_refused() {
    let mut engine = Engine::new();
    assert_eq!(engine.register_user(U1), Ok(()));
    assert_eq!(engine.deposit(U1, AssetCode::Btc, BTC), Ok(()));
    assert!(engine.place_order(U1, Side::Ask, PRICE_50K, BTC, 310).is_ok());
    assert_eq!(engine.deposit(U1, AssetCode::Btc, u64::MAX), Ok(()));
    assert_eq!(engine.cancel_order(U1, 310), Err(EngineError::Overflow));
    assert_eq!(engine.get_balances(U1).unwrap().btc, balance(u64::MAX, BTC));
    assert_eq!(engine.best_price(Side::Ask), Some(PRICE_50K));
    assert_eq!(engine.get_user_orders(U1).len(), 1);
}

#[test]
fn order_whose_trade_does_not_fit_is_refused_without_change() {
    let mut engine = Engine::new();
    for user in [U1, U2, U3] {
        assert_eq!(engine.register_user(user), Ok(()));
    }
    // the second seller has no room for what a sale would bring
    assert_eq!(engine.deposit(U1, AssetCode::Btc, BTC), Ok(()));
    assert_eq!(engine.deposit(U2, AssetCode::Btc, BTC), Ok(()));
    assert_eq!(engine.deposit(U2, AssetCode::Usdc, u64::MAX), Ok(()));
    assert_eq!(engine.deposit(U3, AssetCode::Usdc, 200_000 * USDC), Ok(()));
    assert!(engine.place_order(U1, Side::Ask, PRICE_50K, BTC, 320).is_ok());
    assert!(engine.place_order(U2, Side::Ask, PRICE_51K, BTC, 321).is_ok());
    let before: Vec<Option<UserBalance>> =
        [U1, U2, U3].iter().map(|user| engine.get_balances(*user)).collect();
    assert_eq!(
        engine.place_order(U3, Side::Bid, PRICE_51K, 2 * BTC, 322),
        Err(EngineError::Overflow)
    );
    let after: Vec<Option<UserBalance>> =
        [U1, U2, U3].iter().map(|user| engine.get_balances(*user)).collect();
    assert_eq!(before, after);
    assert_eq!(engine.best_price(Side::Ask), Some(PRICE_50K));
    assert_eq!(engine.best_price(Side::Bid), None);
    assert_eq!(
        engine.get_user_orders(U1),
        vec![Order { id: 320, user_id: U1, side: Side::Ask, price: PRICE_50K, quantity: BTC }]
    );
    assert_eq!(engine.cancel_order(U1, 320), Ok(()));
    // an order that stops before the seller without room is taken in
    assert!(engine.place_order(U1, Side::Ask, PRICE_50K, BTC, 323).is_ok());
    assert_eq!(
        engine.place_order(U3, Side::Bid, PRICE_50K, 2 * BTC, 324),
        Ok(OrderOutcome::Resting { order_id: 324 })
    );
    assert_eq!(engine.get_balances(U3).unwrap().btc, balance(BTC, 0));
}

#[test]
fn order_whose_purchase_does_not_fit_is_refused_without_change() {
    let mut engine = Engine::new();
    assert_eq!(engine.register_user(U1), Ok(()));
    assert_eq!(engine.register_user(U2), Ok(()));
    assert_eq!(engine.deposit(U1, AssetCode::Btc, BTC), Ok(()));
    assert_eq!(engine.deposit(U2, AssetCode::Btc, u64::MAX), Ok(()));
    assert_eq!(engine.deposit(U2, AssetCode::Usdc, 200_000 * USDC), Ok(()));
    assert!(engine.place_order(U1, Side::Ask, PRICE_50K, BTC, 330).is_ok());
    assert_eq!(
        engine.place_order(U2, Side::Bid, PRICE_50K, BTC, 331),
        Err(EngineError::Overflow)
    );
    assert_eq!(
        engine.get_balances(U2),
        Some(UserBalance { btc: balance(u64::MAX, 0), usdc: balance(200_000 * USDC, 0) })
    );
    assert_eq!(engine.get_balances(U1).unwrap().btc, balance(0, BTC));
    assert_eq!(engine.best_price(Side::Ask), Some(PRICE_50K));
}

#[test]
fn bid_cost_overflow_is_refused() {
    let mut engine = funded_engine();
    assert_eq!(
        engine.place_order(U1, Side::Bid, u64::MAX, u64::MAX, 170),
        Err(EngineError::Overflow)
    );
    assert_eq!(
        engine.get_balances(U1),
        Some(UserBalance { btc: balance(2 * BTC, 0), usdc: balance(200_000 * USDC, 0) })
    );
}

#[test]
fn insufficient_funds_are_refused() {
    let mut engine = funded_engine();
    assert_eq!(
        engine.place_order(U1, Side::Ask, PRICE_50K, 2 * BTC + 1, 180),
        Err(EngineError::InsufficientFunds)
    );
    assert_eq!(
        engine.place_order(U1, Side::Bid, PRICE_50K, 4 * BTC + 1, 181),
        Err(EngineError::InsufficientFunds)
    );
    assert_eq!(
        engine.place_order(U1, Side::Bid, PRICE_50K, 4 * BTC, 182),
        Ok(OrderOutcome::Resting { order_id: 182 })
    );
    assert_eq!(engine.get_balances(U1).unwrap().usdc, balance(0, 200_000 * USDC));
    assert_eq!(
        engine.place_order(U1, Side::Bid, 1, BTC, 183),
        Err(EngineError::InsufficientFunds)
    );
}

#[test]
fn zero_price_or_quantity_is_refused() {
    let mut engine = funded_engine();
    assert_eq!(engine.place_order(U1, Side::Bid, 0, BTC, 190), Err(EngineError::InvalidOrder));
    assert_eq!(
        engine.place_order(U1, Side::Ask, PRICE_50K, 0, 191),
        Err(EngineError::InvalidOrder)
    );
    assert_eq!(engine.place_order(99, Side::Ask, 0, 0, 192), Err(EngineError::InvalidOrder));
    assert_eq!(engine.best_price(Side::Bid), None);
    assert_eq!(engine.best_price(Side::Ask), None);
}

#[test]
fn not_owner_is_refused() {
    let mut engine = funded_engine();
    assert!(engine.place_order(U1, Side::Ask, PRICE_50K, BTC, 200).is_ok());
    assert_eq!(engine.cancel_order(U2, 200), Err(EngineError::NotOwner));
    assert_eq!(engine.cancel_order(99, 200), Err(EngineError::NotOwner));
    assert_eq!(engine.best_price(Side::Ask), Some(PRICE_50K));
    assert_eq!(engine.get_balances(U1).unwrap().btc, balance(BTC, BTC));
    assert_eq!(engine.get_balances(U2).unwrap().btc, balance(2 * BTC, 0));
}

#[test]
fn ids_in_use_are_refused() {
    let mut engine = funded_engine();
    assert_eq!(engine.register_user(U1), Err(EngineError::IdInUse));
    assert_eq!(
        engine.get_balances(U1),
        Some(UserBalance { btc: balance(2 * BTC, 0), usdc: balance(200_000 * USDC, 0) })
    );
    assert!(engine.place_order(U1, Side::Ask, PRICE_50K, BTC, 210).is_ok());
    assert_eq!(
        engine.place_order(U2, Side::Ask, PRICE_51K, BTC, 210),
        Err(EngineError::IdInUse)
    );
    assert_eq!(engine.get_balances(U2).unwrap().btc, balance(2 * BTC, 0));
    assert_eq!(engine.cancel_order(U1, 210), Ok(()));
    assert_eq!(
        engine.place_order(U2, Side::Ask, PRICE_51K, BTC, 210),
        Ok(OrderOutcome::Resting { order_id: 210 })
    );
}

#[test]
fn order_not_found_is_refused() {
    let mut engine = funded_engine();
    assert_eq!(engine.cancel_order(U1, 12345), Err(EngineError::OrderNotFound));
    assert_eq!(
        engine.handle(&EngineCommand::CancelOrder { user_id: U1, order_id: 12345 }),
        EngineReply::Failed(EngineError::OrderNotFound)
    );
}

#[test]
fn user_orders_lists_bids_and_asks_of_one_user_only() {
    let mut engine = funded_engine();
    assert!(engine.place_order(U1, Side::Bid, 40_000_000_000, 10_000_000, 220).is_ok());
    assert!(engine.place_order(U2, Side::Bid, 40_000_000_000, 10_000_000, 221).is_ok());
    assert!(engine.place_order(U1, Side::Bid, 39_000_000_000, 10_000_000, 222).is_ok());
    assert!(engine.place_order(U1, Side::Ask, PRICE_51K, 10_000_000, 223).is_ok());
    assert!(engine.place_order(U2, Side::Ask, PRICE_50K, 10_000_000, 224).is_ok());
    let mut ids: Vec<u128> = engine.get_user_orders(U1).iter().map(|order| order.id).collect();
    ids.sort();
    assert_eq!(ids, vec![220, 222, 223]);
    let mut ids: Vec<u128> = engine.get_user_orders(U2).iter().map(|order| order.id).collect();
    ids.sort();
    assert_eq!(ids, vec![221, 224]);
    assert!(engine.get_user_orders(U3).is_empty());
    assert!(engine.get_user_orders(99).is_empty());
}

#[test]
fn snapshots_do_not_follow_later_changes() {
    let mut engine = funded_engine();
    assert!(engine.place_order(U1, Side::Ask, PRICE_50K, BTC, 230).is_ok());
    let account = engine.get_balances(U1).unwrap();
    let mut orders = engine.get_user_orders(U1);
    assert_eq!(engine.cancel_order(U1, 230), Ok(()));
    assert_eq!(account.btc, balance(BTC, BTC));
    assert_eq!(orders.len(), 1);
    orders[0].quantity = 7;
    orders.clear();
    assert!(engine.get_user_orders(U1).is_empty());
    assert_eq!(engine.get_balances(U1).unwrap().btc, balance(2 * BTC, 0));
}

#[test]
fn random_ids_are_version_four_uuids() {
    let mut engine = Engine::new();
    let first = engine.initialize_user().unwrap();
    let second = engine.initialize_user().unwrap();
    assert_ne!(first, second);
    for id in [first, second] {
        let uuid = uuid::Uuid::from_u128(id);
        assert_eq!(uuid.get_version_num(), 4);
        assert_eq!(uuid.get_variant(), uuid::Variant::RFC4122);
        assert_eq!(engine.get_balances(id), Some(UserBalance::new()));
    }
    assert_eq!(engine.deposit(first, AssetCode::Btc, BTC), Ok(()));
    match engine.create_order(first, Side::Ask, PRICE_50K, BTC) {
        Ok(OrderOutcome::Resting { order_id }) => {
            assert_eq!(uuid::Uuid::from_u128(order_id).get_version_num(), 4);
            assert_eq!(engine.get_user_orders(first)[0].id, order_id);
            assert_eq!(engine.cancel_order(first, order_id), Ok(()));
        },
        other => panic!("the order should rest: {:?}", other),
    }
}

#[test]
fn run_answers_every_command_in_order() {
    let commands = vec![
        EngineCommand::GetBalances { user_id: U1 },
        EngineCommand::InitializeUser,
        EngineCommand::Deposit { user_id: U1, asset: "BTC".to_string(), amount: 1 },
        EngineCommand::CreateOrder { user_id: U1, side: Side::Ask, price: 1, quantity: 1 },
        EngineCommand::CancelOrder { user_id: U1, order_id: 1 },
        EngineCommand::GetUserOrders { user_id: U1 },
    ];
    let replies = run(&commands);
    assert_eq!(replies.len(), commands.len());
    assert_eq!(replies[0], EngineReply::Balances(None));
    assert!(matches!(replies[1], EngineReply::UserInitialized { .. }));
    assert_eq!(replies[2], EngineReply::Failed(EngineError::UnknownUser));
    assert_eq!(replies[3], EngineReply::Failed(EngineError::UnknownUser));
    assert_eq!(replies[4], EngineReply::Failed(EngineError::OrderNotFound));
    assert_eq!(replies[5], EngineReply::UserOrders(vec![]));
}

#[test]
fn process_runs_commands_one_after_the_other() {
    let mut engine = Engine::new();
    let seller = engine.initialize_user().unwrap();
    let buyer = engine.initialize_user().unwrap();
    let replies = engine.process(&vec![
        EngineCommand::Deposit { user_id: seller, asset: "BTC".to_string(), amount: BTC },
        EngineCommand::Deposit { user_id: buyer, asset: "USDC".to_string(), amount: 60_000 * USDC },
        EngineCommand::CreateOrder { user_id: seller, side: Side::Ask, price: PRICE_50K, quantity: BTC },
        EngineCommand::CreateOrder { user_id: buyer, side: Side::Bid, price: PRICE_51K, quantity: BTC },
        EngineCommand::GetBalances { user_id: buyer },
        EngineCommand::GetUserOrders { user_id: seller },
    ]);
    assert_eq!(replies.len(), 6);
    assert!(matches!(replies[2], EngineReply::OrderCreated(OrderOutcome::Resting { .. })));
    assert_eq!(replies[3], EngineReply::OrderCreated(OrderOutcome::Filled));
    assert_eq!(
        replies[4],
        EngineReply::Balances(Some(UserBalance {
            btc: balance(BTC, 0),
            usdc: balance(10_000 * USDC, 0),
        }))
    );
    assert_eq!(replies[5], EngineReply::UserOrders(vec![]));
}

#[test]
fn error_messages_are_worded() {
    assert_eq!(EngineError::UnknownUser.message(), "user not found");
    assert_eq!(EngineError::UnknownAsset.message(), "unknown asset!");
    assert_eq!(EngineError::Overflow.message(), "amount overflow");
    assert_eq!(EngineError::InsufficientFunds.message(), "insufficient funds");
    assert_eq!(EngineError::OrderNotFound.message(), "order not found");
    assert_eq!(EngineError::NotOwner.message(), "order belongs to another user");
    assert_eq!(EngineError::InvalidOrder.message(), "price and quantity must be positive");
    assert_eq!(EngineError::IdInUse.message(), "id already in use");
}

#[test]
fn asset_names_are_read_and_written() {
    assert_eq!(AssetCode::from_name(&"BTC".to_string()), Some(AssetCode::Btc));
    assert_eq!(AssetCode::from_name(&"USDC".to_string()), Some(AssetCode::Usdc));
    assert_eq!(AssetCode::from_name(&"usdc".to_string()), None);
    assert_eq!(AssetCode::Btc.name(), "BTC");
    assert_eq!(AssetCode::Usdc.name(), "USDC");
}

#[test]
fn locked_usdc_matches_resting_bids() {
    let mut engine = funded_engine();
    assert!(engine.place_order(U1, Side::Bid, PRICE_50K, 70_000_000, 240).is_ok());
    assert!(engine.place_order(U1, Side::Bid, 49_000_000_000, 20_000_000, 241).is_ok());
    assert!(engine.place_order(U2, Side::Ask, PRICE_50K, 30_000_000, 242).is_ok());
    // 0.4 coins rest at 50,000 and 0.2 coins at 49,000
    assert_eq!(engine.get_balances(U1).unwrap().usdc.locked, 20_000 * USDC + 9_800 * USDC);
    assert_eq!(engine.get_balances(U2).unwrap().usdc.locked, 0);
    assert_eq!(engine.get_balances(U2).unwrap().btc.locked, 0);
}

#[test]
fn rounding_on_a_partly_filled_bid_stays_locked() {
    let mut engine = funded_engine();
    // a whole coin at this price costs 1, either half of it costs nothing
    assert!(engine.place_order(U1, Side::Bid, 1, BTC, 250).is_ok());
    assert_eq!(engine.get_balances(U1).unwrap().usdc.locked, 1);
    assert_eq!(engine.place_order(U2, Side::Ask, 1, 50_000_000, 251), Ok(OrderOutcome::Filled));
    assert_eq!(engine.get_balances(U1).unwrap().usdc, balance(200_000 * USDC - 1, 1));
    assert_eq!(engine.get_balances(U2).unwrap().usdc, balance(200_000 * USDC, 0));
    assert_eq!(engine.cancel_order(U1, 250), Ok(()));
    assert_eq!(engine.get_balances(U1).unwrap().usdc, balance(200_000 * USDC - 1, 1));
    assert_eq!(engine.get_balances(U1).unwrap().btc, balance(2 * BTC + 50_000_000, 0));
}

#[test]
fn bid_resting_after_a_better_fill_keeps_its_reserve() {
    let mut engine = funded_engine();
    assert!(engine.place_order(U1, Side::Ask, 40_000_000_000, BTC, 260).is_ok());
    assert_eq!(
        engine.place_order(U2, Side::Bid, PRICE_50K, 2 * BTC, 261),
        Ok(OrderOutcome::Resting { order_id: 261 })
    );
    // reserved 100,000, paid 40,000; one coin rests at 50,000
    assert_eq!(engine.get_balances(U2).unwrap().usdc, balance(100_000 * USDC, 60_000 * USDC));
    assert_eq!(engine.get_balances(U2).unwrap().btc, balance(3 * BTC, 0));
}

#[test]
fn answers_are_worded() {
    let id: u128 = 0xa1a2a3a4_b1b2_c1c2_d1d2_d3d4d5d6d7d8;
    assert_eq!(
        EngineReply::UserInitialized { user_id: id }.message(),
        Some("a1a2a3a4-b1b2-c1c2-d1d2-d3d4d5d6d7d8".to_string())
    );
    assert_eq!(
        EngineReply::UserInitialized { user_id: 0x0f }.message(),
        Some("00000000-0000-0000-0000-00000000000f".to_string())
    );
    assert_eq!(
        EngineReply::Deposited { user_id: id, asset: AssetCode::Btc, amount: 100_000_000 }.message(),
        Some("deposited 100000000 BTC for user a1a2a3a4-b1b2-c1c2-d1d2-d3d4d5d6d7d8".to_string())
    );
    assert_eq!(
        EngineReply::Deposited { user_id: 1, asset: AssetCode::Usdc, amount: 0 }.message(),
        Some("deposited 0 USDC for user 00000000-0000-0000-0000-000000000001".to_string())
    );
    assert_eq!(
        EngineReply::Deposited { user_id: u128::MAX, asset: AssetCode::Usdc, amount: u64::MAX }
            .message(),
        Some(
            "deposited 18446744073709551615 USDC for user ffffffff-ffff-ffff-ffff-ffffffffffff"
                .to_string()
        )
    );
    assert_eq!(
        EngineReply::OrderCreated(OrderOutcome::Resting { order_id: id }).message(),
        Some("a1a2a3a4-b1b2-c1c2-d1d2-d3d4d5d6d7d8".to_string())
    );
    assert_eq!(
        EngineReply::OrderCreated(OrderOutcome::Filled).message(),
        Some("filled".to_string())
    );
    assert_eq!(
        EngineReply::OrderCancelled { order_id: id }.message(),
        Some("order:a1a2a3a4-b1b2-c1c2-d1d2-d3d4d5d6d7d8 has been cancelled!".to_string())
    );
    assert_eq!(
        EngineReply::Failed(EngineError::OrderNotFound).message(),
        Some("order not found".to_string())
    );
    assert_eq!(EngineReply::Balances(None).message(), None);
    assert_eq!(EngineReply::UserOrders(vec![]).message(), None);
}

#[test]
fn ids_and_amounts_are_written_as_the_standard_formats_write_them() {
    let mut state = 5u64;
    let mut next = move || {
        state = state.wrapping_mul(6364136223846793005).wrapping_add(1442695040888963407);
        state >> 7
    };
    for _ in 0..2_000u32 {
        let id = ((next() as u128) << 71) ^ ((next() as u128) << 20) ^ next() as u128;
        let amount = next() >> (next() % 57);
        let uuid = format!(
            "{:08x}-{:04x}-{:04x}-{:04x}-{:012x}",
            (id >> 96) as u32,
            (id >> 80) as u16,
            (id >> 64) as u16,
            (id >> 48) as u16,
            id & 0xffff_ffff_ffff
        );
        assert_eq!(EngineReply::UserInitialized { user_id: id }.message(), Some(uuid.clone()));
        assert_eq!(
            EngineReply::Deposited { user_id: id, asset: AssetCode::Btc, amount }.message(),
            Some(format!("deposited {} BTC for user {}", amount, uuid))
        );
    }
}

#[test]
fn many_orders_keep_the_books_balanced() {
    let mut engine = funded_engine();
    let btc = total(&engine, AssetCode::Btc);
    let usdc = total(&engine, AssetCode::Usdc);
    let mut state = 2024u64;
    let mut next = move || {
        state = state.wrapping_mul(6364136223846793005).wrapping_add(1442695040888963407);
        state >> 33
    };
    let mut resting: Vec<(u128, u128)> = Vec::new();
    for round in 0..3_000u128 {
        let user = 1 + (next() % 3) as u128;
        if next() % 5 == 0 && !resting.is_empty() {
            let (owner, id) = resting.swap_remove(next() as usize % resting.len());
            let _ = engine.cancel_order(owner, id);
        } else {
            let side = if next() % 2 == 0 { Side::Bid } else { Side::Ask };
            let price = 49_900_000_000 + (next() % 21) * 10_000_001;
            let quantity = 1 + next() % 30_000_000;
            if let Ok(OrderOutcome::Resting { order_id }) =
                engine.place_order(user, side, price, quantity, 1_000 + round)
            {
                resting.push((user, order_id));
            }
        }
        if let (Some(bid), Some(ask)) =
            (engine.best_price(Side::Bid), engine.best_price(Side::Ask))
        {
            assert!(bid < ask);
        }
    }
    assert_eq!(total(&engine, AssetCode::Btc), btc);
    assert_eq!(total(&engine, AssetCode::Usdc), usdc);
    for user in [U1, U2, U3] {
        let account = engine.get_balances(user).unwrap();
        let orders = engine.get_user_orders(user);
        let asks: u64 =
            orders.iter().filter(|o| o.side == Side::Ask).map(|o| o.quantity).sum();
        let bids: u64 = orders
            .iter()
            .filter(|o| o.side == Side::Bid)
            .map(|o| spot_exchange::math::calculate_cost_usdc_micro(o.price, o.quantity).unwrap())
            .sum();
        assert_eq!(account.btc.locked, asks);
        assert!(account.usdc.locked >= bids);
        for order in orders {
            assert_eq!(order.user_id, user);
            assert!(order.quantity > 0);
        }
    }
}

#[test]
fn refused_order_takes_back_several_trades() {
    let mut engine = Engine::new();
    for user in [U1, U2, U3] {
        assert_eq!(engine.register_user(user), Ok(()));
    }
    assert_eq!(engine.deposit(U1, AssetCode::Btc, 3 * BTC), Ok(()));
    assert_eq!(engine.deposit(U2, AssetCode::Btc, BTC), Ok(()));
    assert_eq!(engine.deposit(U2, AssetCode::Usdc, u64::MAX - 10), Ok(()));
    assert_eq!(engine.deposit(U3, AssetCode::Usdc, 400_000 * USDC), Ok(()));
    assert!(engine.place_order(U1, Side::Ask, PRICE_50K, BTC, 400).is_ok());
    assert!(engine.place_order(U1, Side::Ask, PRICE_50K, 50_000_000, 401).is_ok());
    assert!(engine.place_order(U1, Side::Ask, PRICE_51K, BTC, 402).is_ok());
    assert!(engine.place_order(U2, Side::Ask, PRICE_51K, BTC, 403).is_ok());
    let accounts = |engine: &Engine| -> Vec<Option<UserBalance>> {
        [U1, U2, U3].iter().map(|user| engine.get_balances(*user)).collect()
    };
    let before = accounts(&engine);
    let orders_before = engine.get_user_orders(U1);
    assert_eq!(
        engine.place_order(U3, Side::Bid, PRICE_51K, 4 * BTC, 404),
        Err(EngineError::Overflow)
    );
    assert_eq!(accounts(&engine), before);
    assert_eq!(engine.get_user_orders(U1), orders_before);
    assert_eq!(engine.get_user_orders(U2).len(), 1);
    assert!(engine.get_user_orders(U3).is_empty());
    assert_eq!(engine.best_price(Side::Ask), Some(PRICE_50K));
    assert_eq!(engine.best_price(Side::Bid), None);
    // the orders are in the index and in their old places
    assert_eq!(
        engine.place_order(U3, Side::Bid, PRICE_50K, BTC + 20_000_000, 405),
        Ok(OrderOutcome::Filled)
    );
    assert_eq!(
        engine.get_user_orders(U1),
        vec![
            Order { id: 401, user_id: U1, side: Side::Ask, price: PRICE_50K, quantity: 30_000_000 },
            Order { id: 402, user_id: U1, side: Side::Ask, price: PRICE_51K, quantity: BTC },
        ]
    );
    assert_eq!(engine.cancel_order(U1, 400), Err(EngineError::OrderNotFound));
    assert_eq!(engine.cancel_order(U1, 401), Ok(()));
    assert_eq!(engine.cancel_order(U1, 402), Ok(()));
    assert_eq!(engine.cancel_order(U2, 403), Ok(()));
}
