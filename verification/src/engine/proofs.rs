//! Why each step of a command leaves the state of the engine in order.

use crate::engine::balance::{
    lemma_credited_supply, lemma_released, lemma_released_supply, lemma_reserved,
    lemma_supply_add, lemma_transferred, released, reserved, supply, transferred, AssetCode,
    UserBalance,
};
use crate::engine::orderbook::lemma_front_restored;
use crate::engine::orderbook::{
    best, exposure, found, front_taken, is_best, is_place, lemma_exposure_bounds,
    lemma_exposure_front_taken, lemma_exposure_none, lemma_exposure_pushed, lemma_exposure_removed,
    lemma_front_taken_wf, lemma_order_within_exposure, lemma_place_is, lemma_pushed_wf,
    lemma_removed_wf, level_wf, levels_wf, order_reserve, place, pushed, removed, reserve_of,
    Order, Side,
};
use crate::engine::state::{reserve_amount, reserve_asset, EngineState};
use crate::math::{cost, lemma_cost_bounds, lemma_cost_monotonic, lemma_cost_split};
use vstd::prelude::*;

verus! {

/// What the order being matched has locked in BTC beyond the taker's
/// resting asks: the reserve of an ask.
pub open spec fn pending_btc(side: Side, reserve: u64) -> int {
    match side {
        Side::Ask => reserve as int,
        Side::Bid => 0,
    }
}

/// What the order being matched has locked in USDC beyond the taker's
/// resting bids: the reserve of a bid.
pub open spec fn pending_usdc(side: Side, reserve: u64) -> int {
    match side {
        Side::Ask => 0,
        Side::Bid => reserve as int,
    }
}

/// Whether `reserve` covers what is left of an order: for an ask it is
/// exactly the quantity left, for a bid at least the cost of the quantity
/// left at the order's limit.
pub open spec fn covers(side: Side, limit: u64, remaining: u64, reserve: u64) -> bool {
    match side {
        Side::Ask => reserve == remaining,
        Side::Bid => reserve >= cost(limit as int, remaining as int),
    }
}

/// Whether the order of `taker` is in the middle of being matched: the
/// state is in order with the order's reserve pending, and the reserve
/// covers what is left of the order.
pub open spec fn matching(
    s: EngineState,
    taker: u128,
    side: Side,
    limit: u64,
    remaining: u64,
    reserve: u64,
) -> bool {
    &&& s.inv_matching(taker, pending_btc(side, reserve), pending_usdc(side, reserve))
    &&& s.users.contains_key(taker)
    &&& covers(side, limit, remaining, reserve)
}

/// Whether the order of `taker` can trade next at `price`: something is
/// left of it, and `price` is the best of the other side and within the
/// order's limit.
pub open spec fn can_trade(
    s: EngineState,
    taker: u128,
    side: Side,
    limit: u64,
    remaining: u64,
    reserve: u64,
    price: u64,
) -> bool {
    &&& matching(s, taker, side, limit, remaining, reserve)
    &&& remaining > 0
    &&& is_best(s.side(side.opposite()), side.opposite(), price)
    &&& EngineState::crosses(side, limit, price)
}

/// The quantity of the next trade: as much as both orders allow.
pub open spec fn trade_quantity(s: EngineState, side: Side, price: u64, remaining: u64) -> u64 {
    let maker = s.side(side.opposite())[price][0];
    if remaining < maker.quantity {
        remaining
    } else {
        maker.quantity
    }
}

/// The user who buys in a trade between `taker` on `side` and `maker`.
pub open spec fn buyer_of(taker: u128, side: Side, maker: Order) -> u128 {
    if side == Side::Bid {
        taker
    } else {
        maker.user_id
    }
}

/// The user who sells in a trade between `taker` on `side` and `maker`.
pub open spec fn seller_of(taker: u128, side: Side, maker: Order) -> u128 {
    if side == Side::Bid {
        maker.user_id
    } else {
        taker
    }
}

/// The next trade is for a positive quantity, its cost fits in 64 bits, and
/// both parties have locked what they owe. What is left of the taker's
/// reserve after it covers what is left of the order.
pub proof fn lemma_trade_amounts(
    s: EngineState,
    taker: u128,
    side: Side,
    limit: u64,
    remaining: u64,
    reserve: u64,
    price: u64,
)
    requires
        can_trade(s, taker, side, limit, remaining, reserve, price),
    ensures
        ({
            let levels = s.side(side.opposite());
            let maker = levels[price][0];
            let quantity = trade_quantity(s, side, price, remaining);
            let amount = cost(price as int, quantity as int);
            let buyer = buyer_of(taker, side, maker);
            let seller = seller_of(taker, side, maker);
            &&& levels.contains_key(price)
            &&& levels[price].len() > 0
            &&& maker.rests_at(side.opposite(), price)
            &&& s.users.contains_key(maker.user_id)
            &&& 0 < quantity <= remaining
            &&& quantity <= maker.quantity
            &&& 0 <= amount <= u64::MAX
            &&& quantity <= s.users[seller].btc.locked
            &&& amount <= s.users[buyer].usdc.locked
            &&& reserve_amount(side, price, quantity) <= reserve
            &&& covers(
                side,
                limit,
                (remaining - quantity) as u64,
                (reserve - reserve_amount(side, price, quantity)) as u64,
            )
        }),
{
    let opp = side.opposite();
    let levels = s.side(opp);
    assert(levels_wf(levels, opp));
    assert(levels.contains_key(price));
    assert(level_wf(levels[price], opp, price));
    let maker = levels[price][0];
    assert(maker.rests_at(opp, price));
    assert(s.side_indexed(opp));
    assert(s.users.contains_key(maker.user_id));
    let quantity = trade_quantity(s, side, price, remaining);
    let amount = cost(price as int, quantity as int);
    lemma_cost_bounds(price as int, quantity as int);
    lemma_order_within_exposure(levels, price, 0);
    crate::engine::orderbook::lemma_exposure_bounds(s.asks, taker);
    crate::engine::orderbook::lemma_exposure_bounds(s.bids, taker);
    crate::engine::orderbook::lemma_exposure_bounds(s.asks, maker.user_id);
    crate::engine::orderbook::lemma_exposure_bounds(s.bids, maker.user_id);
    assert(s.users.contains_key(taker));
    match side {
        Side::Bid => {
            // the maker sells: its ask has its quantity locked
            assert(order_reserve(maker) == maker.quantity);
            // the taker pays out of its reserve
            lemma_cost_monotonic(price as int, quantity as int, limit as int, remaining as int);
            lemma_cost_split(limit as int, quantity as int, remaining - quantity);
            lemma_cost_monotonic(price as int, quantity as int, limit as int, quantity as int);
        },
        Side::Ask => {
            // the maker buys: its bid has its cost locked
            assert(order_reserve(maker) == cost(price as int, maker.quantity as int));
            lemma_cost_monotonic(
                price as int,
                quantity as int,
                price as int,
                maker.quantity as int,
            );
        },
    }
}

/// A trade leaves the book, the index and the ledger's users in order.
#[verifier::rlimit(50)]
pub proof fn lemma_trade_structured(
    s: EngineState,
    taker: u128,
    side: Side,
    limit: u64,
    remaining: u64,
    reserve: u64,
    price: u64,
)
    requires
        can_trade(s, taker, side, limit, remaining, reserve, price),
    ensures
        s.trade(taker, side, price, trade_quantity(s, side, price, remaining)).structured(),
{
    lemma_trade_amounts(s, taker, side, limit, remaining, reserve, price);
    let opp = side.opposite();
    let levels = s.side(opp);
    let level = levels[price];
    let maker = level[0];
    let quantity = trade_quantity(s, side, price, remaining);
    let amount = cost(price as int, quantity as int) as u64;
    let buyer = buyer_of(taker, side, maker);
    let seller = seller_of(taker, side, maker);
    let after = s.trade(taker, side, price, quantity);
    let after_levels = front_taken(levels, price, quantity);
    assert(after.side(opp) == after_levels);
    assert(after.side(side) == s.side(side));
    assert(s.side_indexed(opp));
    assert(s.side_indexed(side));
    assert(s.index[maker.id] == (opp, price));

    // the ledger
    let mid = transferred(s.users, seller, buyer, AssetCode::Btc, quantity);
    lemma_transferred(s.users, seller, buyer, AssetCode::Btc, quantity);
    assert(mid.contains_key(buyer));
    assert(mid[buyer].of(AssetCode::Usdc) == s.users[buyer].of(AssetCode::Usdc));
    lemma_transferred(mid, buyer, seller, AssetCode::Usdc, amount);
    assert(after.users.dom() == s.users.dom());

    // the book
    lemma_front_taken_wf(levels, opp, price, quantity);
    assert forall|other: u64| #[trigger] after_levels.contains_key(other) implies levels.contains_key(
        other,
    ) by {}
    assert(after.uncrossed()) by {
        assert forall|bid: u64, ask: u64|
            #![trigger after.bids.contains_key(bid), after.asks.contains_key(ask)]
            after.bids.contains_key(bid) && after.asks.contains_key(ask) implies bid < ask by {
            assert(s.bids.contains_key(bid) && s.asks.contains_key(ask));
        }
    }

    // the orders of the side that traded
    assert(after.side_indexed(opp)) by {
        assert forall|p: u64, i: int|
            #![trigger after.side(opp)[p][i]]
            after.side(opp).contains_key(p) && 0 <= i < after.side(opp)[p].len() implies {
            let order = after.side(opp)[p][i];
            &&& after.index.contains_key(order.id)
            &&& after.index[order.id] == (opp, p)
            &&& is_place(after.side(opp)[p], order.id, i)
            &&& after.users.contains_key(order.user_id)
        } by {
            if p != price {
                let order = levels[p][i];
                assert(after.side(opp)[p][i] == order);
                assert(s.index[order.id] == (opp, p));
            } else if quantity < maker.quantity {
                let old_order = level[i];
                assert(after_levels[price] == level.update(
                    0,
                    maker.with_quantity((maker.quantity - quantity) as u64),
                ));
                assert(is_place(level, old_order.id, i));
                assert forall|j: int| 0 <= j < i implies (#[trigger] after_levels[price][j]).id
                    != old_order.id by {
                    assert(level[j].id != old_order.id);
                }
            } else {
                let old_order = level[i + 1];
                assert(after_levels[price] == level.remove(0));
                assert(after_levels[price][i] == old_order);
                assert(is_place(level, old_order.id, i + 1));
                assert(level[0].id != old_order.id);
                assert forall|j: int| 0 <= j < i implies (#[trigger] after_levels[price][j]).id
                    != old_order.id by {
                    assert(after_levels[price][j] == level[j + 1]);
                    assert(level[j + 1].id != old_order.id);
                }
            }
        }
    }

    // the orders of the taker's side
    assert(after.side_indexed(side)) by {
        assert forall|p: u64, i: int|
            #![trigger after.side(side)[p][i]]
            after.side(side).contains_key(p) && 0 <= i < after.side(side)[p].len() implies {
            let order = after.side(side)[p][i];
            &&& after.index.contains_key(order.id)
            &&& after.index[order.id] == (side, p)
            &&& is_place(after.side(side)[p], order.id, i)
            &&& after.users.contains_key(order.user_id)
        } by {
            let order = s.side(side)[p][i];
            assert(s.index[order.id] == (side, p));
        }
    }

    // the index
    assert(after.index_sound()) by {
        assert forall|id: u128| #[trigger] after.index.contains_key(id) implies found(
            after.side(after.index[id].0),
            after.index[id].1,
            id,
        ) is Some by {
            assert(s.index.contains_key(id));
            assert(after.index[id] == s.index[id]);
            let sd = s.index[id].0;
            let p = s.index[id].1;
            assert(found(s.side(sd), p, id) is Some);
            if sd == opp && p == price {
                let i = place(level, id).unwrap();
                assert(is_place(level, id, i));
                if quantity < maker.quantity {
                    let new_level = after_levels[price];
                    assert forall|j: int| 0 <= j < i implies (#[trigger] new_level[j]).id != id by {
                        assert(level[j].id != id);
                    }
                    assert(is_place(new_level, id, i));
                    lemma_place_is(new_level, id, i);
                } else {
                    assert(id != maker.id);
                    assert(i > 0);
                    let new_level = level.remove(0);
                    assert(after_levels[price] == new_level);
                    assert forall|j: int| 0 <= j < i - 1 implies (#[trigger] new_level[j]).id
                        != id by {
                        assert(new_level[j] == level[j + 1]);
                        assert(level[j + 1].id != id);
                    }
                    assert(new_level[i - 1] == level[i]);
                    assert(is_place(new_level, id, i - 1));
                    lemma_place_is(new_level, id, i - 1);
                }
            } else if sd == opp {
                assert(after.side(sd)[p] == s.side(sd)[p]);
            }
        }
    }
}

/// After a trade every user still has locked what the user's orders tie
/// up, and the taker what is left of the reserve on top.
#[verifier::rlimit(50)]
pub proof fn lemma_trade_funded(
    s: EngineState,
    taker: u128,
    side: Side,
    limit: u64,
    remaining: u64,
    reserve: u64,
    price: u64,
)
    requires
        can_trade(s, taker, side, limit, remaining, reserve, price),
    ensures
        ({
            let quantity = trade_quantity(s, side, price, remaining);
            let left = (reserve - reserve_amount(side, price, quantity)) as u64;
            s.trade(taker, side, price, quantity).funded(
                taker,
                pending_btc(side, left),
                pending_usdc(side, left),
            )
        }),
{
    lemma_trade_amounts(s, taker, side, limit, remaining, reserve, price);
    let opp = side.opposite();
    let levels = s.side(opp);
    let level = levels[price];
    let maker = level[0];
    let quantity = trade_quantity(s, side, price, remaining);
    let amount = cost(price as int, quantity as int) as u64;
    let left = (reserve - reserve_amount(side, price, quantity)) as u64;
    let buyer = buyer_of(taker, side, maker);
    let seller = seller_of(taker, side, maker);
    let after = s.trade(taker, side, price, quantity);
    assert(after.side(opp) == front_taken(levels, price, quantity));
    assert(after.side(side) == s.side(side));

    let mid = transferred(s.users, seller, buyer, AssetCode::Btc, quantity);
    lemma_transferred(s.users, seller, buyer, AssetCode::Btc, quantity);
    assert(mid.contains_key(buyer));
    assert(mid[buyer].of(AssetCode::Usdc) == s.users[buyer].of(AssetCode::Usdc));
    lemma_transferred(mid, buyer, seller, AssetCode::Usdc, amount);
    let what_is_left = maker.with_quantity((maker.quantity - quantity) as u64);
    if quantity < maker.quantity {
        lemma_cost_split(price as int, quantity as int, maker.quantity - quantity);
    }
    assert forall|user: u128| #[trigger] after.users.contains_key(user) implies {
        &&& after.users[user].btc.locked == exposure(after.asks, user) + (if user == taker {
            pending_btc(side, left)
        } else {
            0
        })
        &&& after.users[user].usdc.locked >= exposure(after.bids, user) + (if user == taker {
            pending_usdc(side, left)
        } else {
            0
        })
    } by {
        assert(s.users.contains_key(user));
        assert(mid.contains_key(user));
        lemma_exposure_front_taken(levels, price, quantity, user);
        let before = s.users[user];
        assert(mid[user].of(AssetCode::Btc).locked == before.of(AssetCode::Btc).locked - (if user
            == seller {
            quantity as int
        } else {
            0
        }));
        assert(mid[user].of(AssetCode::Usdc) == before.of(AssetCode::Usdc));
        assert(after.users[user].of(AssetCode::Usdc).locked == mid[user].of(
            AssetCode::Usdc,
        ).locked - (if user == buyer {
            amount as int
        } else {
            0
        }));
        assert(after.users[user].of(AssetCode::Btc) == mid[user].of(AssetCode::Btc));
        assert(after.users[user].btc.locked == before.btc.locked - (if user == seller {
            quantity as int
        } else {
            0
        }));
        assert(after.users[user].usdc.locked == before.usdc.locked - (if user == buyer {
            amount as int
        } else {
            0
        }));
        assert(reserve_of(user)(maker) == (if user == maker.user_id {
            order_reserve(maker)
        } else {
            0
        }));
        assert(reserve_of(user)(what_is_left) == (if user == maker.user_id {
            order_reserve(what_is_left)
        } else {
            0
        }));
    }
}

/// A trade keeps the matching going: the state stays in order, and what
/// is left of the reserve covers what is left of the order.
pub proof fn lemma_trade(
    s: EngineState,
    taker: u128,
    side: Side,
    limit: u64,
    remaining: u64,
    reserve: u64,
    price: u64,
)
    requires
        can_trade(s, taker, side, limit, remaining, reserve, price),
    ensures
        ({
            let quantity = trade_quantity(s, side, price, remaining);
            matching(
                s.trade(taker, side, price, quantity),
                taker,
                side,
                limit,
                (remaining - quantity) as u64,
                (reserve - reserve_amount(side, price, quantity)) as u64,
            )
        }),
{
    lemma_trade_amounts(s, taker, side, limit, remaining, reserve, price);
    lemma_trade_structured(s, taker, side, limit, remaining, reserve, price);
    lemma_trade_funded(s, taker, side, limit, remaining, reserve, price);
    let maker = s.side(side.opposite())[price][0];
    let quantity = trade_quantity(s, side, price, remaining);
    let amount = cost(price as int, quantity as int) as u64;
    let buyer = buyer_of(taker, side, maker);
    let seller = seller_of(taker, side, maker);
    let mid = transferred(s.users, seller, buyer, AssetCode::Btc, quantity);
    lemma_transferred(s.users, seller, buyer, AssetCode::Btc, quantity);
    assert(mid.contains_key(buyer));
    assert(mid[buyer].of(AssetCode::Usdc) == s.users[buyer].of(AssetCode::Usdc));
    lemma_transferred(mid, buyer, seller, AssetCode::Usdc, amount);
}

/// Locking the reserve of an order starts its matching.
pub proof fn lemma_lock(s: EngineState, user: u128, side: Side, price: u64, quantity: u64)
    requires
        s.inv(),
        s.users.contains_key(user),
        reserve_amount(side, price, quantity) <= s.users[user].of(reserve_asset(side)).available,
        s.users[user].of(reserve_asset(side)).locked + reserve_amount(side, price, quantity)
            <= u64::MAX,
    ensures
        matching(
            s.with_users(
                reserved(
                    s.users,
                    user,
                    reserve_asset(side),
                    reserve_amount(side, price, quantity) as u64,
                ),
            ),
            user,
            side,
            price,
            quantity,
            reserve_amount(side, price, quantity) as u64,
        ),
{
    let code = reserve_asset(side);
    lemma_cost_bounds(price as int, quantity as int);
    let reserve = reserve_amount(side, price, quantity) as u64;
    let after = s.with_users(reserved(s.users, user, code, reserve));
    lemma_reserved(s.users, user, code, reserve);
    assert(after.side_indexed(Side::Bid)) by {
        assert(s.side_indexed(Side::Bid));
    }
    assert(after.side_indexed(Side::Ask)) by {
        assert(s.side_indexed(Side::Ask));
    }
    assert(after.index_sound()) by {
        assert(s.index_sound());
    }
    assert(after.uncrossed()) by {
        assert(s.uncrossed());
    }
    assert forall|who: u128| #[trigger] after.users.contains_key(who) implies {
        &&& after.users[who].btc.locked == exposure(after.asks, who) + (if who == user {
            pending_btc(side, reserve)
        } else {
            0
        })
        &&& after.users[who].usdc.locked >= exposure(after.bids, who) + (if who == user {
            pending_usdc(side, reserve)
        } else {
            0
        })
    } by {
        assert(s.users.contains_key(who));
        let before = s.users[who];
        match side {
            Side::Ask => {
                assert(after.users[who].of(AssetCode::Usdc) == before.of(AssetCode::Usdc));
                assert(after.users[who].of(AssetCode::Btc).locked == before.of(
                    AssetCode::Btc,
                ).locked + (if who == user {
                    reserve as int
                } else {
                    0
                }));
            },
            Side::Bid => {
                assert(after.users[who].of(AssetCode::Btc) == before.of(AssetCode::Btc));
                assert(after.users[who].of(AssetCode::Usdc).locked == before.of(
                    AssetCode::Usdc,
                ).locked + (if who == user {
                    reserve as int
                } else {
                    0
                }));
            },
        }
    }
}

/// An order that is filled gets back what is left of its reserve, and the
/// state is in order again.
pub proof fn lemma_refund(s: EngineState, user: u128, side: Side, limit: u64, reserve: u64)
    requires
        matching(s, user, side, limit, 0, reserve),
    ensures
        reserve <= s.users[user].of(reserve_asset(side)).locked,
        s.with_users(released(s.users, user, reserve_asset(side), reserve)).inv(),
{
    let code = reserve_asset(side);
    lemma_exposure_bounds(s.asks, user);
    lemma_exposure_bounds(s.bids, user);
    let after = s.with_users(released(s.users, user, code, reserve));
    lemma_released(s.users, user, code, reserve);
    assert(after.side_indexed(Side::Bid)) by {
        assert(s.side_indexed(Side::Bid));
    }
    assert(after.side_indexed(Side::Ask)) by {
        assert(s.side_indexed(Side::Ask));
    }
    assert(after.index_sound()) by {
        assert(s.index_sound());
    }
    assert(after.uncrossed()) by {
        assert(s.uncrossed());
    }
    assert forall|who: u128| #[trigger] after.users.contains_key(who) implies {
        &&& after.users[who].btc.locked == exposure(after.asks, who)
        &&& after.users[who].usdc.locked >= exposure(after.bids, who)
    } by {
        assert(s.users.contains_key(who));
        let before = s.users[who];
        match side {
            Side::Ask => {
                assert(after.users[who].of(AssetCode::Usdc) == before.of(AssetCode::Usdc));
                assert(after.users[who].of(AssetCode::Btc).locked == before.of(
                    AssetCode::Btc,
                ).locked - (if who == user {
                    reserve as int
                } else {
                    0
                }));
            },
            Side::Bid => {
                assert(after.users[who].of(AssetCode::Btc) == before.of(AssetCode::Btc));
                assert(after.users[who].of(AssetCode::Usdc).locked == before.of(
                    AssetCode::Usdc,
                ).locked - (if who == user {
                    reserve as int
                } else {
                    0
                }));
            },
        }
    }
}

/// What is left of an order that found no further match may rest: with it
/// at the end of its queue and in the index, the state is in order again.
#[verifier::rlimit(50)]
pub proof fn lemma_rest(
    s: EngineState,
    user: u128,
    side: Side,
    price: u64,
    remaining: u64,
    reserve: u64,
    id: u128,
)
    requires
        matching(s, user, side, price, remaining, reserve),
        remaining > 0,
        price > 0,
        !s.index.contains_key(id),
        forall|other: u64| #[trigger]
            s.side(side.opposite()).contains_key(other) ==> !EngineState::crosses(
                side,
                price,
                other,
            ),
    ensures
        s.with_side(
            side,
            pushed(s.side(side), Order { id, user_id: user, side, price, quantity: remaining }),
        ).with_index(s.index.insert(id, (side, price))).inv(),
{
    let opp = side.opposite();
    let order = Order { id, user_id: user, side, price, quantity: remaining };
    let levels = s.side(side);
    let after_levels = pushed(levels, order);
    let after = s.with_side(side, after_levels).with_index(s.index.insert(id, (side, price)));
    assert(after.side(side) == after_levels);
    assert(after.side(opp) == s.side(opp));
    assert(s.side_indexed(side));
    assert(s.side_indexed(opp));
    lemma_pushed_wf(levels, side, order);
    let old_level = if levels.contains_key(price) {
        levels[price]
    } else {
        Seq::<Order>::empty()
    };
    let new_level = old_level.push(order);
    assert(after_levels[price] == new_level);

    assert(after.uncrossed()) by {
        assert forall|bid: u64, ask: u64|
            #![trigger after.bids.contains_key(bid), after.asks.contains_key(ask)]
            after.bids.contains_key(bid) && after.asks.contains_key(ask) implies bid < ask by {
            match side {
                Side::Bid => {
                    assert(s.asks.contains_key(ask));
                    if bid != price {
                        assert(s.bids.contains_key(bid));
                    }
                },
                Side::Ask => {
                    assert(s.bids.contains_key(bid));
                    if ask != price {
                        assert(s.asks.contains_key(ask));
                    }
                },
            }
        }
    }

    assert(after.side_indexed(side)) by {
        assert forall|p: u64, i: int|
            #![trigger after.side(side)[p][i]]
            after.side(side).contains_key(p) && 0 <= i < after.side(side)[p].len() implies {
            let o = after.side(side)[p][i];
            &&& after.index.contains_key(o.id)
            &&& after.index[o.id] == (side, p)
            &&& is_place(after.side(side)[p], o.id, i)
            &&& after.users.contains_key(o.user_id)
        } by {
            if p != price {
                let o = levels[p][i];
                assert(after.side(side)[p][i] == o);
                assert(s.index.contains_key(o.id));
            } else if i < old_level.len() {
                let o = levels[p][i];
                assert(new_level[i] == o);
                assert(s.index.contains_key(o.id));
                assert(is_place(old_level, o.id, i));
                assert forall|j: int| 0 <= j < i implies (#[trigger] new_level[j]).id != o.id by {
                    assert(old_level[j].id != o.id);
                }
            } else {
                assert(new_level[i] == order);
                assert forall|j: int| 0 <= j < i implies (#[trigger] new_level[j]).id != id by {
                    let o = levels[p][j];
                    assert(new_level[j] == o);
                    assert(s.index.contains_key(o.id));
                }
            }
        }
    }

    assert(after.side_indexed(opp)) by {
        assert forall|p: u64, i: int|
            #![trigger after.side(opp)[p][i]]
            after.side(opp).contains_key(p) && 0 <= i < after.side(opp)[p].len() implies {
            let o = after.side(opp)[p][i];
            &&& after.index.contains_key(o.id)
            &&& after.index[o.id] == (opp, p)
            &&& is_place(after.side(opp)[p], o.id, i)
            &&& after.users.contains_key(o.user_id)
        } by {
            let o = s.side(opp)[p][i];
            assert(s.index.contains_key(o.id));
        }
    }

    assert(after.index_sound()) by {
        assert forall|other: u128| #[trigger] after.index.contains_key(other) implies found(
            after.side(after.index[other].0),
            after.index[other].1,
            other,
        ) is Some by {
            if other == id {
                let last = new_level.len() - 1;
                assert(new_level[last] == order);
                assert forall|j: int| 0 <= j < last implies (#[trigger] new_level[j]).id != id by {
                    let o = levels[price][j];
                    assert(new_level[j] == o);
                    assert(s.index.contains_key(o.id));
                }
                assert(is_place(new_level, id, last));
                lemma_place_is(new_level, id, last);
            } else {
                assert(s.index.contains_key(other));
                let sd = s.index[other].0;
                let p = s.index[other].1;
                assert(found(s.side(sd), p, other) is Some);
                if sd == side && p == price {
                    let i = place(old_level, other).unwrap();
                    assert(is_place(old_level, other, i));
                    assert forall|j: int| 0 <= j < i implies (#[trigger] new_level[j]).id
                        != other by {
                        assert(old_level[j].id != other);
                    }
                    assert(new_level[i] == old_level[i]);
                    assert(is_place(new_level, other, i));
                    lemma_place_is(new_level, other, i);
                } else if sd == side {
                    assert(after.side(sd)[p] == s.side(sd)[p]);
                }
            }
        }
    }

    assert forall|who: u128| #[trigger] after.users.contains_key(who) implies {
        &&& after.users[who].btc.locked == exposure(after.asks, who)
        &&& after.users[who].usdc.locked >= exposure(after.bids, who)
    } by {
        lemma_exposure_pushed(levels, order, who);
        assert(reserve_of(who)(order) == (if who == user {
            order_reserve(order)
        } else {
            0
        }));
    }
}

/// An order in the index rests where the index says, belongs to a user of
/// the ledger, and has its reserve locked there.
pub proof fn lemma_indexed_order(s: EngineState, id: u128)
    requires
        s.inv(),
        s.index.contains_key(id),
    ensures
        ({
            let side = s.index[id].0;
            let price = s.index[id].1;
            let order = found(s.side(side), price, id);
            &&& order is Some
            &&& order.unwrap().id == id
            &&& order.unwrap().rests_at(side, price)
            &&& s.users.contains_key(order.unwrap().user_id)
            &&& 0 <= reserve_amount(side, price, order.unwrap().quantity)
                <= s.users[order.unwrap().user_id].of(reserve_asset(side)).locked
        }),
{
    let side = s.index[id].0;
    let price = s.index[id].1;
    let levels = s.side(side);
    assert(s.index_sound());
    assert(found(levels, price, id) is Some);
    let i = place(levels[price], id).unwrap();
    assert(is_place(levels[price], id, i));
    let order = levels[price][i];
    assert(s.side_indexed(side));
    assert(level_wf(levels[price], side, price));
    assert(order.rests_at(side, price));
    lemma_order_within_exposure(levels, price, i);
}

/// Cancelling an order of one's own leaves the state in order.
#[verifier::rlimit(50)]
pub proof fn lemma_cancel(s: EngineState, user: u128, id: u128)
    requires
        s.inv(),
    ensures
        s.cancel(user, id).0.inv(),
        s.cancel(user, id).1 is Ok ==> !s.cancel(user, id).0.index.contains_key(id),
        supply(s.cancel(user, id).0.users, AssetCode::Btc) == supply(s.users, AssetCode::Btc),
        supply(s.cancel(user, id).0.users, AssetCode::Usdc) == supply(s.users, AssetCode::Usdc),
{
    if s.index.contains_key(id) {
        lemma_indexed_order(s, id);
        let side = s.index[id].0;
        let opp = side.opposite();
        let price = s.index[id].1;
        let levels = s.side(side);
        let level = levels[price];
        let at = place(level, id).unwrap();
        assert(is_place(level, id, at));
        let order = level[at];
        if s.cancel(user, id).1 is Ok {
            let code = reserve_asset(side);
            let amount = reserve_amount(side, price, order.quantity) as u64;
            let after = s.cancel(user, id).0;
            let after_levels = removed(levels, price, id);
            assert(after.side(side) == after_levels);
            assert(after.side(opp) == s.side(opp));
            assert(s.side_indexed(side));
            assert(s.side_indexed(opp));
            lemma_removed_wf(levels, side, price, id);
            lemma_released(s.users, user, code, amount);
            lemma_released_supply(s.users, user, code, amount, AssetCode::Btc);
            lemma_released_supply(s.users, user, code, amount, AssetCode::Usdc);
            assert forall|other: u64| #[trigger] after_levels.contains_key(other) implies levels.contains_key(
                other,
            ) by {}
            assert(after.uncrossed()) by {
                assert forall|bid: u64, ask: u64|
                    #![trigger after.bids.contains_key(bid), after.asks.contains_key(ask)]
                    after.bids.contains_key(bid) && after.asks.contains_key(ask) implies bid
                    < ask by {
                    assert(s.bids.contains_key(bid) && s.asks.contains_key(ask));
                }
            }
            assert(after.side_indexed(side)) by {
                assert forall|p: u64, i: int|
                    #![trigger after.side(side)[p][i]]
                    after.side(side).contains_key(p) && 0 <= i < after.side(side)[p].len() implies {
                    let o = after.side(side)[p][i];
                    &&& after.index.contains_key(o.id)
                    &&& after.index[o.id] == (side, p)
                    &&& is_place(after.side(side)[p], o.id, i)
                    &&& after.users.contains_key(o.user_id)
                } by {
                    if p != price {
                        let o = levels[p][i];
                        assert(after.side(side)[p][i] == o);
                        assert(s.index[o.id] == (side, p));
                    } else {
                        let new_level = level.remove(at);
                        assert(after_levels[price] == new_level);
                        let k = if i < at {
                            i
                        } else {
                            i + 1
                        };
                        let o = level[k];
                        assert(new_level[i] == o);
                        assert(is_place(level, o.id, k));
                        assert(is_place(level, level[at].id, at));
                        assert(o.id != id) by {
                            if k < at {
                                assert(level[k].id != id);
                            } else {
                                assert(level[at].id != o.id);
                            }
                        }
                        assert forall|j: int| 0 <= j < i implies (#[trigger] new_level[j]).id
                            != o.id by {
                            if j < at {
                                assert(new_level[j] == level[j]);
                                assert(level[j].id != o.id);
                            } else {
                                assert(new_level[j] == level[j + 1]);
                                assert(level[j + 1].id != o.id);
                            }
                        }
                    }
                }
            }
            assert(after.side_indexed(opp)) by {
                assert forall|p: u64, i: int|
                    #![trigger after.side(opp)[p][i]]
                    after.side(opp).contains_key(p) && 0 <= i < after.side(opp)[p].len() implies {
                    let o = after.side(opp)[p][i];
                    &&& after.index.contains_key(o.id)
                    &&& after.index[o.id] == (opp, p)
                    &&& is_place(after.side(opp)[p], o.id, i)
                    &&& after.users.contains_key(o.user_id)
                } by {
                    let o = s.side(opp)[p][i];
                    assert(s.index[o.id] == (opp, p));
                }
            }
            assert(after.index_sound()) by {
                assert forall|other: u128| #[trigger] after.index.contains_key(other) implies found(
                    after.side(after.index[other].0),
                    after.index[other].1,
                    other,
                ) is Some by {
                    assert(s.index.contains_key(other));
                    let sd = s.index[other].0;
                    let p = s.index[other].1;
                    assert(found(s.side(sd), p, other) is Some);
                    if sd == side && p == price {
                        let i = place(level, other).unwrap();
                        assert(is_place(level, other, i));
                        assert(i != at);
                        let new_level = level.remove(at);
                        assert(after_levels[price] == new_level);
                        let k = if i < at {
                            i
                        } else {
                            i - 1
                        };
                        assert(new_level[k] == level[i]);
                        assert forall|j: int| 0 <= j < k implies (#[trigger] new_level[j]).id
                            != other by {
                            if j < at {
                                assert(new_level[j] == level[j]);
                                assert(level[j].id != other);
                            } else {
                                assert(new_level[j] == level[j + 1]);
                                assert(level[j + 1].id != other);
                            }
                        }
                        assert(is_place(new_level, other, k));
                        lemma_place_is(new_level, other, k);
                    } else if sd == side {
                        assert(after.side(sd)[p] == s.side(sd)[p]);
                    }
                }
            }
            assert forall|who: u128| #[trigger] after.users.contains_key(who) implies {
                &&& after.users[who].btc.locked == exposure(after.asks, who)
                &&& after.users[who].usdc.locked >= exposure(after.bids, who)
            } by {
                assert(s.users.contains_key(who));
                lemma_exposure_removed(levels, price, id, who);
                assert(reserve_of(who)(order) == (if who == user {
                    order_reserve(order)
                } else {
                    0
                }));
                let before = s.users[who];
                match side {
                    Side::Ask => {
                        assert(after.users[who].of(AssetCode::Usdc) == before.of(
                            AssetCode::Usdc,
                        ));
                        assert(after.users[who].of(AssetCode::Btc).locked == before.of(
                            AssetCode::Btc,
                        ).locked - (if who == user {
                            amount as int
                        } else {
                            0
                        }));
                    },
                    Side::Bid => {
                        assert(after.users[who].of(AssetCode::Btc) == before.of(AssetCode::Btc));
                        assert(after.users[who].of(AssetCode::Usdc).locked == before.of(
                            AssetCode::Usdc,
                        ).locked - (if who == user {
                            amount as int
                        } else {
                            0
                        }));
                    },
                }
            }
        }
    }
}

/// A new user leaves the state in order.
pub proof fn lemma_register(s: EngineState, user: u128)
    requires
        s.inv(),
    ensures
        s.register(user).0.inv(),
        supply(s.register(user).0.users, AssetCode::Btc) == supply(s.users, AssetCode::Btc),
        supply(s.register(user).0.users, AssetCode::Usdc) == supply(s.users, AssetCode::Usdc),
{
    if !s.users.contains_key(user) {
        let after = s.register(user).0;
        lemma_supply_add(s.users, user, UserBalance::empty(), AssetCode::Btc);
        lemma_supply_add(s.users, user, UserBalance::empty(), AssetCode::Usdc);
        assert(s.side_indexed(Side::Bid));
        assert(s.side_indexed(Side::Ask));
        assert(after.side_indexed(Side::Bid));
        assert(after.side_indexed(Side::Ask));
        assert(after.index_sound()) by {
            assert(s.index_sound());
        }
        assert(after.uncrossed()) by {
            assert(s.uncrossed());
        }
        assert forall|price: u64, i: int|
            s.asks.contains_key(price) && 0 <= i < s.asks[price].len() implies (
        #[trigger] s.asks[price][i]).user_id != user by {
            assert(s.users.contains_key(s.side(Side::Ask)[price][i].user_id));
        }
        assert forall|price: u64, i: int|
            s.bids.contains_key(price) && 0 <= i < s.bids[price].len() implies (
        #[trigger] s.bids[price][i]).user_id != user by {
            assert(s.users.contains_key(s.side(Side::Bid)[price][i].user_id));
        }
        lemma_exposure_none(s.asks, user);
        lemma_exposure_none(s.bids, user);
        assert forall|who: u128| #[trigger] after.users.contains_key(who) implies {
            &&& after.users[who].btc.locked == exposure(after.asks, who)
            &&& after.users[who].usdc.locked >= exposure(after.bids, who)
        } by {
            if who != user {
                assert(s.users.contains_key(who));
            }
        }
    }
}

/// A deposit leaves the state in order.
pub proof fn lemma_deposit(s: EngineState, user: u128, code: AssetCode, amount: u64)
    requires
        s.inv(),
    ensures
        s.deposit(user, code, amount).0.inv(),
        forall|other: AssetCode|
            supply(s.deposit(user, code, amount).0.users, other) == supply(s.users, other) + (
            if s.deposit(user, code, amount).1 is Ok && other == code {
                amount as int
            } else {
                0
            }),
{
    if s.deposit(user, code, amount).1 is Ok {
        let after = s.deposit(user, code, amount).0;
        assert(after.users.dom() =~= s.users.dom());
        lemma_credited_supply(s.users, user, code, amount, AssetCode::Btc);
        lemma_credited_supply(s.users, user, code, amount, AssetCode::Usdc);
        assert(s.side_indexed(Side::Bid));
        assert(s.side_indexed(Side::Ask));
        assert(after.side_indexed(Side::Bid));
        assert(after.side_indexed(Side::Ask));
        assert(after.index_sound()) by {
            assert(s.index_sound());
        }
        assert(after.uncrossed()) by {
            assert(s.uncrossed());
        }
        assert forall|who: u128| #[trigger] after.users.contains_key(who) implies {
            &&& after.users[who].btc.locked == exposure(after.asks, who)
            &&& after.users[who].usdc.locked >= exposure(after.bids, who)
        } by {
            assert(s.users.contains_key(who));
        }
    }
}

/// A trade that is taken back leaves the state as it was before the trade.
pub proof fn lemma_untrade(
    s: EngineState,
    taker: u128,
    side: Side,
    limit: u64,
    remaining: u64,
    reserve: u64,
    price: u64,
)
    requires
        can_trade(s, taker, side, limit, remaining, reserve, price),
    ensures
        ({
            let quantity = trade_quantity(s, side, price, remaining);
            s.trade(taker, side, price, quantity).untrade(s.record(taker, side, price, quantity))
                == s
        }),
{
    lemma_trade_amounts(s, taker, side, limit, remaining, reserve, price);
    let opp = side.opposite();
    let levels = s.side(opp);
    let maker = levels[price][0];
    let quantity = trade_quantity(s, side, price, remaining);
    let amount = cost(price as int, quantity as int) as u64;
    let buyer = buyer_of(taker, side, maker);
    let seller = seller_of(taker, side, maker);
    let after = s.trade(taker, side, price, quantity);
    let back = after.untrade(s.record(taker, side, price, quantity));
    assert(s.side_indexed(opp));
    assert(s.index.contains_key(maker.id) && s.index[maker.id] == (opp, price));
    lemma_front_restored(levels, price, quantity);
    let mid = transferred(s.users, seller, buyer, AssetCode::Btc, quantity);
    lemma_transferred(s.users, seller, buyer, AssetCode::Btc, quantity);
    assert(mid.contains_key(buyer));
    assert(mid[buyer].of(AssetCode::Usdc) == s.users[buyer].of(AssetCode::Usdc));
    lemma_transferred(mid, buyer, seller, AssetCode::Usdc, amount);
    assert(after.side(opp) == front_taken(levels, price, quantity));
    assert(back.side(opp) == levels);
    assert(back.side(side) == s.side(side));
    assert(back.users =~= s.users);
    assert(back.index =~= s.index);
    match side {
        Side::Ask => {
            assert(back.bids == s.bids && back.asks == s.asks);
        },
        Side::Bid => {
            assert(back.bids == s.bids && back.asks == s.asks);
        },
    }
}

} // verus!
