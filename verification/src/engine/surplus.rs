//! How what the users have locked in USDC relates to their resting bids.

use crate::engine::balance::{
    lemma_released, lemma_reserved, lemma_transferred, reserved, transferred, AssetCode,
};
use crate::engine::laws::{lemma_fill, lemma_trade_effects};
use crate::engine::orderbook::{
    best, exposure, is_best, lemma_exposure_front_taken, lemma_exposure_none,
    lemma_exposure_pushed, lemma_exposure_removed, order_reserve, place, pushed, removed,
    reserve_of, Order, Side,
};
use crate::engine::proofs::{
    buyer_of, can_trade, lemma_indexed_order, lemma_lock, lemma_trade, lemma_trade_amounts,
    matching, pending_usdc, seller_of, trade_quantity,
};
use crate::engine::state::{reserve_amount, reserve_asset, EngineState};
use crate::engine::{answers, EngineCommand, EngineReply};
use crate::math::{cost, lemma_cost_bounds, lemma_cost_split};
use vstd::prelude::*;

verus! {

/// What `user` has locked in USDC beyond what the user's resting bids tie
/// up.
pub open spec fn surplus(s: EngineState, user: u128) -> int {
    s.users[user].usdc.locked - exposure(s.bids, user)
}

/// The surplus of `user` while the order of `taker` is being matched: what
/// is pending for that order is no surplus.
pub open spec fn surplus_while_matching(
    s: EngineState,
    user: u128,
    taker: u128,
    pending: int,
) -> int {
    surplus(s, user) - (if user == taker {
        pending
    } else {
        0
    })
}

/// What one trade adds to the surplus of `user`: where it fills a part of
/// a bid of the user, what rounding makes the cost of the part and the
/// cost of the rest fall short of the cost of the whole.
pub open spec fn trade_loss(
    s: EngineState,
    side: Side,
    price: u64,
    quantity: u64,
    user: u128,
) -> int {
    let maker = s.side(side.opposite())[price][0];
    if side == Side::Ask && quantity < maker.quantity && maker.user_id == user {
        cost(price as int, maker.quantity as int) - cost(price as int, quantity as int) - cost(
            price as int,
            maker.quantity - quantity,
        )
    } else {
        0
    }
}

/// What the trades of an order that is being matched add to the surplus
/// of `user`.
pub open spec fn fill_loss(
    s: EngineState,
    taker: u128,
    side: Side,
    limit: u64,
    remaining: u64,
    reserve: u64,
    user: u128,
) -> int
    decreases remaining,
{
    if remaining == 0 {
        0
    } else {
        match best(s.side(side.opposite()), side.opposite()) {
            None => 0,
            Some(price) => {
                let quantity = trade_quantity(s, side, price, remaining);
                if !EngineState::crosses(side, limit, price) || quantity == 0 || !s.trade_fits(
                    taker,
                    side,
                    price,
                    quantity,
                ) {
                    0
                } else {
                    trade_loss(s, side, price, quantity, user) + fill_loss(
                        s.trade(taker, side, price, quantity),
                        taker,
                        side,
                        limit,
                        (remaining - quantity) as u64,
                        (reserve - reserve_amount(side, price, quantity)) as u64,
                        user,
                    )
                }
            },
        }
    }
}

/// What an order of `user`, if it is taken in, adds to the surplus of
/// `who`: the rounding losses of its trades and, where what is left of a
/// bid of `who` rests, what its reserve has left beyond the cost of what
/// rests.
pub open spec fn submit_loss(
    s: EngineState,
    user: u128,
    side: Side,
    price: u64,
    quantity: u64,
    who: u128,
) -> int {
    let reserve = reserve_amount(side, price, quantity) as u64;
    let locked = s.with_users(reserved(s.users, user, reserve_asset(side), reserve));
    let m = locked.fill(user, side, price, quantity, reserve);
    fill_loss(locked, user, side, price, quantity, reserve, who) + (if who == user && side
        == Side::Bid && m.remaining > 0 {
        m.reserve - cost(price as int, m.remaining as int)
    } else {
        0
    })
}

/// A trade adds its rounding loss to the surplus of a user, and nothing
/// else.
#[verifier::rlimit(50)]
pub proof fn lemma_trade_surplus(
    s: EngineState,
    taker: u128,
    side: Side,
    limit: u64,
    remaining: u64,
    reserve: u64,
    price: u64,
    user: u128,
)
    requires
        can_trade(s, taker, side, limit, remaining, reserve, price),
        s.users.contains_key(user),
    ensures
        ({
            let quantity = trade_quantity(s, side, price, remaining);
            let left = (reserve - reserve_amount(side, price, quantity)) as u64;
            &&& 0 <= trade_loss(s, side, price, quantity, user) <= 1
            &&& surplus_while_matching(
                s.trade(taker, side, price, quantity),
                user,
                taker,
                pending_usdc(side, left),
            ) == surplus_while_matching(s, user, taker, pending_usdc(side, reserve)) + trade_loss(
                s,
                side,
                price,
                quantity,
                user,
            )
        }),
{
    lemma_trade_amounts(s, taker, side, limit, remaining, reserve, price);
    let opp = side.opposite();
    let levels = s.side(opp);
    let maker = levels[price][0];
    let quantity = trade_quantity(s, side, price, remaining);
    let amount = cost(price as int, quantity as int) as u64;
    let buyer = buyer_of(taker, side, maker);
    let seller = seller_of(taker, side, maker);
    let after = s.trade(taker, side, price, quantity);
    let mid = transferred(s.users, seller, buyer, AssetCode::Btc, quantity);
    lemma_transferred(s.users, seller, buyer, AssetCode::Btc, quantity);
    assert(mid.contains_key(buyer));
    assert(mid.contains_key(user));
    assert(mid[buyer].of(AssetCode::Usdc) == s.users[buyer].of(AssetCode::Usdc));
    assert(mid[user].of(AssetCode::Usdc) == s.users[user].of(AssetCode::Usdc));
    lemma_transferred(mid, buyer, seller, AssetCode::Usdc, amount);
    assert(after.users[user].of(AssetCode::Usdc).locked == mid[user].of(AssetCode::Usdc).locked
        - (if user == buyer {
        amount as int
    } else {
        0
    }));
    assert(after.users[user].usdc.locked == s.users[user].usdc.locked - (if user == buyer {
        amount as int
    } else {
        0
    }));
    let what_is_left = maker.with_quantity((maker.quantity - quantity) as u64);
    if quantity < maker.quantity {
        lemma_cost_split(price as int, quantity as int, maker.quantity - quantity);
    }
    lemma_cost_bounds(price as int, maker.quantity as int);
    match side {
        Side::Bid => {
            assert(after.bids == s.bids);
        },
        Side::Ask => {
            lemma_exposure_front_taken(levels, price, quantity, user);
            assert(reserve_of(user)(maker) == (if user == maker.user_id {
                order_reserve(maker)
            } else {
                0
            }));
            assert(reserve_of(user)(what_is_left) == (if user == maker.user_id {
                order_reserve(what_is_left)
            } else {
                0
            }));
        },
    }
}

/// Matching adds the rounding losses of its trades to the surplus of a
/// user, and nothing else. No loss is negative.
pub proof fn lemma_fill_surplus(
    s: EngineState,
    taker: u128,
    side: Side,
    limit: u64,
    remaining: u64,
    reserve: u64,
    user: u128,
)
    requires
        matching(s, taker, side, limit, remaining, reserve),
        s.users.contains_key(user),
    ensures
        ({
            let m = s.fill(taker, side, limit, remaining, reserve);
            &&& 0 <= fill_loss(s, taker, side, limit, remaining, reserve, user)
            &&& surplus_while_matching(m.state, user, taker, pending_usdc(side, m.reserve))
                == surplus_while_matching(s, user, taker, pending_usdc(side, reserve)) + fill_loss(
                s,
                taker,
                side,
                limit,
                remaining,
                reserve,
                user,
            )
        }),
    decreases remaining,
{
    let opp = side.opposite();
    if remaining > 0 {
        match best(s.side(opp), opp) {
            None => {},
            Some(price) => {
                assert(is_best(s.side(opp), opp, price));
                let quantity = trade_quantity(s, side, price, remaining);
                if EngineState::crosses(side, limit, price) && s.trade_fits(
                    taker,
                    side,
                    price,
                    quantity,
                ) {
                    lemma_trade_amounts(s, taker, side, limit, remaining, reserve, price);
                    lemma_trade(s, taker, side, limit, remaining, reserve, price);
                    lemma_trade_effects(s, taker, side, limit, remaining, reserve, price);
                    lemma_trade_surplus(s, taker, side, limit, remaining, reserve, price, user);
                    let next = s.trade(taker, side, price, quantity);
                    let left = (remaining - quantity) as u64;
                    let kept = (reserve - reserve_amount(side, price, quantity)) as u64;
                    assert(next.users.contains_key(user));
                    lemma_fill_surplus(next, taker, side, limit, left, kept, user);
                }
            },
        }
    }
}

/// An order that is taken in adds to the surplus of every user what
/// `submit_loss` says, which is never negative; one that is refused adds
/// nothing.
#[verifier::rlimit(50)]
pub proof fn law_submit_surplus(
    s: EngineState,
    user: u128,
    side: Side,
    price: u64,
    quantity: u64,
    id: u128,
    who: u128,
)
    requires
        s.inv(),
        s.users.contains_key(who),
    ensures
        0 <= surplus(s, who) <= surplus(s.submit(user, side, price, quantity, id).0, who),
        surplus(s.submit(user, side, price, quantity, id).0, who) == surplus(s, who) + (if s.submit(
            user,
            side,
            price,
            quantity,
            id,
        ).1 is Ok {
            submit_loss(s, user, side, price, quantity, who)
        } else {
            0
        }),
{
    crate::engine::orderbook::lemma_exposure_bounds(s.bids, who);
    if s.submit(user, side, price, quantity, id).1 is Ok {
        let code = reserve_asset(side);
        let reserve = reserve_amount(side, price, quantity) as u64;
        let locked = s.with_users(reserved(s.users, user, code, reserve));
        lemma_lock(s, user, side, price, quantity);
        lemma_reserved(s.users, user, code, reserve);
        assert(locked.users.contains_key(who));
        assert(surplus_while_matching(locked, who, user, pending_usdc(side, reserve)) == surplus(
            s,
            who,
        )) by {
            match side {
                Side::Ask => {
                    assert(locked.users[who].of(AssetCode::Usdc) == s.users[who].of(
                        AssetCode::Usdc,
                    ));
                },
                Side::Bid => {
                    assert(locked.users[who].of(AssetCode::Usdc).locked == s.users[who].of(
                        AssetCode::Usdc,
                    ).locked + (if who == user {
                        reserve as int
                    } else {
                        0
                    }));
                },
            }
        }
        lemma_fill(locked, user, side, price, quantity, reserve);
        lemma_fill_surplus(locked, user, side, price, quantity, reserve, who);
        let m = locked.fill(user, side, price, quantity, reserve);
        let after = s.submit(user, side, price, quantity, id).0;
        assert(m.state.users.contains_key(who));
        if m.remaining == 0 {
            crate::engine::proofs::lemma_refund(m.state, user, side, price, m.reserve);
            lemma_released(m.state.users, user, code, m.reserve);
            match side {
                Side::Ask => {
                    assert(after.users[who].of(AssetCode::Usdc) == m.state.users[who].of(
                        AssetCode::Usdc,
                    ));
                },
                Side::Bid => {
                    assert(after.users[who].of(AssetCode::Usdc).locked == m.state.users[who].of(
                        AssetCode::Usdc,
                    ).locked - (if who == user {
                        m.reserve as int
                    } else {
                        0
                    }));
                },
            }
        } else {
            let order = Order { id, user_id: user, side, price, quantity: m.remaining };
            match side {
                Side::Ask => {
                    assert(after.bids == m.state.bids);
                },
                Side::Bid => {
                    lemma_exposure_pushed(m.state.bids, order, who);
                    assert(after.bids == pushed(m.state.bids, order));
                    assert(reserve_of(who)(order) == (if who == user {
                        order_reserve(order)
                    } else {
                        0
                    }));
                },
            }
        }
    }
}

/// To cancel an order changes the surplus of no user.
pub proof fn law_cancel_surplus(s: EngineState, user: u128, id: u128, who: u128)
    requires
        s.inv(),
        s.users.contains_key(who),
    ensures
        surplus(s.cancel(user, id).0, who) == surplus(s, who),
{
    if s.cancel(user, id).1 is Ok {
        lemma_indexed_order(s, id);
        let side = s.index[id].0;
        let price = s.index[id].1;
        let levels = s.side(side);
        let at = place(levels[price], id).unwrap();
        let order = levels[price][at];
        let code = reserve_asset(side);
        let amount = reserve_amount(side, price, order.quantity) as u64;
        let after = s.cancel(user, id).0;
        lemma_released(s.users, user, code, amount);
        match side {
            Side::Ask => {
                assert(after.bids == s.bids);
                assert(after.users[who].of(AssetCode::Usdc) == s.users[who].of(AssetCode::Usdc));
            },
            Side::Bid => {
                lemma_exposure_removed(levels, price, id, who);
                assert(after.bids == removed(levels, price, id));
                assert(reserve_of(who)(order) == (if who == user {
                    order_reserve(order)
                } else {
                    0
                }));
                assert(after.users[who].of(AssetCode::Usdc).locked == s.users[who].of(
                    AssetCode::Usdc,
                ).locked - (if who == user {
                    amount as int
                } else {
                    0
                }));
            },
        }
    }
}

/// A deposit changes the surplus of no user.
pub proof fn law_deposit_surplus(
    s: EngineState,
    user: u128,
    code: AssetCode,
    amount: u64,
    who: u128,
)
    requires
        s.inv(),
        s.users.contains_key(who),
    ensures
        surplus(s.deposit(user, code, amount).0, who) == surplus(s, who),
{
}

/// A new user has no surplus, and the surplus of no other user changes.
pub proof fn law_register_surplus(s: EngineState, user: u128, who: u128)
    requires
        s.inv(),
        s.register(user).0.users.contains_key(who),
    ensures
        surplus(s.register(user).0, who) == (if s.users.contains_key(who) {
            surplus(s, who)
        } else {
            0
        }),
{
    if !s.users.contains_key(user) && who == user {
        assert(s.side_indexed(Side::Bid));
        assert forall|price: u64, i: int|
            s.bids.contains_key(price) && 0 <= i < s.bids[price].len() implies (
        #[trigger] s.bids[price][i]).user_id != user by {
            assert(s.users.contains_key(s.side(Side::Bid)[price][i].user_id));
        }
        lemma_exposure_none(s.bids, user);
    }
}

/// Whether `command` is an order that the engine takes in with a loss: one
/// that adds to the surplus of some user.
pub open spec fn takes_in_with_loss(
    before: EngineState,
    command: EngineCommand,
    reply: EngineReply,
) -> bool {
    command matches EngineCommand::CreateOrder { user_id, side, price, quantity } && reply
        is OrderCreated && exists|who: u128| #[trigger]
        before.users.contains_key(who) && submit_loss(before, user_id, side, price, quantity, who)
            != 0
}

/// Whatever the command, every user has locked in BTC what the user's
/// resting asks hold, and in USDC at least the cost of the user's resting
/// bids. Where the users had locked in USDC exactly that cost before the
/// command, they have so after it if and only if the command is no order
/// that is taken in with a loss: one whose trades lose to rounding, or one
/// that rests as a bid with more in reserve than what rests costs.
#[verifier::rlimit(50)]
pub proof fn law_locked_matches_book(
    before: EngineState,
    command: EngineCommand,
    reply: EngineReply,
    after: EngineState,
)
    requires
        before.inv(),
        answers(before, command, reply, after),
    ensures
        forall|user: u128| #[trigger]
            after.users.contains_key(user) ==> after.users[user].btc.locked == exposure(
                after.asks,
                user,
            ) && after.users[user].usdc.locked >= exposure(after.bids, user),
        before.bids_funded_exactly() ==> (after.bids_funded_exactly() <==> !takes_in_with_loss(
            before,
            command,
            reply,
        )),
{
    crate::engine::laws::law_commands_keep_invariants(before, command, reply, after);
    assert(after.funded(0, 0, 0));
    if before.bids_funded_exactly() {
        match command {
            EngineCommand::InitializeUser => {
                match reply {
                    EngineReply::UserInitialized { user_id } => {
                        assert forall|user: u128| #[trigger]
                            after.users.contains_key(user) implies surplus(after, user) == 0 by {
                            law_register_surplus(before, user_id, user);
                        }
                    },
                    _ => {},
                }
            },
            EngineCommand::Deposit { user_id, asset, amount } => {
                if before.users.contains_key(user_id) {
                    match AssetCode::named(asset@) {
                        Some(code) => {
                            assert forall|user: u128| #[trigger]
                                after.users.contains_key(user) implies surplus(after, user)
                                == 0 by {
                                law_deposit_surplus(before, user_id, code, amount, user);
                            }
                        },
                        None => {},
                    }
                }
            },
            EngineCommand::CancelOrder { user_id, order_id } => {
                assert forall|user: u128| #[trigger]
                    after.users.contains_key(user) implies surplus(after, user) == 0 by {
                    if before.cancel(user_id, order_id).1 is Ok {
                        lemma_indexed_order(before, order_id);
                        lemma_released(
                            before.users,
                            user_id,
                            reserve_asset(before.index[order_id].0),
                            reserve_amount(
                                before.index[order_id].0,
                                before.index[order_id].1,
                                crate::engine::orderbook::found(
                                    before.side(before.index[order_id].0),
                                    before.index[order_id].1,
                                    order_id,
                                ).unwrap().quantity,
                            ) as u64,
                        );
                    }
                    law_cancel_surplus(before, user_id, order_id, user);
                }
            },
            EngineCommand::CreateOrder { user_id, side, price, quantity } => {
                let order_id = choose|order_id: u128|
                    crate::ids::is_random_uuid(order_id) && after == (#[trigger] before.submit(
                        user_id,
                        side,
                        price,
                        quantity,
                        order_id,
                    )).0 && reply == crate::engine::order_reply(
                        before.submit(user_id, side, price, quantity, order_id).1,
                    );
                let accepted = before.submit(user_id, side, price, quantity, order_id).1 is Ok;
                assert(accepted <==> reply is OrderCreated);
                assert(after.users.dom() == before.users.dom()) by {
                    if accepted {
                        let code = reserve_asset(side);
                        let reserve = reserve_amount(side, price, quantity) as u64;
                        let locked = before.with_users(
                            reserved(before.users, user_id, code, reserve),
                        );
                        lemma_lock(before, user_id, side, price, quantity);
                        lemma_reserved(before.users, user_id, code, reserve);
                        lemma_fill(locked, user_id, side, price, quantity, reserve);
                        let m = locked.fill(user_id, side, price, quantity, reserve);
                        if m.remaining == 0 {
                            crate::engine::proofs::lemma_refund(
                                m.state,
                                user_id,
                                side,
                                price,
                                m.reserve,
                            );
                            lemma_released(m.state.users, user_id, code, m.reserve);
                        }
                    }
                }
                assert forall|user: u128| #[trigger] before.users.contains_key(user) implies surplus(
                    after,
                    user,
                ) == (if accepted {
                    submit_loss(before, user_id, side, price, quantity, user)
                } else {
                    0
                }) by {
                    law_submit_surplus(before, user_id, side, price, quantity, order_id, user);
                }
                if after.bids_funded_exactly() {
                    assert forall|who: u128| #[trigger]
                        before.users.contains_key(who) && accepted implies submit_loss(
                        before,
                        user_id,
                        side,
                        price,
                        quantity,
                        who,
                    ) == 0 by {
                        assert(after.users.contains_key(who));
                    }
                }
            },
            _ => {},
        }
    }
}

} // verus!
