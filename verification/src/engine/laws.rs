//! What holds of the engine whatever commands it runs.

use crate::engine::balance::{
    lemma_released, lemma_released_supply, lemma_reserved, lemma_reserved_supply,
    lemma_transferred, lemma_transferred_supply, reserved, supply, transferred, AssetBalance,
    AssetCode, UserBalance,
};
use crate::engine::error::EngineError;
use crate::engine::orderbook::{
    best, is_best, keeps_order, lemma_best_is, lemma_front_taken_keeps_order,
    lemma_keeps_order_chain, lemma_no_best, lemma_pushed_keeps_order, lemma_removed_keeps_order,
    no_worse, pushed, removed, stands_before, Order, Side,
};
use crate::engine::proofs::{
    buyer_of, can_trade, covers, lemma_cancel, lemma_deposit, lemma_indexed_order, lemma_lock,
    lemma_refund, lemma_register, lemma_rest, lemma_trade, lemma_trade_amounts, matching,
    seller_of, trade_quantity,
};
use crate::engine::state::{reserve_amount, reserve_asset, EngineState, OrderOutcome};
use crate::engine::{answers, runs, EngineCommand, EngineReply};
use crate::math::cost;
use vstd::prelude::*;

verus! {

/// What one trade leaves as it was: the taker's own side of the book, the
/// supply of both assets, and the order of the queues. It takes the cost
/// out of what the taker has locked of the reserved asset, and may take
/// the maker's order out of the index.
pub proof fn lemma_trade_effects(
    s: EngineState,
    taker: u128,
    side: Side,
    limit: u64,
    remaining: u64,
    reserve: u64,
    price: u64,
)
    requires
        can_trade(s, taker, side, limit, remaining, reserve, price),
        s.trade_fits(taker, side, price, trade_quantity(s, side, price, remaining)),
    ensures
        ({
            let quantity = trade_quantity(s, side, price, remaining);
            let after = s.trade(taker, side, price, quantity);
            &&& after.side(side) == s.side(side)
            &&& after.users.dom() == s.users.dom()
            &&& keeps_order(s.side(side.opposite()), after.side(side.opposite()), None)
            &&& forall|id: u128| #[trigger]
                after.index.contains_key(id) ==> s.index.contains_key(id)
            &&& forall|code: AssetCode| supply(after.users, code) == supply(s.users, code)
            &&& after.users[taker].of(reserve_asset(side)).locked == s.users[taker].of(
                reserve_asset(side),
            ).locked - reserve_amount(side, price, quantity)
        }),
{
    lemma_trade_amounts(s, taker, side, limit, remaining, reserve, price);
    let maker = s.side(side.opposite())[price][0];
    let quantity = trade_quantity(s, side, price, remaining);
    let amount = cost(price as int, quantity as int) as u64;
    let buyer = buyer_of(taker, side, maker);
    let seller = seller_of(taker, side, maker);
    let after = s.trade(taker, side, price, quantity);
    let mid = transferred(s.users, seller, buyer, AssetCode::Btc, quantity);
    lemma_transferred(s.users, seller, buyer, AssetCode::Btc, quantity);
    lemma_transferred_supply(s.users, seller, buyer, AssetCode::Btc, quantity, AssetCode::Btc);
    lemma_transferred_supply(s.users, seller, buyer, AssetCode::Btc, quantity, AssetCode::Usdc);
    assert(mid.contains_key(buyer));
    assert(mid.contains_key(taker));
    assert(mid[buyer].of(AssetCode::Usdc) == s.users[buyer].of(AssetCode::Usdc));
    assert(mid[taker].of(AssetCode::Usdc) == s.users[taker].of(AssetCode::Usdc));
    assert(mid.contains_key(seller));
    assert(mid[seller].of(AssetCode::Usdc) == s.users[seller].of(AssetCode::Usdc));
    lemma_transferred(mid, buyer, seller, AssetCode::Usdc, amount);
    lemma_transferred_supply(mid, buyer, seller, AssetCode::Usdc, amount, AssetCode::Btc);
    lemma_transferred_supply(mid, buyer, seller, AssetCode::Usdc, amount, AssetCode::Usdc);
    assert(after.users[taker].of(AssetCode::Btc) == mid[taker].of(AssetCode::Btc));
    lemma_front_taken_keeps_order(s.side(side.opposite()), price, quantity);
    assert forall|code: AssetCode| supply(after.users, code) == supply(s.users, code) by {
        match code {
            AssetCode::Btc => {},
            AssetCode::Usdc => {},
        }
    }
}

/// What holds of the outcome of matching an order.
pub open spec fn fill_outcome(
    s: EngineState,
    taker: u128,
    side: Side,
    limit: u64,
    remaining: u64,
    reserve: u64,
) -> bool {
    let m = s.fill(taker, side, limit, remaining, reserve);
    &&& matching(m.state, taker, side, limit, m.remaining, m.reserve)
    &&& m.remaining <= remaining
    &&& m.reserve <= reserve
    &&& m.remaining > 0 && m.fits ==> forall|other: u64| #[trigger]
        m.state.side(side.opposite()).contains_key(other) ==> !EngineState::crosses(
            side,
            limit,
            other,
        )
    &&& forall|id: u128| #[trigger] m.state.index.contains_key(id) ==> s.index.contains_key(id)
    &&& forall|code: AssetCode| supply(m.state.users, code) == supply(s.users, code)
    &&& m.state.users[taker].of(reserve_asset(side)).locked == s.users[taker].of(
        reserve_asset(side),
    ).locked - (reserve - m.reserve)
    &&& m.state.side(side) == s.side(side)
    &&& m.state.users.dom() == s.users.dom()
    &&& keeps_order(s.side(side.opposite()), m.state.side(side.opposite()), None)
}

/// Matching keeps the state in order. It stops with nothing left of the
/// order or with every price of the other side beyond the order's limit.
/// What it takes out of the taker's locked funds is what it takes out of
/// the reserve. It creates no funds and no orders, leaves the taker's side
/// of the book alone, and lets no order jump a queue.
pub proof fn lemma_fill(
    s: EngineState,
    taker: u128,
    side: Side,
    limit: u64,
    remaining: u64,
    reserve: u64,
)
    requires
        matching(s, taker, side, limit, remaining, reserve),
    ensures
        fill_outcome(s, taker, side, limit, remaining, reserve),
    decreases remaining,
{
    let opp = side.opposite();
    if remaining > 0 {
        match best(s.side(opp), opp) {
            None => {
                lemma_no_best(s.side(opp), opp);
            },
            Some(price) => {
                assert(is_best(s.side(opp), opp, price));
                let quantity = trade_quantity(s, side, price, remaining);
                if !EngineState::crosses(side, limit, price) {
                    assert forall|other: u64| #[trigger]
                        s.side(opp).contains_key(other) implies !EngineState::crosses(
                        side,
                        limit,
                        other,
                    ) by {
                        assert(no_worse(opp, price, other));
                    }
                } else if s.trade_fits(taker, side, price, quantity) {
                    lemma_trade_amounts(s, taker, side, limit, remaining, reserve, price);
                    lemma_trade(s, taker, side, limit, remaining, reserve, price);
                    lemma_trade_effects(s, taker, side, limit, remaining, reserve, price);
                    let next = s.trade(taker, side, price, quantity);
                    let left = (remaining - quantity) as u64;
                    let kept = (reserve - reserve_amount(side, price, quantity)) as u64;
                    lemma_fill(next, taker, side, limit, left, kept);
                    let m = next.fill(taker, side, limit, left, kept);
                    assert(m == s.fill(taker, side, limit, remaining, reserve));
                    lemma_keeps_order_chain(s.side(opp), next.side(opp), m.state.side(opp), None);
                }
            },
        }
    }
}

/// Taking in an order leaves the state in order: no balance is negative,
/// what is locked covers the resting orders, the book is not crossed, and
/// the index matches the book.
pub proof fn law_submit_keeps_invariants(
    s: EngineState,
    user: u128,
    side: Side,
    price: u64,
    quantity: u64,
    id: u128,
)
    requires
        s.inv(),
    ensures
        s.submit(user, side, price, quantity, id).0.inv(),
        forall|code: AssetCode|
            supply(s.submit(user, side, price, quantity, id).0.users, code) == supply(
                s.users,
                code,
            ),
{
    if s.submit(user, side, price, quantity, id).1 is Ok {
        let code = reserve_asset(side);
        let reserve = reserve_amount(side, price, quantity) as u64;
        let locked = s.with_users(reserved(s.users, user, code, reserve));
        lemma_lock(s, user, side, price, quantity);
        lemma_reserved_supply(s.users, user, code, reserve, AssetCode::Btc);
        lemma_reserved_supply(s.users, user, code, reserve, AssetCode::Usdc);
        lemma_fill(locked, user, side, price, quantity, reserve);
        let m = locked.fill(user, side, price, quantity, reserve);
        if m.remaining == 0 {
            lemma_refund(m.state, user, side, price, m.reserve);
            lemma_released_supply(m.state.users, user, code, m.reserve, AssetCode::Btc);
            lemma_released_supply(m.state.users, user, code, m.reserve, AssetCode::Usdc);
        } else {
            lemma_rest(m.state, user, side, price, m.remaining, m.reserve, id);
        }
        assert forall|code: AssetCode|
            supply(s.submit(user, side, price, quantity, id).0.users, code) == supply(
                s.users,
                code,
            ) by {
            match code {
                AssetCode::Btc => {},
                AssetCode::Usdc => {},
            }
        }
    }
}

/// Whether an order with this `id` stands somewhere in the book.
pub open spec fn in_book(s: EngineState, id: u128) -> bool {
    exists|side: Side, price: u64, i: int|
        s.side(side).contains_key(price) && 0 <= i < s.side(side)[price].len() && (
        #[trigger] s.side(side)[price][i]).id == id
}

/// Whether no resting order has an order before it in its queue in `after`
/// that it did not have before it in `before`.
pub open spec fn no_queue_jumping(before: EngineState, after: EngineState) -> bool {
    forall|side: Side, price: u64, first: u128, second: u128|
        after.side(side).contains_key(price) && #[trigger] stands_before(
            after.side(side)[price],
            first,
            second,
        ) && before.has_order(second) ==> before.side(side).contains_key(price) && stands_before(
            before.side(side)[price],
            first,
            second,
        )
}

/// No balance is negative.
pub proof fn law_balances_not_negative(s: EngineState, user: u128, code: AssetCode)
    ensures
        s.users[user].of(code).available >= 0,
        s.users[user].of(code).locked >= 0,
{
}

/// The book is not crossed: where both sides have orders, the best bid is
/// below the best ask.
pub proof fn law_book_not_crossed(s: EngineState, bid: u64, ask: u64)
    requires
        s.inv(),
        is_best(s.bids, Side::Bid, bid),
        is_best(s.asks, Side::Ask, ask),
    ensures
        bid < ask,
        best(s.bids, Side::Bid) == Some(bid),
        best(s.asks, Side::Ask) == Some(ask),
{
    assert(s.uncrossed());
    assert(s.bids.contains_key(bid) && s.asks.contains_key(ask));
    lemma_best_is(s.bids, Side::Bid, bid);
    lemma_best_is(s.asks, Side::Ask, ask);
}

/// The index matches the book: its keys are the ids of the orders in the
/// book, and it gives for each the side and the price where the order
/// stands. No two orders in the book have the same id.
pub proof fn law_index_matches_book(s: EngineState)
    requires
        s.inv(),
    ensures
        forall|id: u128| s.index.contains_key(id) <==> in_book(s, id),
        forall|side: Side, price: u64, i: int|
            s.side(side).contains_key(price) && 0 <= i < s.side(side)[price].len() ==> s.index[(
            #[trigger] s.side(side)[price][i]).id] == (side, price),
        forall|side: Side, price: u64, i: int, other: Side, level: u64, j: int|
            s.side(side).contains_key(price) && 0 <= i < s.side(side)[price].len() && s.side(
                other,
            ).contains_key(level) && 0 <= j < s.side(other)[level].len() && (
            #[trigger] s.side(side)[price][i]).id == (#[trigger] s.side(other)[level][j]).id
                ==> side == other && price == level && i == j,
{
    assert(s.side_indexed(Side::Bid));
    assert(s.side_indexed(Side::Ask));
    assert forall|id: u128| s.index.contains_key(id) implies in_book(s, id) by {
        lemma_indexed_order(s, id);
        let side = s.index[id].0;
        let price = s.index[id].1;
        let i = crate::engine::orderbook::place(s.side(side)[price], id).unwrap();
        assert(s.side(side)[price][i].id == id);
    }
    assert forall|id: u128| in_book(s, id) implies s.index.contains_key(id) by {
        let (side, price, i) = choose|side: Side, price: u64, i: int|
            s.side(side).contains_key(price) && 0 <= i < s.side(side)[price].len() && (
            #[trigger] s.side(side)[price][i]).id == id;
        assert(s.side_indexed(side));
    }
    assert forall|side: Side, price: u64, i: int|
        s.side(side).contains_key(price) && 0 <= i < s.side(side)[price].len() implies s.index[(
    #[trigger] s.side(side)[price][i]).id] == (side, price) by {
        assert(s.side_indexed(side));
    }
    assert forall|side: Side, price: u64, i: int, other: Side, level: u64, j: int|
        s.side(side).contains_key(price) && 0 <= i < s.side(side)[price].len() && s.side(
            other,
        ).contains_key(level) && 0 <= j < s.side(other)[level].len() && (
        #[trigger] s.side(side)[price][i]).id == (#[trigger] s.side(other)[level][j]).id implies side
        == other && price == level && i == j by {
        assert(s.side_indexed(side));
        assert(s.side_indexed(other));
        let id = s.side(side)[price][i].id;
        assert(s.index[id] == (side, price));
        assert(s.index[id] == (other, level));
        assert(crate::engine::orderbook::is_place(s.side(side)[price], id, i));
        assert(crate::engine::orderbook::is_place(s.side(side)[price], id, j));
        if i < j {
            assert(s.side(side)[price][i].id != id);
        }
        if j < i {
            assert(s.side(side)[price][j].id != id);
        }
    }
}

/// To cancel an order that does not rest, be it cancelled or filled before
/// or never placed, is refused with `OrderNotFound` and changes nothing.
pub proof fn law_cancel_unknown(s: EngineState, user: u128, id: u128)
    requires
        !s.has_order(id),
    ensures
        s.cancel(user, id) == (s, Err::<(), EngineError>(EngineError::OrderNotFound)),
{
}

/// An order that was cancelled cannot be cancelled again, by anyone.
pub proof fn law_cancel_twice(s: EngineState, user: u128, id: u128, again: u128)
    requires
        s.inv(),
        s.cancel(user, id).1 is Ok,
    ensures
        s.cancel(user, id).0.cancel(again, id) == (
            s.cancel(user, id).0,
            Err::<(), EngineError>(EngineError::OrderNotFound),
        ),
{
    lemma_cancel(s, user, id);
}

/// An order that a trade fills no longer rests, so it cannot be cancelled.
pub proof fn law_cancel_filled(
    s: EngineState,
    taker: u128,
    side: Side,
    limit: u64,
    remaining: u64,
    reserve: u64,
    price: u64,
    canceller: u128,
)
    requires
        can_trade(s, taker, side, limit, remaining, reserve, price),
        s.side(side.opposite())[price][0].quantity <= remaining,
    ensures
        ({
            let maker = s.side(side.opposite())[price][0];
            let after = s.trade(taker, side, price, maker.quantity);
            after.cancel(canceller, maker.id) == (
                after,
                Err::<(), EngineError>(EngineError::OrderNotFound),
            )
        }),
{
}

/// An order that is filled at once leaves nothing locked: its owner has
/// locked of the reserved asset what the owner had locked before. For a
/// bid this is the USDC, and what the trades did not use of the reserve is
/// available again.
pub proof fn law_filled_order_leaves_nothing_locked(
    s: EngineState,
    user: u128,
    side: Side,
    price: u64,
    quantity: u64,
    id: u128,
)
    requires
        s.inv(),
        s.submit(user, side, price, quantity, id).1 == Ok::<OrderOutcome, EngineError>(
            OrderOutcome::Filled,
        ),
    ensures
        s.submit(user, side, price, quantity, id).0.users[user].of(reserve_asset(side)).locked
            == s.users[user].of(reserve_asset(side)).locked,
{
    let code = reserve_asset(side);
    let reserve = reserve_amount(side, price, quantity) as u64;
    let locked = s.with_users(reserved(s.users, user, code, reserve));
    lemma_lock(s, user, side, price, quantity);
    lemma_reserved(s.users, user, code, reserve);
    lemma_fill(locked, user, side, price, quantity, reserve);
    let m = locked.fill(user, side, price, quantity, reserve);
    lemma_refund(m.state, user, side, price, m.reserve);
    lemma_released(m.state.users, user, code, m.reserve);
}

/// To take in an order lets no order jump a queue, and what is left of the
/// order stands last in its own.
pub proof fn law_submit_keeps_queue_order(
    s: EngineState,
    user: u128,
    side: Side,
    price: u64,
    quantity: u64,
    id: u128,
)
    requires
        s.inv(),
    ensures
        forall|of: Side|
            keeps_order(
                s.side(of),
                #[trigger] s.submit(user, side, price, quantity, id).0.side(of),
                Some(id),
            ),
        s.submit(user, side, price, quantity, id).1 is Ok && s.submit(
            user,
            side,
            price,
            quantity,
            id,
        ).1 != Ok::<OrderOutcome, EngineError>(OrderOutcome::Filled) ==> s.submit(
            user,
            side,
            price,
            quantity,
            id,
        ).0.side(side)[price].last().id == id,
        no_queue_jumping(s, s.submit(user, side, price, quantity, id).0),
{
    let after = s.submit(user, side, price, quantity, id).0;
    let opp = side.opposite();
    if s.submit(user, side, price, quantity, id).1 is Ok {
        let code = reserve_asset(side);
        let reserve = reserve_amount(side, price, quantity) as u64;
        let locked = s.with_users(reserved(s.users, user, code, reserve));
        lemma_lock(s, user, side, price, quantity);
        lemma_fill(locked, user, side, price, quantity, reserve);
        let m = locked.fill(user, side, price, quantity, reserve);
        assert(keeps_order(s.side(opp), m.state.side(opp), None));
        assert(m.state.side(side) == s.side(side));
        if m.remaining > 0 {
            let order = Order { id, user_id: user, side, price, quantity: m.remaining };
            lemma_pushed_keeps_order(s.side(side), order);
            assert(after.side(side) == pushed(s.side(side), order));
            assert(after.side(opp) == m.state.side(opp));
        } else {
            assert(after.side(side) == s.side(side));
            assert(after.side(opp) == m.state.side(opp));
        }
        assert forall|of: Side| keeps_order(s.side(of), #[trigger] after.side(of), Some(id)) by {
            if of == side {
            } else {
                assert(of == opp);
            }
        }
        assert(!s.has_order(id));
    }
    assert forall|of: Side, level: u64, first: u128, second: u128|
        after.side(of).contains_key(level) && #[trigger] stands_before(
            after.side(of)[level],
            first,
            second,
        ) && s.has_order(second) implies s.side(of).contains_key(level) && stands_before(
        s.side(of)[level],
        first,
        second,
    ) by {
        assert(keeps_order(s.side(of), after.side(of), Some(id)));
    }
}

/// To cancel an order lets no order jump a queue.
pub proof fn law_cancel_keeps_queue_order(s: EngineState, user: u128, id: u128)
    requires
        s.inv(),
    ensures
        forall|of: Side| keeps_order(s.side(of), #[trigger] s.cancel(user, id).0.side(of), None),
        no_queue_jumping(s, s.cancel(user, id).0),
{
    let after = s.cancel(user, id).0;
    if s.cancel(user, id).1 is Ok {
        let side = s.index[id].0;
        let price = s.index[id].1;
        lemma_removed_keeps_order(s.side(side), price, id);
        assert(after.side(side) == removed(s.side(side), price, id));
        assert(after.side(side.opposite()) == s.side(side.opposite()));
        assert forall|of: Side| keeps_order(s.side(of), #[trigger] after.side(of), None) by {
            if of == side {
            } else {
                assert(of == side.opposite());
            }
        }
    }
    assert forall|of: Side, level: u64, first: u128, second: u128|
        after.side(of).contains_key(level) && #[trigger] stands_before(
            after.side(of)[level],
            first,
            second,
        ) && s.has_order(second) implies s.side(of).contains_key(level) && stands_before(
        s.side(of)[level],
        first,
        second,
    ) by {
        assert(keeps_order(s.side(of), after.side(of), None));
    }
}

/// Whatever the command and whatever the engine makes of it, the state is
/// in order afterwards: no balance is negative, what is locked covers the
/// resting orders, the book is not crossed, and the index matches the
/// book. No order jumps a queue. Every command but a deposit leaves the
/// supply of both assets as it was, and a deposit that is accepted adds
/// its amount to the supply of its asset.
pub proof fn law_commands_keep_invariants(
    before: EngineState,
    command: EngineCommand,
    reply: EngineReply,
    after: EngineState,
)
    requires
        before.inv(),
        answers(before, command, reply, after),
    ensures
        after.inv(),
        no_queue_jumping(before, after),
        forall|code: AssetCode|
            supply(after.users, code) == supply(before.users, code) + (match command {
                EngineCommand::Deposit { user_id, asset, amount } => if reply
                    is Deposited && AssetCode::named(asset@) == Some(code) {
                    amount as int
                } else {
                    0
                },
                _ => 0,
            }),
{
    match command {
        EngineCommand::InitializeUser => {
            match reply {
                EngineReply::UserInitialized { user_id } => {
                    lemma_register(before, user_id);
                },
                _ => {},
            }
        },
        EngineCommand::Deposit { user_id, asset, amount } => {
            if before.users.contains_key(user_id) {
                match AssetCode::named(asset@) {
                    Some(code) => {
                        lemma_deposit(before, user_id, code, amount);
                    },
                    None => {},
                }
            }
        },
        EngineCommand::CreateOrder { user_id, side, price, quantity } => {
            let order_id = choose|order_id: u128|
                crate::ids::is_random_uuid(order_id) && after == (#[trigger] before.submit(
                    user_id,
                    side,
                    price,
                    quantity,
                    order_id,
                )).0 && reply == crate::engine::order_reply(
                    before.submit(user_id, side, price, quantity, order_id).1,
                );
            law_submit_keeps_invariants(before, user_id, side, price, quantity, order_id);
            law_submit_keeps_queue_order(before, user_id, side, price, quantity, order_id);
        },
        EngineCommand::CancelOrder { user_id, order_id } => {
            lemma_cancel(before, user_id, order_id);
            law_cancel_keeps_queue_order(before, user_id, order_id);
        },
        _ => {},
    }
    assert forall|code: AssetCode|
        supply(after.users, code) == supply(before.users, code) + (match command {
            EngineCommand::Deposit { user_id, asset, amount } => if reply is Deposited
                && AssetCode::named(asset@) == Some(code) {
                amount as int
            } else {
                0
            },
            _ => 0,
        }) by {
        match code {
            AssetCode::Btc => {},
            AssetCode::Usdc => {},
        }
    }
}

/// However many commands the engine runs, the state is in order after the
/// last of them, and a run without deposits leaves the supply of both
/// assets as it was.
pub proof fn law_runs_keep_invariants(
    before: EngineState,
    commands: Seq<EngineCommand>,
    replies: Seq<EngineReply>,
    after: EngineState,
)
    requires
        before.inv(),
        runs(before, commands, replies, after),
    ensures
        after.inv(),
        (forall|i: int| 0 <= i < commands.len() ==> !((#[trigger] commands[i]) is Deposit))
            ==> forall|code: AssetCode| supply(after.users, code) == supply(before.users, code),
    decreases commands.len(),
{
    if commands.len() > 0 {
        let mid = choose|mid: EngineState|
            #![trigger answers(mid, commands.last(), replies.last(), after)]
            runs(before, commands.drop_last(), replies.drop_last(), mid) && answers(
                mid,
                commands.last(),
                replies.last(),
                after,
            );
        law_runs_keep_invariants(before, commands.drop_last(), replies.drop_last(), mid);
        law_commands_keep_invariants(mid, commands.last(), replies.last(), after);
        if forall|i: int| 0 <= i < commands.len() ==> !((#[trigger] commands[i]) is Deposit) {
            assert forall|i: int| 0 <= i < commands.drop_last().len() implies !((
            #[trigger] commands.drop_last()[i]) is Deposit) by {
                assert(commands.drop_last()[i] == commands[i]);
            }
            assert(!(commands[commands.len() - 1] is Deposit));
        }
    }
}

/// A command that is refused, and one that only reads, leaves the engine
/// as it was.
pub proof fn law_refusals_and_reads_change_nothing(
    before: EngineState,
    command: EngineCommand,
    reply: EngineReply,
    after: EngineState,
)
    requires
        answers(before, command, reply, after),
        reply is Failed || command is GetBalances || command is GetUserOrders,
    ensures
        after == before,
{
}

/// A new user has an account with nothing of any asset. A first deposit is
/// accepted whatever its amount, and then the user has exactly that amount
/// available of the asset deposited, nothing locked, and nothing of the
/// other asset. The other users, the book and the index stay as they were.
pub proof fn law_new_user_then_deposit(s: EngineState, user: u128, code: AssetCode, amount: u64)
    requires
        !s.users.contains_key(user),
    ensures
        ({
            let (opened, done) = s.register(user);
            let (after, deposited) = opened.deposit(user, code, amount);
            &&& done is Ok
            &&& opened.users[user] == UserBalance::empty()
            &&& deposited is Ok
            &&& after.users[user] == UserBalance::empty().with(
                code,
                AssetBalance { available: amount, locked: 0 },
            )
            &&& forall|other: u128|
                other != user ==> (after.users.contains_key(other) <==> s.users.contains_key(
                    other,
                )) && (s.users.contains_key(other) ==> after.users[other] == s.users[other])
            &&& after.bids == s.bids
            &&& after.asks == s.asks
            &&& after.index == s.index
        }),
{
}

} // verus!
