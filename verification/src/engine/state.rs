//! The state of the engine as a mathematical value, and what each command
//! makes of it.

use crate::engine::balance::{released, reserved, transferred, AssetCode, UserBalance};
use crate::engine::error::EngineError;
use crate::engine::orderbook::{
    best, exposure, found, front_restored, front_taken, is_place, levels_wf, no_worse,
    order_count, pushed, removed, rests_in, Order, Side,
};
use crate::math::cost;
use vstd::prelude::*;

verus! {

/// What became of an order that the engine accepted.
#[derive(Clone, Copy, Debug, PartialEq, Eq, Structural)]
pub enum OrderOutcome {
    /// The order traded in full. Nothing of it rests, and it has no id.
    Filled,
    /// What was left of the order rests in the book under this id.
    Resting { order_id: u128 },
}

/// The asset that an order of `side` reserves: an ask the BTC that it
/// sells, a bid the USDC that it pays.
pub open spec fn reserve_asset(side: Side) -> AssetCode {
    match side {
        Side::Ask => AssetCode::Btc,
        Side::Bid => AssetCode::Usdc,
    }
}

/// How much an order of `side` for `quantity` at `price` reserves of its
/// asset.
pub open spec fn reserve_amount(side: Side, price: u64, quantity: u64) -> int {
    match side {
        Side::Ask => quantity as int,
        Side::Bid => cost(price as int, quantity as int),
    }
}

/// The state of the engine between two commands: the ledger, both sides of
/// the book, and the index from the id of a resting order to its side and
/// price.
pub struct EngineState {
    pub users: Map<u128, UserBalance>,
    pub bids: Map<u64, Seq<Order>>,
    pub asks: Map<u64, Seq<Order>>,
    pub index: Map<u128, (Side, u64)>,
}

/// The result of matching an incoming order against the book.
pub struct Matched {
    /// The state after the trades.
    pub state: EngineState,
    /// What is left unfilled of the incoming order.
    pub remaining: u64,
    /// What is left of the reserve that was locked for the incoming order.
    pub reserve: u64,
    /// Whether the matching went all its way. It stops short before a trade
    /// that would bring what one of the two users has available beyond 64
    /// bits.
    pub fits: bool,
}

/// What the engine keeps of a trade to take it back: the resting order as
/// it was, whether something was left of it, and the buyer's and the
/// seller's accounts as they were.
#[derive(Clone, Copy, Debug, PartialEq, Eq, Structural)]
pub struct Traded {
    pub maker: Order,
    pub partly: bool,
    pub buyer: u128,
    pub buyer_had: UserBalance,
    pub seller: u128,
    pub seller_had: UserBalance,
}

impl EngineState {
    /// The queues of `side`, by price.
    pub open spec fn side(self, side: Side) -> Map<u64, Seq<Order>> {
        match side {
            Side::Ask => self.asks,
            Side::Bid => self.bids,
        }
    }

    /// This state with the queues of `side` replaced.
    pub open spec fn with_side(self, side: Side, levels: Map<u64, Seq<Order>>) -> EngineState {
        match side {
            Side::Ask => EngineState { asks: levels, ..self },
            Side::Bid => EngineState { bids: levels, ..self },
        }
    }

    /// This state with the ledger replaced.
    pub open spec fn with_users(self, users: Map<u128, UserBalance>) -> EngineState {
        EngineState { users, ..self }
    }

    /// This state with the index replaced.
    pub open spec fn with_index(self, index: Map<u128, (Side, u64)>) -> EngineState {
        EngineState { index, ..self }
    }

    /// The state of an engine that has seen no command.
    pub open spec fn initial() -> EngineState {
        EngineState {
            users: Map::empty(),
            bids: Map::empty(),
            asks: Map::empty(),
            index: Map::empty(),
        }
    }

    /// Whether `order` rests in the book.
    pub open spec fn rests(self, order: Order) -> bool {
        rests_in(self.bids, order) || rests_in(self.asks, order)
    }

    /// How many orders of `user` rest in the book.
    pub open spec fn open_orders(self, user: u128) -> int {
        order_count(self.bids, user) + order_count(self.asks, user)
    }

    /// Whether `orders` lists the resting orders of `user`: it holds each
    /// of them, nothing else, and has as many items as the user has
    /// resting orders.
    pub open spec fn lists_orders_of(self, user: u128, orders: Seq<Order>) -> bool {
        &&& orders.len() == self.open_orders(user)
        &&& forall|k: int|
            0 <= k < orders.len() ==> (#[trigger] orders[k]).user_id == user && self.rests(
                orders[k],
            )
        &&& forall|side: Side, price: u64, i: int|
            self.side(side).contains_key(price) && 0 <= i < self.side(side)[price].len() && (
            #[trigger] self.side(side)[price][i]).user_id == user ==> orders.contains(
                self.side(side)[price][i],
            )
    }

    /// Whether an order with this `id` rests in the book.
    pub open spec fn has_order(self, id: u128) -> bool {
        self.index.contains_key(id)
    }

    // ----- what holds between commands -----
    /// Every bid is below every ask.
    pub open spec fn uncrossed(self) -> bool {
        forall|bid: u64, ask: u64|
            #![trigger self.bids.contains_key(bid), self.asks.contains_key(ask)]
            self.bids.contains_key(bid) && self.asks.contains_key(ask) ==> bid < ask
    }

    /// Every order of `side` is in the index under its side and price, is
    /// the only order of its queue with its id, and belongs to a user of
    /// the ledger.
    pub open spec fn side_indexed(self, side: Side) -> bool {
        forall|price: u64, i: int|
            #![trigger self.side(side)[price][i]]
            self.side(side).contains_key(price) && 0 <= i < self.side(side)[price].len() ==> {
                let order = self.side(side)[price][i];
                &&& self.index.contains_key(order.id)
                &&& self.index[order.id] == (side, price)
                &&& is_place(self.side(side)[price], order.id, i)
                &&& self.users.contains_key(order.user_id)
            }
    }

    /// Every entry of the index leads to a resting order with that id.
    pub open spec fn index_sound(self) -> bool {
        forall|id: u128| #[trigger]
            self.index.contains_key(id) ==> found(
                self.side(self.index[id].0),
                self.index[id].1,
                id,
            ) is Some
    }

    /// Every user has locked in BTC exactly what the user's asks tie up,
    /// and in USDC at least what the user's bids tie up. For `taker`, whose
    /// order is being matched, `pending_btc` and `pending_usdc` are locked
    /// on top of that.
    pub open spec fn funded(self, taker: u128, pending_btc: int, pending_usdc: int) -> bool {
        forall|user: u128| #[trigger]
            self.users.contains_key(user) ==> {
                &&& self.users[user].btc.locked == exposure(self.asks, user) + (if user == taker {
                    pending_btc
                } else {
                    0
                })
                &&& self.users[user].usdc.locked >= exposure(self.bids, user) + (if user
                    == taker {
                    pending_usdc
                } else {
                    0
                })
            }
    }

    /// What holds of the book, the index and the ledger's users at all
    /// times.
    pub open spec fn structured(self) -> bool {
        &&& self.users.dom().finite()
        &&& self.index.dom().finite()
        &&& levels_wf(self.bids, Side::Bid)
        &&& levels_wf(self.asks, Side::Ask)
        &&& self.uncrossed()
        &&& self.side_indexed(Side::Bid)
        &&& self.side_indexed(Side::Ask)
        &&& self.index_sound()
    }

    /// What holds while the order of `taker` is being matched.
    pub open spec fn inv_matching(self, taker: u128, pending_btc: int, pending_usdc: int) -> bool {
        &&& self.structured()
        &&& self.funded(taker, pending_btc, pending_usdc)
    }

    /// What holds between commands.
    pub open spec fn inv(self) -> bool {
        self.inv_matching(0, 0, 0)
    }

    /// Every user has locked in USDC exactly what the user's bids tie up.
    pub open spec fn bids_funded_exactly(self) -> bool {
        forall|user: u128| #[trigger]
            self.users.contains_key(user) ==> self.users[user].usdc.locked == exposure(
                self.bids,
                user,
            )
    }

    // ----- the commands -----
    /// The state after `user` was given an empty account, and whether that
    /// was done: a user that has an account keeps it.
    pub open spec fn register(self, user: u128) -> (EngineState, Result<(), EngineError>) {
        if self.users.contains_key(user) {
            (self, Err(EngineError::IdInUse))
        } else {
            (self.with_users(self.users.insert(user, UserBalance::empty())), Ok(()))
        }
    }

    /// The state after a deposit of `amount` of `code` for `user`, and
    /// whether it was accepted. It is refused with `UnknownUser` where the
    /// user has no account, and with `Overflow` where what the user has
    /// available would no longer fit in 64 bits.
    pub open spec fn deposit(self, user: u128, code: AssetCode, amount: u64) -> (
        EngineState,
        Result<(), EngineError>,
    ) {
        if !self.users.contains_key(user) {
            (self, Err(EngineError::UnknownUser))
        } else if self.users[user].of(code).available + amount > u64::MAX {
            (self, Err(EngineError::Overflow))
        } else {
            (
                self.with_users(
                    crate::engine::balance::credited(self.users, user, code, amount),
                ),
                Ok(()),
            )
        }
    }

    /// The state after the order of `taker` on `side` traded `quantity` at
    /// `price` with the order that stands first at that price on the other
    /// side. The buyer pays the cost at that price out of what the buyer has
    /// locked, and the seller hands over the quantity out of what the seller
    /// has locked. An order that is filled leaves the book and the index.
    pub open spec fn trade(
        self,
        taker: u128,
        side: Side,
        price: u64,
        quantity: u64,
    ) -> EngineState {
        let maker = self.side(side.opposite())[price][0];
        let amount = cost(price as int, quantity as int) as u64;
        let buyer = if side == Side::Bid {
            taker
        } else {
            maker.user_id
        };
        let seller = if side == Side::Bid {
            maker.user_id
        } else {
            taker
        };
        let users = transferred(
            transferred(self.users, seller, buyer, AssetCode::Btc, quantity),
            buyer,
            seller,
            AssetCode::Usdc,
            amount,
        );
        let index = if quantity < maker.quantity {
            self.index
        } else {
            self.index.remove(maker.id)
        };
        self.with_side(
            side.opposite(),
            front_taken(self.side(side.opposite()), price, quantity),
        ).with_users(users).with_index(index)
    }

    /// Whether what the trade hands to the buyer and to the seller fits in
    /// 64 bits with what they have available.
    pub open spec fn trade_fits(self, taker: u128, side: Side, price: u64, quantity: u64) -> bool {
        let maker = self.side(side.opposite())[price][0];
        let amount = cost(price as int, quantity as int);
        let buyer = if side == Side::Bid {
            taker
        } else {
            maker.user_id
        };
        let seller = if side == Side::Bid {
            maker.user_id
        } else {
            taker
        };
        &&& self.users[buyer].btc.available + quantity <= u64::MAX
        &&& self.users[seller].usdc.available + amount <= u64::MAX
    }

    /// What the engine keeps of the trade of `taker` on `side` for
    /// `quantity` at `price`.
    pub open spec fn record(self, taker: u128, side: Side, price: u64, quantity: u64) -> Traded {
        let maker = self.side(side.opposite())[price][0];
        let buyer = if side == Side::Bid {
            taker
        } else {
            maker.user_id
        };
        let seller = if side == Side::Bid {
            maker.user_id
        } else {
            taker
        };
        Traded {
            maker,
            partly: quantity < maker.quantity,
            buyer,
            buyer_had: self.users[buyer],
            seller,
            seller_had: self.users[seller],
        }
    }

    /// The state after a trade was taken back: the resting order stands
    /// first in its queue and is in the index as it was, and the buyer and
    /// the seller have what they had.
    pub open spec fn untrade(self, trade: Traded) -> EngineState {
        self.with_side(
            trade.maker.side,
            front_restored(self.side(trade.maker.side), trade.maker, trade.partly),
        ).with_users(
            self.users.insert(trade.buyer, trade.buyer_had).insert(trade.seller, trade.seller_had),
        ).with_index(self.index.insert(trade.maker.id, (trade.maker.side, trade.maker.price)))
    }

    /// The state after the trades of `log` were taken back, the last of
    /// them first.
    pub open spec fn rolled_back(self, log: Seq<Traded>) -> EngineState
        decreases log.len(),
    {
        if log.len() == 0 {
            self
        } else {
            self.untrade(log.last()).rolled_back(log.drop_last())
        }
    }

    /// Whether an order of `taker_side` with this `limit` may trade at
    /// `price`: a bid at no more than its limit, an ask at no less.
    pub open spec fn crosses(taker_side: Side, limit: u64, price: u64) -> bool {
        no_worse(taker_side.opposite(), price, limit)
    }

    /// Matches what is left of an incoming order against the other side of
    /// the book, best price first and within a price the oldest order first,
    /// until nothing is left of it or the best price is beyond its limit.
    /// Each trade is for as much as both orders allow, at the price of the
    /// resting order. Before a trade that does not fit the matching stops
    /// short.
    pub open spec fn fill(
        self,
        taker: u128,
        side: Side,
        limit: u64,
        remaining: u64,
        reserve: u64,
    ) -> Matched
        decreases remaining,
    {
        let stop = Matched { state: self, remaining, reserve, fits: true };
        if remaining == 0 {
            stop
        } else {
            match best(self.side(side.opposite()), side.opposite()) {
                None => stop,
                Some(price) => {
                    let maker = self.side(side.opposite())[price][0];
                    let quantity = if remaining < maker.quantity {
                        remaining
                    } else {
                        maker.quantity
                    };
                    if !Self::crosses(side, limit, price) || quantity == 0 {
                        stop
                    } else if !self.trade_fits(taker, side, price, quantity) {
                        Matched { state: self, remaining, reserve, fits: false }
                    } else {
                        self.trade(taker, side, price, quantity).fill(
                            taker,
                            side,
                            limit,
                            (remaining - quantity) as u64,
                            (reserve - reserve_amount(side, price, quantity)) as u64,
                        )
                    }
                },
            }
        }
    }

    /// The state after `user` offered an order, and what became of the
    /// order. An accepted order first has its reserve locked, then trades as
    /// far as the book allows. Where it is filled, what is left of its
    /// reserve is released; else what is left of it rests under `id`.
    ///
    /// The order is refused, and the state stays as it was: with
    /// `InvalidOrder` where the price or the quantity is zero; with
    /// `UnknownUser`; with `Overflow` where the cost of a bid does not fit
    /// in 64 bits; with `InsufficientFunds` where the user has less than the
    /// reserve available; with `IdInUse` where an order rests under `id`;
    /// and with `Overflow` where the reserve does not fit with what the user
    /// has locked, or a trade or the release does not fit with what a user
    /// has available.
    pub open spec fn submit(self, user: u128, side: Side, price: u64, quantity: u64, id: u128) -> (
        EngineState,
        Result<OrderOutcome, EngineError>,
    ) {
        let code = reserve_asset(side);
        let reserve = reserve_amount(side, price, quantity);
        if price == 0 || quantity == 0 {
            (self, Err(EngineError::InvalidOrder))
        } else if !self.users.contains_key(user) {
            (self, Err(EngineError::UnknownUser))
        } else if reserve > u64::MAX {
            (self, Err(EngineError::Overflow))
        } else if self.users[user].of(code).available < reserve {
            (self, Err(EngineError::InsufficientFunds))
        } else if self.index.contains_key(id) {
            (self, Err(EngineError::IdInUse))
        } else if self.users[user].of(code).locked + reserve > u64::MAX {
            (self, Err(EngineError::Overflow))
        } else {
            let locked = self.with_users(reserved(self.users, user, code, reserve as u64));
            let matched = locked.fill(user, side, price, quantity, reserve as u64);
            if !matched.fits {
                (self, Err(EngineError::Overflow))
            } else if matched.remaining == 0 {
                if matched.state.users[user].of(code).available + matched.reserve > u64::MAX {
                    (self, Err(EngineError::Overflow))
                } else {
                    (
                        matched.state.with_users(
                            released(matched.state.users, user, code, matched.reserve),
                        ),
                        Ok(OrderOutcome::Filled),
                    )
                }
            } else {
                let order = Order { id, user_id: user, side, price, quantity: matched.remaining };
                (
                    matched.state.with_side(
                        side,
                        pushed(matched.state.side(side), order),
                    ).with_index(matched.state.index.insert(id, (side, price))),
                    Ok(OrderOutcome::Resting { order_id: id }),
                )
            }
        }
    }

    /// The state after `user` asked to cancel the order with this `id`, and
    /// whether that was done. A cancelled order leaves the book and the
    /// index, and what it tied up is released to its owner. The request is
    /// refused with `OrderNotFound` where no such order rests, with
    /// `NotOwner` where the order is another user's, and with `Overflow`
    /// where what is released does not fit with what the owner has
    /// available.
    pub open spec fn cancel(self, user: u128, id: u128) -> (EngineState, Result<(), EngineError>) {
        if !self.index.contains_key(id) {
            (self, Err(EngineError::OrderNotFound))
        } else {
            let side = self.index[id].0;
            let price = self.index[id].1;
            match found(self.side(side), price, id) {
                None => (self, Err(EngineError::OrderNotFound)),
                Some(order) => if order.user_id != user {
                    (self, Err(EngineError::NotOwner))
                } else if self.users[user].of(reserve_asset(side)).available + reserve_amount(
                    side,
                    price,
                    order.quantity,
                ) > u64::MAX {
                    (self, Err(EngineError::Overflow))
                } else {
                    (
                        self.with_side(side, removed(self.side(side), price, id)).with_index(
                            self.index.remove(id),
                        ).with_users(
                            released(
                                self.users,
                                user,
                                reserve_asset(side),
                                reserve_amount(side, price, order.quantity) as u64,
                            ),
                        ),
                        Ok(()),
                    )
                },
            }
        }
    }
}

} // verus!
