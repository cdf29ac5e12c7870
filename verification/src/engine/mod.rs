//! The matching engine and its commands.

pub mod balance;
pub mod error;
pub mod laws;
pub mod orderbook;
pub mod proofs;
pub mod state;
pub mod surplus;

use crate::engine::balance::{supply, AssetCode, Balances, UserBalance};
use crate::engine::error::EngineError;
use crate::engine::orderbook::{best, is_best, no_worse, Order, OrderBook, Side};
use crate::engine::laws::lemma_trade_effects;
use crate::engine::proofs::{
    can_trade, lemma_cancel, lemma_deposit, lemma_indexed_order, lemma_lock, lemma_refund,
    lemma_register, lemma_rest, lemma_trade, lemma_trade_amounts, lemma_untrade, matching,
    trade_quantity,
};
use crate::engine::state::{EngineState, Matched, OrderOutcome, Traded};
use crate::ids::{id_text, is_random_uuid, random_id, uuid_text};
use crate::math::calculate_cost_usdc_micro;
use crate::text::{decimal_text, number_text};
use std::collections::HashMap;
use vstd::pervasive::unreached;
use vstd::prelude::*;
use vstd::string::StringExecFns;

verus! {

/// A command to the engine.
#[derive(Debug, PartialEq, Eq)]
pub enum EngineCommand {
    /// Open an account for a new user.
    InitializeUser,
    /// Add `amount` of the asset named `asset` to what `user_id` has
    /// available.
    Deposit { user_id: u128, asset: String, amount: u64 },
    /// Read the account of `user_id`.
    GetBalances { user_id: u128 },
    /// Take in an order of `user_id`.
    CreateOrder { user_id: u128, side: Side, price: u64, quantity: u64 },
    /// Cancel the order `order_id` of `user_id`.
    CancelOrder { user_id: u128, order_id: u128 },
    /// List the resting orders of `user_id`.
    GetUserOrders { user_id: u128 },
}

/// The engine's answer to a command.
#[derive(Debug, PartialEq, Eq)]
pub enum EngineReply {
    /// The new user has this id.
    UserInitialized { user_id: u128 },
    /// The deposit was made.
    Deposited { user_id: u128, asset: AssetCode, amount: u64 },
    /// The account asked for, if the user has one.
    Balances(Option<UserBalance>),
    /// The order was taken in, with this outcome.
    OrderCreated(OrderOutcome),
    /// The order was cancelled.
    OrderCancelled { order_id: u128 },
    /// The resting orders asked for.
    UserOrders(Vec<Order>),
    /// The command was refused, and the engine is as it was.
    Failed(EngineError),
}

impl EngineReply {
    /// What the engine says in this answer: the id of a new user or of an
    /// order that rests, written as a UUID; `filled` for an order that
    /// does not rest; a sentence for a deposit, for a cancellation and for
    /// a refusal. An account or a list of orders is no text.
    pub open spec fn wording(self) -> Option<Seq<char>> {
        match self {
            EngineReply::UserInitialized { user_id } => Some(uuid_text(user_id)),
            EngineReply::Deposited { user_id, asset, amount } => Some(
                "deposited "@ + decimal_text(amount as nat) + " "@ + asset.spelled()
                    + " for user "@ + uuid_text(user_id),
            ),
            EngineReply::Balances(_) => None,
            EngineReply::OrderCreated(OrderOutcome::Resting { order_id }) => Some(
                uuid_text(order_id),
            ),
            EngineReply::OrderCreated(OrderOutcome::Filled) => Some("filled"@),
            EngineReply::OrderCancelled { order_id } => Some(
                "order:"@ + uuid_text(order_id) + " has been cancelled!"@,
            ),
            EngineReply::UserOrders(_) => None,
            EngineReply::Failed(error) => Some(error.wording()),
        }
    }

    /// What the engine says in this answer, if it is one in words.
    pub fn message(&self) -> (text: Option<String>)
        ensures
            match text {
                Some(text) => self.wording() == Some(text@),
                None => self.wording() is None,
            },
    {
        match self {
            EngineReply::UserInitialized { user_id } => Some(id_text(*user_id)),
            EngineReply::Deposited { user_id, asset, amount } => {
                let mut text = "deposited ".to_string();
                text.append(number_text(*amount).as_str());
                text.append(" ");
                text.append(asset.name().as_str());
                text.append(" for user ");
                text.append(id_text(*user_id).as_str());
                Some(text)
            },
            EngineReply::Balances(_) => None,
            EngineReply::OrderCreated(OrderOutcome::Resting { order_id }) => Some(
                id_text(*order_id),
            ),
            EngineReply::OrderCreated(OrderOutcome::Filled) => Some("filled".to_string()),
            EngineReply::OrderCancelled { order_id } => {
                let mut text = "order:".to_string();
                text.append(id_text(*order_id).as_str());
                text.append(" has been cancelled!");
                Some(text)
            },
            EngineReply::UserOrders(_) => None,
            EngineReply::Failed(error) => Some(error.message()),
        }
    }
}

/// The answer that tells how a deposit went.
pub open spec fn deposit_reply(
    user_id: u128,
    asset: AssetCode,
    amount: u64,
    done: Result<(), EngineError>,
) -> EngineReply {
    match done {
        Ok(()) => EngineReply::Deposited { user_id, asset, amount },
        Err(error) => EngineReply::Failed(error),
    }
}

/// The answer that tells what became of an order.
pub open spec fn order_reply(placed: Result<OrderOutcome, EngineError>) -> EngineReply {
    match placed {
        Ok(outcome) => EngineReply::OrderCreated(outcome),
        Err(error) => EngineReply::Failed(error),
    }
}

/// The answer that tells how a cancellation went.
pub open spec fn cancel_reply(order_id: u128, done: Result<(), EngineError>) -> EngineReply {
    match done {
        Ok(()) => EngineReply::OrderCancelled { order_id },
        Err(error) => EngineReply::Failed(error),
    }
}

/// Whether `reply` and the state `after` are what the engine may make of
/// `command` in the state `before`. But for the random id of a new user or
/// order, and for the order in which resting orders are listed, the
/// command and the state before determine both.
pub open spec fn answers(
    before: EngineState,
    command: EngineCommand,
    reply: EngineReply,
    after: EngineState,
) -> bool {
    match command {
        EngineCommand::InitializeUser => match reply {
            EngineReply::UserInitialized { user_id } => is_random_uuid(user_id) && (
                after,
                Ok::<(), EngineError>(()),
            ) == before.register(user_id),
            EngineReply::Failed(error) => error == EngineError::IdInUse && after == before
                && exists|user_id: u128|
                is_random_uuid(user_id) && #[trigger] before.users.contains_key(user_id),
            _ => false,
        },
        EngineCommand::Deposit { user_id, asset, amount } => {
            if !before.users.contains_key(user_id) {
                reply == EngineReply::Failed(EngineError::UnknownUser) && after == before
            } else {
                match AssetCode::named(asset@) {
                    None => reply == EngineReply::Failed(EngineError::UnknownAsset) && after
                        == before,
                    Some(code) => after == before.deposit(user_id, code, amount).0 && reply
                        == deposit_reply(
                        user_id,
                        code,
                        amount,
                        before.deposit(user_id, code, amount).1,
                    ),
                }
            }
        },
        EngineCommand::GetBalances { user_id } => after == before && reply
            == EngineReply::Balances(
            if before.users.contains_key(user_id) {
                Some(before.users[user_id])
            } else {
                None
            },
        ),
        EngineCommand::CreateOrder { user_id, side, price, quantity } => exists|order_id: u128|
            is_random_uuid(order_id) && after == (#[trigger] before.submit(
                user_id,
                side,
                price,
                quantity,
                order_id,
            )).0 && reply == order_reply(
                before.submit(user_id, side, price, quantity, order_id).1,
            ),
        EngineCommand::CancelOrder { user_id, order_id } => after == before.cancel(
            user_id,
            order_id,
        ).0 && reply == cancel_reply(order_id, before.cancel(user_id, order_id).1),
        EngineCommand::GetUserOrders { user_id } => after == before && (match reply {
            EngineReply::UserOrders(orders) => before.lists_orders_of(user_id, orders@),
            _ => false,
        }),
    }
}

/// Whether the engine, run on `commands` one after the other from the state
/// `before`, may give `replies`, one for each command and in their order,
/// and end in the state `after`.
pub open spec fn runs(
    before: EngineState,
    commands: Seq<EngineCommand>,
    replies: Seq<EngineReply>,
    after: EngineState,
) -> bool
    decreases commands.len(),
{
    if commands.len() == 0 {
        replies.len() == 0 && after == before
    } else {
        &&& replies.len() == commands.len()
        &&& exists|mid: EngineState|
            #![trigger answers(mid, commands.last(), replies.last(), after)]
            runs(before, commands.drop_last(), replies.drop_last(), mid) && answers(
                mid,
                commands.last(),
                replies.last(),
                after,
            )
    }
}

/// The matching engine: the ledger, the book, and the index from the id of
/// a resting order to its side and price. Commands change it one at a time.
pub struct Engine {
    balances: Balances,
    orderbook: OrderBook,
    order_index: HashMap<u128, (Side, u64)>,
}

impl View for Engine {
    type V = EngineState;

    closed spec fn view(&self) -> EngineState {
        EngineState {
            users: self.balances@,
            bids: self.orderbook.levels(Side::Bid),
            asks: self.orderbook.levels(Side::Ask),
            index: self.order_index@,
        }
    }
}

impl Engine {
    /// The engine is in a state that commands may be run on.
    pub open spec fn wf(&self) -> bool {
        self@.inv()
    }

    /// Takes back the trades of `log`, the last of them first.
    fn take_back(&mut self, log: Vec<Traded>)
        ensures
            final(self)@ == old(self)@.rolled_back(log@),
    {
        let ghost whole = log@;
        let mut log = log;
        while log.len() > 0
            invariant
                self@.rolled_back(log@) == old(self)@.rolled_back(whole),
            decreases log.len(),
        {
            let ghost before = self@;
            let ghost longer = log@;
            let trade = match log.pop() {
                Some(trade) => trade,
                None => unreached(),
            };
            self.orderbook.restore_front(trade.maker, trade.partly);
            self.balances.restore(trade.buyer, trade.buyer_had);
            self.balances.restore(trade.seller, trade.seller_had);
            self.order_index.insert(trade.maker.id, (trade.maker.side, trade.maker.price));
            proof {
                assert(trade == longer.last());
                assert(log@ =~= longer.drop_last());
                match trade.maker.side {
                    Side::Ask => {
                        assert(self@ == before.untrade(trade));
                    },
                    Side::Bid => {
                        assert(self@ == before.untrade(trade));
                    },
                }
            }
        }
    }

    /// An engine without users and without orders.
    pub fn new() -> (engine: Engine)
        ensures
            engine.wf(),
            engine@ == EngineState::initial(),
    {
        let engine = Engine {
            balances: Balances::new(),
            orderbook: OrderBook::new(),
            order_index: HashMap::new(),
        };
        proof {
            assert(engine@.users =~= Map::<u128, UserBalance>::empty());
            assert(engine@.index.dom().finite());
            assert(engine@.inv());
        }
        engine
    }

    /// Gives `user_id` an empty account. Refused with `IdInUse` where the
    /// user has one.
    pub fn register_user(&mut self, user_id: u128) -> (done: Result<(), EngineError>)
        requires
            old(self).wf(),
        ensures
            final(self).wf(),
            (final(self)@, done) == old(self)@.register(user_id),
            forall|code: AssetCode|
                supply(final(self)@.users, code) == supply(old(self)@.users, code),
    {
        proof {
            lemma_register(self@, user_id);
        }
        if self.balances.open_account(user_id) {
            Ok(())
        } else {
            Err(EngineError::IdInUse)
        }
    }

    /// Adds `amount` of `code` to what `user_id` has available. Refused
    /// with `UnknownUser` where the user has no account, and with `Overflow`
    /// where what the user has available would no longer fit in 64 bits.
    pub fn deposit(&mut self, user_id: u128, code: AssetCode, amount: u64) -> (done: Result<
        (),
        EngineError,
    >)
        requires
            old(self).wf(),
        ensures
            final(self).wf(),
            (final(self)@, done) == old(self)@.deposit(user_id, code, amount),
            forall|other: AssetCode|
                supply(final(self)@.users, other) == supply(old(self)@.users, other) + (if done
                    is Ok && other == code {
                    amount as int
                } else {
                    0
                }),
    {
        proof {
            lemma_deposit(self@, user_id, code, amount);
        }
        self.balances.deposit(user_id, code, amount)
    }

    /// A copy of the account of `user_id`, if the user has one.
    pub fn get_balances(&self, user_id: u128) -> (account: Option<UserBalance>)
        ensures
            account == (if self@.users.contains_key(user_id) {
                Some(self@.users[user_id])
            } else {
                None
            }),
    {
        self.balances.get(user_id)
    }

    /// The best price of `side`, if an order rests there: the highest bid,
    /// the lowest ask.
    pub fn best_price(&self, side: Side) -> (price: Option<u64>)
        ensures
            price == best(self@.side(side), side),
            match price {
                Some(p) => is_best(self@.side(side), side, p),
                None => forall|other: u64| !self@.side(side).contains_key(other),
            },
    {
        self.orderbook.best_price(side)
    }

    /// Takes the order with `order_id` out of the book and releases what it
    /// tied up. Refused with `OrderNotFound` where no such order rests, with
    /// `NotOwner` where it is not an order of `user_id`, and with `Overflow`
    /// where what is released does not fit in 64 bits with what the user
    /// has available.
    pub fn cancel_order(&mut self, user_id: u128, order_id: u128) -> (done: Result<
        (),
        EngineError,
    >)
        requires
            old(self).wf(),
        ensures
            final(self).wf(),
            (final(self)@, done) == old(self)@.cancel(user_id, order_id),
            forall|code: AssetCode|
                supply(final(self)@.users, code) == supply(old(self)@.users, code),
    {
        let (side, price) = match self.order_index.get(&order_id) {
            Some(entry) => (entry.0, entry.1),
            None => {
                return Err(EngineError::OrderNotFound);
            },
        };
        proof {
            lemma_indexed_order(self@, order_id);
            lemma_cancel(self@, user_id, order_id);
        }
        let order = match self.orderbook.find(side, price, order_id) {
            Some(order) => order,
            None => {
                return Err(EngineError::OrderNotFound);
            },
        };
        if order.user_id != user_id {
            return Err(EngineError::NotOwner);
        }
        let refund = match side {
            Side::Ask => order.quantity,
            Side::Bid => match calculate_cost_usdc_micro(price, order.quantity) {
                Some(amount) => amount,
                None => unreached(),
            },
        };
        let code = match side {
            Side::Ask => AssetCode::Btc,
            Side::Bid => AssetCode::Usdc,
        };
        let available = match self.balances.get(user_id) {
            Some(account) => account.get(code).available,
            None => unreached(),
        };
        if refund > u64::MAX - available {
            return Err(EngineError::Overflow);
        }
        self.orderbook.remove(side, price, order_id);
        self.order_index.remove(&order_id);
        self.balances.unlock(user_id, code, refund);
        proof {
            assert(self@ == old(self)@.cancel(user_id, order_id).0);
        }
        Ok(())
    }

    /// Takes in an order of `user_id` under the id `order_id`: locks its
    /// reserve, trades it against the other side of the book as far as its
    /// limit allows, and lets what is left of it rest. Refused, in this
    /// order, with `InvalidOrder` where the price or the quantity is zero,
    /// with `UnknownUser`, with `Overflow` where the cost of a bid does not
    /// fit in 64 bits, with `InsufficientFunds` where the user has less
    /// than the reserve available, with `IdInUse` where an order rests
    /// under `order_id`, and with `Overflow` where the reserve does not fit
    /// with what the user has locked, or a trade or the release of what is
    /// left of the reserve does not fit with what a user has available. An
    /// order that is refused leaves the engine as it was.
    #[verifier::rlimit(50)]
    pub fn place_order(
        &mut self,
        user_id: u128,
        side: Side,
        price: u64,
        quantity: u64,
        order_id: u128,
    ) -> (placed: Result<OrderOutcome, EngineError>)
        requires
            old(self).wf(),
        ensures
            final(self).wf(),
            (final(self)@, placed) == old(self)@.submit(user_id, side, price, quantity, order_id),
            forall|code: AssetCode|
                supply(final(self)@.users, code) == supply(old(self)@.users, code),
    {
        if price == 0 || quantity == 0 {
            return Err(EngineError::InvalidOrder);
        }
        let account = match self.balances.get(user_id) {
            Some(account) => account,
            None => {
                return Err(EngineError::UnknownUser);
            },
        };
        let code = match side {
            Side::Ask => AssetCode::Btc,
            Side::Bid => AssetCode::Usdc,
        };
        let reserve = match side {
            Side::Ask => quantity,
            Side::Bid => match calculate_cost_usdc_micro(price, quantity) {
                Some(amount) => amount,
                None => {
                    return Err(EngineError::Overflow);
                },
            },
        };
        if account.get(code).available < reserve {
            return Err(EngineError::InsufficientFunds);
        }
        if self.order_index.contains_key(&order_id) {
            return Err(EngineError::IdInUse);
        }
        if reserve > u64::MAX - account.get(code).locked {
            return Err(EngineError::Overflow);
        }
        proof {
            lemma_lock(self@, user_id, side, price, quantity);
        }
        let _ = self.balances.lock(user_id, code, reserve);
        let ghost locked = self@;
        let maker_side = side.other();
        let mut remaining = quantity;
        let mut left = reserve;
        let mut crossing = true;
        let mut fits = true;
        // what the trades changed, kept to take them back where one does not fit
        let mut log: Vec<Traded> = Vec::new();
        while remaining > 0 && crossing
            invariant
                maker_side == side.opposite(),
                self@.rolled_back(log@) == locked,
                matching(self@, user_id, side, price, remaining, left),
                !self@.index.contains_key(order_id),
                locked.fill(user_id, side, price, quantity, reserve) == self@.fill(
                    user_id,
                    side,
                    price,
                    remaining,
                    left,
                ),
                forall|code: AssetCode|
                    supply(self@.users, code) == supply(old(self)@.users, code),
                fits ==> crossing || self@.fill(user_id, side, price, remaining, left) == (Matched {
                    state: self@,
                    remaining,
                    reserve: left,
                    fits: true,
                }),
                !fits ==> !crossing && !self@.fill(user_id, side, price, remaining, left).fits,
                !crossing && fits ==> forall|other: u64| #[trigger]
                    self@.side(maker_side).contains_key(other) ==> !EngineState::crosses(
                        side,
                        price,
                        other,
                    ),
            decreases remaining, crossing as int,
        {
            let ghost before = self@;
            match self.orderbook.best_price(maker_side) {
                None => {
                    crossing = false;
                },
                Some(best) => {
                    let within = match side {
                        Side::Ask => best >= price,
                        Side::Bid => best <= price,
                    };
                    if !within {
                        crossing = false;
                        proof {
                            assert forall|other: u64| #[trigger]
                                self@.side(maker_side).contains_key(
                                    other,
                                ) implies !EngineState::crosses(side, price, other) by {
                                assert(no_worse(maker_side, best, other));
                            }
                        }
                    } else {
                        proof {
                            assert(can_trade(before, user_id, side, price, remaining, left, best));
                            lemma_trade_amounts(
                                before,
                                user_id,
                                side,
                                price,
                                remaining,
                                left,
                                best,
                            );
                            lemma_trade(before, user_id, side, price, remaining, left, best);
                        }
                        let maker = match self.orderbook.front(maker_side, best) {
                            Some(maker) => maker,
                            None => unreached(),
                        };
                        let traded = if remaining < maker.quantity {
                            remaining
                        } else {
                            maker.quantity
                        };
                        let amount = match calculate_cost_usdc_micro(best, traded) {
                            Some(amount) => amount,
                            None => unreached(),
                        };
                        let (buyer, seller) = match side {
                            Side::Ask => (maker.user_id, user_id),
                            Side::Bid => (user_id, maker.user_id),
                        };
                        let buyer_had = match self.balances.get(buyer) {
                            Some(account) => account,
                            None => unreached(),
                        };
                        let seller_had = match self.balances.get(seller) {
                            Some(account) => account,
                            None => unreached(),
                        };
                        let buying = buyer_had.btc.available;
                        let selling = seller_had.usdc.available;
                        proof {
                            assert(traded == trade_quantity(before, side, best, remaining));
                        }
                        if traded > u64::MAX - buying || amount > u64::MAX - selling {
                            crossing = false;
                            fits = false;
                        } else {
                            proof {
                                assert(before.trade_fits(user_id, side, best, traded));
                                lemma_trade_effects(
                                    before,
                                    user_id,
                                    side,
                                    price,
                                    remaining,
                                    left,
                                    best,
                                );
                            }
                            self.orderbook.fill_front(maker_side, best, traded);
                            self.balances.transfer(seller, buyer, AssetCode::Btc, traded);
                            self.balances.transfer(buyer, seller, AssetCode::Usdc, amount);
                            if traded == maker.quantity {
                                self.order_index.remove(&maker.id);
                            }
                            remaining = remaining - traded;
                            left = match side {
                                Side::Ask => left - traded,
                                Side::Bid => left - amount,
                            };
                            let ghost so_far = log@;
                            log.push(
                                Traded {
                                    maker,
                                    partly: traded < maker.quantity,
                                    buyer,
                                    buyer_had,
                                    seller,
                                    seller_had,
                                },
                            );
                            proof {
                                assert(self@ == before.trade(user_id, side, best, traded));
                                lemma_untrade(
                                    before,
                                    user_id,
                                    side,
                                    price,
                                    (remaining + traded) as u64,
                                    (if side == Side::Bid {
                                        left + amount
                                    } else {
                                        left + traded
                                    }) as u64,
                                    best,
                                );
                                assert(log@.last() == before.record(user_id, side, best, traded));
                                assert(log@.drop_last() =~= so_far);
                            }
                        }
                    }
                },
            }
        }
        if !fits {
            self.take_back(log);
            self.balances.restore(user_id, account);
            proof {
                assert(self@.users =~= old(self)@.users);
            }
            return Err(EngineError::Overflow);
        }
        if remaining == 0 {
            let available = match self.balances.get(user_id) {
                Some(account) => account.get(code).available,
                None => unreached(),
            };
            if left > u64::MAX - available {
                self.take_back(log);
                self.balances.restore(user_id, account);
                proof {
                    assert(self@.users =~= old(self)@.users);
                }
                return Err(EngineError::Overflow);
            }
            proof {
                lemma_refund(self@, user_id, side, price, left);
            }
            self.balances.unlock(user_id, code, left);
            Ok(OrderOutcome::Filled)
        } else {
            proof {
                lemma_rest(self@, user_id, side, price, remaining, left, order_id);
            }
            self.orderbook.add_order(
                Order { id: order_id, user_id, side, price, quantity: remaining },
            );
            self.order_index.insert(order_id, (side, price));
            Ok(OrderOutcome::Resting { order_id })
        }
    }

    /// The resting orders of `user_id`, each of them once: the bids before
    /// the asks, each side from its lowest price up and within a price the
    /// oldest order first.
    pub fn get_user_orders(&self, user_id: u128) -> (orders: Vec<Order>)
        ensures
            self@.lists_orders_of(user_id, orders@),
    {
        self.orderbook.orders_of(user_id)
    }

    /// Gives a new user an empty account under a random id, and hands out
    /// the id. Refused with `IdInUse` where the id drawn is the id of a
    /// user, which leaves the engine as it was.
    pub fn initialize_user(&mut self) -> (created: Result<u128, EngineError>)
        requires
            old(self).wf(),
        ensures
            final(self).wf(),
            match created {
                Ok(user_id) => is_random_uuid(user_id) && (final(self)@, Ok::<(), EngineError>(()))
                    == old(self)@.register(user_id),
                Err(error) => error == EngineError::IdInUse && final(self)@ == old(self)@
                    && exists|user_id: u128|
                    is_random_uuid(user_id) && #[trigger] old(self)@.users.contains_key(user_id),
            },
            forall|code: AssetCode|
                supply(final(self)@.users, code) == supply(old(self)@.users, code),
    {
        let user_id = random_id();
        match self.register_user(user_id) {
            Ok(()) => Ok(user_id),
            Err(error) => Err(error),
        }
    }

    /// Takes in an order of `user_id` as `place_order` does, under a random
    /// id.
    pub fn create_order(&mut self, user_id: u128, side: Side, price: u64, quantity: u64) -> (placed:
        Result<OrderOutcome, EngineError>)
        requires
            old(self).wf(),
        ensures
            final(self).wf(),
            exists|order_id: u128|
                is_random_uuid(order_id) && (final(self)@, placed) == #[trigger] old(
                    self,
                )@.submit(user_id, side, price, quantity, order_id),
            forall|code: AssetCode|
                supply(final(self)@.users, code) == supply(old(self)@.users, code),
    {
        let order_id = random_id();
        self.place_order(user_id, side, price, quantity, order_id)
    }

    /// Runs one command and gives the answer to it.
    pub fn handle(&mut self, command: &EngineCommand) -> (reply: EngineReply)
        requires
            old(self).wf(),
        ensures
            final(self).wf(),
            answers(old(self)@, *command, reply, final(self)@),
            !(command is Deposit) ==> forall|code: AssetCode|
                supply(final(self)@.users, code) == supply(old(self)@.users, code),
    {
        match command {
            EngineCommand::InitializeUser => match self.initialize_user() {
                Ok(user_id) => EngineReply::UserInitialized { user_id },
                Err(error) => EngineReply::Failed(error),
            },
            EngineCommand::Deposit { user_id, asset, amount } => {
                if !self.balances.contains(*user_id) {
                    return EngineReply::Failed(EngineError::UnknownUser);
                }
                match AssetCode::from_name(asset) {
                    None => EngineReply::Failed(EngineError::UnknownAsset),
                    Some(code) => match self.deposit(*user_id, code, *amount) {
                        Ok(()) => EngineReply::Deposited {
                            user_id: *user_id,
                            asset: code,
                            amount: *amount,
                        },
                        Err(error) => EngineReply::Failed(error),
                    },
                }
            },
            EngineCommand::GetBalances { user_id } => EngineReply::Balances(
                self.get_balances(*user_id),
            ),
            EngineCommand::CreateOrder { user_id, side, price, quantity } => {
                match self.create_order(*user_id, *side, *price, *quantity) {
                    Ok(outcome) => EngineReply::OrderCreated(outcome),
                    Err(error) => EngineReply::Failed(error),
                }
            },
            EngineCommand::CancelOrder { user_id, order_id } => {
                match self.cancel_order(*user_id, *order_id) {
                    Ok(()) => EngineReply::OrderCancelled { order_id: *order_id },
                    Err(error) => EngineReply::Failed(error),
                }
            },
            EngineCommand::GetUserOrders { user_id } => EngineReply::UserOrders(
                self.get_user_orders(*user_id),
            ),
        }
    }

    /// Runs `commands` one after the other, each on the state that the one
    /// before it left, and gives the answers in the same order.
    pub fn process(&mut self, commands: &Vec<EngineCommand>) -> (replies: Vec<EngineReply>)
        requires
            old(self).wf(),
        ensures
            final(self).wf(),
            runs(old(self)@, commands@, replies@, final(self)@),
    {
        let mut replies: Vec<EngineReply> = Vec::new();
        let mut i: usize = 0;
        while i < commands.len()
            invariant
                i <= commands@.len(),
                self.wf(),
                runs(old(self)@, commands@.take(i as int), replies@, self@),
            decreases commands@.len() - i,
        {
            let ghost mid = self@;
            let ghost so_far = replies@;
            let reply = self.handle(&commands[i]);
            replies.push(reply);
            proof {
                let done = commands@.take(i + 1);
                assert(done.drop_last() =~= commands@.take(i as int));
                assert(done.last() == commands@[i as int]);
                assert(replies@.drop_last() =~= so_far);
                assert(answers(mid, done.last(), replies@.last(), self@));
            }
            i += 1;
        }
        proof {
            assert(commands@.take(commands@.len() as int) =~= commands@);
        }
        replies
    }
}

/// Starts an engine and runs `commands` on it one after the other, each on
/// the state that the one before it left. Gives the answers, one for each
/// command and in their order.
pub fn run(commands: &Vec<EngineCommand>) -> (replies: Vec<EngineReply>)
    ensures
        exists|after: EngineState| #[trigger]
            runs(EngineState::initial(), commands@, replies@, after) && after.inv(),
{
    let mut engine = Engine::new();
    engine.process(commands)
}

} // verus!
