//! The order book: for each side and price a queue of resting orders.

use crate::math::{cost, lemma_cost_bounds};
use crate::sums::{
    lemma_sum_over_agree, lemma_sum_over_insert, lemma_sum_over_nonneg, lemma_sum_over_remove,
    lemma_sum_over_zero, lemma_sum_seq_nonneg, lemma_sum_seq_push, lemma_sum_seq_remove,
    lemma_sum_seq_update, lemma_sum_seq_zero, sum_over, sum_seq,
};
use std::collections::{BTreeMap, VecDeque};
use vstd::pervasive::unreached;
use vstd::prelude::*;
use vstd::std_specs::iter::IteratorSpec;

verus! {

/// The side of the market that an order stands on.
#[derive(Clone, Copy, Debug, PartialEq, Eq, Structural)]
pub enum Side {
    Ask,
    Bid,
}

impl Side {
    /// The side that an order of this side trades against.
    pub open spec fn opposite(self) -> Side {
        match self {
            Side::Ask => Side::Bid,
            Side::Bid => Side::Ask,
        }
    }

    /// The side that an order of this side trades against.
    pub fn other(&self) -> (side: Side)
        ensures
            side == self.opposite(),
    {
        match self {
            Side::Ask => Side::Bid,
            Side::Bid => Side::Ask,
        }
    }
}

/// A limit order. `price` is in micro-USDC per BTC, `quantity` is what is
/// still unfilled, in satoshis.
#[derive(Clone, Copy, Debug, PartialEq, Eq, Structural)]
pub struct Order {
    pub id: u128,
    pub user_id: u128,
    pub side: Side,
    pub price: u64,
    pub quantity: u64,
}

impl Order {
    /// This order with `quantity` unfilled.
    pub open spec fn with_quantity(self, quantity: u64) -> Order {
        Order {
            id: self.id,
            user_id: self.user_id,
            side: self.side,
            price: self.price,
            quantity,
        }
    }

    /// Whether this order may rest on `side` at `price`: it is of that side
    /// and price, and neither its price nor its quantity is zero.
    pub open spec fn rests_at(self, side: Side, price: u64) -> bool {
        &&& self.side == side
        &&& self.price == price
        &&& self.price > 0
        &&& self.quantity > 0
    }
}

/// Whether `level` may stand in a book on `side` at `price`: it is not
/// empty, and each of its orders may rest there.
pub open spec fn level_wf(level: Seq<Order>, side: Side, price: u64) -> bool {
    &&& level.len() > 0
    &&& forall|i: int| 0 <= i < level.len() ==> (#[trigger] level[i]).rests_at(side, price)
}

/// Whether `levels` may be one side of a book.
pub open spec fn levels_wf(levels: Map<u64, Seq<Order>>, side: Side) -> bool {
    &&& levels.dom().finite()
    &&& forall|price: u64| #[trigger]
        levels.contains_key(price) ==> level_wf(levels[price], side, price)
}

/// Whether of two prices on `side` the first is at least as good as the
/// second: no higher for an ask, no lower for a bid.
pub open spec fn no_worse(side: Side, price: u64, than: u64) -> bool {
    match side {
        Side::Ask => price <= than,
        Side::Bid => price >= than,
    }
}

/// Whether `price` is the best price of `levels`, taken as `side` of a book.
pub open spec fn is_best(levels: Map<u64, Seq<Order>>, side: Side, price: u64) -> bool {
    &&& levels.contains_key(price)
    &&& forall|other: u64| #[trigger] levels.contains_key(other) ==> no_worse(side, price, other)
}

/// The best price of `levels`, taken as `side` of a book, if it has a level.
pub open spec fn best(levels: Map<u64, Seq<Order>>, side: Side) -> Option<u64> {
    if exists|price: u64| is_best(levels, side, price) {
        Some(choose|price: u64| is_best(levels, side, price))
    } else {
        None
    }
}

/// A side of a book has at most one best price.
pub proof fn lemma_best_is(levels: Map<u64, Seq<Order>>, side: Side, price: u64)
    requires
        is_best(levels, side, price),
    ensures
        best(levels, side) == Some(price),
{
    let chosen = choose|price: u64| is_best(levels, side, price);
    assert(levels.contains_key(chosen));
    assert(levels.contains_key(price));
    assert(no_worse(side, chosen, price));
    assert(no_worse(side, price, chosen));
}

/// A side of a book without levels has no best price.
pub proof fn lemma_best_of_none(levels: Map<u64, Seq<Order>>, side: Side)
    requires
        forall|price: u64| !levels.contains_key(price),
    ensures
        best(levels, side) is None,
{
}

/// `levels` after `order` joined the end of the level at its price.
pub open spec fn pushed(levels: Map<u64, Seq<Order>>, order: Order) -> Map<u64, Seq<Order>> {
    let level = if levels.contains_key(order.price) {
        levels[order.price]
    } else {
        Seq::<Order>::empty()
    };
    levels.insert(order.price, level.push(order))
}

/// `levels` after `quantity` was filled of the first order at `price`: the
/// order stays first with less unfilled, or leaves where nothing is left
/// of it, and the level leaves with its last order.
pub open spec fn front_taken(levels: Map<u64, Seq<Order>>, price: u64, quantity: u64) -> Map<
    u64,
    Seq<Order>,
> {
    let level = levels[price];
    let head = level[0];
    if quantity < head.quantity {
        levels.insert(price, level.update(0, head.with_quantity((head.quantity - quantity) as u64)))
    } else if level.len() > 1 {
        levels.insert(price, level.remove(0))
    } else {
        levels.remove(price)
    }
}

/// `levels` after `order` was put back at the front of the queue at its
/// price: in place of the order that stands first there where `replaces`,
/// else before it.
pub open spec fn front_restored(levels: Map<u64, Seq<Order>>, order: Order, replaces: bool) -> Map<
    u64,
    Seq<Order>,
> {
    let rest = if !levels.contains_key(order.price) {
        Seq::<Order>::empty()
    } else if replaces && levels[order.price].len() > 0 {
        levels[order.price].drop_first()
    } else {
        levels[order.price]
    };
    levels.insert(order.price, seq![order] + rest)
}

/// To put the first order back as it was takes back a fill of it.
pub proof fn lemma_front_restored(levels: Map<u64, Seq<Order>>, price: u64, quantity: u64)
    requires
        levels.contains_key(price),
        levels[price].len() > 0,
        levels[price][0].price == price,
        quantity <= levels[price][0].quantity,
    ensures
        front_restored(
            front_taken(levels, price, quantity),
            levels[price][0],
            quantity < levels[price][0].quantity,
        ) == levels,
{
    let level = levels[price];
    let head = level[0];
    let taken = front_taken(levels, price, quantity);
    let back = front_restored(taken, head, quantity < head.quantity);
    if quantity < head.quantity {
        assert(seq![head] + taken[price].drop_first() =~= level);
    } else if level.len() > 1 {
        assert(seq![head] + taken[price] =~= level);
    } else {
        assert(seq![head] + Seq::<Order>::empty() =~= level);
    }
    assert(back =~= levels);
}

/// Whether `i` is the place of the first order in `level` with this `id`.
pub open spec fn is_place(level: Seq<Order>, id: u128, i: int) -> bool {
    &&& 0 <= i < level.len()
    &&& level[i].id == id
    &&& forall|j: int| 0 <= j < i ==> (#[trigger] level[j]).id != id
}

/// The place of the first order in `level` with this `id`, if it has one.
pub open spec fn place(level: Seq<Order>, id: u128) -> Option<int> {
    if exists|i: int| is_place(level, id, i) {
        Some(choose|i: int| is_place(level, id, i))
    } else {
        None
    }
}

/// The first of the orders with an id is at one place only.
pub proof fn lemma_place_is(level: Seq<Order>, id: u128, i: int)
    requires
        is_place(level, id, i),
    ensures
        place(level, id) == Some(i),
{
    let chosen = choose|i: int| is_place(level, id, i);
    if chosen < i {
        assert(level[chosen].id != id);
    }
    if i < chosen {
        assert(level[i].id != id);
    }
}

/// A level in which no order has the id has no place for it.
pub proof fn lemma_place_none(level: Seq<Order>, id: u128)
    requires
        forall|j: int| 0 <= j < level.len() ==> (#[trigger] level[j]).id != id,
    ensures
        place(level, id) is None,
{
    assert forall|i: int| !is_place(level, id, i) by {
        if 0 <= i < level.len() {
            assert(level[i].id != id);
        }
    }
}

/// The order with this `id` resting at `price`, if there is one.
pub open spec fn found(levels: Map<u64, Seq<Order>>, price: u64, id: u128) -> Option<Order> {
    if levels.contains_key(price) {
        match place(levels[price], id) {
            Some(i) => Some(levels[price][i]),
            None => None,
        }
    } else {
        None
    }
}

/// `levels` after the order with this `id` left the level at `price`, and
/// the level with its last order.
pub open spec fn removed(levels: Map<u64, Seq<Order>>, price: u64, id: u128) -> Map<
    u64,
    Seq<Order>,
> {
    if levels.contains_key(price) {
        match place(levels[price], id) {
            Some(i) => if levels[price].len() > 1 {
                levels.insert(price, levels[price].remove(i))
            } else {
                levels.remove(price)
            },
            None => levels,
        }
    } else {
        levels
    }
}

/// What a resting order ties up of its owner's funds: an ask its quantity,
/// in satoshis; a bid its cost at its own price, in micro-USDC.
pub open spec fn order_reserve(order: Order) -> int {
    match order.side {
        Side::Ask => order.quantity as int,
        Side::Bid => cost(order.price as int, order.quantity as int),
    }
}

/// What an order ties up of the funds of `user`: its reserve where it is
/// the user's, else nothing.
pub open spec fn reserve_of(user: u128) -> spec_fn(Order) -> int {
    |order: Order|
        if order.user_id == user {
            order_reserve(order)
        } else {
            0
        }
}

/// What the orders of `level` tie up of the funds of `user`.
pub open spec fn level_exposure(level: Seq<Order>, user: u128) -> int {
    sum_seq(level, reserve_of(user))
}

/// What the level at a price ties up of the funds of `user`, as a function
/// of the price.
pub open spec fn level_term(levels: Map<u64, Seq<Order>>, user: u128) -> spec_fn(u64) -> int {
    |price: u64| level_exposure(levels[price], user)
}

/// What the orders of one side of a book tie up of the funds of `user`.
pub open spec fn exposure(levels: Map<u64, Seq<Order>>, user: u128) -> int {
    sum_over(levels.dom(), level_term(levels, user))
}

/// What the level at `price` ties up of the funds of `user`; nothing where
/// there is no such level.
pub open spec fn exposure_at(levels: Map<u64, Seq<Order>>, price: u64, user: u128) -> int {
    if levels.contains_key(price) {
        level_exposure(levels[price], user)
    } else {
        0
    }
}

/// No order ties up a negative amount.
pub proof fn lemma_reserve_nonneg(order: Order, user: u128)
    ensures
        0 <= order_reserve(order),
        0 <= reserve_of(user)(order),
{
    lemma_cost_bounds(order.price as int, order.quantity as int);
}

/// A level ties up at least what each of its orders does.
pub proof fn lemma_level_exposure_bounds(level: Seq<Order>, user: u128)
    ensures
        0 <= level_exposure(level, user),
        forall|i: int|
            0 <= i < level.len() ==> reserve_of(user)(#[trigger] level[i]) <= level_exposure(
                level,
                user,
            ),
{
    assert forall|i: int| 0 <= i < level.len() implies 0 <= #[trigger] reserve_of(user)(
        level[i],
    ) by {
        lemma_reserve_nonneg(level[i], user);
    }
    lemma_sum_seq_nonneg(level, reserve_of(user));
}

/// A side of a book ties up at least what each of its levels does.
pub proof fn lemma_exposure_bounds(levels: Map<u64, Seq<Order>>, user: u128)
    requires
        levels.dom().finite(),
    ensures
        0 <= exposure(levels, user),
        forall|price: u64| #[trigger]
            levels.contains_key(price) ==> level_exposure(levels[price], user) <= exposure(
                levels,
                user,
            ),
{
    let term = level_term(levels, user);
    assert forall|price: u64| levels.dom().contains(price) implies 0 <= #[trigger] term(price) by {
        lemma_level_exposure_bounds(levels[price], user);
    }
    lemma_sum_over_nonneg(levels.dom(), term);
    assert forall|price: u64| #[trigger] levels.contains_key(price) implies level_exposure(
        levels[price],
        user,
    ) <= exposure(levels, user) by {
        assert(term(price) <= sum_over(levels.dom(), term));
    }
}

/// An order in the book ties up no more than all orders of its owner do.
pub proof fn lemma_order_within_exposure(levels: Map<u64, Seq<Order>>, price: u64, i: int)
    requires
        levels.dom().finite(),
        levels.contains_key(price),
        0 <= i < levels[price].len(),
    ensures
        0 <= order_reserve(levels[price][i]) <= exposure(levels, levels[price][i].user_id),
{
    let order = levels[price][i];
    lemma_reserve_nonneg(order, order.user_id);
    lemma_level_exposure_bounds(levels[price], order.user_id);
    lemma_exposure_bounds(levels, order.user_id);
}

/// A side of a book in which `user` has no order ties up nothing of the
/// user's funds.
pub proof fn lemma_exposure_none(levels: Map<u64, Seq<Order>>, user: u128)
    requires
        levels.dom().finite(),
        forall|price: u64, i: int|
            levels.contains_key(price) && 0 <= i < levels[price].len() ==> (
            #[trigger] levels[price][i]).user_id != user,
    ensures
        exposure(levels, user) == 0,
{
    let term = level_term(levels, user);
    assert forall|price: u64| levels.dom().contains(price) implies #[trigger] term(price) == 0 by {
        let level = levels[price];
        assert forall|i: int| 0 <= i < level.len() implies #[trigger] reserve_of(user)(level[i])
            == 0 by {
            assert(levels[price][i].user_id != user);
        }
        lemma_sum_seq_zero(level, reserve_of(user));
    }
    lemma_sum_over_zero(levels.dom(), term);
}

/// Where two sides of a book differ at one price only, what they tie up
/// differs by what their levels at that price tie up.
pub proof fn lemma_exposure_one_level(
    levels: Map<u64, Seq<Order>>,
    after: Map<u64, Seq<Order>>,
    price: u64,
    user: u128,
)
    requires
        levels.dom().finite(),
        after.dom().finite(),
        forall|other: u64|
            other != price ==> (levels.contains_key(other) <==> after.contains_key(other)),
        forall|other: u64|
            other != price && levels.contains_key(other) ==> levels[other] == after[other],
    ensures
        exposure(after, user) - exposure_at(after, price, user) == exposure(levels, user)
            - exposure_at(levels, price, user),
{
    let before_rest = levels.dom().remove(price);
    let after_rest = after.dom().remove(price);
    assert(before_rest =~= after_rest);
    if levels.contains_key(price) {
        lemma_sum_over_remove(levels.dom(), level_term(levels, user), price);
    } else {
        assert(before_rest =~= levels.dom());
    }
    if after.contains_key(price) {
        lemma_sum_over_remove(after.dom(), level_term(after, user), price);
    } else {
        assert(after_rest =~= after.dom());
    }
    lemma_sum_over_agree(before_rest, level_term(levels, user), level_term(after, user));
}

/// An order that joins a side of a book adds what it ties up.
pub proof fn lemma_exposure_pushed(levels: Map<u64, Seq<Order>>, order: Order, user: u128)
    requires
        levels.dom().finite(),
    ensures
        exposure(pushed(levels, order), user) == exposure(levels, user) + reserve_of(user)(order),
{
    let after = pushed(levels, order);
    lemma_exposure_one_level(levels, after, order.price, user);
    let level = if levels.contains_key(order.price) {
        levels[order.price]
    } else {
        Seq::<Order>::empty()
    };
    lemma_sum_seq_push(level, reserve_of(user), order);
}

/// A fill of the first order at a price takes away what the order tied up
/// and puts back what is left of it.
pub proof fn lemma_exposure_front_taken(
    levels: Map<u64, Seq<Order>>,
    price: u64,
    quantity: u64,
    user: u128,
)
    requires
        levels.dom().finite(),
        levels.contains_key(price),
        levels[price].len() > 0,
        quantity <= levels[price][0].quantity,
    ensures
        exposure(front_taken(levels, price, quantity), user) == exposure(levels, user)
            - reserve_of(user)(levels[price][0]) + (if quantity < levels[price][0].quantity {
            reserve_of(user)(
                levels[price][0].with_quantity((levels[price][0].quantity - quantity) as u64),
            )
        } else {
            0
        }),
{
    let after = front_taken(levels, price, quantity);
    let level = levels[price];
    let head = level[0];
    lemma_exposure_one_level(levels, after, price, user);
    if quantity < head.quantity {
        lemma_sum_seq_update(
            level,
            reserve_of(user),
            0,
            head.with_quantity((head.quantity - quantity) as u64),
        );
    } else {
        lemma_sum_seq_remove(level, reserve_of(user), 0);
        if level.len() == 1 {
            assert(level.remove(0) =~= Seq::<Order>::empty());
        }
    }
}

/// An order that leaves a side of a book takes away what it tied up.
pub proof fn lemma_exposure_removed(
    levels: Map<u64, Seq<Order>>,
    price: u64,
    id: u128,
    user: u128,
)
    requires
        levels.dom().finite(),
    ensures
        exposure(removed(levels, price, id), user) == exposure(levels, user) - (match found(
            levels,
            price,
            id,
        ) {
            Some(order) => reserve_of(user)(order),
            None => 0,
        }),
{
    if levels.contains_key(price) {
        match place(levels[price], id) {
            Some(i) => {
                let after = removed(levels, price, id);
                let level = levels[price];
                lemma_exposure_one_level(levels, after, price, user);
                lemma_sum_seq_remove(level, reserve_of(user), i);
                if level.len() == 1 {
                    assert(level.remove(i) =~= Seq::<Order>::empty());
                }
            },
            None => {},
        }
    }
}

/// Whether in `level` the order with the id `first` stands before the one
/// with the id `second`.
pub open spec fn stands_before(level: Seq<Order>, first: u128, second: u128) -> bool {
    exists|i: int, j: int|
        0 <= i < j < level.len() && (#[trigger] level[i]).id == first && (#[trigger] level[j]).id
            == second
}

/// Whether no order of `after` has an order before it in its queue that it
/// did not have before it in `before`: but for an order with the id `new`,
/// if there is one.
pub open spec fn keeps_order(
    before: Map<u64, Seq<Order>>,
    after: Map<u64, Seq<Order>>,
    new: Option<u128>,
) -> bool {
    forall|price: u64, first: u128, second: u128|
        after.contains_key(price) && #[trigger] stands_before(after[price], first, second)
            && new != Some(second) ==> before.contains_key(price) && stands_before(
            before[price],
            first,
            second,
        )
}

/// A fill of a first order lets no order jump the queue.
pub proof fn lemma_front_taken_keeps_order(
    levels: Map<u64, Seq<Order>>,
    price: u64,
    quantity: u64,
)
    requires
        levels.contains_key(price),
        levels[price].len() > 0,
        quantity <= levels[price][0].quantity,
    ensures
        keeps_order(levels, front_taken(levels, price, quantity), None),
{
    let after = front_taken(levels, price, quantity);
    let level = levels[price];
    assert forall|p: u64, first: u128, second: u128|
        after.contains_key(p) && #[trigger] stands_before(
            after[p],
            first,
            second,
        ) implies levels.contains_key(p) && stands_before(levels[p], first, second) by {
        if p == price {
            let (i, j) = choose|i: int, j: int|
                0 <= i < j < after[p].len() && (#[trigger] after[p][i]).id == first && (
                #[trigger] after[p][j]).id == second;
            if quantity < level[0].quantity {
                assert(level[i].id == first && level[j].id == second);
            } else {
                assert(level[i + 1].id == first && level[j + 1].id == second);
            }
        }
    }
}

/// An order that leaves lets no order jump the queue.
pub proof fn lemma_removed_keeps_order(levels: Map<u64, Seq<Order>>, price: u64, id: u128)
    ensures
        keeps_order(levels, removed(levels, price, id), None),
{
    let after = removed(levels, price, id);
    assert forall|p: u64, first: u128, second: u128|
        after.contains_key(p) && #[trigger] stands_before(
            after[p],
            first,
            second,
        ) implies levels.contains_key(p) && stands_before(levels[p], first, second) by {
        if p == price && levels.contains_key(price) {
            match place(levels[price], id) {
                Some(at) => {
                    let level = levels[price];
                    let (i, j) = choose|i: int, j: int|
                        0 <= i < j < after[p].len() && (#[trigger] after[p][i]).id == first && (
                        #[trigger] after[p][j]).id == second;
                    let from_i = if i < at {
                        i
                    } else {
                        i + 1
                    };
                    let from_j = if j < at {
                        j
                    } else {
                        j + 1
                    };
                    assert(level[from_i].id == first && level[from_j].id == second);
                },
                None => {},
            }
        }
    }
}

/// An order that joins a queue stands last in it and lets no other order
/// jump the queue.
pub proof fn lemma_pushed_keeps_order(levels: Map<u64, Seq<Order>>, order: Order)
    ensures
        keeps_order(levels, pushed(levels, order), Some(order.id)),
        pushed(levels, order)[order.price].last() == order,
{
    let after = pushed(levels, order);
    assert forall|p: u64, first: u128, second: u128|
        after.contains_key(p) && #[trigger] stands_before(after[p], first, second) && Some(
            order.id,
        ) != Some(second) implies levels.contains_key(p) && stands_before(
        levels[p],
        first,
        second,
    ) by {
        if p == order.price {
            let (i, j) = choose|i: int, j: int|
                0 <= i < j < after[p].len() && (#[trigger] after[p][i]).id == first && (
                #[trigger] after[p][j]).id == second;
            assert(j < after[p].len() - 1);
            assert(levels.contains_key(p));
            assert(levels[p][i].id == first && levels[p][j].id == second);
        }
    }
}

/// Keeping the order of the queues carries over from step to step.
pub proof fn lemma_keeps_order_chain(
    first: Map<u64, Seq<Order>>,
    second: Map<u64, Seq<Order>>,
    third: Map<u64, Seq<Order>>,
    new: Option<u128>,
)
    requires
        keeps_order(first, second, None),
        keeps_order(second, third, new),
    ensures
        keeps_order(first, third, new),
{
    assert forall|price: u64, a: u128, b: u128|
        third.contains_key(price) && #[trigger] stands_before(third[price], a, b) && new != Some(
            b,
        ) implies first.contains_key(price) && stands_before(first[price], a, b) by {
        assert(second.contains_key(price) && stands_before(second[price], a, b));
    }
}

/// A side of a book with a level has a best price.
pub proof fn lemma_best_exists(levels: Map<u64, Seq<Order>>, side: Side)
    requires
        levels.dom().finite(),
        levels.dom().len() > 0,
    ensures
        best(levels, side) is Some,
        is_best(levels, side, best(levels, side).unwrap()),
    decreases levels.dom().len(),
{
    let one = levels.dom().choose();
    let rest = levels.remove(one);
    assert(rest.dom() =~= levels.dom().remove(one));
    if rest.dom().len() == 0 {
        assert forall|other: u64| #[trigger] levels.contains_key(other) implies no_worse(
            side,
            one,
            other,
        ) by {
            if other != one {
                assert(rest.dom().contains(other));
            }
        }
        assert(is_best(levels, side, one));
    } else {
        lemma_best_exists(rest, side);
        let top = best(rest, side).unwrap();
        let winner = if no_worse(side, one, top) {
            one
        } else {
            top
        };
        assert forall|other: u64| #[trigger] levels.contains_key(other) implies no_worse(
            side,
            winner,
            other,
        ) by {
            if other != one {
                assert(rest.contains_key(other));
                assert(no_worse(side, top, other));
            }
        }
        assert(rest.contains_key(top));
        assert(is_best(levels, side, winner));
    }
}

/// A side of a book without a best price has no level.
pub proof fn lemma_no_best(levels: Map<u64, Seq<Order>>, side: Side)
    requires
        levels.dom().finite(),
        best(levels, side) is None,
    ensures
        forall|price: u64| !levels.contains_key(price),
{
    if levels.dom().len() > 0 {
        lemma_best_exists(levels, side);
    } else {
        assert(levels.dom() =~= Set::<u64>::empty());
    }
}

/// One for an order of `user`, nothing for another.
pub open spec fn one_if_of(user: u128) -> spec_fn(Order) -> int {
    |order: Order|
        if order.user_id == user {
            1
        } else {
            0
        }
}

/// How many orders of `user` rest in the level at a price, as a function
/// of the price.
pub open spec fn count_term(levels: Map<u64, Seq<Order>>, user: u128) -> spec_fn(u64) -> int {
    |price: u64| sum_seq(levels[price], one_if_of(user))
}

/// How many orders of `user` rest on one side of a book.
pub open spec fn order_count(levels: Map<u64, Seq<Order>>, user: u128) -> int {
    sum_over(levels.dom(), count_term(levels, user))
}

/// Whether `order` rests on this side of a book.
pub open spec fn rests_in(levels: Map<u64, Seq<Order>>, order: Order) -> bool {
    exists|price: u64, i: int|
        levels.contains_key(price) && 0 <= i < levels[price].len() && #[trigger] levels[price][i]
            == order
}

/// The queues of one side of a book, each seen as the sequence of its orders.
pub open spec fn queues(side: Map<u64, VecDeque<Order>>) -> Map<u64, Seq<Order>> {
    Map::new(|price: u64| side.contains_key(price), |price: u64| side[price]@)
}

/// `BTreeMap::first_key_value`: the least key of the map, if it has one.
#[verifier::external_body]
fn least_key(side: &BTreeMap<u64, VecDeque<Order>>) -> (key: Option<u64>)
    ensures
        match key {
            Some(least) => side@.contains_key(least) && forall|other: u64| #[trigger]
                side@.contains_key(other) ==> least <= other,
            None => forall|other: u64| !side@.contains_key(other),
        },
{
    match side.first_key_value() {
        Some(entry) => Some(*entry.0),
        None => None,
    }
}

/// `BTreeMap::last_key_value`: the greatest key of the map, if it has one.
#[verifier::external_body]
fn greatest_key(side: &BTreeMap<u64, VecDeque<Order>>) -> (key: Option<u64>)
    ensures
        match key {
            Some(greatest) => side@.contains_key(greatest) && forall|other: u64| #[trigger]
                side@.contains_key(other) ==> greatest >= other,
            None => forall|other: u64| !side@.contains_key(other),
        },
{
    match side.last_key_value() {
        Some(entry) => Some(*entry.0),
        None => None,
    }
}

/// Puts `order` at the end of the queue at its price.
fn push_order(side: &mut BTreeMap<u64, VecDeque<Order>>, order: Order)
    ensures
        queues(final(side)@) == pushed(queues(old(side)@), order),
{
    let mut queue = match side.remove(&order.price) {
        Some(queue) => queue,
        None => VecDeque::new(),
    };
    queue.push_back(order);
    side.insert(order.price, queue);
    assert(queues(side@) =~= pushed(queues(old(side)@), order));
}

/// Fills `quantity` of the first order at `price`, and hands out the order
/// as it was.
fn take_front(side: &mut BTreeMap<u64, VecDeque<Order>>, price: u64, quantity: u64) -> (head: Order)
    requires
        old(side)@.contains_key(price),
        old(side)@[price]@.len() > 0,
        quantity <= old(side)@[price]@[0].quantity,
    ensures
        head == old(side)@[price]@[0],
        queues(final(side)@) == front_taken(queues(old(side)@), price, quantity),
{
    let mut queue = match side.remove(&price) {
        Some(queue) => queue,
        None => unreached(),
    };
    let ghost level = queue@;
    let head = match queue.pop_front() {
        Some(head) => head,
        None => unreached(),
    };
    if quantity < head.quantity {
        queue.push_front(
            Order {
                id: head.id,
                user_id: head.user_id,
                side: head.side,
                price: head.price,
                quantity: head.quantity - quantity,
            },
        );
        assert(queue@ =~= level.update(0, head.with_quantity((head.quantity - quantity) as u64)));
    } else {
        assert(queue@ =~= level.remove(0));
    }
    if queue.len() > 0 {
        side.insert(price, queue);
    }
    assert(queues(side@) =~= front_taken(queues(old(side)@), price, quantity));
    head
}

/// Puts `order` back at the front of the queue at its price: in place of
/// the order that stands first there where `replaces`, else before it.
fn put_front(side: &mut BTreeMap<u64, VecDeque<Order>>, order: Order, replaces: bool)
    ensures
        queues(final(side)@) == front_restored(queues(old(side)@), order, replaces),
{
    let mut queue = match side.remove(&order.price) {
        Some(queue) => queue,
        None => VecDeque::new(),
    };
    let ghost level = queue@;
    if replaces {
        let _ = queue.pop_front();
    }
    let ghost rest = queue@;
    queue.push_front(order);
    side.insert(order.price, queue);
    proof {
        if replaces && level.len() > 0 {
            assert(rest =~= level.drop_first());
        }
        assert(queues(side@) =~= front_restored(queues(old(side)@), order, replaces));
    }
}

/// The first order with this `id` in the queue at `price`, if there is one.
fn find_order(side: &BTreeMap<u64, VecDeque<Order>>, price: u64, id: u128) -> (order: Option<Order>)
    ensures
        order == found(queues(side@), price, id),
{
    match side.get(&price) {
        None => None,
        Some(queue) => {
            let mut i: usize = 0;
            while i < queue.len()
                invariant
                    side@.contains_key(price),
                    side@[price] == *queue,
                    i <= queue@.len(),
                    forall|j: int| 0 <= j < i ==> (#[trigger] queue@[j]).id != id,
                decreases queue@.len() - i,
            {
                if queue[i].id == id {
                    proof {
                        lemma_place_is(queue@, id, i as int);
                    }
                    return Some(queue[i]);
                }
                i += 1;
            }
            proof {
                lemma_place_none(queue@, id);
            }
            None
        },
    }
}

/// Takes the first order with this `id` out of the queue at `price`, if
/// there is one, and hands it out.
fn remove_order(side: &mut BTreeMap<u64, VecDeque<Order>>, price: u64, id: u128) -> (order: Option<
    Order,
>)
    ensures
        order == found(queues(old(side)@), price, id),
        queues(final(side)@) == removed(queues(old(side)@), price, id),
{
    let mut queue = match side.remove(&price) {
        Some(queue) => queue,
        None => {
            assert(queues(side@) =~= queues(old(side)@));
            return None;
        },
    };
    let ghost level = queue@;
    let mut i: usize = 0;
    let mut order: Option<Order> = None;
    while i < queue.len()
        invariant_except_break
            order is None,
            forall|j: int| 0 <= j < i ==> (#[trigger] level[j]).id != id,
        invariant
            queue@ == level,
            i <= level.len(),
        ensures
            queue@ == level,
            i <= level.len(),
            match order {
                Some(o) => is_place(level, id, i as int) && o == level[i as int],
                None => i == level.len() && forall|j: int|
                    0 <= j < level.len() ==> (#[trigger] level[j]).id != id,
            },
        decreases level.len() - i,
    {
        if queue[i].id == id {
            order = Some(queue[i]);
            break ;
        }
        i += 1;
    }
    match order {
        Some(_) => {
            proof {
                lemma_place_is(level, id, i as int);
            }
            queue.remove(i);
            if queue.len() > 0 {
                side.insert(price, queue);
            }
        },
        None => {
            proof {
                lemma_place_none(level, id);
            }
            side.insert(price, queue);
        },
    }
    assert(queues(side@) =~= removed(queues(old(side)@), price, id));
    order
}

/// The orders of `user` on one side, lowest price first and within a
/// price the oldest first.
#[verifier::rlimit(50)]
fn orders_on(side: &BTreeMap<u64, VecDeque<Order>>, user: u128) -> (out: Vec<Order>)
    ensures
        out@.len() == order_count(queues(side@), user),
        forall|k: int|
            0 <= k < out@.len() ==> (#[trigger] out@[k]).user_id == user && rests_in(
                queues(side@),
                out@[k],
            ),
        forall|price: u64, i: int|
            queues(side@).contains_key(price) && 0 <= i < queues(side@)[price].len() && (
            #[trigger] queues(side@)[price][i]).user_id == user ==> out@.contains(
                queues(side@)[price][i],
            ),
{
    let mut out: Vec<Order> = Vec::new();
    let ghost levels = queues(side@);
    let ghost keys = side.keys().remaining().unref();
    let ghost term = count_term(levels, user);
    assert(levels.dom() =~= side@.dom());
    let ghost mut visited: int = 0;
    for price in it: side.keys()
        invariant
            visited == it.index(),
            0 <= visited <= keys.len(),
            levels == queues(side@),
            levels.dom() == side@.dom(),
            term == count_term(levels, user),
            it.seq().unref() == keys,
            keys.to_set() == side@.dom(),
            keys.no_duplicates(),
            out@.len() == sum_over(keys.take(visited).to_set(), term),
            forall|k: int|
                0 <= k < out@.len() ==> (#[trigger] out@[k]).user_id == user && rests_in(
                    levels,
                    out@[k],
                ),
            forall|j: int, i: int|
                0 <= j < visited && 0 <= i < levels[keys[j]].len() && (
                #[trigger] levels[keys[j]][i]).user_id == user ==> out@.contains(
                    levels[keys[j]][i],
                ),
    {
        let ghost at = it.index();
        let ghost base = out@;
        assert(keys[at] == *price);
        assert(keys.to_set().contains(keys[at]));
        let queue = side.get(price);
        assert(queue is Some);
        let ghost level = levels[*price];
        if let Some(queue) = queue {
            let mut i: usize = 0;
            while i < queue.len()
                invariant
                    i <= level.len(),
                    level == queue@,
                    levels.contains_key(*price),
                    level == levels[*price],
                    out@.len() == base.len() + sum_seq(level.take(i as int), one_if_of(user)),
                    base.len() <= out@.len(),
                    forall|k: int| 0 <= k < base.len() ==> #[trigger] out@[k] == base[k],
                    forall|k: int|
                        0 <= k < out@.len() ==> (#[trigger] out@[k]).user_id == user && rests_in(
                            levels,
                            out@[k],
                        ),
                    forall|n: int|
                        0 <= n < i && (#[trigger] level[n]).user_id == user ==> out@.contains(
                            level[n],
                        ),
                decreases level.len() - i,
            {
                let order = queue[i];
                assert(level.take(i + 1).drop_last() =~= level.take(i as int));
                assert(level.take(i + 1).last() == order);
                if order.user_id == user {
                    let ghost before = out@;
                    out.push(order);
                    assert(out@[before.len() as int] == order);
                    assert(levels[*price][i as int] == order);
                    assert forall|n: int|
                        0 <= n < i + 1 && (#[trigger] level[n]).user_id == user implies out@.contains(
                        level[n],
                    ) by {
                        if n < i {
                            assert(before.contains(level[n]));
                            let k = choose|k: int| 0 <= k < before.len() && before[k] == level[n];
                            assert(out@[k] == level[n]);
                        }
                    }
                }
                i += 1;
            }
        }
        proof {
            visited = visited + 1;
            assert(level.take(level.len() as int) =~= level);
            let seen = keys.take(at).to_set();
            vstd::seq_lib::seq_to_set_is_finite(keys.take(at));
            assert(!seen.contains(keys[at])) by {
                if seen.contains(keys[at]) {
                    let j = choose|j: int| 0 <= j < at && keys.take(at)[j] == keys[at];
                    assert(keys[j] == keys[at]);
                }
            }
            assert(keys.take(at + 1).to_set() =~= seen.insert(keys[at])) by {
                assert(keys.take(at + 1) =~= keys.take(at).push(keys[at]));
                keys.take(at).lemma_push_to_set_commute(keys[at]);
            }
            lemma_sum_over_insert(seen, term, keys[at]);
            assert forall|j: int, n: int|
                0 <= j < at + 1 && 0 <= n < levels[keys[j]].len() && (
                #[trigger] levels[keys[j]][n]).user_id == user implies out@.contains(
                levels[keys[j]][n],
            ) by {
                if j < at {
                    assert(base.contains(levels[keys[j]][n]));
                    let k = choose|k: int| 0 <= k < base.len() && base[k] == levels[keys[j]][n];
                    assert(out@[k] == base[k]);
                } else {
                    assert(level[n].user_id == user);
                }
            }
        }
    }
    proof {
        assert(visited == keys.len());
        assert(keys.take(keys.len() as int) =~= keys);
        assert forall|price: u64, i: int|
            levels.contains_key(price) && 0 <= i < levels[price].len() && (
            #[trigger] levels[price][i]).user_id == user implies out@.contains(
            levels[price][i],
        ) by {
            assert(keys.to_set().contains(price));
            let j = choose|j: int| 0 <= j < keys.len() && keys[j] == price;
            assert(levels[keys[j]][i].user_id == user);
        }
    }
    out
}

/// A level that gains a fitting order at its end still fits.
pub proof fn lemma_pushed_wf(levels: Map<u64, Seq<Order>>, side: Side, order: Order)
    requires
        levels_wf(levels, side),
        order.rests_at(side, order.price),
    ensures
        levels_wf(pushed(levels, order), side),
{
    let after = pushed(levels, order);
    assert forall|price: u64| #[trigger] after.contains_key(price) implies level_wf(
        after[price],
        side,
        price,
    ) by {
        if price != order.price {
            assert(levels.contains_key(price));
        } else if levels.contains_key(price) {
            assert(level_wf(levels[price], side, price));
        }
    }
}

/// A side of a book is still one after a fill of a first order.
pub proof fn lemma_front_taken_wf(
    levels: Map<u64, Seq<Order>>,
    side: Side,
    price: u64,
    quantity: u64,
)
    requires
        levels_wf(levels, side),
        levels.contains_key(price),
        quantity <= levels[price][0].quantity,
    ensures
        levels_wf(front_taken(levels, price, quantity), side),
{
    let after = front_taken(levels, price, quantity);
    assert(level_wf(levels[price], side, price));
    let level = levels[price];
    assert(level[0].rests_at(side, price));
    assert forall|other: u64| #[trigger] after.contains_key(other) implies level_wf(
        after[other],
        side,
        other,
    ) by {
        assert(levels.contains_key(other));
        assert(level_wf(levels[other], side, other));
        if other == price {
            assert forall|i: int| 0 <= i < after[price].len() implies (#[trigger] after[price][i]).rests_at(
                side,
                price,
            ) by {
                if quantity < level[0].quantity {
                    if i > 0 {
                        assert(after[price][i] == level[i]);
                    }
                } else {
                    assert(after[price][i] == level[i + 1]);
                }
            }
        }
    }
}

/// A side of a book is still one after an order left it.
pub proof fn lemma_removed_wf(levels: Map<u64, Seq<Order>>, side: Side, price: u64, id: u128)
    requires
        levels_wf(levels, side),
    ensures
        levels_wf(removed(levels, price, id), side),
{
    let after = removed(levels, price, id);
    assert forall|other: u64| #[trigger] after.contains_key(other) implies level_wf(
        after[other],
        side,
        other,
    ) by {
        assert(levels.contains_key(other));
        assert(level_wf(levels[other], side, other));
        if other == price {
            match place(levels[price], id) {
                Some(at) => {
                    let level = levels[price];
                    assert forall|i: int| 0 <= i < after[price].len() implies (
                    #[trigger] after[price][i]).rests_at(side, price) by {
                        if i < at {
                            assert(after[price][i] == level[i]);
                        } else {
                            assert(after[price][i] == level[i + 1]);
                        }
                    }
                },
                None => {},
            }
        }
    }
}

/// The resting orders of the market: bids and asks, each side a queue of
/// orders for every price at which one rests. In a queue the order that
/// came first stands first.
pub struct OrderBook {
    bids: BTreeMap<u64, VecDeque<Order>>,
    asks: BTreeMap<u64, VecDeque<Order>>,
}

impl OrderBook {
    /// The queues of `side`, by price.
    pub closed spec fn levels(&self, side: Side) -> Map<u64, Seq<Order>> {
        match side {
            Side::Ask => queues(self.asks@),
            Side::Bid => queues(self.bids@),
        }
    }

    /// No queue is empty, and every order rests on its own side at its own
    /// price with something left to fill.
    pub open spec fn wf(&self) -> bool {
        &&& levels_wf(self.levels(Side::Ask), Side::Ask)
        &&& levels_wf(self.levels(Side::Bid), Side::Bid)
    }

    /// A book without orders.
    pub fn new() -> (book: OrderBook)
        ensures
            book.wf(),
            book.levels(Side::Ask) == Map::<u64, Seq<Order>>::empty(),
            book.levels(Side::Bid) == Map::<u64, Seq<Order>>::empty(),
    {
        let book = OrderBook { bids: BTreeMap::new(), asks: BTreeMap::new() };
        assert(book.levels(Side::Ask) =~= Map::<u64, Seq<Order>>::empty());
        assert(book.levels(Side::Bid) =~= Map::<u64, Seq<Order>>::empty());
        book
    }

    /// Puts `order` at the end of the queue at its price, on its side.
    pub fn add_order(&mut self, order: Order)
        requires
            old(self).wf(),
            order.rests_at(order.side, order.price),
        ensures
            final(self).wf(),
            final(self).levels(order.side) == pushed(old(self).levels(order.side), order),
            final(self).levels(order.side.opposite()) == old(self).levels(order.side.opposite()),
    {
        proof {
            lemma_pushed_wf(self.levels(order.side), order.side, order);
        }
        match order.side {
            Side::Ask => push_order(&mut self.asks, order),
            Side::Bid => push_order(&mut self.bids, order),
        }
    }

    /// The best price of `side`: the lowest ask, the highest bid.
    pub fn best_price(&self, side: Side) -> (price: Option<u64>)
        ensures
            price == best(self.levels(side), side),
            match price {
                Some(p) => is_best(self.levels(side), side, p),
                None => forall|other: u64| !self.levels(side).contains_key(other),
            },
    {
        let price = match side {
            Side::Ask => least_key(&self.asks),
            Side::Bid => greatest_key(&self.bids),
        };
        proof {
            match price {
                Some(p) => {
                    assert(is_best(self.levels(side), side, p));
                    lemma_best_is(self.levels(side), side, p);
                },
                None => {
                    lemma_best_of_none(self.levels(side), side);
                },
            }
        }
        price
    }

    /// The order that stands first at `price` on `side`.
    pub fn front(&self, side: Side, price: u64) -> (order: Option<Order>)
        ensures
            order == (if self.levels(side).contains_key(price) && self.levels(side)[price].len()
                > 0 {
                Some(self.levels(side)[price][0])
            } else {
                None
            }),
    {
        let queue = match side {
            Side::Ask => self.asks.get(&price),
            Side::Bid => self.bids.get(&price),
        };
        match queue {
            Some(queue) => if queue.len() > 0 {
                Some(queue[0])
            } else {
                None
            },
            None => None,
        }
    }

    /// Fills `quantity` of the order that stands first at `price` on `side`,
    /// and hands out the order as it was.
    pub fn fill_front(&mut self, side: Side, price: u64, quantity: u64) -> (order: Order)
        requires
            old(self).wf(),
            old(self).levels(side).contains_key(price),
            quantity <= old(self).levels(side)[price][0].quantity,
        ensures
            final(self).wf(),
            order == old(self).levels(side)[price][0],
            final(self).levels(side) == front_taken(old(self).levels(side), price, quantity),
            final(self).levels(side.opposite()) == old(self).levels(side.opposite()),
    {
        proof {
            lemma_front_taken_wf(self.levels(side), side, price, quantity);
            assert(level_wf(self.levels(side)[price], side, price));
        }
        match side {
            Side::Ask => take_front(&mut self.asks, price, quantity),
            Side::Bid => take_front(&mut self.bids, price, quantity),
        }
    }

    /// Takes back a fill of the order that stood first at its price: puts
    /// `order` back at the front of its queue, in place of what was left of
    /// it where `replaces`.
    pub fn restore_front(&mut self, order: Order, replaces: bool)
        ensures
            final(self).levels(order.side) == front_restored(
                old(self).levels(order.side),
                order,
                replaces,
            ),
            final(self).levels(order.side.opposite()) == old(self).levels(order.side.opposite()),
    {
        match order.side {
            Side::Ask => put_front(&mut self.asks, order, replaces),
            Side::Bid => put_front(&mut self.bids, order, replaces),
        }
    }

    /// The order with this `id` that rests at `price` on `side`, if there is
    /// one.
    pub fn find(&self, side: Side, price: u64, id: u128) -> (order: Option<Order>)
        ensures
            order == found(self.levels(side), price, id),
    {
        match side {
            Side::Ask => find_order(&self.asks, price, id),
            Side::Bid => find_order(&self.bids, price, id),
        }
    }

    /// Takes the order with this `id` out of the queue at `price` on `side`,
    /// if there is one, and hands it out.
    pub fn remove(&mut self, side: Side, price: u64, id: u128) -> (order: Option<Order>)
        requires
            old(self).wf(),
        ensures
            final(self).wf(),
            order == found(old(self).levels(side), price, id),
            final(self).levels(side) == removed(old(self).levels(side), price, id),
            final(self).levels(side.opposite()) == old(self).levels(side.opposite()),
    {
        proof {
            lemma_removed_wf(self.levels(side), side, price, id);
        }
        match side {
            Side::Ask => remove_order(&mut self.asks, price, id),
            Side::Bid => remove_order(&mut self.bids, price, id),
        }
    }
    /// The resting orders of `user`: the bids, then the asks, each side
    /// from its lowest price up and within a price the oldest order first.
    pub fn orders_of(&self, user: u128) -> (orders: Vec<Order>)
        ensures
            orders@.len() == order_count(self.levels(Side::Bid), user) + order_count(
                self.levels(Side::Ask),
                user,
            ),
            forall|k: int|
                0 <= k < orders@.len() ==> (#[trigger] orders@[k]).user_id == user && (rests_in(
                    self.levels(Side::Bid),
                    orders@[k],
                ) || rests_in(self.levels(Side::Ask), orders@[k])),
            forall|side: Side, price: u64, i: int|
                self.levels(side).contains_key(price) && 0 <= i < self.levels(side)[price].len()
                    && (#[trigger] self.levels(side)[price][i]).user_id == user
                    ==> orders@.contains(self.levels(side)[price][i]),
    {
        let mut orders = orders_on(&self.bids, user);
        let mut asks = orders_on(&self.asks, user);
        let ghost bids_found = orders@;
        let ghost asks_found = asks@;
        orders.append(&mut asks);
        proof {
            assert forall|side: Side, price: u64, i: int|
                self.levels(side).contains_key(price) && 0 <= i < self.levels(side)[price].len()
                    && (#[trigger] self.levels(side)[price][i]).user_id
                    == user implies orders@.contains(self.levels(side)[price][i]) by {
                let order = self.levels(side)[price][i];
                match side {
                    Side::Bid => {
                        assert(bids_found.contains(order));
                        let k = choose|k: int| 0 <= k < bids_found.len() && bids_found[k] == order;
                        assert(orders@[k] == order);
                    },
                    Side::Ask => {
                        assert(asks_found.contains(order));
                        let k = choose|k: int| 0 <= k < asks_found.len() && asks_found[k] == order;
                        assert(orders@[bids_found.len() + k] == order);
                    },
                }
            }
            assert forall|k: int| 0 <= k < orders@.len() implies (#[trigger] orders@[k]).user_id
                == user && (rests_in(self.levels(Side::Bid), orders@[k]) || rests_in(
                self.levels(Side::Ask),
                orders@[k],
            )) by {
                if k < bids_found.len() {
                    assert(orders@[k] == bids_found[k]);
                } else {
                    assert(orders@[k] == asks_found[k - bids_found.len()]);
                }
            }
        }
        orders
    }
}

} // verus!
