//! The price-ordered book: one FIFO price level per (side, price).
//!
//! Each side is a vector of `(price, PriceLevel)` pairs kept sorted by price
//! with no duplicate price; the bid side is read from the back for the best
//! bid, the ask side from the front for the best ask. Contracts speak over a
//! mathematical model of a side: a sequence of `(price, order sequence)`
//! pairs.

use crate::order::{other_side, with_timestamp, Order, Side};
use std::collections::VecDeque;
use vstd::prelude::*;

verus! {

/// All orders resting at one price on one side, in arrival order
/// (first-in-first-out = time priority), with their aggregate quantity.
#[derive(Debug)]
pub struct PriceLevel {
    pub total_quantity: u64,
    pub orders: VecDeque<Order>,
}

/// The model of one side of a book: for each price, in ascending price order,
/// the sequence of orders resting there in arrival order.
pub type SideModel = Seq<(u64, Seq<Order>)>;

/// The sum of the quantities of `orders`, as an unbounded integer.
pub open spec fn sum_qty(orders: Seq<Order>) -> int
    decreases orders.len(),
{
    if orders.len() == 0 {
        0
    } else {
        orders.first().quantity + sum_qty(orders.drop_first())
    }
}

/// The model of one stored side: each `(price, level)` pair reduced to the
/// price and the sequence of resting orders.
pub open spec fn to_model(side: Seq<(u64, PriceLevel)>) -> SideModel {
    side.map_values(|pair: (u64, PriceLevel)| (pair.0, pair.1.orders@))
}

/// Well-formedness of a side model: prices strictly ascending (so each price
/// occurs at most once), no empty level (a level is created on first order and
/// removed when its last order leaves), and every resting quantity positive.
pub open spec fn model_wf(m: SideModel) -> bool {
    &&& forall|i: int, j: int| 0 <= i < j < m.len() ==> m[i].0 < m[j].0
    &&& forall|i: int| 0 <= i < m.len() ==> m[i].1.len() > 0
    &&& forall|i: int, j: int|
        0 <= i < m.len() && 0 <= j < m[i].1.len() ==> m[i].1[j].quantity > 0
}

/// Well-formedness of one stored side: its model is well-formed and each
/// level's aggregate equals the sum of its orders' quantities.
pub open spec fn side_wf(side: Seq<(u64, PriceLevel)>) -> bool {
    &&& model_wf(to_model(side))
    &&& forall|i: int|
        0 <= i < side.len() ==> side[i].1.total_quantity == sum_qty(side[i].1.orders@)
}

/// The index of the level with price `price`, or -1 when no level has it.
pub open spec fn level_index(m: SideModel, price: u64) -> int
    decreases m.len(),
{
    if m.len() == 0 {
        -1
    } else if m.first().0 == price {
        0
    } else {
        let rest = level_index(m.drop_first(), price);
        if rest < 0 {
            -1
        } else {
            rest + 1
        }
    }
}

/// The index of the first order with id `order_id` in `orders`, or -1 when
/// none has it.
pub open spec fn first_id_index(orders: Seq<Order>, order_id: u64) -> int
    decreases orders.len(),
{
    if orders.len() == 0 {
        -1
    } else if orders.first().order_id == order_id {
        0
    } else {
        let rest = first_id_index(orders.drop_first(), order_id);
        if rest < 0 {
            -1
        } else {
            rest + 1
        }
    }
}

/// Where a new level with price `price` belongs in the ascending side model:
/// the number of levels with a smaller price.
pub open spec fn insert_pos(m: SideModel, price: u64) -> int
    decreases m.len(),
{
    if m.len() == 0 {
        0
    } else if m.first().0 < price {
        1 + insert_pos(m.drop_first(), price)
    } else {
        0
    }
}

/// Whether an order with id `order_id` rests at price `price` in the model.
pub open spec fn resting(m: SideModel, order_id: u64, price: u64) -> bool {
    let li = level_index(m, price);
    li >= 0 && first_id_index(m[li].1, order_id) >= 0
}

/// The orders resting at price `price`, or the empty sequence when the side
/// has no level there.
pub open spec fn level_orders(m: SideModel, price: u64) -> Seq<Order> {
    let li = level_index(m, price);
    if li >= 0 {
        m[li].1
    } else {
        Seq::empty()
    }
}

/// The model after appending `order` to the back of its price's level,
/// creating the level at its sorted position when absent.
pub open spec fn add_model(m: SideModel, order: Order) -> SideModel {
    let li = level_index(m, order.price);
    if li >= 0 {
        m.update(li, (order.price, m[li].1.push(order)))
    } else {
        m.insert(insert_pos(m, order.price), (order.price, seq![order]))
    }
}

/// The model after cancelling order `order_id` at price `price`: the first
/// order with that id leaves its level, and the level leaves the side when it
/// becomes empty. When the id does not rest there, the model is unchanged.
pub open spec fn cancel_model(m: SideModel, order_id: u64, price: u64) -> SideModel {
    let li = level_index(m, price);
    if li < 0 {
        m
    } else {
        let oi = first_id_index(m[li].1, order_id);
        if oi < 0 {
            m
        } else {
            let rest = m[li].1.remove(oi);
            if rest.len() == 0 {
                m.remove(li)
            } else {
                m.update(li, (price, rest))
            }
        }
    }
}

/// The model after amending the quantity of the first order with id
/// `order_id` at price `price` to `new_quantity`, in place: the order keeps
/// its position, so a quantity change never resets time priority. When the id
/// does not rest there, the model is unchanged.
pub open spec fn modify_model(m: SideModel, order_id: u64, price: u64, new_quantity: u64) -> SideModel {
    let li = level_index(m, price);
    if li < 0 {
        m
    } else {
        let oi = first_id_index(m[li].1, order_id);
        if oi < 0 {
            m
        } else {
            m.update(li, (price, m[li].1.update(oi, Order { quantity: new_quantity, ..m[li].1[oi] })))
        }
    }
}

/// Whether appending `order` keeps its level's aggregate within `u64`.
pub open spec fn add_fits(m: SideModel, order: Order) -> bool {
    let li = level_index(m, order.price);
    li >= 0 ==> sum_qty(m[li].1) + order.quantity <= u64::MAX
}

/// Whether amending order `order_id` at `price` to `new_quantity` keeps its
/// level's aggregate within `u64`.
pub open spec fn modify_fits(m: SideModel, order_id: u64, price: u64, new_quantity: u64) -> bool {
    let li = level_index(m, price);
    let oi = first_id_index(if li >= 0 { m[li].1 } else { Seq::empty() }, order_id);
    resting(m, order_id, price) ==> sum_qty(m[li].1) - m[li].1[oi].quantity + new_quantity
        <= u64::MAX
}

/// The number of orders resting in the model, over all its levels.
pub open spec fn count_orders(m: SideModel) -> int
    decreases m.len(),
{
    if m.len() == 0 {
        0
    } else {
        m.first().1.len() + count_orders(m.drop_first())
    }
}

proof fn lemma_level_index_props(m: SideModel, price: u64)
    ensures
        level_index(m, price) == -1 ==> forall|i: int| 0 <= i < m.len() ==> m[i].0 != price,
        level_index(m, price) != -1 ==> 0 <= level_index(m, price) < m.len()
            && m[level_index(m, price)].0 == price && forall|i: int|
            0 <= i < level_index(m, price) ==> m[i].0 != price,
    decreases m.len(),
{
    if m.len() == 0 {
    } else if m.first().0 == price {
    } else {
        let rest = m.drop_first();
        lemma_level_index_props(rest, price);
        assert(forall|i: int| 0 <= i < rest.len() ==> rest[i] == m[i + 1]);
        let ri = level_index(rest, price);
        if ri < 0 {
            assert forall|i: int| 0 <= i < m.len() implies m[i].0 != price by {
                if i > 0 {
                    assert(rest[i - 1] == m[i]);
                }
            }
        } else {
            assert(m[ri + 1] == rest[ri]);
            assert forall|i: int| 0 <= i < ri + 1 implies m[i].0 != price by {
                if i > 0 {
                    assert(rest[i - 1] == m[i]);
                }
            }
        }
    }
}

proof fn lemma_first_id_index_props(orders: Seq<Order>, order_id: u64)
    ensures
        first_id_index(orders, order_id) == -1 ==> forall|i: int|
            0 <= i < orders.len() ==> orders[i].order_id != order_id,
        first_id_index(orders, order_id) != -1 ==> 0 <= first_id_index(orders, order_id)
            < orders.len() && orders[first_id_index(orders, order_id)].order_id == order_id
            && forall|i: int|
            0 <= i < first_id_index(orders, order_id) ==> orders[i].order_id != order_id,
    decreases orders.len(),
{
    if orders.len() == 0 {
    } else if orders.first().order_id == order_id {
    } else {
        let rest = orders.drop_first();
        lemma_first_id_index_props(rest, order_id);
        assert(forall|i: int| 0 <= i < rest.len() ==> rest[i] == orders[i + 1]);
        let ri = first_id_index(rest, order_id);
        if ri < 0 {
            assert forall|i: int| 0 <= i < orders.len() implies orders[i].order_id != order_id by {
                if i > 0 {
                    assert(rest[i - 1] == orders[i]);
                }
            }
        } else {
            assert(orders[ri + 1] == rest[ri]);
            assert forall|i: int| 0 <= i < ri + 1 implies orders[i].order_id != order_id by {
                if i > 0 {
                    assert(rest[i - 1] == orders[i]);
                }
            }
        }
    }
}

proof fn lemma_insert_pos_props(m: SideModel, price: u64)
    ensures
        0 <= insert_pos(m, price) <= m.len(),
        forall|i: int| 0 <= i < insert_pos(m, price) ==> m[i].0 < price,
        insert_pos(m, price) < m.len() ==> m[insert_pos(m, price)].0 >= price,
    decreases m.len(),
{
    if m.len() == 0 {
    } else if m.first().0 < price {
        let rest = m.drop_first();
        lemma_insert_pos_props(rest, price);
        assert(forall|i: int| 0 <= i < rest.len() ==> rest[i] == m[i + 1]);
        let rp = insert_pos(rest, price);
        assert forall|i: int| 0 <= i < rp + 1 implies m[i].0 < price by {
            if i > 0 {
                assert(rest[i - 1] == m[i]);
            }
        }
        if rp < rest.len() {
            assert(m[rp + 1] == rest[rp]);
        }
    }
}

proof fn lemma_sum_push(orders: Seq<Order>, order: Order)
    ensures
        sum_qty(orders.push(order)) == sum_qty(orders) + order.quantity,
    decreases orders.len(),
{
    if orders.len() == 0 {
        assert(orders.push(order).first() == order);
        assert(orders.push(order).drop_first() =~= Seq::<Order>::empty());
        assert(sum_qty(Seq::<Order>::empty()) == 0);
    } else {
        assert(orders.push(order).first() == orders.first());
        assert(orders.push(order).drop_first() =~= orders.drop_first().push(order));
        lemma_sum_push(orders.drop_first(), order);
    }
}

proof fn lemma_sum_remove(orders: Seq<Order>, i: int)
    requires
        0 <= i < orders.len(),
    ensures
        sum_qty(orders.remove(i)) == sum_qty(orders) - orders[i].quantity,
    decreases orders.len(),
{
    if i == 0 {
        assert(orders.remove(0) =~= orders.drop_first());
    } else {
        assert(orders.remove(i).first() == orders.first());
        assert(orders.remove(i).drop_first() =~= orders.drop_first().remove(i - 1));
        lemma_sum_remove(orders.drop_first(), i - 1);
    }
}

proof fn lemma_sum_update(orders: Seq<Order>, i: int, order: Order)
    requires
        0 <= i < orders.len(),
    ensures
        sum_qty(orders.update(i, order)) == sum_qty(orders) - orders[i].quantity
            + order.quantity,
    decreases orders.len(),
{
    if i == 0 {
        assert(orders.update(0, order).first() == order);
        assert(orders.update(0, order).drop_first() =~= orders.drop_first());
    } else {
        assert(orders.update(i, order).first() == orders.first());
        assert(orders.update(i, order).drop_first() =~= orders.drop_first().update(i - 1, order));
        lemma_sum_update(orders.drop_first(), i - 1, order);
    }
}

proof fn lemma_sum_nonneg(orders: Seq<Order>)
    ensures
        sum_qty(orders) >= 0,
    decreases orders.len(),
{
    if orders.len() > 0 {
        lemma_sum_nonneg(orders.drop_first());
    }
}

proof fn lemma_count_update(m: SideModel, i: int, entry: (u64, Seq<Order>))
    requires
        0 <= i < m.len(),
    ensures
        count_orders(m.update(i, entry)) == count_orders(m) - m[i].1.len() + entry.1.len(),
    decreases m.len(),
{
    if i == 0 {
        assert(m.update(0, entry).first() == entry);
        assert(m.update(0, entry).drop_first() =~= m.drop_first());
    } else {
        assert(m.update(i, entry).first() == m.first());
        assert(m.update(i, entry).drop_first() =~= m.drop_first().update(i - 1, entry));
        lemma_count_update(m.drop_first(), i - 1, entry);
    }
}

proof fn lemma_count_insert(m: SideModel, i: int, entry: (u64, Seq<Order>))
    requires
        0 <= i <= m.len(),
    ensures
        count_orders(m.insert(i, entry)) == count_orders(m) + entry.1.len(),
    decreases m.len(),
{
    if i == 0 {
        assert(m.insert(0, entry).first() == entry);
        assert(m.insert(0, entry).drop_first() =~= m);
    } else {
        assert(m.insert(i, entry).first() == m.first());
        assert(m.insert(i, entry).drop_first() =~= m.drop_first().insert(i - 1, entry));
        lemma_count_insert(m.drop_first(), i - 1, entry);
    }
}

/// A linear scan that stopped at `i` with a price match has found the level's
/// index.
proof fn lemma_scan_found(m: SideModel, price: u64, i: int)
    requires
        0 <= i < m.len(),
        m[i].0 == price,
        forall|j: int| 0 <= j < i ==> m[j].0 < price,
    ensures
        level_index(m, price) == i,
{
    lemma_level_index_props(m, price);
    let li = level_index(m, price);
    if li == -1 {
        assert(m[i].0 != price);
    } else if li < i {
        assert(m[li].0 < price);
    } else if li > i {
        assert(m[i].0 != price);
    }
}

/// A linear scan over ascending prices that passed `price` without a match
/// shows the side has no level there.
proof fn lemma_scan_absent(m: SideModel, price: u64, i: int)
    requires
        0 <= i <= m.len(),
        forall|a: int, b: int| 0 <= a < b < m.len() ==> m[a].0 < m[b].0,
        forall|j: int| 0 <= j < i ==> m[j].0 < price,
        i < m.len() ==> m[i].0 > price,
    ensures
        level_index(m, price) == -1,
{
    lemma_level_index_props(m, price);
    let li = level_index(m, price);
    if li != -1 {
        if li < i {
            assert(m[li].0 < price);
        } else {
            assert(i < m.len());
            if li > i {
                assert(m[i].0 < m[li].0);
            }
        }
    }
}

/// A linear scan that stopped at `j` with an id match has found the first
/// order with that id.
proof fn lemma_order_scan_found(orders: Seq<Order>, order_id: u64, j: int)
    requires
        0 <= j < orders.len(),
        orders[j].order_id == order_id,
        forall|k: int| 0 <= k < j ==> orders[k].order_id != order_id,
    ensures
        first_id_index(orders, order_id) == j,
{
    lemma_first_id_index_props(orders, order_id);
    let fi = first_id_index(orders, order_id);
    if fi == -1 {
        assert(orders[j].order_id != order_id);
    } else if fi < j {
        assert(orders[fi].order_id != order_id);
    } else if fi > j {
        assert(orders[j].order_id != order_id);
    }
}

/// A linear scan that ran through `orders` without an id match shows none has
/// it.
proof fn lemma_order_scan_absent(orders: Seq<Order>, order_id: u64)
    requires
        forall|k: int| 0 <= k < orders.len() ==> orders[k].order_id != order_id,
    ensures
        first_id_index(orders, order_id) == -1,
{
    lemma_first_id_index_props(orders, order_id);
    let fi = first_id_index(orders, order_id);
    if fi != -1 {
        assert(orders[fi].order_id != order_id);
    }
}

/// Appending one order grows the model's order count by exactly one.
proof fn lemma_add_model_count(m: SideModel, order: Order)
    ensures
        count_orders(add_model(m, order)) == count_orders(m) + 1,
{
    lemma_level_index_props(m, order.price);
    let li = level_index(m, order.price);
    if li >= 0 {
        lemma_count_update(m, li, (order.price, m[li].1.push(order)));
    } else {
        lemma_insert_pos_props(m, order.price);
        lemma_count_insert(m, insert_pos(m, order.price), (order.price, seq![order]));
    }
}

impl PriceLevel {
    /// An empty level, as created just before its first order arrives.
    pub fn new() -> (level: PriceLevel)
        ensures
            level.total_quantity == 0,
            level.orders@ =~= Seq::<Order>::empty(),
    {
        PriceLevel { total_quantity: 0, orders: VecDeque::new() }
    }
}

/// Relies on `std::time::SystemTime::now`: the wall clock's nanoseconds since
/// the Unix epoch, truncated to 64 bits, or 0 for a clock before the epoch.
/// The result depends on the clock, so nothing is promised of it; the book
/// makes the timestamps it assigns monotonic itself.
#[verifier::external_body]
fn now_nanos() -> u64 {
    match std::time::SystemTime::now().duration_since(std::time::UNIX_EPOCH) {
        Ok(elapsed) => elapsed.as_nanos() as u64,
        Err(_) => 0,
    }
}

/// Append `order` to the back of its price's level on one stored side,
/// creating the level at its sorted position when absent.
#[verifier::loop_isolation(false)]
fn side_add(side: &mut Vec<(u64, PriceLevel)>, order: Order)
    requires
        side_wf(old(side)@),
        order.quantity > 0,
        add_fits(to_model(old(side)@), order),
    ensures
        side_wf(final(side)@),
        to_model(final(side)@) == add_model(to_model(old(side)@), order),
{
    let ghost orig = side@;
    let ghost m = to_model(orig);
    proof {
        assert(forall|j: int| 0 <= j < m.len() ==> m[j] == (orig[j].0, orig[j].1.orders@));
    }
    let mut i: usize = 0;
    while i < side.len() && side[i].0 < order.price
        invariant
            i <= side.len(),
            forall|j: int| 0 <= j < i ==> side@[j].0 < order.price,
        decreases side.len() - i,
    {
        i += 1;
    }
    proof {
        lemma_level_index_props(m, order.price);
    }
    if i < side.len() && side[i].0 == order.price {
        proof {
            let li = level_index(m, order.price);
            assert(m[i as int].0 == order.price);
            if li == -1 {
                assert(m[i as int].0 != order.price);
            } else if li < i as int {
                assert(m[li].0 == order.price);
                assert(orig[li].0 < order.price);
            } else if li > i as int {
                assert(m[i as int].0 != order.price);
            }
            assert(li == i as int);
            assert(orig[i as int].1.total_quantity == sum_qty(orig[i as int].1.orders@));
            assert(sum_qty(m[i as int].1) + order.quantity <= u64::MAX);
            lemma_sum_nonneg(orig[i as int].1.orders@);
        }
        let mut pair = side.remove(i);
        pair.1.total_quantity = pair.1.total_quantity + order.quantity;
        pair.1.orders.push_back(order);
        side.insert(i, pair);
        proof {
            let m2 = add_model(m, order);
            let fin = to_model(side@);
            assert(side@ == orig.remove(i as int).insert(i as int, side@[i as int]));
            assert(side@.len() == orig.len());
            assert(side@[i as int].0 == order.price);
            assert(side@[i as int].1.orders@ == orig[i as int].1.orders@.push(order));
            assert(side@[i as int].1.total_quantity == orig[i as int].1.total_quantity
                + order.quantity);
            assert(forall|k: int|
                0 <= k < side@.len() && k != i as int ==> side@[k] == orig[k]);
            lemma_sum_push(orig[i as int].1.orders@, order);
            assert(m2 == m.update(i as int, (order.price, m[i as int].1.push(order))));
            assert forall|k: int| 0 <= k < fin.len() implies fin[k] == m2[k] by {
                assert(fin[k] == (side@[k].0, side@[k].1.orders@));
                if k != i as int {
                    assert(side@[k] == orig[k]);
                }
            }
            assert(fin =~~= m2);
            assert forall|k: int| 0 <= k < side@.len() implies side@[k].1.total_quantity
                == sum_qty(side@[k].1.orders@) by {
                if k != i as int {
                    assert(side@[k] == orig[k]);
                }
            }
            assert forall|a: int, b: int| 0 <= a < b < fin.len() implies fin[a].0 < fin[b].0 by {
                assert(m[a].0 < m[b].0);
            }
            assert forall|a: int| 0 <= a < fin.len() implies fin[a].1.len() > 0 by {
                if a != i as int {
                    assert(fin[a] == m[a]);
                }
            }
            assert forall|a: int, b: int|
                0 <= a < fin.len() && 0 <= b < fin[a].1.len() implies fin[a].1[b].quantity
                > 0 by {
                if a != i as int {
                    assert(fin[a] == m[a]);
                } else {
                    if b < m[a].1.len() {
                        assert(fin[a].1[b] == m[a].1[b]);
                    } else {
                        assert(fin[a].1[b] == order);
                    }
                }
            }
        }
    } else {
        proof {
            let li = level_index(m, order.price);
            assert forall|j: int| 0 <= j < m.len() implies m[j].0 != order.price by {
                if j < i as int {
                    assert(orig[j].0 < order.price);
                } else if j == i as int {
                    assert(orig[j].0 >= order.price && orig[j].0 != order.price);
                } else {
                    assert(m[i as int].0 < m[j].0);
                    assert(orig[i as int].0 >= order.price);
                }
            }
            if li != -1 {
                assert(m[li].0 == order.price);
            }
            assert(li == -1);
            lemma_insert_pos_props(m, order.price);
            let ip = insert_pos(m, order.price);
            if ip < i as int {
                assert(m[ip].0 < order.price);
                assert(m[ip].0 >= order.price);
            } else if ip > i as int {
                assert(m[i as int].0 < order.price);
                assert(orig[i as int].0 >= order.price);
            }
            assert(ip == i as int);
        }
        let mut level = PriceLevel::new();
        level.total_quantity = order.quantity;
        level.orders.push_back(order);
        side.insert(i, (order.price, level));
        proof {
            let m2 = add_model(m, order);
            let fin = to_model(side@);
            assert(side@ == orig.insert(i as int, side@[i as int]));
            assert(side@[i as int].0 == order.price);
            assert(side@[i as int].1.orders@ =~= seq![order]);
            assert(side@[i as int].1.total_quantity == order.quantity);
            assert(sum_qty(seq![order].drop_first()) == 0) by {
                assert(seq![order].drop_first() =~= Seq::<Order>::empty());
            }
            assert(sum_qty(seq![order]) == order.quantity);
            assert(m2 == m.insert(i as int, (order.price, seq![order])));
            assert(forall|k: int| 0 <= k < i as int ==> side@[k] == orig[k]);
            assert(forall|k: int|
                (i as int) < k < side@.len() ==> side@[k] == orig[k - 1]);
            assert forall|k: int| 0 <= k < fin.len() implies fin[k] == m2[k] by {
                assert(fin[k] == (side@[k].0, side@[k].1.orders@));
                if k < i as int {
                    assert(side@[k] == orig[k]);
                    assert(m2[k] == m[k]);
                } else if k > i as int {
                    assert(side@[k] == orig[k - 1]);
                    assert(m2[k] == m[k - 1]);
                }
            }
            assert(fin =~~= m2);
            assert forall|k: int| 0 <= k < side@.len() implies side@[k].1.total_quantity
                == sum_qty(side@[k].1.orders@) by {
                if k < i as int {
                    assert(side@[k] == orig[k]);
                } else if k > i as int {
                    assert(side@[k] == orig[k - 1]);
                }
            }
            assert forall|a: int, b: int| 0 <= a < b < fin.len() implies fin[a].0 < fin[b].0 by {
                if a < i as int && b < i as int {
                    assert(m[a].0 < m[b].0);
                } else if a < i as int && b == i as int {
                    assert(m[a].0 < order.price);
                } else if a < i as int && b > i as int {
                    assert(m[a].0 < m[b - 1].0 || a == b - 1);
                    assert(m[a].0 < order.price);
                    assert(m2[b] == m[b - 1]);
                    assert(m[i as int].0 > order.price);
                    if (i as int) < b - 1 {
                        assert(m[i as int].0 < m[b - 1].0);
                    }
                } else if a == i as int {
                    assert(m2[b] == m[b - 1]);
                    assert(m[i as int].0 > order.price);
                    if (i as int) < b - 1 {
                        assert(m[i as int].0 < m[b - 1].0);
                    }
                } else {
                    assert(m2[a] == m[a - 1]);
                    assert(m2[b] == m[b - 1]);
                    assert(m[a - 1].0 < m[b - 1].0);
                }
            }
            assert forall|a: int| 0 <= a < fin.len() implies fin[a].1.len() > 0 by {
                if a < i as int {
                    assert(fin[a] == m[a]);
                } else if a > i as int {
                    assert(fin[a] == m[a - 1]);
                }
            }
            assert forall|a: int, b: int|
                0 <= a < fin.len() && 0 <= b < fin[a].1.len() implies fin[a].1[b].quantity
                > 0 by {
                if a < i as int {
                    assert(fin[a] == m[a]);
                } else if a > i as int {
                    assert(fin[a] == m[a - 1]);
                }
            }
        }
    }
}

/// Remove the first order with id `order_id` from the level at `price` on one
/// stored side, removing the level when it empties; report whether it was
/// found. Failure leaves the side untouched.
#[verifier::loop_isolation(false)]
fn side_cancel(side: &mut Vec<(u64, PriceLevel)>, order_id: u64, price: u64) -> (found: bool)
    requires
        side_wf(old(side)@),
    ensures
        side_wf(final(side)@),
        found == resting(to_model(old(side)@), order_id, price),
        to_model(final(side)@) == cancel_model(to_model(old(side)@), order_id, price),
        !found ==> *final(side) == *old(side),
{
    let ghost orig = side@;
    let ghost m = to_model(orig);
    proof {
        assert(forall|j: int| 0 <= j < m.len() ==> m[j] == (orig[j].0, orig[j].1.orders@));
    }
    let mut i: usize = 0;
    while i < side.len() && side[i].0 < price
        invariant
            i <= side.len(),
            forall|j: int| 0 <= j < i ==> side@[j].0 < price,
        decreases side.len() - i,
    {
        i += 1;
    }
    if i < side.len() && side[i].0 == price {
        proof {
            lemma_scan_found(m, price, i as int);
        }
        let mut j: usize = 0;
        while j < side[i].1.orders.len() && side[i].1.orders[j].order_id != order_id
            invariant
                j <= side@[i as int].1.orders@.len(),
                forall|k: int| 0 <= k < j ==> side@[i as int].1.orders@[k].order_id != order_id,
            decreases side@[i as int].1.orders@.len() - j,
        {
            j += 1;
        }
        if j < side[i].1.orders.len() {
            proof {
                lemma_order_scan_found(m[i as int].1, order_id, j as int);
                lemma_sum_remove(m[i as int].1, j as int);
                lemma_sum_nonneg(m[i as int].1.remove(j as int));
            }
            let mut pair = side.remove(i);
            let removed = pair.1.orders.remove(j);
            let removed_qty: u64 = match removed {
                Some(removed_order) => removed_order.quantity,
                None => 0,
            };
            proof {
                assert(removed_qty == m[i as int].1[j as int].quantity);
                assert(pair.1.orders@ == m[i as int].1.remove(j as int));
            }
            pair.1.total_quantity = pair.1.total_quantity - removed_qty;
            let ghost rest = m[i as int].1.remove(j as int);
            if pair.1.orders.len() == 0 {
                proof {
                    let m2 = cancel_model(m, order_id, price);
                    let fin = to_model(side@);
                    assert(m2 == m.remove(i as int));
                    assert(side@ == orig.remove(i as int));
                    assert forall|k: int| 0 <= k < fin.len() implies fin[k] == m2[k] by {
                        assert(fin[k] == (side@[k].0, side@[k].1.orders@));
                        if k < i as int {
                            assert(side@[k] == orig[k]);
                            assert(m2[k] == m[k]);
                        } else {
                            assert(side@[k] == orig[k + 1]);
                            assert(m2[k] == m[k + 1]);
                        }
                    }
                    assert(fin =~~= m2);
                    assert forall|k: int| 0 <= k < side@.len() implies side@[k].1.total_quantity
                        == sum_qty(side@[k].1.orders@) by {
                        if k < i as int {
                            assert(side@[k] == orig[k]);
                        } else {
                            assert(side@[k] == orig[k + 1]);
                        }
                    }
                    assert forall|a: int, b: int| 0 <= a < b < fin.len() implies fin[a].0
                        < fin[b].0 by {
                        assert(fin[a] == m2[a] && fin[b] == m2[b]);
                        if b < i as int {
                            assert(m2[a] == m[a] && m2[b] == m[b]);
                        } else if a < i as int {
                            assert(m2[a] == m[a] && m2[b] == m[b + 1]);
                        } else {
                            assert(m2[a] == m[a + 1] && m2[b] == m[b + 1]);
                        }
                    }
                    assert forall|a: int| 0 <= a < fin.len() implies fin[a].1.len() > 0 by {
                        if a < i as int {
                            assert(fin[a] == m[a]);
                        } else {
                            assert(fin[a] == m[a + 1]);
                        }
                    }
                    assert forall|a: int, b: int|
                        0 <= a < fin.len() && 0 <= b < fin[a].1.len() implies fin[a].1[b].quantity
                        > 0 by {
                        if a < i as int {
                            assert(fin[a] == m[a]);
                        } else {
                            assert(fin[a] == m[a + 1]);
                        }
                    }
                }
            } else {
                side.insert(i, pair);
                proof {
                    let m2 = cancel_model(m, order_id, price);
                    let fin = to_model(side@);
                    assert(m2 == m.update(i as int, (price, rest)));
                    assert(side@ == orig.remove(i as int).insert(i as int, side@[i as int]));
                    assert(side@.len() == orig.len());
                    assert(side@[i as int].0 == price);
                    assert(side@[i as int].1.orders@ == rest);
                    assert(forall|k: int|
                        0 <= k < side@.len() && k != i as int ==> side@[k] == orig[k]);
                    assert forall|k: int| 0 <= k < fin.len() implies fin[k] == m2[k] by {
                        assert(fin[k] == (side@[k].0, side@[k].1.orders@));
                        if k != i as int {
                            assert(side@[k] == orig[k]);
                        }
                    }
                    assert(fin =~~= m2);
                    assert forall|k: int| 0 <= k < side@.len() implies side@[k].1.total_quantity
                        == sum_qty(side@[k].1.orders@) by {
                        if k != i as int {
                            assert(side@[k] == orig[k]);
                        }
                    }
                    assert forall|a: int, b: int| 0 <= a < b < fin.len() implies fin[a].0
                        < fin[b].0 by {
                        assert(m[a].0 < m[b].0);
                    }
                    assert forall|a: int| 0 <= a < fin.len() implies fin[a].1.len() > 0 by {
                        if a != i as int {
                            assert(fin[a] == m[a]);
                        }
                    }
                    assert forall|a: int, b: int|
                        0 <= a < fin.len() && 0 <= b < fin[a].1.len() implies fin[a].1[b].quantity
                        > 0 by {
                        if a != i as int {
                            assert(fin[a] == m[a]);
                        } else {
                            assert(fin[a].1 == rest);
                            assert(rest[b] == if b < j as int {
                                m[i as int].1[b]
                            } else {
                                m[i as int].1[b + 1]
                            });
                        }
                    }
                }
            }
            true
        } else {
            proof {
                lemma_order_scan_absent(m[i as int].1, order_id);
            }
            false
        }
    } else {
        proof {
            lemma_scan_absent(m, price, i as int);
        }
        false
    }
}

/// Overwrite the quantity of the first order with id `order_id` at `price` on
/// one stored side, keeping its place in the arrival sequence, and adjust the
/// level's aggregate by the difference; report whether it was found. Failure
/// leaves the side untouched.
#[verifier::loop_isolation(false)]
fn side_modify(side: &mut Vec<(u64, PriceLevel)>, order_id: u64, price: u64, new_quantity: u64) -> (found:
    bool)
    requires
        side_wf(old(side)@),
        new_quantity > 0,
        modify_fits(to_model(old(side)@), order_id, price, new_quantity),
    ensures
        side_wf(final(side)@),
        found == resting(to_model(old(side)@), order_id, price),
        to_model(final(side)@) == modify_model(to_model(old(side)@), order_id, price, new_quantity),
        !found ==> *final(side) == *old(side),
{
    let ghost orig = side@;
    let ghost m = to_model(orig);
    proof {
        assert(forall|j: int| 0 <= j < m.len() ==> m[j] == (orig[j].0, orig[j].1.orders@));
    }
    let mut i: usize = 0;
    while i < side.len() && side[i].0 < price
        invariant
            i <= side.len(),
            forall|j: int| 0 <= j < i ==> side@[j].0 < price,
        decreases side.len() - i,
    {
        i += 1;
    }
    if i < side.len() && side[i].0 == price {
        proof {
            lemma_scan_found(m, price, i as int);
        }
        let mut j: usize = 0;
        while j < side[i].1.orders.len() && side[i].1.orders[j].order_id != order_id
            invariant
                j <= side@[i as int].1.orders@.len(),
                forall|k: int| 0 <= k < j ==> side@[i as int].1.orders@[k].order_id != order_id,
            decreases side@[i as int].1.orders@.len() - j,
        {
            j += 1;
        }
        if j < side[i].1.orders.len() {
            proof {
                lemma_order_scan_found(m[i as int].1, order_id, j as int);
                lemma_sum_remove(m[i as int].1, j as int);
                lemma_sum_nonneg(m[i as int].1.remove(j as int));
                lemma_sum_update(
                    m[i as int].1,
                    j as int,
                    Order { quantity: new_quantity, ..m[i as int].1[j as int] },
                );
            }
            let mut pair = side.remove(i);
            let removed = pair.1.orders.remove(j);
            match removed {
                Some(removed_order) => {
                    let old_qty = removed_order.quantity;
                    let mut amended = removed_order;
                    amended.quantity = new_quantity;
                    pair.1.orders.insert(j, amended);
                    pair.1.total_quantity = (pair.1.total_quantity - old_qty) + new_quantity;
                },
                None => {},
            }
            side.insert(i, pair);
            proof {
                let ghost amended = Order { quantity: new_quantity, ..m[i as int].1[j as int] };
                let ghost updated = m[i as int].1.update(j as int, amended);
                let m2 = modify_model(m, order_id, price, new_quantity);
                let fin = to_model(side@);
                assert(m2 == m.update(i as int, (price, updated)));
                assert(side@[i as int].1.orders@ == m[i as int].1.remove(j as int).insert(
                    j as int,
                    amended,
                ));
                assert(side@[i as int].1.orders@ =~= updated);
                assert(side@ == orig.remove(i as int).insert(i as int, side@[i as int]));
                assert(side@.len() == orig.len());
                assert(side@[i as int].0 == price);
                assert(side@[i as int].1.total_quantity == sum_qty(updated));
                assert(forall|k: int|
                    0 <= k < side@.len() && k != i as int ==> side@[k] == orig[k]);
                assert forall|k: int| 0 <= k < fin.len() implies fin[k] == m2[k] by {
                    assert(fin[k] == (side@[k].0, side@[k].1.orders@));
                    if k != i as int {
                        assert(side@[k] == orig[k]);
                    }
                }
                assert(fin =~~= m2);
                assert forall|k: int| 0 <= k < side@.len() implies side@[k].1.total_quantity
                    == sum_qty(side@[k].1.orders@) by {
                    if k != i as int {
                        assert(side@[k] == orig[k]);
                    }
                }
                assert forall|a: int, b: int| 0 <= a < b < fin.len() implies fin[a].0
                    < fin[b].0 by {
                    assert(m[a].0 < m[b].0);
                }
                assert forall|a: int| 0 <= a < fin.len() implies fin[a].1.len() > 0 by {
                    if a != i as int {
                        assert(fin[a] == m[a]);
                    }
                }
                assert forall|a: int, b: int|
                    0 <= a < fin.len() && 0 <= b < fin[a].1.len() implies fin[a].1[b].quantity
                    > 0 by {
                    if a != i as int {
                        assert(fin[a] == m[a]);
                    } else {
                        assert(fin[a].1 == updated);
                        if b != j as int {
                            assert(updated[b] == m[i as int].1[b]);
                        } else {
                            assert(updated[b] == amended);
                        }
                    }
                }
            }
            true
        } else {
            proof {
                lemma_order_scan_absent(m[i as int].1, order_id);
            }
            false
        }
    } else {
        proof {
            lemma_scan_absent(m, price, i as int);
        }
        false
    }
}

/// Two independently price-ordered sides of resting interest, and the
/// watermark from which insertion timestamps are assigned. The book is not
/// internally thread-safe: a single consumer must hold exclusive access while
/// mutating it.
pub struct OrderBook {
    pub bids: Vec<(u64, PriceLevel)>,
    pub asks: Vec<(u64, PriceLevel)>,
    pub last_timestamp: u64,
}

impl OrderBook {
    /// The model of the requested side.
    pub open spec fn side_model(&self, side: Side) -> SideModel {
        match side {
            Side::Buy => to_model(self.bids@),
            Side::Sell => to_model(self.asks@),
        }
    }

    /// Aggregate-quantity consistency and price ordering, on both sides: each
    /// level's `total_quantity` equals the sum of its orders' quantities, for
    /// all levels, at all times.
    pub open spec fn wf(&self) -> bool {
        side_wf(self.bids@) && side_wf(self.asks@)
    }

    /// The number of orders resting in the whole book.
    pub open spec fn order_count(&self) -> int {
        count_orders(self.side_model(Side::Buy)) + count_orders(self.side_model(Side::Sell))
    }

    /// An empty book.
    pub fn new() -> (book: OrderBook)
        ensures
            book.wf(),
            book.side_model(Side::Buy) =~= Seq::<(u64, Seq<Order>)>::empty(),
            book.side_model(Side::Sell) =~= Seq::<(u64, Seq<Order>)>::empty(),
            book.last_timestamp == 0,
    {
        let book = OrderBook { bids: Vec::new(), asks: Vec::new(), last_timestamp: 0 };
        proof {
            assert(to_model(book.bids@) =~= Seq::<(u64, Seq<Order>)>::empty());
            assert(to_model(book.asks@) =~= Seq::<(u64, Seq<Order>)>::empty());
        }
        book
    }

    /// Stamp `order` with a fresh timestamp no smaller than any the book has
    /// assigned before, and append it to the back of the level for its
    /// (side, price), creating the level when absent. Never fails; the
    /// precondition only keeps the level's aggregate within `u64` and the
    /// quantity positive, as every producer must.
    pub fn add_order(&mut self, order: Order)
        requires
            old(self).wf(),
            order.quantity > 0,
            add_fits(old(self).side_model(order.side), order),
        ensures
            final(self).wf(),
            final(self).last_timestamp >= old(self).last_timestamp,
            final(self).side_model(order.side) == add_model(
                old(self).side_model(order.side),
                with_timestamp(order, final(self).last_timestamp),
            ),
            final(self).side_model(other_side(order.side)) == old(self).side_model(
                other_side(order.side),
            ),
            final(self).order_count() == old(self).order_count() + 1,
    {
        let now = now_nanos();
        let ts = if now > self.last_timestamp {
            now
        } else {
            self.last_timestamp
        };
        self.last_timestamp = ts;
        let mut stamped = order;
        stamped.timestamp = ts;
        proof {
            assert(stamped == with_timestamp(order, ts));
        }
        match order.side {
            Side::Buy => side_add(&mut self.bids, stamped),
            Side::Sell => side_add(&mut self.asks, stamped),
        }
        proof {
            lemma_add_model_count(old(self).side_model(order.side), stamped);
        }
    }

    /// The aggregate quantity resting at (side, price), or `None` when no
    /// level exists there.
    #[verifier::loop_isolation(false)]
    pub fn level_total(&self, side: Side, price: u64) -> (r: Option<u64>)
        requires
            self.wf(),
        ensures
            ({
                let m = self.side_model(side);
                let li = level_index(m, price);
                match r {
                    Some(total) => li >= 0 && total == sum_qty(m[li].1),
                    None => li == -1,
                }
            }),
    {
        let book_side = match side {
            Side::Buy => &self.bids,
            Side::Sell => &self.asks,
        };
        let ghost m = self.side_model(side);
        proof {
            assert(forall|j: int|
                0 <= j < m.len() ==> m[j] == (book_side@[j].0, book_side@[j].1.orders@));
        }
        let mut i: usize = 0;
        while i < book_side.len() && book_side[i].0 < price
            invariant
                i <= book_side.len(),
                forall|j: int| 0 <= j < i ==> book_side@[j].0 < price,
            decreases book_side.len() - i,
        {
            i += 1;
        }
        if i < book_side.len() && book_side[i].0 == price {
            proof {
                lemma_scan_found(m, price, i as int);
            }
            Some(book_side[i].1.total_quantity)
        } else {
            proof {
                lemma_scan_absent(m, price, i as int);
            }
            None
        }
    }

    /// Add `order` only when its quantity is positive and its level's
    /// aggregate stays within `u64`; report whether it was added. A rejection
    /// leaves the book untouched, so a consumer can apply orders of unknown
    /// provenance without a precondition on the book's state.
    pub fn try_add_order(&mut self, order: Order) -> (added: bool)
        requires
            old(self).wf(),
        ensures
            final(self).wf(),
            added == (order.quantity > 0 && add_fits(old(self).side_model(order.side), order)),
            added ==> final(self).last_timestamp >= old(self).last_timestamp
                && final(self).side_model(order.side) == add_model(
                old(self).side_model(order.side),
                with_timestamp(order, final(self).last_timestamp),
            ) && final(self).side_model(other_side(order.side)) == old(self).side_model(
                other_side(order.side),
            ) && final(self).order_count() == old(self).order_count() + 1,
            !added ==> *final(self) == *old(self),
    {
        if order.quantity == 0 {
            return false;
        }
        let fits = match self.level_total(order.side, order.price) {
            Some(total) => order.quantity <= u64::MAX - total,
            None => true,
        };
        proof {
            let m = self.side_model(order.side);
            lemma_sum_nonneg(if level_index(m, order.price) >= 0 {
                m[level_index(m, order.price)].1
            } else {
                Seq::empty()
            });
        }
        if !fits {
            return false;
        }
        self.add_order(order);
        true
    }

    /// Remove the first order with id `order_id` from the level at
    /// (side, price); report whether it was found. The level leaves the book
    /// when its last order leaves. An id not resting at that exact (side,
    /// price) — a late cancel, or a wrong side or price — is a failure that
    /// leaves the book byte-for-byte unchanged; the book never searches other
    /// prices for the id.
    pub fn cancel_order(&mut self, order_id: u64, side: Side, price: u64) -> (found: bool)
        requires
            old(self).wf(),
        ensures
            final(self).wf(),
            found == resting(old(self).side_model(side), order_id, price),
            final(self).side_model(side) == cancel_model(
                old(self).side_model(side),
                order_id,
                price,
            ),
            final(self).side_model(other_side(side)) == old(self).side_model(other_side(side)),
            final(self).last_timestamp == old(self).last_timestamp,
            !found ==> *final(self) == *old(self),
    {
        match side {
            Side::Buy => side_cancel(&mut self.bids, order_id, price),
            Side::Sell => side_cancel(&mut self.asks, order_id, price),
        }
    }

    /// Amend the quantity of the first order with id `order_id` at
    /// (side, price) to `new_quantity`, adjusting the level's aggregate by the
    /// difference; report whether it was found. The order keeps its place in
    /// the arrival sequence: a quantity change never resets time priority.
    /// Failure leaves the book byte-for-byte unchanged.
    pub fn modify_order(&mut self, order_id: u64, side: Side, price: u64, new_quantity: u64) -> (found:
        bool)
        requires
            old(self).wf(),
            new_quantity > 0,
            modify_fits(old(self).side_model(side), order_id, price, new_quantity),
        ensures
            final(self).wf(),
            found == resting(old(self).side_model(side), order_id, price),
            final(self).side_model(side) == modify_model(
                old(self).side_model(side),
                order_id,
                price,
                new_quantity,
            ),
            final(self).side_model(other_side(side)) == old(self).side_model(other_side(side)),
            final(self).last_timestamp == old(self).last_timestamp,
            !found ==> *final(self) == *old(self),
    {
        match side {
            Side::Buy => side_modify(&mut self.bids, order_id, price, new_quantity),
            Side::Sell => side_modify(&mut self.asks, order_id, price, new_quantity),
        }
    }

    /// The best (highest-price) bid levels, at most `depth` of them, in
    /// descending price order, each summarised as (price, aggregate quantity,
    /// resting-order count), read from the bid side itself.
    #[verifier::loop_isolation(false)]
    pub fn top_bids(&self, depth: usize) -> (r: Vec<LevelSummary>)
        requires
            self.wf(),
        ensures
            ({
                let m = self.side_model(Side::Buy);
                &&& r@.len() == if depth as int <= m.len() {
                    depth as int
                } else {
                    m.len() as int
                }
                &&& forall|k: int|
                    0 <= k < r@.len() ==> #[trigger] r@[k].price == m[m.len() - 1 - k].0
                        && r@[k].total_quantity == sum_qty(m[m.len() - 1 - k].1)
                        && r@[k].order_count == m[m.len() - 1 - k].1.len()
            }),
    {
        let ghost m = self.side_model(Side::Buy);
        proof {
            assert(forall|j: int|
                0 <= j < m.len() ==> m[j] == (self.bids@[j].0, self.bids@[j].1.orders@));
        }
        let n = self.bids.len();
        let mut r: Vec<LevelSummary> = Vec::new();
        let mut k: usize = 0;
        while k < depth && k < n
            invariant
                k <= n,
                k <= depth,
                r@.len() == k,
                forall|t: int|
                    0 <= t < k ==> #[trigger] r@[t].price == m[m.len() - 1 - t].0
                        && r@[t].total_quantity == sum_qty(m[m.len() - 1 - t].1)
                        && r@[t].order_count == m[m.len() - 1 - t].1.len(),
            decreases n - k,
        {
            let idx = n - 1 - k;
            let summary = LevelSummary {
                price: self.bids[idx].0,
                total_quantity: self.bids[idx].1.total_quantity,
                order_count: self.bids[idx].1.orders.len(),
            };
            r.push(summary);
            k += 1;
        }
        r
    }

    /// The best (lowest-price) ask levels, at most `depth` of them, in
    /// ascending price order, each summarised as (price, aggregate quantity,
    /// resting-order count), read from the ask side itself.
    #[verifier::loop_isolation(false)]
    pub fn top_asks(&self, depth: usize) -> (r: Vec<LevelSummary>)
        requires
            self.wf(),
        ensures
            ({
                let m = self.side_model(Side::Sell);
                &&& r@.len() == if depth as int <= m.len() {
                    depth as int
                } else {
                    m.len() as int
                }
                &&& forall|k: int|
                    0 <= k < r@.len() ==> #[trigger] r@[k].price == m[k].0
                        && r@[k].total_quantity == sum_qty(m[k].1) && r@[k].order_count
                        == m[k].1.len()
            }),
    {
        let ghost m = self.side_model(Side::Sell);
        proof {
            assert(forall|j: int|
                0 <= j < m.len() ==> m[j] == (self.asks@[j].0, self.asks@[j].1.orders@));
        }
        let n = self.asks.len();
        let mut r: Vec<LevelSummary> = Vec::new();
        let mut k: usize = 0;
        while k < depth && k < n
            invariant
                k <= n,
                k <= depth,
                r@.len() == k,
                forall|t: int|
                    0 <= t < k ==> #[trigger] r@[t].price == m[t].0 && r@[t].total_quantity
                        == sum_qty(m[t].1) && r@[t].order_count == m[t].1.len(),
            decreases n - k,
        {
            let summary = LevelSummary {
                price: self.asks[k].0,
                total_quantity: self.asks[k].1.total_quantity,
                order_count: self.asks[k].1.orders.len(),
            };
            r.push(summary);
            k += 1;
        }
        r
    }

    /// The orders resting at (side, price) in arrival order, or nothing when
    /// the book has no level there.
    #[verifier::loop_isolation(false)]
    pub fn orders_at(&self, side: Side, price: u64) -> (r: Vec<Order>)
        requires
            self.wf(),
        ensures
            r@ == level_orders(self.side_model(side), price),
    {
        let book_side = match side {
            Side::Buy => &self.bids,
            Side::Sell => &self.asks,
        };
        let ghost m = self.side_model(side);
        proof {
            assert(forall|j: int|
                0 <= j < m.len() ==> m[j] == (book_side@[j].0, book_side@[j].1.orders@));
        }
        let mut i: usize = 0;
        while i < book_side.len() && book_side[i].0 < price
            invariant
                i <= book_side.len(),
                forall|j: int| 0 <= j < i ==> book_side@[j].0 < price,
            decreases book_side.len() - i,
        {
            i += 1;
        }
        let mut r: Vec<Order> = Vec::new();
        if i < book_side.len() && book_side[i].0 == price {
            proof {
                lemma_scan_found(m, price, i as int);
            }
            let orders_len = book_side[i].1.orders.len();
            let mut j: usize = 0;
            while j < orders_len
                invariant
                    j <= orders_len,
                    orders_len == book_side@[i as int].1.orders@.len(),
                    r@.len() == j,
                    forall|t: int| 0 <= t < j ==> r@[t] == book_side@[i as int].1.orders@[t],
                decreases orders_len - j,
            {
                r.push(book_side[i].1.orders[j]);
                j += 1;
            }
            proof {
                assert(r@ =~= level_orders(m, price));
            }
        } else {
            proof {
                lemma_scan_absent(m, price, i as int);
                assert(r@ =~= level_orders(m, price));
            }
        }
        r
    }
}

/// One level summarised for a market-data snapshot: its price, its aggregate
/// quantity, and how many orders rest there.
#[derive(Debug, Clone, Copy, PartialEq, Eq, Structural)]
pub struct LevelSummary {
    pub price: u64,
    pub total_quantity: u64,
    pub order_count: usize,
}

/// Adding an order and at once cancelling it by its (id, side, price) restores
/// the side to its state before the add: the appended order leaves again, and
/// a level the add created disappears with it. This holds whenever the order's
/// id was not already resting at that price, as a producer respecting id
/// uniqueness guarantees.
pub proof fn lemma_add_cancel_round_trip(m: SideModel, order: Order)
    requires
        model_wf(m),
        !resting(m, order.order_id, order.price),
    ensures
        resting(add_model(m, order), order.order_id, order.price),
        cancel_model(add_model(m, order), order.order_id, order.price) == m,
{
    lemma_level_index_props(m, order.price);
    let li = level_index(m, order.price);
    if li >= 0 {
        let lvl = m[li].1;
        let m1 = m.update(li, (order.price, lvl.push(order)));
        assert(m1 == add_model(m, order));
        lemma_level_index_props(m1, order.price);
        let li1 = level_index(m1, order.price);
        assert(m1[li].0 == order.price);
        if li1 == -1 {
            assert(m1[li].0 != order.price);
        }
        assert(forall|k: int| 0 <= k < m.len() ==> m1[k].0 == m[k].0);
        if li1 < li {
            assert(m[li1].0 == order.price && m[li].0 == order.price);
        } else if li1 > li {
            assert(m[li1].0 == order.price && m[li].0 == order.price);
        }
        assert(li1 == li);
        lemma_first_id_index_props(lvl, order.order_id);
        assert(first_id_index(lvl, order.order_id) == -1);
        assert forall|k: int|
            0 <= k < lvl.len() implies lvl.push(order)[k].order_id != order.order_id by {
            assert(lvl.push(order)[k] == lvl[k]);
        }
        assert(lvl.push(order)[lvl.len() as int] == order);
        lemma_order_scan_found(lvl.push(order), order.order_id, lvl.len() as int);
        assert(lvl.push(order).remove(lvl.len() as int) =~= lvl);
        assert(lvl.len() > 0);
        assert(cancel_model(m1, order.order_id, order.price) == m1.update(
            li,
            (order.price, lvl),
        ));
        assert((order.price, lvl) == m[li]);
        assert(m1.update(li, (order.price, lvl)) =~~= m);
    } else {
        lemma_insert_pos_props(m, order.price);
        let ip = insert_pos(m, order.price);
        let m1 = m.insert(ip, (order.price, seq![order]));
        assert(m1 == add_model(m, order));
        assert(forall|j: int| 0 <= j < ip ==> m1[j] == m[j]);
        assert(m1[ip].0 == order.price);
        lemma_scan_found(m1, order.price, ip);
        assert(seq![order][0] == order);
        assert(first_id_index(seq![order], order.order_id) == 0);
        assert(seq![order].remove(0) =~= Seq::<Order>::empty());
        assert(cancel_model(m1, order.order_id, order.price) == m1.remove(ip));
        assert(m1.remove(ip) =~~= m);
    }
}

/// A modify never disturbs arrival order: every level keeps its price and its
/// length, every resting order keeps its id, side, price, timestamp and
/// position, and only the quantity of the first order with the amended id at
/// the amended price changes. Any number of modifies on other orders at a
/// level therefore preserves the relative arrival order of the orders still
/// resting there.
pub proof fn lemma_modify_keeps_arrival_order(
    m: SideModel,
    order_id: u64,
    price: u64,
    new_quantity: u64,
)
    ensures
        ({
            let m2 = modify_model(m, order_id, price, new_quantity);
            &&& m2.len() == m.len()
            &&& forall|i: int|
                0 <= i < m.len() ==> #[trigger] m2[i].0 == m[i].0 && m2[i].1.len()
                    == m[i].1.len()
            &&& forall|i: int, j: int|
                0 <= i < m.len() && 0 <= j < m[i].1.len() ==> #[trigger] m2[i].1[j].order_id
                    == m[i].1[j].order_id && m2[i].1[j].side == m[i].1[j].side
                    && m2[i].1[j].price == m[i].1[j].price && m2[i].1[j].timestamp
                    == m[i].1[j].timestamp
            &&& forall|i: int, j: int|
                0 <= i < m.len() && 0 <= j < m[i].1.len() && m[i].1[j].order_id != order_id
                    ==> #[trigger] m2[i].1[j] == m[i].1[j]
        }),
{
    let li = level_index(m, price);
    lemma_level_index_props(m, price);
    if li >= 0 {
        let oi = first_id_index(m[li].1, order_id);
        lemma_first_id_index_props(m[li].1, order_id);
        if oi >= 0 {
            let amended = Order { quantity: new_quantity, ..m[li].1[oi] };
            let m2 = modify_model(m, order_id, price, new_quantity);
            assert(m2 == m.update(li, (price, m[li].1.update(oi, amended))));
            assert(m[li].0 == price);
        }
    }
}

} // verus!
