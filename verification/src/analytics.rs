//! Pure query and transform operations over collections of orders: exact
//! totals, status filtering, descending rankings, structural discounts,
//! grouping by user and spending aggregation by display name.
//!
//! Every operation is a total function of its inputs and never mutates them;
//! callers own the data and receive fresh derived values.

use vstd::prelude::*;

use std::collections::HashMap;

use vstd::multiset::Multiset;
use vstd::string::StrSliceExecFns;

use crate::model::{Order, OrderItem, OrderItemView, OrderView, Product, ProductView, order_views};

verus! {

/// The exact value of one order line: unit price times quantity.
pub open spec fn item_subtotal(it: OrderItemView) -> int {
    it.product.price * it.quantity
}

/// The exact value of a sequence of order lines.
pub open spec fn items_total(s: Seq<OrderItemView>) -> int
    decreases s.len(),
{
    if s.len() == 0 {
        0
    } else {
        items_total(s.drop_last()) + item_subtotal(s.last())
    }
}

/// An order's total value: the sum over its items of unit price times
/// quantity. Derived, never stored.
pub open spec fn order_total(o: OrderView) -> int {
    items_total(o.items)
}

/// The combined total value of a sequence of orders.
pub open spec fn orders_sum(s: Seq<OrderView>) -> int
    decreases s.len(),
{
    if s.len() == 0 {
        0
    } else {
        orders_sum(s.drop_last()) + order_total(s.last())
    }
}

/// Line subtotals are never negative.
pub proof fn lemma_items_total_nonneg(s: Seq<OrderItemView>)
    ensures
        items_total(s) >= 0,
    decreases s.len(),
{
    if s.len() > 0 {
        lemma_items_total_nonneg(s.drop_last());
    }
}

/// Extending a prefix by one line adds that line's subtotal.
pub proof fn lemma_items_total_take_step(s: Seq<OrderItemView>, i: int)
    requires
        0 <= i < s.len(),
    ensures
        items_total(s.take(i + 1)) == items_total(s.take(i)) + item_subtotal(s[i]),
{
    assert(s.take(i + 1).drop_last() =~= s.take(i));
    assert(s.take(i + 1).last() == s[i]);
}

/// A prefix never exceeds the whole sequence's total.
pub proof fn lemma_items_total_take_le(s: Seq<OrderItemView>, i: int)
    requires
        0 <= i <= s.len(),
    ensures
        items_total(s.take(i)) <= items_total(s),
    decreases s.len() - i,
{
    if i == s.len() {
        assert(s.take(i) =~= s);
    } else {
        lemma_items_total_take_step(s, i);
        lemma_items_total_take_le(s, i + 1);
    }
}

/// Order totals are never negative.
pub proof fn lemma_order_total_nonneg(o: OrderView)
    ensures
        order_total(o) >= 0,
{
    lemma_items_total_nonneg(o.items);
}

/// Extending a prefix by one order adds that order's total.
pub proof fn lemma_orders_sum_take_step(s: Seq<OrderView>, i: int)
    requires
        0 <= i < s.len(),
    ensures
        orders_sum(s.take(i + 1)) == orders_sum(s.take(i)) + order_total(s[i]),
{
    assert(s.take(i + 1).drop_last() =~= s.take(i));
    assert(s.take(i + 1).last() == s[i]);
}

/// Combined totals are never negative.
pub proof fn lemma_orders_sum_nonneg(s: Seq<OrderView>)
    ensures
        orders_sum(s) >= 0,
    decreases s.len(),
{
    if s.len() > 0 {
        lemma_orders_sum_nonneg(s.drop_last());
        lemma_order_total_nonneg(s.last());
    }
}

/// A prefix never exceeds the whole sequence's combined total.
pub proof fn lemma_orders_sum_take_le(s: Seq<OrderView>, i: int)
    requires
        0 <= i <= s.len(),
    ensures
        orders_sum(s.take(i)) <= orders_sum(s),
    decreases s.len() - i,
{
    if i == s.len() {
        assert(s.take(i) =~= s);
    } else {
        lemma_orders_sum_take_step(s, i);
        lemma_order_total_nonneg(s[i]);
        lemma_orders_sum_take_le(s, i + 1);
    }
}

/// An order with no items totals exactly zero, and in general the total is
/// the sum of its line subtotals.
pub proof fn lemma_total_of_empty_order(o: OrderView)
    requires
        o.items.len() == 0,
    ensures
        order_total(o) == 0,
{
}

/// Computes an order's total value: the sum over its items of unit price
/// times quantity; exactly zero for an order with no items.
pub fn calculate_order_total(order: &Order) -> (total: u64)
    requires
        order_total(order@) <= u64::MAX,
    ensures
        total == order_total(order@),
{
    let ghost iv: Seq<OrderItemView> = order@.items;
    let mut total: u64 = 0;
    let mut i: usize = 0;
    while i < order.items.len()
        invariant
            i <= order.items.len(),
            iv == order@.items,
            iv.len() == order.items.len(),
            forall|j: int| 0 <= j < iv.len() ==> iv[j] == order.items@[j]@,
            order_total(order@) <= u64::MAX,
            total == items_total(iv.take(i as int)),
        decreases order.items.len() - i,
    {
        let p = order.items[i].product.price;
        let q = order.items[i].quantity;
        proof {
            lemma_items_total_take_step(iv, i as int);
            lemma_items_total_take_le(iv, i as int + 1);
            lemma_items_total_nonneg(iv.take(i as int));
            assert(item_subtotal(iv[i as int]) == p * q);
        }
        total = total + p * (q as u64);
        i = i + 1;
    }
    proof {
        assert(iv.take(iv.len() as int) =~= iv);
    }
    total
}

/// Whether an order carries the given status label.
pub open spec fn has_status(o: OrderView, status: Seq<char>) -> bool {
    o.status == status
}

/// Character-by-character string comparison, proved equivalent to equality
/// of the abstract character sequences.
pub fn str_eq(a: &str, b: &str) -> (r: bool)
    ensures
        r == (a@ == b@),
{
    let alen = a.unicode_len();
    let blen = b.unicode_len();
    if alen != blen {
        proof {
            assert(a@ != b@);
        }
        return false;
    }
    let mut i: usize = 0;
    while i < alen
        invariant
            alen == a@.len(),
            blen == b@.len(),
            alen == blen,
            i <= alen,
            forall|j: int| 0 <= j < i ==> a@[j] == b@[j],
        decreases alen - i,
    {
        if a.get_char(i) != b.get_char(i) {
            proof {
                assert(a@[i as int] != b@[i as int]);
                assert(a@ != b@);
            }
            return false;
        }
        i = i + 1;
    }
    proof {
        assert(a@ =~= b@);
    }
    true
}

/// Appending one element to a sequence extends its filtered image by that
/// element exactly when the predicate holds of it.
pub proof fn lemma_filter_push<A>(s: Seq<A>, x: A, pred: spec_fn(A) -> bool)
    ensures
        s.push(x).filter(pred) == if pred(x) {
            s.filter(pred).push(x)
        } else {
            s.filter(pred)
        },
{
    reveal(Seq::filter);
    assert(s.push(x).drop_last() =~= s);
    assert(s.push(x).last() == x);
}

/// The predicate "carries status `status`", as a function value, so that
/// every mention of it denotes one and the same function.
pub open spec fn status_pred(status: Seq<char>) -> spec_fn(OrderView) -> bool {
    |o: OrderView| has_status(o, status)
}

/// The complement of [`status_pred`]: "carries any other status".
pub open spec fn other_status_pred(status: Seq<char>) -> spec_fn(OrderView) -> bool {
    |o: OrderView| !has_status(o, status)
}

/// The orders of `s` carrying status `status`, in their original relative
/// order.
pub open spec fn filtered_by_status(s: Seq<OrderView>, status: Seq<char>) -> Seq<OrderView> {
    s.filter(status_pred(status))
}

/// Returns exactly those orders whose status equals `status`, in their
/// original relative order; the input is left untouched. An empty result,
/// never an error, when nothing matches.
pub fn filter_orders_by_status(orders: &Vec<Order>, status: &str) -> (r: Vec<Order>)
    ensures
        order_views(r@) == filtered_by_status(order_views(orders@), status@),
{
    let ghost st: Seq<char> = status@;
    let mut out: Vec<Order> = Vec::new();
    let mut i: usize = 0;
    while i < orders.len()
        invariant
            i <= orders.len(),
            st == status@,
            order_views(out@) == filtered_by_status(order_views(orders@.take(i as int)), st),
        decreases orders.len() - i,
    {
        let ghost prefix = order_views(orders@.take(i as int));
        let ghost ov = orders@[i as int]@;
        proof {
            lemma_filter_push(prefix, ov, status_pred(st));
            assert(order_views(orders@.take(i as int + 1)) =~= prefix.push(ov));
        }
        let matched = str_eq(orders[i].status.as_str(), status);
        proof {
            assert(status_pred(st)(ov) == has_status(ov, st));
            assert(matched == status_pred(st)(ov));
        }
        if matched {
            let kept = orders[i].clone();
            proof {
                assert(kept@ == ov);
            }
            out.push(kept);
            proof {
                assert(order_views(out@) =~= prefix.filter(status_pred(st)).push(ov));
                assert(order_views(out@) == filtered_by_status(
                    order_views(orders@.take(i as int + 1)),
                    st,
                ));
            }
        } else {
            proof {
                assert(order_views(out@) == filtered_by_status(
                    order_views(orders@.take(i as int + 1)),
                    st,
                ));
            }
        }
        i = i + 1;
    }
    proof {
        assert(orders@.take(orders@.len() as int) =~= orders@);
    }
    out
}

/// Splitting a collection by one status label loses nothing: the orders with
/// that status and the orders with any other status together count the whole
/// collection.
pub proof fn lemma_filter_status_partition(s: Seq<OrderView>, status: Seq<char>)
    ensures
        filtered_by_status(s, status).len() + s.filter(other_status_pred(status)).len() == s.len(),
    decreases s.len(),
{
    reveal(Seq::filter);
    if s.len() > 0 {
        lemma_filter_status_partition(s.drop_last(), status);
        assert(status_pred(status)(s.last()) == has_status(s.last(), status));
        assert(other_status_pred(status)(s.last()) == !has_status(s.last(), status));
    }
}

/// Every order kept by [`filter_orders_by_status`] carries the requested
/// status, and each one comes from the input collection.
pub proof fn lemma_filter_status_sound(s: Seq<OrderView>, status: Seq<char>, i: int)
    requires
        0 <= i < filtered_by_status(s, status).len(),
    ensures
        has_status(filtered_by_status(s, status)[i], status),
        s.contains(filtered_by_status(s, status)[i]),
    decreases s.len(),
{
    reveal(Seq::filter);
    let f = filtered_by_status(s, status);
    if s.len() > 0 {
        let sub = filtered_by_status(s.drop_last(), status);
        assert(status_pred(status)(s.last()) == has_status(s.last(), status));
        if i < sub.len() {
            lemma_filter_status_sound(s.drop_last(), status, i);
            let j = choose|j: int| 0 <= j < s.drop_last().len() && s.drop_last()[j] == sub[i];
            assert(s[j] == sub[i]);
        } else {
            assert(f[i] == s.last());
            assert(s[s.len() - 1] == s.last());
        }
    }
}

/// Totals never increase from left to right.
pub open spec fn sorted_desc(s: Seq<OrderView>) -> bool {
    forall|i: int, j: int| 0 <= i <= j < s.len() ==> order_total(s[i]) >= order_total(s[j])
}

/// Places `o` after every order whose total is at least `o`'s, and before the
/// first order whose total is strictly smaller. Equal totals therefore keep
/// their original relative order.
pub open spec fn insert_desc(s: Seq<OrderView>, o: OrderView) -> Seq<OrderView>
    decreases s.len(),
{
    if s.len() == 0 {
        seq![o]
    } else if order_total(s.first()) >= order_total(o) {
        seq![s.first()] + insert_desc(s.drop_first(), o)
    } else {
        seq![o] + s
    }
}

/// Stable insertion sort by descending order total.
pub open spec fn sort_desc(s: Seq<OrderView>) -> Seq<OrderView>
    decreases s.len(),
{
    if s.len() == 0 {
        s
    } else {
        insert_desc(sort_desc(s.drop_last()), s.last())
    }
}

/// The ranking result: the sorted sequence cut down to its first `n` orders.
pub open spec fn rank_top(s: Seq<OrderView>, n: int) -> Seq<OrderView> {
    sort_desc(s).take(if n <= s.len() {
        n
    } else {
        s.len() as int
    })
}

/// Inserting adds one order.
pub proof fn lemma_insert_desc_len(s: Seq<OrderView>, o: OrderView)
    ensures
        insert_desc(s, o).len() == s.len() + 1,
    decreases s.len(),
{
    if s.len() > 0 && order_total(s.first()) >= order_total(o) {
        lemma_insert_desc_len(s.drop_first(), o);
    }
}

/// Inserting contributes exactly the inserted order to the multiset of
/// orders.
pub proof fn lemma_insert_desc_multiset(s: Seq<OrderView>, o: OrderView)
    ensures
        insert_desc(s, o).to_multiset() == s.to_multiset().insert(o),
    decreases s.len(),
{
    broadcast use vstd::seq_lib::group_to_multiset_ensures;

    if s.len() == 0 {
        assert(seq![o] =~= Seq::<OrderView>::empty().push(o));
        assert(Seq::<OrderView>::empty().push(o).to_multiset() =~= Seq::<
            OrderView,
        >::empty().to_multiset().insert(o));
        assert(s.to_multiset() =~= Multiset::<OrderView>::empty());
    } else if order_total(s.first()) >= order_total(o) {
        lemma_insert_desc_multiset(s.drop_first(), o);
        let tail = insert_desc(s.drop_first(), o);
        vstd::seq_lib::lemma_multiset_commutative(seq![s.first()], tail);
        vstd::seq_lib::lemma_multiset_commutative(seq![s.first()], s.drop_first());
        assert(seq![s.first()] + s.drop_first() =~= s);
        assert(seq![s.first()].to_multiset().add(s.drop_first().to_multiset().insert(o)) =~= s
            .to_multiset().insert(o));
    } else {
        vstd::seq_lib::lemma_multiset_commutative(seq![o], s);
        assert(seq![o] =~= Seq::<OrderView>::empty().push(o));
        assert(seq![o].to_multiset() =~= Multiset::<OrderView>::empty().insert(o));
        assert(Multiset::<OrderView>::empty().insert(o).add(s.to_multiset()) =~= s
            .to_multiset().insert(o));
    }
}

/// Inserting into a sequence sorted by descending total keeps it sorted.
pub proof fn lemma_insert_desc_sorted(s: Seq<OrderView>, o: OrderView)
    requires
        sorted_desc(s),
    ensures
        sorted_desc(insert_desc(s, o)),
    decreases s.len(),
{
    if s.len() > 0 && order_total(s.first()) >= order_total(o) {
        assert(sorted_desc(s.drop_first()));
        lemma_insert_desc_sorted(s.drop_first(), o);
        lemma_insert_desc_len(s.drop_first(), o);
        let r = seq![s.first()] + insert_desc(s.drop_first(), o);
        let tail = insert_desc(s.drop_first(), o);
        assert forall|k: int| 0 <= k < tail.len() implies order_total(r[0]) >= order_total(
            tail[k],
        ) by {
            lemma_insert_desc_contains_totals(s.drop_first(), o, k);
        }
    }
}

/// Every total in the inserted sequence is either the new order's total or
/// one already present.
pub proof fn lemma_insert_desc_contains_totals(s: Seq<OrderView>, o: OrderView, k: int)
    requires
        0 <= k < insert_desc(s, o).len(),
    ensures
        order_total(insert_desc(s, o)[k]) == order_total(o) || exists|m: int|
            0 <= m < s.len() && order_total(insert_desc(s, o)[k]) == order_total(#[trigger] s[m]),
    decreases s.len(),
{
    if s.len() == 0 {
    } else if order_total(s.first()) >= order_total(o) {
        if k > 0 {
            lemma_insert_desc_contains_totals(s.drop_first(), o, k - 1);
            let r = insert_desc(s.drop_first(), o);
            if order_total(r[k - 1]) != order_total(o) {
                let m = choose|m: int|
                    0 <= m < s.drop_first().len() && order_total(r[k - 1]) == order_total(
                        #[trigger] s.drop_first()[m],
                    );
                assert(s.drop_first()[m] == s[m + 1]);
            }
        } else {
            assert(order_total(insert_desc(s, o)[0]) == order_total(s[0]));
        }
    } else {
        if k > 0 {
            assert(insert_desc(s, o)[k] == s[k - 1]);
        }
    }
}

/// When everything before position `j` totals at least `o` and position `j`
/// (if any) totals strictly less, inserting lands exactly at `j`.
pub proof fn lemma_insert_desc_split(s: Seq<OrderView>, o: OrderView, j: int)
    requires
        0 <= j <= s.len(),
        forall|m: int| 0 <= m < j ==> order_total(#[trigger] s[m]) >= order_total(o),
        j < s.len() ==> order_total(s[j]) < order_total(o),
    ensures
        insert_desc(s, o) == s.insert(j, o),
    decreases s.len(),
{
    if j == 0 {
        if s.len() == 0 {
            assert(insert_desc(s, o) =~= s.insert(0, o));
        } else {
            assert(insert_desc(s, o) =~= s.insert(0, o));
        }
    } else {
        assert(order_total(s[0]) >= order_total(o));
        lemma_insert_desc_split(s.drop_first(), o, j - 1);
        assert(seq![s.first()] + s.drop_first().insert(j - 1, o) =~= s.insert(j, o));
    }
}

/// Sorting is a permutation: no order appears or disappears.
pub proof fn lemma_sort_desc_multiset(s: Seq<OrderView>)
    ensures
        sort_desc(s).to_multiset() == s.to_multiset(),
        sort_desc(s).len() == s.len(),
    decreases s.len(),
{
    broadcast use vstd::seq_lib::group_to_multiset_ensures;

    if s.len() > 0 {
        lemma_sort_desc_multiset(s.drop_last());
        lemma_insert_desc_multiset(sort_desc(s.drop_last()), s.last());
        lemma_insert_desc_len(sort_desc(s.drop_last()), s.last());
        assert(s.drop_last().push(s.last()) =~= s);
        assert(s.drop_last().push(s.last()).to_multiset() =~= s.drop_last().to_multiset().insert(
            s.last(),
        ));
    }
}

/// Sorting yields a sequence of non-increasing totals.
pub proof fn lemma_sort_desc_sorted(s: Seq<OrderView>)
    ensures
        sorted_desc(sort_desc(s)),
    decreases s.len(),
{
    if s.len() > 0 {
        lemma_sort_desc_sorted(s.drop_last());
        lemma_insert_desc_sorted(sort_desc(s.drop_last()), s.last());
    }
}

/// Finds the first position whose order totals strictly less than `total`;
/// the length when no such position exists.
fn insertion_position(sorted: &Vec<Order>, total: u64) -> (j: usize)
    requires
        forall|k: int| 0 <= k < sorted@.len() ==> order_total(#[trigger] sorted@[k]@) <= u64::MAX,
    ensures
        j <= sorted@.len(),
        forall|m: int| 0 <= m < j ==> order_total(#[trigger] sorted@[m]@) >= total,
        j < sorted@.len() ==> order_total(sorted@[j as int]@) < total,
{
    let mut j: usize = 0;
    while j < sorted.len()
        invariant
            j <= sorted.len(),
            forall|k: int| 0 <= k < sorted@.len() ==> order_total(#[trigger] sorted@[k]@)
                <= u64::MAX,
            forall|m: int| 0 <= m < j ==> order_total(#[trigger] sorted@[m]@) >= total,
        decreases sorted.len() - j,
    {
        if calculate_order_total(&sorted[j]) < total {
            return j;
        }
        j = j + 1;
    }
    j
}

/// Returns at most `n` orders sorted by descending total value; ties keep
/// their original relative order (the sort is stable), and when `n` exceeds
/// the collection size all orders are returned sorted. The input is left
/// untouched.
pub fn get_top_expensive_orders(orders: &Vec<Order>, n: usize) -> (r: Vec<Order>)
    requires
        forall|i: int| 0 <= i < orders@.len() ==> order_total(#[trigger] orders@[i]@) <= u64::MAX,
    ensures
        order_views(r@) == rank_top(order_views(orders@), n as int),
{
    let ghost all = order_views(orders@);
    let mut sorted: Vec<Order> = Vec::new();
    let mut i: usize = 0;
    while i < orders.len()
        invariant
            i <= orders.len(),
            forall|k: int| 0 <= k < orders@.len() ==> order_total(#[trigger] orders@[k]@)
                <= u64::MAX,
            order_views(sorted@) == sort_desc(order_views(orders@.take(i as int))),
            forall|k: int| 0 <= k < sorted@.len() ==> order_total(#[trigger] sorted@[k]@)
                <= u64::MAX,
        decreases orders.len() - i,
    {
        let ghost prefix = order_views(orders@.take(i as int));
        let ghost ov = orders@[i as int]@;
        let o = orders[i].clone();
        let total = calculate_order_total(&o);
        let j = insertion_position(&sorted, total);
        proof {
            lemma_insert_desc_split(order_views(sorted@), ov, j as int);
        }
        sorted.insert(j, o);
        proof {
            assert(order_views(sorted@) =~= insert_desc(sort_desc(prefix), ov));
            assert(order_views(orders@.take(i as int + 1)).drop_last() =~= prefix);
            assert(order_views(orders@.take(i as int + 1)).last() == ov);
            assert(sort_desc(order_views(orders@.take(i as int + 1))) == insert_desc(
                sort_desc(prefix),
                ov,
            ));
        }
        i = i + 1;
    }
    proof {
        assert(orders@.take(orders@.len() as int) =~= orders@);
    }
    let mut r = sorted;
    proof {
        lemma_sort_desc_multiset(all);
        assert(r@.len() == all.len());
    }
    r.truncate(n);
    proof {
        if n <= all.len() {
            assert(order_views(r@) =~= sort_desc(all).take(n as int));
        } else {
            assert(order_views(r@) =~= sort_desc(all).take(all.len() as int));
        }
    }
    r
}

/// The ranking law: the result holds `min(n, len)` orders; its totals never
/// increase from left to right; taken together with the orders it leaves out
/// it is a permutation of the input; and no order it leaves out totals
/// strictly more than any order it keeps.
pub proof fn lemma_rank_top_properties(s: Seq<OrderView>, n: int)
    requires
        n >= 0,
    ensures
        rank_top(s, n).len() == if n <= s.len() {
            n
        } else {
            s.len() as int
        },
        sorted_desc(rank_top(s, n)),
        rank_top(s, n) + sort_desc(s).skip(
            if n <= s.len() {
                n
            } else {
                s.len() as int
            },
        ) == sort_desc(s),
        sort_desc(s).to_multiset() == s.to_multiset(),
        forall|i: int, j: int|
            0 <= i < rank_top(s, n).len() && rank_top(s, n).len() <= j < s.len() ==> order_total(
                rank_top(s, n)[i],
            ) >= order_total(sort_desc(s)[j]),
{
    lemma_sort_desc_multiset(s);
    lemma_sort_desc_sorted(s);
    let cut = if n <= s.len() {
        n
    } else {
        s.len() as int
    };
    assert(rank_top(s, n) + sort_desc(s).skip(cut) =~= sort_desc(s));
}

/// A discount fraction is expressed in basis points: `2_500` of
/// `DISCOUNT_SCALE` stands for a 25% discount.
pub const DISCOUNT_SCALE: u32 = 10000;

/// A unit price after discounting: multiplied by the remaining fraction and
/// rounded down to whole minor units.
pub open spec fn discounted_price(price: u64, discount_bp: u32) -> int {
    (price * (DISCOUNT_SCALE - discount_bp)) / (DISCOUNT_SCALE as int)
}

/// One order line after discounting: same product identity and quantity, the
/// unit price scaled down.
pub open spec fn discount_item(it: OrderItemView, discount_bp: u32) -> OrderItemView {
    OrderItemView {
        product: ProductView {
            id: it.product.id,
            name: it.product.name,
            price: discounted_price(it.product.price, discount_bp) as u64,
            category: it.product.category,
        },
        quantity: it.quantity,
    }
}

/// All order lines after discounting.
pub open spec fn discount_items(s: Seq<OrderItemView>, discount_bp: u32) -> Seq<OrderItemView> {
    s.map_values(|it: OrderItemView| discount_item(it, discount_bp))
}

/// A whole order after discounting: structurally identical except for the
/// unit prices of its lines.
pub open spec fn discount_order(o: OrderView, discount_bp: u32) -> OrderView {
    OrderView {
        id: o.id,
        user: o.user,
        items: discount_items(o.items, discount_bp),
        status: o.status,
    }
}

/// A discounted price never exceeds the original price.
pub proof fn lemma_discounted_price_le(price: u64, discount_bp: u32)
    requires
        discount_bp <= DISCOUNT_SCALE,
    ensures
        0 <= discounted_price(price, discount_bp) <= price,
{
    let f = DISCOUNT_SCALE - discount_bp;
    assert(0 <= (price * f) / (DISCOUNT_SCALE as int) <= price) by (nonlinear_arith)
        requires
            0 <= f <= DISCOUNT_SCALE,
            price >= 0,
    ;
}

/// Produces a new order whose every line price is scaled down by the given
/// discount fraction; the input order, its user and its products are left
/// unmodified. A zero discount reproduces the order unchanged.
pub fn apply_discount(order: &Order, discount_bp: u32) -> (r: Order)
    requires
        discount_bp <= DISCOUNT_SCALE,
    ensures
        r@ == discount_order(order@, discount_bp),
{
    let f: u32 = DISCOUNT_SCALE - discount_bp;
    let mut items: Vec<OrderItem> = Vec::new();
    let mut i: usize = 0;
    while i < order.items.len()
        invariant
            i <= order.items.len(),
            discount_bp <= DISCOUNT_SCALE,
            f == DISCOUNT_SCALE - discount_bp,
            items@.len() == i,
            forall|j: int| 0 <= j < i ==> items@[j]@ == discount_item(
                #[trigger] order.items@[j]@,
                discount_bp,
            ),
        decreases order.items.len() - i,
    {
        let it = &order.items[i];
        let p = it.product.price;
        proof {
            lemma_discounted_price_le(p, discount_bp);
            assert((p as u128) * (f as u128) == p * f) by (nonlinear_arith)
                requires
                    0 <= p <= u64::MAX,
                    0 <= f <= DISCOUNT_SCALE,
            ;
        }
        let scaled = ((p as u128) * (f as u128) / (DISCOUNT_SCALE as u128)) as u64;
        proof {
            assert(scaled == discounted_price(p, discount_bp));
        }
        items.push(
            OrderItem {
                product: Product {
                    id: it.product.id,
                    name: it.product.name.clone(),
                    price: scaled,
                    category: it.product.category.clone(),
                },
                quantity: it.quantity,
            },
        );
        i = i + 1;
    }
    let r = Order {
        id: order.id,
        user: order.user.clone(),
        items,
        status: order.status.clone(),
    };
    proof {
        assert(r@.items =~= discount_items(order@.items, discount_bp));
        assert(r@ =~= discount_order(order@, discount_bp));
    }
    r
}

/// A zero discount is the identity: the discounted order is structurally
/// equal to the original, every total included.
pub proof fn lemma_discount_zero(o: OrderView)
    ensures
        discount_order(o, 0) == o,
{
    assert forall|j: int| 0 <= j < o.items.len() implies discount_items(o.items, 0)[j]
        == o.items[j] by {
        let p = o.items[j].product.price;
        assert((p * (DISCOUNT_SCALE as int)) / (DISCOUNT_SCALE as int) == p) by (nonlinear_arith)
            requires
                p >= 0,
        ;
        assert(discount_item(o.items[j], 0) =~= o.items[j]);
    }
    assert(discount_items(o.items, 0) =~= o.items);
    assert(discount_order(o, 0) =~= o);
}

/// The combined quantity over a sequence of order lines.
pub open spec fn quantity_sum(s: Seq<OrderItemView>) -> int
    decreases s.len(),
{
    if s.len() == 0 {
        0
    } else {
        quantity_sum(s.drop_last()) + s.last().quantity
    }
}

/// Discounting a sequence of lines scales its total by the remaining
/// fraction, up to one minor unit of rounding per line and unit of quantity.
pub proof fn lemma_discount_items_total(s: Seq<OrderItemView>, discount_bp: u32)
    requires
        discount_bp <= DISCOUNT_SCALE,
    ensures
        0 <= items_total(s) * ((DISCOUNT_SCALE - discount_bp) as int) - (DISCOUNT_SCALE as int)
            * items_total(discount_items(s, discount_bp)),
        items_total(s) * ((DISCOUNT_SCALE - discount_bp) as int) - (DISCOUNT_SCALE as int)
            * items_total(discount_items(s, discount_bp)) <= ((DISCOUNT_SCALE - 1) as int)
            * quantity_sum(s),
    decreases s.len(),
{
    let d = DISCOUNT_SCALE as int;
    let f = (DISCOUNT_SCALE - discount_bp) as int;
    let mapped = discount_items(s, discount_bp);
    if s.len() == 0 {
        assert(mapped =~= Seq::<OrderItemView>::empty());
    } else {
        lemma_discount_items_total(s.drop_last(), discount_bp);
        assert(discount_items(s.drop_last(), discount_bp) =~= mapped.drop_last());
        assert(mapped.last() == discount_item(s.last(), discount_bp));
        let p = s.last().product.price as int;
        let q = s.last().quantity as int;
        lemma_discounted_price_le(s.last().product.price, discount_bp);
        let np = discounted_price(s.last().product.price, discount_bp);
        assert(d * np <= p * f <= d * np + (d - 1)) by (nonlinear_arith)
            requires
                d > 0,
                p >= 0,
                f >= 0,
                np == (p * f) / d,
        ;
        assert(item_subtotal(mapped.last()) == np * q);
        assert(d * (np * q) <= (p * q) * f <= d * (np * q) + (d - 1) * q) by (nonlinear_arith)
            requires
                q >= 0,
                d * np <= p * f <= d * np + (d - 1),
        ;
        assert(item_subtotal(s.last()) == p * q);
        assert((items_total(s.drop_last()) + p * q) * f == items_total(s.drop_last()) * f + (p * q)
            * f) by (nonlinear_arith);
        assert((items_total(mapped.drop_last()) + np * q) * d == items_total(mapped.drop_last())
            * d + (np * q) * d) by (nonlinear_arith);
        assert(quantity_sum(s) == quantity_sum(s.drop_last()) + q);
        assert((d - 1) * quantity_sum(s) == (d - 1) * quantity_sum(s.drop_last()) + (d - 1)
            * q) by (nonlinear_arith)
            requires
                quantity_sum(s) == quantity_sum(s.drop_last()) + q,
        ;
    }
}

/// The discount law for whole orders: the discounted total equals the
/// original total scaled by the remaining fraction, up to rounding bounded by
/// the order's combined quantity.
pub proof fn lemma_apply_discount_total(o: OrderView, discount_bp: u32)
    requires
        discount_bp <= DISCOUNT_SCALE,
    ensures
        0 <= order_total(o) * ((DISCOUNT_SCALE - discount_bp) as int) - (DISCOUNT_SCALE as int)
            * order_total(discount_order(o, discount_bp)),
        order_total(o) * ((DISCOUNT_SCALE - discount_bp) as int) - (DISCOUNT_SCALE as int)
            * order_total(discount_order(o, discount_bp)) <= ((DISCOUNT_SCALE - 1) as int)
            * quantity_sum(o.items),
{
    lemma_discount_items_total(o.items, discount_bp);
}

/// The predicate "was placed by user `id`", as a shared function value.
pub open spec fn uid_pred(id: u32) -> spec_fn(OrderView) -> bool {
    |o: OrderView| o.user.id == id
}

/// The complement of [`uid_pred`]: "was placed by any other user".
pub open spec fn other_uid_pred(id: u32) -> spec_fn(OrderView) -> bool {
    |o: OrderView| o.user.id != id
}

/// User `id`'s group: that user's orders in their original relative order.
pub open spec fn group_of(s: Seq<OrderView>, id: u32) -> Seq<OrderView> {
    s.filter(uid_pred(id))
}

/// All groups for the given user identifiers, laid end to end.
pub open spec fn groups_concat(s: Seq<OrderView>, ids: Seq<u32>) -> Seq<OrderView>
    decreases ids.len(),
{
    if ids.len() == 0 {
        Seq::<OrderView>::empty()
    } else {
        group_of(s, ids.first()) + groups_concat(s, ids.drop_first())
    }
}

/// Splitting a sequence by a predicate and its complement loses and invents
/// nothing, as multisets.
pub proof fn lemma_filter_multiset_partition<A>(
    s: Seq<A>,
    pred: spec_fn(A) -> bool,
    npred: spec_fn(A) -> bool,
)
    requires
        forall|x: A| #[trigger] npred(x) == !pred(x),
    ensures
        s.filter(pred).to_multiset().add(s.filter(npred).to_multiset()) == s.to_multiset(),
    decreases s.len(),
{
    broadcast use vstd::seq_lib::group_to_multiset_ensures;

    if s.len() == 0 {
        assert(s.filter(pred) =~= Seq::<A>::empty());
        assert(s.filter(npred) =~= Seq::<A>::empty());
        assert(s.filter(pred).to_multiset().add(s.filter(npred).to_multiset())
            =~= s.to_multiset());
    } else {
        let s0 = s.drop_last();
        let x = s.last();
        lemma_filter_multiset_partition(s0, pred, npred);
        assert(s =~= s0.push(x));
        lemma_filter_push(s0, x, pred);
        lemma_filter_push(s0, x, npred);
        assert(s0.push(x).to_multiset() =~= s0.to_multiset().insert(x));
        if pred(x) {
            assert(s0.filter(pred).push(x).to_multiset() =~= s0.filter(pred).to_multiset().insert(
                x,
            ));
            assert(s0.filter(pred).to_multiset().insert(x).add(s0.filter(npred).to_multiset())
                =~= s0.to_multiset().insert(x));
        } else {
            assert(s0.filter(npred).push(x).to_multiset() =~= s0.filter(
                npred,
            ).to_multiset().insert(x));
            assert(s0.filter(pred).to_multiset().add(s0.filter(npred).to_multiset().insert(x))
                =~= s0.to_multiset().insert(x));
        }
    }
}

/// Removing another user's orders does not change a user's group.
pub proof fn lemma_group_of_excl(s: Seq<OrderView>, id0: u32, id1: u32)
    requires
        id1 != id0,
    ensures
        group_of(s.filter(other_uid_pred(id0)), id1) == group_of(s, id1),
    decreases s.len(),
{
    if s.len() == 0 {
        assert(s.filter(other_uid_pred(id0)) =~= s);
    } else {
        let s0 = s.drop_last();
        let x = s.last();
        lemma_group_of_excl(s0, id0, id1);
        assert(s =~= s0.push(x));
        lemma_filter_push(s0, x, other_uid_pred(id0));
        lemma_filter_push(s0, x, uid_pred(id1));
        if other_uid_pred(id0)(x) {
            lemma_filter_push(s0.filter(other_uid_pred(id0)), x, uid_pred(id1));
        }
    }
}

/// Equal groups give equal concatenations.
pub proof fn lemma_groups_concat_congruent(s: Seq<OrderView>, t: Seq<OrderView>, ids: Seq<u32>)
    requires
        forall|i: int| 0 <= i < ids.len() ==> group_of(s, #[trigger] ids[i]) == group_of(
            t,
            ids[i],
        ),
    ensures
        groups_concat(s, ids) == groups_concat(t, ids),
    decreases ids.len(),
{
    if ids.len() > 0 {
        assert(group_of(s, ids.first()) == group_of(t, ids.first()));
        assert(forall|i: int| 0 <= i < ids.drop_first().len() ==> ids.drop_first()[i]
            == ids[i + 1]);
        lemma_groups_concat_congruent(s, t, ids.drop_first());
    }
}

/// The grouping law: when `ids` lists each user identifier occurring in `s`
/// at most once and covers them all, the groups laid end to end are a
/// permutation of `s` — every order lands in exactly one user's group.
pub proof fn lemma_group_by_user_partition(s: Seq<OrderView>, ids: Seq<u32>)
    requires
        ids.no_duplicates(),
        forall|i: int| 0 <= i < s.len() ==> ids.contains(#[trigger] s[i].user.id),
    ensures
        groups_concat(s, ids).to_multiset() == s.to_multiset(),
    decreases ids.len(),
{
    broadcast use vstd::seq_lib::group_to_multiset_ensures;

    if ids.len() == 0 {
        assert(s.len() == 0) by {
            if s.len() > 0 {
                assert(ids.contains(s[0].user.id));
            }
        }
        assert(groups_concat(s, ids).to_multiset() =~= s.to_multiset());
    } else {
        let id0 = ids.first();
        let rest = s.filter(other_uid_pred(id0));
        lemma_filter_multiset_partition(s, uid_pred(id0), other_uid_pred(id0));
        assert forall|i: int| 0 <= i < rest.len() implies ids.drop_first().contains(
            #[trigger] rest[i].user.id,
        ) by {
            broadcast use vstd::seq_lib::group_filter_ensures;

            assert(other_uid_pred(id0)(rest[i]));
            assert(s.contains(rest[i])) by {
                lemma_filter_is_subset(s, other_uid_pred(id0), i);
            }
            let k = choose|k: int| 0 <= k < s.len() && s[k] == rest[i];
            assert(ids.contains(s[k].user.id));
            let m = choose|m: int| 0 <= m < ids.len() && ids[m] == rest[i].user.id;
            assert(m != 0);
            assert(ids.drop_first()[m - 1] == ids[m]);
        }
        assert(ids.drop_first().no_duplicates());
        lemma_group_by_user_partition(rest, ids.drop_first());
        assert forall|i: int| 0 <= i < ids.drop_first().len() implies group_of(
            s,
            #[trigger] ids.drop_first()[i],
        ) == group_of(rest, ids.drop_first()[i]) by {
            assert(ids.drop_first()[i] == ids[i + 1]);
            assert(ids[i + 1] != id0);
            lemma_group_of_excl(s, id0, ids.drop_first()[i]);
        }
        lemma_groups_concat_congruent(s, rest, ids.drop_first());
        vstd::seq_lib::lemma_multiset_commutative(
            group_of(s, id0),
            groups_concat(s, ids.drop_first()),
        );
    }
}

/// How many orders of `s` user `id` placed.
pub open spec fn count_with_user(s: Seq<OrderView>, id: u32) -> int
    decreases s.len(),
{
    if s.len() == 0 {
        0
    } else {
        count_with_user(s.drop_last(), id) + if s.last().user.id == id {
            1int
        } else {
            0int
        }
    }
}

/// A user's group holds exactly as many orders as that user placed.
pub proof fn lemma_group_len_is_count(s: Seq<OrderView>, id: u32)
    ensures
        group_of(s, id).len() == count_with_user(s, id),
    decreases s.len(),
{
    if s.len() > 0 {
        lemma_group_len_is_count(s.drop_last(), id);
        lemma_filter_push(s.drop_last(), s.last(), uid_pred(id));
        assert(s.drop_last().push(s.last()) =~= s);
    }
}

/// An element of a filtered sequence occurs in the original sequence.
pub proof fn lemma_filter_is_subset<A>(s: Seq<A>, pred: spec_fn(A) -> bool, i: int)
    requires
        0 <= i < s.filter(pred).len(),
    ensures
        s.contains(s.filter(pred)[i]),
    decreases s.len(),
{
    reveal(Seq::filter);
    if s.len() > 0 {
        let sub = s.drop_last().filter(pred);
        if i < sub.len() {
            lemma_filter_is_subset(s.drop_last(), pred, i);
            let j = choose|j: int| 0 <= j < s.drop_last().len() && s.drop_last()[j] == sub[i];
            assert(s[j] == sub[i]);
        } else {
            assert(s.filter(pred)[i] == s.last());
            assert(s[s.len() - 1] == s.last());
        }
    }
}

/// Groups every order under the identifier of the user who placed it: each
/// present user identifier maps to that user's orders in their original
/// relative order, and no absent identifier has an entry.
pub fn group_orders_by_user(orders: &Vec<Order>) -> (grouped: HashMap<u32, Vec<Order>>)
    ensures
        forall|id: u32| #[trigger] grouped@.contains_key(id) <==> group_of(
            order_views(orders@),
            id,
        ).len() > 0,
        forall|id: u32| #[trigger] grouped@.contains_key(id) ==> order_views(grouped@[id]@)
            == group_of(order_views(orders@), id),
{
    broadcast use vstd::std_specs::hash::group_hash_axioms;

    let mut grouped: HashMap<u32, Vec<Order>> = HashMap::new();
    let mut i: usize = 0;
    while i < orders.len()
        invariant
            i <= orders.len(),
            vstd::std_specs::hash::obeys_key_model::<u32>(),
            vstd::std_specs::hash::builds_valid_hashers::<std::collections::hash_map::RandomState>(),
            forall|id: u32| #[trigger] grouped@.contains_key(id) <==> group_of(
                order_views(orders@.take(i as int)),
                id,
            ).len() > 0,
            forall|id: u32| #[trigger] grouped@.contains_key(id) ==> order_views(grouped@[id]@)
                == group_of(order_views(orders@.take(i as int)), id),
        decreases orders.len() - i,
    {
        let ghost prefix = order_views(orders@.take(i as int));
        let ghost ov = orders@[i as int]@;
        let id = orders[i].user.id;
        let mut v: Vec<Order> = match grouped.remove(&id) {
            Some(v) => v,
            None => Vec::new(),
        };
        proof {
            if group_of(prefix, id).len() > 0 {
                assert(order_views(v@) == group_of(prefix, id));
            } else {
                assert(order_views(v@) =~= group_of(prefix, id));
            }
        }
        v.push(orders[i].clone());
        grouped.insert(id, v);
        proof {
            assert(order_views(orders@.take(i as int + 1)) =~= prefix.push(ov));
            assert(uid_pred(id)(ov));
            assert forall|id2: u32| true implies (#[trigger] grouped@.contains_key(id2) <==>
            group_of(order_views(orders@.take(i as int + 1)), id2).len() > 0) && (
            grouped@.contains_key(id2) ==> order_views(grouped@[id2]@) == group_of(
                order_views(orders@.take(i as int + 1)),
                id2,
            )) by {
                lemma_filter_push(prefix, ov, uid_pred(id2));
                if id2 == id {
                    assert(order_views(grouped@[id2]@) =~= group_of(prefix, id2).push(ov));
                } else {
                    assert(!uid_pred(id2)(ov));
                }
            }
        }
        i = i + 1;
    }
    proof {
        assert(orders@.take(orders@.len() as int) =~= orders@);
    }
    grouped
}

} // verus!
