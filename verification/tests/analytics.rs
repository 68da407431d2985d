//! End-to-end checks of the order analytics operations on the concrete
//! sample data: exact totals, status filtering, ranking, discounts,
//! grouping and spending aggregation.

use order_analytics::analytics::{
    apply_discount, calculate_order_total, filter_orders_by_status, get_top_expensive_orders,
    group_orders_by_user, DISCOUNT_SCALE,
};
use order_analytics::model::{Order, OrderItem, Product, User};
use order_analytics::spending::calculate_user_spending;

fn alice() -> User {
    User::new(1, "Alice", "alice@example.com")
}

fn bob() -> User {
    User::new(2, "Bob", "bob@example.com")
}

// Prices are in minor currency units: 99999 stands for 999.99.
fn order_one() -> Order {
    Order::new(
        1,
        alice(),
        vec![
            OrderItem::new(Product::new(1, "iPhone", 99999, "electronics"), 1),
            OrderItem::new(Product::new(3, "T-shirt", 2999, "clothing"), 2),
        ],
        "completed",
    )
}

fn order_two() -> Order {
    Order::new(
        2,
        bob(),
        vec![OrderItem::new(Product::new(2, "MacBook", 199999, "electronics"), 1)],
        "pending",
    )
}

#[test]
fn total_of_two_line_order() {
    assert_eq!(calculate_order_total(&order_one()), 105997);
}

#[test]
fn total_of_single_line_order() {
    assert_eq!(calculate_order_total(&order_two()), 199999);
}

#[test]
fn total_of_empty_order_is_zero() {
    let o = Order::new(9, alice(), vec![], "pending");
    assert_eq!(calculate_order_total(&o), 0);
}

#[test]
fn total_with_zero_quantity_line() {
    let o = Order::new(
        9,
        alice(),
        vec![OrderItem::new(Product::new(7, "Book", 1599, "books"), 0)],
        "pending",
    );
    assert_eq!(calculate_order_total(&o), 0);
}

#[test]
fn filter_keeps_exactly_matching_status() {
    let orders = vec![order_one(), order_two()];
    let completed = filter_orders_by_status(&orders, "completed");
    assert_eq!(completed.len(), 1);
    assert_eq!(completed[0].id, 1);
    assert_eq!(completed[0].status, "completed");
}

#[test]
fn filter_without_match_is_empty() {
    let orders = vec![order_one(), order_two()];
    assert_eq!(filter_orders_by_status(&orders, "shipped").len(), 0);
}

#[test]
fn filter_of_empty_collection_is_empty() {
    let orders: Vec<Order> = vec![];
    assert_eq!(filter_orders_by_status(&orders, "completed").len(), 0);
}

#[test]
fn filter_partitions_the_collection() {
    let orders = vec![order_one(), order_two(), order_one()];
    let completed = filter_orders_by_status(&orders, "completed");
    let pending = filter_orders_by_status(&orders, "pending");
    assert_eq!(completed.len() + pending.len(), orders.len());
}

#[test]
fn top_one_is_the_most_expensive() {
    let orders = vec![order_one(), order_two()];
    let top = get_top_expensive_orders(&orders, 1);
    assert_eq!(top.len(), 1);
    assert_eq!(top[0].id, 2);
}

#[test]
fn top_zero_is_empty() {
    let orders = vec![order_one(), order_two()];
    assert_eq!(get_top_expensive_orders(&orders, 0).len(), 0);
}

#[test]
fn top_beyond_length_returns_all_sorted() {
    let orders = vec![order_one(), order_two()];
    let top = get_top_expensive_orders(&orders, 10);
    assert_eq!(top.len(), 2);
    assert_eq!(top[0].id, 2);
    assert_eq!(top[1].id, 1);
}

#[test]
fn ranking_is_stable_for_equal_totals() {
    let same_a = Order::new(
        10,
        alice(),
        vec![OrderItem::new(Product::new(5, "Book", 1599, "books"), 2)],
        "pending",
    );
    let same_b = Order::new(
        11,
        bob(),
        vec![OrderItem::new(Product::new(6, "Pen", 3198, "office"), 1)],
        "pending",
    );
    let orders = vec![same_a, same_b];
    let top = get_top_expensive_orders(&orders, 2);
    assert_eq!(top[0].id, 10);
    assert_eq!(top[1].id, 11);
}

#[test]
fn zero_discount_changes_nothing() {
    let o = order_one();
    let d = apply_discount(&o, 0);
    assert_eq!(d.id, o.id);
    assert_eq!(d.items.len(), o.items.len());
    for (a, b) in d.items.iter().zip(o.items.iter()) {
        assert_eq!(a.product.price, b.product.price);
        assert_eq!(a.quantity, b.quantity);
    }
    assert_eq!(calculate_order_total(&d), calculate_order_total(&o));
}

#[test]
fn ten_percent_discount_scales_each_price_down() {
    // 1_000 basis points of DISCOUNT_SCALE is a 10% discount.
    let d = apply_discount(&order_one(), 1000);
    assert_eq!(d.items[0].product.price, 89999);
    assert_eq!(d.items[1].product.price, 2699);
    assert_eq!(calculate_order_total(&d), 95397);
}

#[test]
fn full_discount_zeroes_every_price() {
    let d = apply_discount(&order_one(), DISCOUNT_SCALE);
    assert_eq!(calculate_order_total(&d), 0);
}

#[test]
fn discount_leaves_the_input_untouched() {
    let o = order_one();
    let _ = apply_discount(&o, 2500);
    assert_eq!(calculate_order_total(&o), 105997);
}

#[test]
fn grouping_collects_orders_per_user() {
    let orders = vec![order_one(), order_two(), order_one()];
    let grouped = group_orders_by_user(&orders);
    assert_eq!(grouped.len(), 2);
    assert_eq!(grouped.get(&1).unwrap().len(), 2);
    assert_eq!(grouped.get(&2).unwrap().len(), 1);
    assert!(grouped.get(&3).is_none());
    let total: usize = grouped.values().map(|v| v.len()).sum();
    assert_eq!(total, orders.len());
}

#[test]
fn grouping_preserves_relative_order_within_a_group() {
    let mut early = order_one();
    early.id = 7;
    let orders = vec![early, order_two(), order_one()];
    let grouped = group_orders_by_user(&orders);
    let alices = grouped.get(&1).unwrap();
    assert_eq!(alices[0].id, 7);
    assert_eq!(alices[1].id, 1);
}

#[test]
fn spending_aggregates_and_ranks_by_name() {
    let mut third = order_one();
    third.id = 3;
    third.items = vec![OrderItem::new(Product::new(4, "Jeans", 7999, "clothing"), 3)];
    let orders = vec![order_one(), order_two(), third];
    let spending = calculate_user_spending(&orders);
    assert_eq!(spending.len(), 2);
    assert_eq!(spending[0].0, "Bob");
    assert_eq!(spending[0].1, 199999);
    assert_eq!(spending[1].0, "Alice");
    assert_eq!(spending[1].1, 105997 + 23997);
}

#[test]
fn spending_totals_sum_to_the_grand_total() {
    let orders = vec![order_one(), order_two(), order_one()];
    let grand: u64 = orders.iter().map(calculate_order_total).sum();
    let aggregated: u64 = calculate_user_spending(&orders).iter().map(|e| e.1).sum();
    assert_eq!(aggregated, grand);
}

#[test]
fn spending_merges_users_sharing_a_name() {
    // Two distinct users with one display name form a single entry: the
    // deliberate name-keyed behaviour.
    let twin = Order::new(
        5,
        User::new(9, "Alice", "other.alice@example.com"),
        vec![OrderItem::new(Product::new(8, "Mug", 500, "kitchen"), 1)],
        "pending",
    );
    let orders = vec![order_one(), twin];
    let spending = calculate_user_spending(&orders);
    assert_eq!(spending.len(), 1);
    assert_eq!(spending[0].0, "Alice");
    assert_eq!(spending[0].1, 105997 + 500);
}

#[test]
fn spending_of_empty_collection_is_empty() {
    let orders: Vec<Order> = vec![];
    assert_eq!(calculate_user_spending(&orders).len(), 0);
}
