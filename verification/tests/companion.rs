//! Checks of the companion modules: arithmetic helpers, the product
//! catalogue statistics, payment descriptions, user validation, the
//! persistent list and the Fibonacci generator.

use order_analytics::basics::{add, apply_function, calculate_length, modify_string, multiply, square};
use order_analytics::fibonacci::Fibonacci;
use order_analytics::flist::List;
use order_analytics::model::User;
use order_analytics::payments::{can_cancel_order, process_payment, OrderStatus, PaymentMethod};
use order_analytics::products::{analyze_products, process_products, product_names, total_price, Product};
use order_analytics::users::{
    contains_at_sign, find_user, lookup_email, process_order, validate_user, Order, OrderError,
    UserDatabase,
};

#[test]
fn square_and_add() {
    assert_eq!(square(5), 25);
    assert_eq!(add(3, 4), 7);
}

#[test]
fn apply_function_applies() {
    assert_eq!(apply_function(square, 3), 9);
}

#[test]
fn multiply_builds_a_multiplier() {
    let double = multiply(2);
    assert_eq!(double(7), 14);
}

#[test]
fn length_and_modification() {
    let s = String::from("hello");
    assert_eq!(calculate_length(&s), 5);
    let mut t = String::from("hello");
    modify_string(&mut t);
    assert_eq!(t, "hello, world!");
}

fn catalogue() -> Vec<Product> {
    vec![
        Product::new(1, "iPhone", 99999, "electronics", true),
        Product::new(2, "MacBook", 199999, "electronics", false),
        Product::new(3, "T-shirt", 2999, "clothing", true),
        Product::new(4, "Jeans", 7999, "clothing", true),
        Product::new(5, "Book", 1599, "education", false),
    ]
}

#[test]
fn names_in_catalogue_order() {
    let names = product_names(&catalogue());
    assert_eq!(names, vec!["iPhone", "MacBook", "T-shirt", "Jeans", "Book"]);
}

#[test]
fn total_catalogue_price() {
    assert_eq!(total_price(&catalogue()), 312595);
}

#[test]
fn predicate_filtering_keeps_approved_products() {
    let electronics = process_products(&catalogue(), |p: &Product| p.category == "electronics");
    assert_eq!(electronics.len(), 2);
    assert!(electronics.iter().all(|p| p.category == "electronics"));
}

#[test]
fn catalogue_statistics() {
    let (average, available, expensive) = analyze_products(&catalogue());
    assert_eq!(average, 312595 / 5);
    assert_eq!(available, 3);
    assert_eq!(expensive.len(), 2);
    assert_eq!(expensive[0].name, "iPhone");
    assert_eq!(expensive[1].name, "MacBook");
}

#[test]
fn statistics_of_empty_catalogue() {
    let (average, available, expensive) = analyze_products(&vec![]);
    assert_eq!(average, 0);
    assert_eq!(available, 0);
    assert!(expensive.is_empty());
}

#[test]
fn expensive_threshold_is_strict() {
    let border = vec![Product::new(1, "Exact", 10000, "misc", true)];
    let (_, _, expensive) = analyze_products(&border);
    assert!(expensive.is_empty());
}

#[test]
fn card_payment_is_masked() {
    let payment = PaymentMethod::CreditCard {
        number: String::from("1234567812345678"),
        expiry: String::from("12/25"),
    };
    assert_eq!(process_payment(&payment), "Credit card: ****5678 (until 12/25)");
}

#[test]
fn short_card_number_is_shown_whole() {
    let payment = PaymentMethod::CreditCard {
        number: String::from("99"),
        expiry: String::from("01/30"),
    };
    assert_eq!(process_payment(&payment), "Credit card: ****99 (until 01/30)");
}

#[test]
fn paypal_payment_shows_the_address() {
    let payment = PaymentMethod::PayPal { email: String::from("user@example.com") };
    assert_eq!(process_payment(&payment), "PayPal: user@example.com");
}

#[test]
fn crypto_payment_is_shortened() {
    let payment = PaymentMethod::Crypto { wallet: String::from("1A2b3C4d5E6f7G8h9I0j") };
    assert_eq!(process_payment(&payment), "Crypto: 1A2b3C4d5E...");
}

#[test]
fn cancellation_depends_on_status() {
    assert!(can_cancel_order(&OrderStatus::Pending));
    assert!(can_cancel_order(&OrderStatus::Processing));
    assert!(!can_cancel_order(&OrderStatus::Shipped(String::from("TRACK123"))));
    assert!(!can_cancel_order(&OrderStatus::Delivered(String::from("2024-01-01"))));
    assert!(!can_cancel_order(&OrderStatus::Cancelled { reason: String::from("changed mind") }));
}

fn database() -> UserDatabase {
    let mut db = UserDatabase::new();
    db.insert(1, User::new(1, "John Doe", "john@example.com"));
    db.insert(2, User::new(2, "Jane Smith", "jane@example.com"));
    db.insert(3, User::new(3, "Invalid User", "invalid-email"));
    db
}

#[test]
fn lookup_hit_and_miss() {
    let db = database();
    assert_eq!(find_user(&db, 1).unwrap().name, "John Doe");
    assert!(find_user(&db, 4).is_none());
}

#[test]
fn at_sign_detection() {
    assert!(contains_at_sign("a@b"));
    assert!(!contains_at_sign("plain"));
    assert!(!contains_at_sign(""));
}

#[test]
fn validation_accepts_and_rejects() {
    let ok = validate_user(&User::new(1, "John Doe", "john@example.com"));
    assert_eq!(ok.unwrap().name, "John Doe");
    let err = validate_user(&User::new(3, "Invalid User", "invalid-email"));
    assert_eq!(err.unwrap_err(), "Invalid email for user Invalid User");
}

#[test]
fn order_processing_succeeds_for_valid_user() {
    let db = database();
    let order = Order { user_id: 1, amount: 9999, status: String::from("completed") };
    let (user, processed) = process_order(&db, &order).unwrap();
    assert_eq!(user.id, 1);
    assert_eq!(processed.amount, 9999);
}

#[test]
fn order_processing_reports_a_missing_user() {
    let db = database();
    let order = Order { user_id: 4, amount: 19999, status: String::from("shipped") };
    match process_order(&db, &order) {
        Err(OrderError::UserNotFound(id)) => assert_eq!(id, 4),
        _ => panic!("expected a missing-user error"),
    }
}

#[test]
fn order_processing_reports_an_invalid_user() {
    let db = database();
    let order = Order { user_id: 3, amount: 7999, status: String::from("processing") };
    match process_order(&db, &order) {
        Err(OrderError::InvalidUser(m)) => {
            assert_eq!(m, "Invalid email for user Invalid User");
        },
        _ => panic!("expected an invalid-user error"),
    }
}

#[test]
fn error_messages_describe_each_variant() {
    assert_eq!(OrderError::UserNotFound(4).message(), "user not found");
    assert_eq!(
        OrderError::InvalidUser(String::from("bad email")).message(),
        "invalid user: bad email"
    );
    assert_eq!(
        OrderError::PaymentFailed(String::from("declined")).message(),
        "payment failed: declined"
    );
}

#[test]
fn missing_user_email_defaults_to_unknown() {
    let db = database();
    assert_eq!(lookup_email(&db, 1), "john@example.com");
    assert_eq!(lookup_email(&db, 42), "Unknown");
}

#[test]
fn list_prepend_and_head() {
    let list = List::new().prepend(3).prepend(2).prepend(1);
    assert_eq!(list.head().copied(), Some(1));
    let empty: List<i32> = List::new();
    assert!(empty.head().is_none());
}

#[test]
fn fibonacci_first_ten() {
    let mut generator = Fibonacci::new();
    let mut out: Vec<u64> = Vec::new();
    for _ in 0..10 {
        out.push(generator.step());
    }
    assert_eq!(out, vec![0, 1, 1, 2, 3, 5, 8, 13, 21, 34]);
}
