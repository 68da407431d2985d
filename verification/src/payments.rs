//! Payment methods and order statuses as tagged variants, with the
//! pattern-matching helpers that describe a payment and decide whether an
//! order can still be cancelled.

use vstd::prelude::*;

use vstd::string::{StrSliceExecFns, StringExecFns};

verus! {

/// How an order is paid.
#[derive(Debug)]
pub enum PaymentMethod {
    CreditCard { number: String, expiry: String },
    PayPal { email: String },
    Crypto { wallet: String },
}

/// Where an order stands in its lifecycle.
#[derive(Debug)]
pub enum OrderStatus {
    Pending,
    Processing,
    Shipped(String),
    Delivered(String),
    Cancelled { reason: String },
}

/// An order with a payment method and a lifecycle status; `amount` is in
/// minor currency units.
#[derive(Debug)]
pub struct Order {
    pub id: u32,
    pub amount: u64,
    pub payment: PaymentMethod,
    pub status: OrderStatus,
}

impl Order {
    /// Builds an order from its parts.
    pub fn new(id: u32, amount: u64, payment: PaymentMethod, status: OrderStatus) -> (o: Self)
        ensures
            o.id == id,
            o.amount == amount,
            o.payment == payment,
            o.status == status,
    {
        Order { id, amount, payment, status }
    }
}

/// Where the visible tail of a card number starts: its last four
/// characters, or its start for a shorter number.
pub open spec fn tail_start(s: Seq<char>) -> int {
    if s.len() >= 4 {
        s.len() - 4
    } else {
        0
    }
}

/// Where the visible head of a wallet address ends: its first ten
/// characters, or the whole of a shorter address.
pub open spec fn head_end(s: Seq<char>) -> int {
    if s.len() >= 10 {
        10
    } else {
        s.len() as int
    }
}

/// The one-line description of a payment method: a masked card number with
/// its expiry, a PayPal address, or a shortened wallet address.
pub open spec fn payment_label(p: PaymentMethod) -> Seq<char> {
    match p {
        PaymentMethod::CreditCard { number, expiry } => "Credit card: ****"@ + number@.skip(
            tail_start(number@),
        ) + " (until "@ + expiry@ + ")"@,
        PaymentMethod::PayPal { email } => "PayPal: "@ + email@,
        PaymentMethod::Crypto { wallet } => "Crypto: "@ + wallet@.take(head_end(wallet@)) + "..."@,
    }
}

/// Describes a payment method in one line, masking most of a card number
/// and shortening a wallet address.
pub fn process_payment(payment: &PaymentMethod) -> (r: String)
    ensures
        r@ == payment_label(*payment),
{
    match payment {
        PaymentMethod::CreditCard { number, expiry } => {
            let len = number.as_str().unicode_len();
            let start = if len >= 4 {
                len - 4
            } else {
                0
            };
            let tail = number.as_str().substring_char(start, len);
            proof {
                assert(tail@ =~= number@.skip(tail_start(number@)));
            }
            let r = String::from_str("Credit card: ****").concat(tail).concat(" (until ").concat(
                expiry.as_str(),
            ).concat(")");
            r
        },
        PaymentMethod::PayPal { email } => {
            String::from_str("PayPal: ").concat(email.as_str())
        },
        PaymentMethod::Crypto { wallet } => {
            let len = wallet.as_str().unicode_len();
            let end = if len >= 10 {
                10
            } else {
                len
            };
            let head = wallet.as_str().substring_char(0, end);
            proof {
                assert(head@ =~= wallet@.take(head_end(wallet@)));
            }
            String::from_str("Crypto: ").concat(head).concat("...")
        },
    }
}

/// Whether an order in the given status can still be cancelled.
pub open spec fn cancellable(status: OrderStatus) -> bool {
    match status {
        OrderStatus::Pending => true,
        OrderStatus::Processing => true,
        _ => false,
    }
}

/// An order can be cancelled while it is pending or processing, and no
/// longer once shipped, delivered or already cancelled.
pub fn can_cancel_order(status: &OrderStatus) -> (r: bool)
    ensures
        r == cancellable(*status),
{
    match status {
        OrderStatus::Pending => true,
        OrderStatus::Processing => true,
        OrderStatus::Shipped(_) => false,
        OrderStatus::Delivered(_) => false,
        OrderStatus::Cancelled { .. } => false,
    }
}

} // verus!
