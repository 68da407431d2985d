//! User lookup and validation over an in-memory user database, and the
//! order processing built on them. A missing user resolves to a default
//! rather than a fault where the caller asks only for a display value.

use std::collections::HashMap;

use vstd::prelude::*;

use vstd::string::{StrSliceExecFns, StringExecFns};

use crate::model::User;

verus! {

/// Mathematical image of a flat [`Order`].
#[verifier::ext_equal]
pub ghost struct OrderView {
    pub user_id: u32,
    pub amount: u64,
    pub status: Seq<char>,
}

/// A flat order record: who placed it, for how much (in minor currency
/// units), and a free-form status label.
#[derive(Debug)]
pub struct Order {
    pub user_id: u32,
    pub amount: u64,
    pub status: String,
}

impl View for Order {
    type V = OrderView;

    open spec fn view(&self) -> OrderView {
        OrderView { user_id: self.user_id, amount: self.amount, status: self.status@ }
    }
}

impl Clone for Order {
    fn clone(&self) -> (r: Self)
        ensures
            r@ == self@,
    {
        Order { user_id: self.user_id, amount: self.amount, status: self.status.clone() }
    }
}

/// Users keyed by identifier.
pub type UserDatabase = HashMap<u32, User>;

/// Looks a user up by identifier, handing back a copy when present.
pub fn find_user(db: &UserDatabase, id: u32) -> (r: Option<User>)
    ensures
        match r {
            Some(u) => db@.contains_key(id) && u@ == db@[id]@,
            None => !db@.contains_key(id),
        },
{
    broadcast use vstd::std_specs::hash::group_hash_axioms;

    match db.get(&id) {
        Some(u) => Some(u.clone()),
        None => None,
    }
}

/// Whether a character sequence contains an at sign.
pub open spec fn has_at_sign(s: Seq<char>) -> bool {
    exists|i: int| 0 <= i < s.len() && s[i] == '@'
}

/// Whether the string contains an at sign.
pub fn contains_at_sign(s: &str) -> (r: bool)
    ensures
        r == has_at_sign(s@),
{
    let len = s.unicode_len();
    let mut i: usize = 0;
    while i < len
        invariant
            len == s@.len(),
            i <= len,
            forall|j: int| 0 <= j < i ==> s@[j] != '@',
        decreases len - i,
    {
        if s.get_char(i) == '@' {
            return true;
        }
        i = i + 1;
    }
    false
}

/// Accepts a user whose email contains an at sign, handing back a copy;
/// rejects any other with a message naming the user.
pub fn validate_user(user: &User) -> (r: Result<User, String>)
    ensures
        match r {
            Ok(u) => has_at_sign(user@.email) && u@ == user@,
            Err(m) => !has_at_sign(user@.email) && m@ == "Invalid email for user "@ + user@.name,
        },
{
    if contains_at_sign(user.email.as_str()) {
        Ok(user.clone())
    } else {
        Err(String::from_str("Invalid email for user ").concat(user.name.as_str()))
    }
}

/// Why an order could not be processed.
#[derive(Debug)]
pub enum OrderError {
    UserNotFound(u32),
    InvalidUser(String),
    PaymentFailed(String),
}

/// The one-line description of an order error.
pub open spec fn error_text(e: OrderError) -> Seq<char> {
    match e {
        OrderError::UserNotFound(_) => "user not found"@,
        OrderError::InvalidUser(m) => "invalid user: "@ + m@,
        OrderError::PaymentFailed(m) => "payment failed: "@ + m@,
    }
}

impl OrderError {
    /// Describes the error in one line.
    pub fn message(&self) -> (r: String)
        ensures
            r@ == error_text(*self),
    {
        match self {
            OrderError::UserNotFound(_) => String::from_str("user not found"),
            OrderError::InvalidUser(m) => String::from_str("invalid user: ").concat(m.as_str()),
            OrderError::PaymentFailed(m) => String::from_str("payment failed: ").concat(
                m.as_str(),
            ),
        }
    }
}

/// Resolves an order against the user database: succeeds exactly when the
/// ordering user exists and has a valid email, handing back the user and a
/// copy of the order; otherwise says which check failed.
pub fn process_order(db: &UserDatabase, order: &Order) -> (r: Result<(User, Order), OrderError>)
    ensures
        match r {
            Ok((u, o)) => db@.contains_key(order.user_id) && u@ == db@[order.user_id]@
                && has_at_sign(u@.email) && o@ == order@,
            Err(e) => match e {
                OrderError::UserNotFound(id) => id == order.user_id && !db@.contains_key(
                    order.user_id,
                ),
                OrderError::InvalidUser(m) => db@.contains_key(order.user_id) && !has_at_sign(
                    db@[order.user_id]@.email,
                ) && m@ == "Invalid email for user "@ + db@[order.user_id]@.name,
                OrderError::PaymentFailed(_) => false,
            },
        },
{
    let user = match find_user(db, order.user_id) {
        Some(u) => u,
        None => {
            return Err(OrderError::UserNotFound(order.user_id));
        },
    };
    match validate_user(&user) {
        Ok(_) => Ok((user, order.clone())),
        Err(m) => Err(OrderError::InvalidUser(m)),
    }
}

/// The display email of the given user, or `"Unknown"` when the identifier
/// is absent: a lookup miss resolves to a placeholder, never a fault.
pub fn lookup_email(db: &UserDatabase, id: u32) -> (r: String)
    ensures
        db@.contains_key(id) ==> r@ == db@[id]@.email,
        !db@.contains_key(id) ==> r@ == "Unknown"@,
{
    match find_user(db, id) {
        Some(u) => u.email,
        None => String::from_str("Unknown"),
    }
}

} // verus!
