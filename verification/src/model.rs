//! The value-oriented data model: users, products, order items and orders.
//!
//! Every entity is constructed once and then only read or copied with
//! modification; nothing is mutated in place. Unit prices are integer minor
//! currency units, so an order's total is an exact integer quantity.

use vstd::prelude::*;

verus! {

/// Mathematical image of a [`User`]: plain scalars and character sequences.
#[verifier::ext_equal]
pub ghost struct UserView {
    pub id: u32,
    pub name: Seq<char>,
    pub email: Seq<char>,
}

/// Mathematical image of a [`Product`].
#[verifier::ext_equal]
pub ghost struct ProductView {
    pub id: u32,
    pub name: Seq<char>,
    pub price: u64,
    pub category: Seq<char>,
}

/// Mathematical image of an [`OrderItem`].
#[verifier::ext_equal]
pub ghost struct OrderItemView {
    pub product: ProductView,
    pub quantity: u32,
}

/// Mathematical image of an [`Order`].
#[verifier::ext_equal]
pub ghost struct OrderView {
    pub id: u32,
    pub user: UserView,
    pub items: Seq<OrderItemView>,
    pub status: Seq<char>,
}

/// A user: an identifier unique within a run, a display name and an email
/// address. The model itself performs no validation.
#[derive(Debug)]
pub struct User {
    pub id: u32,
    pub name: String,
    pub email: String,
}

/// A priced catalogue entry. `price` is the unit price in minor currency
/// units (for instance cents).
#[derive(Debug)]
pub struct Product {
    pub id: u32,
    pub name: String,
    pub price: u64,
    pub category: String,
}

/// One line of an order: a product owned by copy and a quantity (possibly
/// zero).
#[derive(Debug)]
pub struct OrderItem {
    pub product: Product,
    pub quantity: u32,
}

/// An order: the user who placed it (owned by copy), its lines in insertion
/// order, and a free-form status label such as `"pending"` or `"completed"`.
#[derive(Debug)]
pub struct Order {
    pub id: u32,
    pub user: User,
    pub items: Vec<OrderItem>,
    pub status: String,
}

impl View for User {
    type V = UserView;

    open spec fn view(&self) -> UserView {
        UserView { id: self.id, name: self.name@, email: self.email@ }
    }
}

impl View for Product {
    type V = ProductView;

    open spec fn view(&self) -> ProductView {
        ProductView {
            id: self.id,
            name: self.name@,
            price: self.price,
            category: self.category@,
        }
    }
}

impl View for OrderItem {
    type V = OrderItemView;

    open spec fn view(&self) -> OrderItemView {
        OrderItemView { product: self.product@, quantity: self.quantity }
    }
}

impl View for Order {
    type V = OrderView;

    open spec fn view(&self) -> OrderView {
        OrderView {
            id: self.id,
            user: self.user@,
            items: self.items@.map_values(|it: OrderItem| it@),
            status: self.status@,
        }
    }
}

/// The abstractions of a sequence of orders, element by element.
pub open spec fn order_views(s: Seq<Order>) -> Seq<OrderView> {
    s.map_values(|o: Order| o@)
}

impl Clone for User {
    fn clone(&self) -> (r: Self)
        ensures
            r@ == self@,
    {
        User { id: self.id, name: self.name.clone(), email: self.email.clone() }
    }
}

impl Clone for Product {
    fn clone(&self) -> (r: Self)
        ensures
            r@ == self@,
    {
        Product {
            id: self.id,
            name: self.name.clone(),
            price: self.price,
            category: self.category.clone(),
        }
    }
}

impl Clone for OrderItem {
    fn clone(&self) -> (r: Self)
        ensures
            r@ == self@,
    {
        OrderItem { product: self.product.clone(), quantity: self.quantity }
    }
}

impl Clone for Order {
    fn clone(&self) -> (r: Self)
        ensures
            r@ == self@,
    {
        let mut items: Vec<OrderItem> = Vec::new();
        let mut i: usize = 0;
        while i < self.items.len()
            invariant
                i <= self.items.len(),
                items@.len() == i,
                forall|j: int| 0 <= j < i ==> items@[j]@ == self.items@[j]@,
            decreases self.items.len() - i,
        {
            items.push(self.items[i].clone());
            i = i + 1;
        }
        let r = Order {
            id: self.id,
            user: self.user.clone(),
            items,
            status: self.status.clone(),
        };
        proof {
            assert(r@.items =~= self@.items);
            assert(r@ =~= self@);
        }
        r
    }
}

impl User {
    /// Builds a user from its parts.
    pub fn new(id: u32, name: &str, email: &str) -> (u: Self)
        ensures
            u@ == (UserView { id, name: name@, email: email@ }),
    {
        User { id, name: name.to_owned(), email: email.to_owned() }
    }
}

impl Product {
    /// Builds a product from its parts; `price` is in minor currency units.
    pub fn new(id: u32, name: &str, price: u64, category: &str) -> (p: Self)
        ensures
            p@ == (ProductView { id, name: name@, price, category: category@ }),
    {
        Product { id, name: name.to_owned(), price, category: category.to_owned() }
    }
}

impl OrderItem {
    /// Pairs a product with a quantity.
    pub fn new(product: Product, quantity: u32) -> (it: Self)
        ensures
            it@ == (OrderItemView { product: product@, quantity }),
    {
        OrderItem { product, quantity }
    }
}

impl Order {
    /// Builds an order from its parts.
    pub fn new(id: u32, user: User, items: Vec<OrderItem>, status: &str) -> (o: Self)
        ensures
            o@ == (OrderView {
                id,
                user: user@,
                items: items@.map_values(|it: OrderItem| it@),
                status: status@,
            }),
    {
        Order { id, user, items, status: status.to_owned() }
    }
}

} // verus!
