//! A small product catalogue with stock flags, and the statistics computed
//! over it: name listings, price totals and averages, stock counts and
//! price-based selections.

use vstd::prelude::*;

verus! {

/// Mathematical image of a catalogue [`Product`].
#[verifier::ext_equal]
pub ghost struct ProductView {
    pub id: u32,
    pub name: Seq<char>,
    pub price: u64,
    pub category: Seq<char>,
    pub in_stock: bool,
}

/// A catalogue entry: besides its identity and unit price (in minor
/// currency units) it records whether it is currently in stock.
#[derive(Debug)]
pub struct Product {
    pub id: u32,
    pub name: String,
    pub price: u64,
    pub category: String,
    pub in_stock: bool,
}

impl View for Product {
    type V = ProductView;

    open spec fn view(&self) -> ProductView {
        ProductView {
            id: self.id,
            name: self.name@,
            price: self.price,
            category: self.category@,
            in_stock: self.in_stock,
        }
    }
}

impl Clone for Product {
    fn clone(&self) -> (r: Self)
        ensures
            r@ == self@,
    {
        Product {
            id: self.id,
            name: self.name.clone(),
            price: self.price,
            category: self.category.clone(),
            in_stock: self.in_stock,
        }
    }
}

impl Product {
    /// Builds a catalogue entry from its parts.
    pub fn new(id: u32, name: &str, price: u64, category: &str, in_stock: bool) -> (p: Self)
        ensures
            p@ == (ProductView { id, name: name@, price, category: category@, in_stock }),
    {
        Product {
            id,
            name: name.to_owned(),
            price,
            category: category.to_owned(),
            in_stock,
        }
    }
}

/// The abstractions of a sequence of products, element by element.
pub open spec fn product_views(s: Seq<Product>) -> Seq<ProductView> {
    s.map_values(|p: Product| p@)
}

/// The combined price over a sequence of products.
pub open spec fn prices_sum(s: Seq<ProductView>) -> int
    decreases s.len(),
{
    if s.len() == 0 {
        0
    } else {
        prices_sum(s.drop_last()) + s.last().price
    }
}

/// The predicate "is in stock", as a shared function value.
pub open spec fn stock_pred() -> spec_fn(ProductView) -> bool {
    |p: ProductView| p.in_stock
}

/// The predicate "priced strictly above `min`", as a shared function value.
pub open spec fn above_price_pred(min: u64) -> spec_fn(ProductView) -> bool {
    |p: ProductView| p.price > min
}

/// Extending a prefix by one product adds its price.
pub proof fn lemma_prices_sum_take_step(s: Seq<ProductView>, i: int)
    requires
        0 <= i < s.len(),
    ensures
        prices_sum(s.take(i + 1)) == prices_sum(s.take(i)) + s[i].price,
{
    assert(s.take(i + 1).drop_last() =~= s.take(i));
    assert(s.take(i + 1).last() == s[i]);
}

/// A prefix never exceeds the whole sequence's combined price.
pub proof fn lemma_prices_sum_take_le(s: Seq<ProductView>, i: int)
    requires
        0 <= i <= s.len(),
    ensures
        prices_sum(s.take(i)) <= prices_sum(s),
    decreases s.len() - i,
{
    if i == s.len() {
        assert(s.take(i) =~= s);
    } else {
        lemma_prices_sum_take_step(s, i);
        lemma_prices_sum_take_le(s, i + 1);
    }
}

/// Prices are never negative, so neither is their sum.
pub proof fn lemma_prices_sum_nonneg(s: Seq<ProductView>)
    ensures
        prices_sum(s) >= 0,
    decreases s.len(),
{
    if s.len() > 0 {
        lemma_prices_sum_nonneg(s.drop_last());
    }
}

/// The names of all products, in catalogue order.
pub fn product_names(products: &Vec<Product>) -> (r: Vec<String>)
    ensures
        r@.len() == products@.len(),
        forall|i: int| 0 <= i < r@.len() ==> (#[trigger] r@[i])@ == products@[i]@.name,
{
    let mut out: Vec<String> = Vec::new();
    let mut i: usize = 0;
    while i < products.len()
        invariant
            i <= products.len(),
            out@.len() == i,
            forall|j: int| 0 <= j < i ==> (#[trigger] out@[j])@ == products@[j]@.name,
        decreases products.len() - i,
    {
        out.push(products[i].name.clone());
        i = i + 1;
    }
    out
}

/// The combined price of all products.
pub fn total_price(products: &Vec<Product>) -> (total: u64)
    requires
        prices_sum(product_views(products@)) <= u64::MAX,
    ensures
        total == prices_sum(product_views(products@)),
{
    let ghost pv = product_views(products@);
    let mut total: u64 = 0;
    let mut i: usize = 0;
    while i < products.len()
        invariant
            i <= products.len(),
            pv == product_views(products@),
            pv.len() == products@.len(),
            forall|j: int| 0 <= j < pv.len() ==> pv[j] == products@[j]@,
            prices_sum(pv) <= u64::MAX,
            total == prices_sum(pv.take(i as int)),
        decreases products.len() - i,
    {
        proof {
            lemma_prices_sum_take_step(pv, i as int);
            lemma_prices_sum_take_le(pv, i as int + 1);
            lemma_prices_sum_nonneg(pv.take(i as int));
        }
        total = total + products[i].price;
        i = i + 1;
    }
    proof {
        assert(pv.take(pv.len() as int) =~= pv);
    }
    total
}

/// Holds when `x` is the image of some input product that `predicate` can
/// approve of.
pub open spec fn approved_copy<F: Fn(&Product) -> bool>(
    products: Seq<Product>,
    predicate: F,
    x: ProductView,
) -> bool {
    exists|i: int|
        0 <= i < products.len() && x == (#[trigger] products[i])@ && call_ensures(
            predicate,
            (&products[i],),
            true,
        )
}

/// Keeps exactly the products a caller-supplied predicate approves of: each
/// returned product is a copy of an input product for which the predicate
/// returned true.
pub fn process_products<F: Fn(&Product) -> bool>(products: &Vec<Product>, predicate: F) -> (r: Vec<
    Product,
>)
    requires
        forall|i: int| 0 <= i < products@.len() ==> call_requires(
            predicate,
            (&(#[trigger] products@[i]),),
        ),
    ensures
        r@.len() <= products@.len(),
        forall|k: int| 0 <= k < r@.len() ==> approved_copy(
            products@,
            predicate,
            (#[trigger] r@[k])@,
        ),
{
    let mut out: Vec<Product> = Vec::new();
    let mut i: usize = 0;
    while i < products.len()
        invariant
            i <= products.len(),
            forall|i2: int| 0 <= i2 < products@.len() ==> call_requires(
                predicate,
                (&(#[trigger] products@[i2]),),
            ),
            out@.len() <= i,
            forall|k: int| 0 <= k < out@.len() ==> approved_copy(
                products@,
                predicate,
                (#[trigger] out@[k])@,
            ),
        decreases products.len() - i,
    {
        if predicate(&products[i]) {
            out.push(products[i].clone());
            proof {
                assert((out@.last())@ == products@[i as int]@);
                assert(approved_copy(products@, predicate, (out@.last())@));
            }
        }
        i = i + 1;
    }
    out
}

/// The stock threshold above which a product counts as expensive, in minor
/// currency units.
pub const EXPENSIVE_THRESHOLD: u64 = 10000;

/// Catalogue statistics: the average price rounded down to whole minor
/// units (zero for an empty catalogue), the number of products in stock,
/// and the products priced strictly above [`EXPENSIVE_THRESHOLD`].
pub fn analyze_products(products: &Vec<Product>) -> (r: (u64, usize, Vec<Product>))
    requires
        prices_sum(product_views(products@)) <= u64::MAX,
    ensures
        r.0 == if products@.len() == 0 {
            0int
        } else {
            prices_sum(product_views(products@)) / (products@.len() as int)
        },
        r.1 == product_views(products@).filter(stock_pred()).len(),
        product_views(r.2@) == product_views(products@).filter(
            above_price_pred(EXPENSIVE_THRESHOLD),
        ),
{
    let ghost pv = product_views(products@);
    let total = total_price(products);
    let average: u64 = if products.len() == 0 {
        0
    } else {
        total / (products.len() as u64)
    };
    let mut available: usize = 0;
    let mut expensive: Vec<Product> = Vec::new();
    let mut i: usize = 0;
    while i < products.len()
        invariant
            i <= products.len(),
            pv == product_views(products@),
            available == pv.take(i as int).filter(stock_pred()).len(),
            available <= i,
            product_views(expensive@) == pv.take(i as int).filter(
                above_price_pred(EXPENSIVE_THRESHOLD),
            ),
        decreases products.len() - i,
    {
        let ghost prefix = pv.take(i as int);
        let ghost x = products@[i as int]@;
        proof {
            crate::analytics::lemma_filter_push(prefix, x, stock_pred());
            crate::analytics::lemma_filter_push(prefix, x, above_price_pred(EXPENSIVE_THRESHOLD));
            assert(pv.take(i as int + 1) =~= prefix.push(x));
            prefix.lemma_filter_len(stock_pred());
        }
        if products[i].in_stock {
            available = available + 1;
        }
        if products[i].price > EXPENSIVE_THRESHOLD {
            expensive.push(products[i].clone());
            proof {
                assert(product_views(expensive@) =~= prefix.filter(
                    above_price_pred(EXPENSIVE_THRESHOLD),
                ).push(x));
            }
        }
        i = i + 1;
    }
    proof {
        assert(pv.take(pv.len() as int) =~= pv);
    }
    (average, available, expensive)
}

} // verus!
