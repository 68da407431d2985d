//! Spending aggregation: total spent per user display name, ranked by
//! descending total.
//!
//! Orders are folded into one entry per display name in order of first
//! appearance, then the entries are stably sorted by descending total. Two
//! distinct users sharing a display name are deliberately merged into a
//! single entry: a known, faithfully kept limitation of name-keyed
//! aggregation.

use vstd::prelude::*;

use vstd::string::StrSliceExecFns;

use crate::analytics::{lemma_orders_sum_take_le, lemma_order_total_nonneg, order_total, orders_sum, str_eq};
use crate::model::{Order, OrderView, order_views};

verus! {

/// The abstraction of the exec entries: name and exact total per entry.
pub open spec fn pair_views(s: Seq<(String, u64)>) -> Seq<(Seq<char>, int)> {
    s.map_values(|p: (String, u64)| (p.0@, p.1 as int))
}

/// Adds `amount` to the entry named `name`, or appends a new entry at the
/// end when no entry carries that name yet.
pub open spec fn add_spend(
    entries: Seq<(Seq<char>, int)>,
    name: Seq<char>,
    amount: int,
) -> Seq<(Seq<char>, int)>
    decreases entries.len(),
{
    if entries.len() == 0 {
        seq![(name, amount)]
    } else if entries.first().0 == name {
        seq![(entries.first().0, entries.first().1 + amount)] + entries.drop_first()
    } else {
        seq![entries.first()] + add_spend(entries.drop_first(), name, amount)
    }
}

/// The aggregate spending entries of a collection of orders, one entry per
/// display name, in order of first appearance.
pub open spec fn spending_entries(s: Seq<OrderView>) -> Seq<(Seq<char>, int)>
    decreases s.len(),
{
    if s.len() == 0 {
        Seq::<(Seq<char>, int)>::empty()
    } else {
        add_spend(spending_entries(s.drop_last()), s.last().user.name, order_total(s.last()))
    }
}

/// The combined total over a sequence of entries.
pub open spec fn entries_sum(s: Seq<(Seq<char>, int)>) -> int
    decreases s.len(),
{
    if s.len() == 0 {
        0
    } else {
        entries_sum(s.drop_last()) + s.last().1
    }
}

/// Every entry total is non-negative.
pub open spec fn entries_nonneg(s: Seq<(Seq<char>, int)>) -> bool {
    forall|i: int| 0 <= i < s.len() ==> #[trigger] s[i].1 >= 0
}

/// Adding to an entry adds to the combined total.
pub proof fn lemma_add_spend_sum(entries: Seq<(Seq<char>, int)>, name: Seq<char>, amount: int)
    ensures
        entries_sum(add_spend(entries, name, amount)) == entries_sum(entries) + amount,
        add_spend(entries, name, amount).len() >= 1,
    decreases entries.len(),
{
    let r = add_spend(entries, name, amount);
    if entries.len() == 0 {
        assert(r == seq![(name, amount)]);
        assert(r.drop_last() =~= Seq::<(Seq<char>, int)>::empty());
        assert(r.last() == (name, amount));
        assert(entries_sum(r) == entries_sum(r.drop_last()) + r.last().1);
        assert(entries_sum(r) == amount);
    } else if entries.first().0 == name {
        lemma_sum_of_update_first(entries, amount);
        assert(r == seq![(entries.first().0, entries.first().1 + amount)] + entries.drop_first());
        assert(entries_sum(r) == entries_sum(entries) + amount);
    } else {
        lemma_add_spend_sum(entries.drop_first(), name, amount);
        let sub = add_spend(entries.drop_first(), name, amount);
        assert(r == seq![entries.first()] + sub);
        lemma_sum_of_cons(entries.first(), sub);
        lemma_sum_of_cons(entries.first(), entries.drop_first());
        assert(seq![entries.first()] + entries.drop_first() =~= entries);
        assert(entries_sum(r) == entries_sum(entries) + amount);
    }
}

/// Prepending one entry adds its total at the front.
pub proof fn lemma_sum_of_cons(p: (Seq<char>, int), s: Seq<(Seq<char>, int)>)
    ensures
        entries_sum(seq![p] + s) == p.1 + entries_sum(s),
    decreases s.len(),
{
    let whole = seq![p] + s;
    assert(whole.len() == s.len() + 1);
    if s.len() == 0 {
        assert(whole.drop_last() =~= Seq::<(Seq<char>, int)>::empty());
        assert(whole.last() == p);
        assert(entries_sum(whole) == entries_sum(whole.drop_last()) + whole.last().1);
        assert(entries_sum(whole.drop_last()) == 0);
    } else {
        assert(whole.drop_last() =~= seq![p] + s.drop_last());
        assert(whole.last() == s.last());
        lemma_sum_of_cons(p, s.drop_last());
        assert(entries_sum(whole) == entries_sum(whole.drop_last()) + whole.last().1);
        assert(entries_sum(s) == entries_sum(s.drop_last()) + s.last().1);
    }
}

/// Raising the first entry's total raises the combined total by as much.
pub proof fn lemma_sum_of_update_first(entries: Seq<(Seq<char>, int)>, amount: int)
    requires
        entries.len() > 0,
    ensures
        entries_sum(
            seq![(entries.first().0, entries.first().1 + amount)] + entries.drop_first(),
        ) == entries_sum(entries) + amount,
{
    lemma_sum_of_cons((entries.first().0, entries.first().1 + amount), entries.drop_first());
    lemma_sum_of_cons(entries.first(), entries.drop_first());
    assert(seq![entries.first()] + entries.drop_first() =~= entries);
}

/// Folding orders into entries preserves the grand total exactly.
pub proof fn lemma_spending_entries_sum(s: Seq<OrderView>)
    ensures
        entries_sum(spending_entries(s)) == orders_sum(s),
    decreases s.len(),
{
    if s.len() > 0 {
        lemma_spending_entries_sum(s.drop_last());
        lemma_add_spend_sum(
            spending_entries(s.drop_last()),
            s.last().user.name,
            order_total(s.last()),
        );
    }
}

/// Folding a non-negative amount into non-negative entries keeps every
/// entry non-negative.
pub proof fn lemma_add_spend_nonneg(entries: Seq<(Seq<char>, int)>, name: Seq<char>, amount: int)
    requires
        entries_nonneg(entries),
        amount >= 0,
    ensures
        entries_nonneg(add_spend(entries, name, amount)),
    decreases entries.len(),
{
    let r = add_spend(entries, name, amount);
    if entries.len() == 0 {
    } else if entries.first().0 == name {
        assert forall|i: int| 0 <= i < r.len() implies #[trigger] r[i].1 >= 0 by {
            if i > 0 {
                assert(r[i] == entries.drop_first()[i - 1]);
                assert(entries.drop_first()[i - 1] == entries[i]);
            }
        }
    } else {
        assert(entries_nonneg(entries.drop_first())) by {
            assert(forall|i: int| 0 <= i < entries.drop_first().len()
                ==> #[trigger] entries.drop_first()[i] == entries[i + 1]);
        }
        lemma_add_spend_nonneg(entries.drop_first(), name, amount);
        let sub = add_spend(entries.drop_first(), name, amount);
        assert forall|i: int| 0 <= i < r.len() implies #[trigger] r[i].1 >= 0 by {
            if i > 0 {
                assert(r[i] == sub[i - 1]);
            }
        }
    }
}

/// Every spending entry is non-negative.
pub proof fn lemma_spending_entries_nonneg(s: Seq<OrderView>)
    ensures
        entries_nonneg(spending_entries(s)),
    decreases s.len(),
{
    if s.len() > 0 {
        lemma_spending_entries_nonneg(s.drop_last());
        lemma_order_total_nonneg(s.last());
        lemma_add_spend_nonneg(
            spending_entries(s.drop_last()),
            s.last().user.name,
            order_total(s.last()),
        );
    }
}

/// With non-negative entries, no single entry exceeds the combined total.
pub proof fn lemma_entry_le_sum(s: Seq<(Seq<char>, int)>, i: int)
    requires
        entries_nonneg(s),
        0 <= i < s.len(),
    ensures
        s[i].1 <= entries_sum(s),
    decreases s.len(),
{
    if i == s.len() - 1 {
        lemma_entries_sum_nonneg(s.drop_last());
        assert(forall|j: int| 0 <= j < s.drop_last().len() ==> #[trigger] s.drop_last()[j]
            == s[j]);
    } else {
        assert(forall|j: int| 0 <= j < s.drop_last().len() ==> #[trigger] s.drop_last()[j]
            == s[j]);
        lemma_entry_le_sum(s.drop_last(), i);
    }
}

/// Non-negative entries sum to a non-negative total.
pub proof fn lemma_entries_sum_nonneg(s: Seq<(Seq<char>, int)>)
    requires
        entries_nonneg(s),
    ensures
        entries_sum(s) >= 0,
    decreases s.len(),
{
    if s.len() > 0 {
        assert(forall|j: int| 0 <= j < s.drop_last().len() ==> #[trigger] s.drop_last()[j]
            == s[j]);
        lemma_entries_sum_nonneg(s.drop_last());
    }
}

/// When the first `j` entries carry other names and entry `j` carries
/// `name`, folding updates exactly position `j`.
pub proof fn lemma_add_spend_found(
    entries: Seq<(Seq<char>, int)>,
    name: Seq<char>,
    amount: int,
    j: int,
)
    requires
        0 <= j < entries.len(),
        forall|m: int| 0 <= m < j ==> (#[trigger] entries[m]).0 != name,
        entries[j].0 == name,
    ensures
        add_spend(entries, name, amount) == entries.update(
            j,
            (entries[j].0, entries[j].1 + amount),
        ),
    decreases entries.len(),
{
    if j == 0 {
        assert(add_spend(entries, name, amount) =~= entries.update(
            0,
            (entries[0].0, entries[0].1 + amount),
        ));
    } else {
        assert(entries.first().0 != name);
        assert(forall|m: int| 0 <= m < j - 1 ==> (#[trigger] entries.drop_first()[m])
            == entries[m + 1]);
        lemma_add_spend_found(entries.drop_first(), name, amount, j - 1);
        assert(seq![entries.first()] + entries.drop_first().update(
            j - 1,
            (entries[j].0, entries[j].1 + amount),
        ) =~= entries.update(j, (entries[j].0, entries[j].1 + amount)));
    }
}

/// When no entry carries `name`, folding appends a fresh entry at the end.
pub proof fn lemma_add_spend_absent(entries: Seq<(Seq<char>, int)>, name: Seq<char>, amount: int)
    requires
        forall|m: int| 0 <= m < entries.len() ==> (#[trigger] entries[m]).0 != name,
    ensures
        add_spend(entries, name, amount) == entries.push((name, amount)),
    decreases entries.len(),
{
    if entries.len() == 0 {
        assert(add_spend(entries, name, amount) =~= entries.push((name, amount)));
    } else {
        assert(forall|m: int| 0 <= m < entries.drop_first().len()
            ==> (#[trigger] entries.drop_first()[m]) == entries[m + 1]);
        lemma_add_spend_absent(entries.drop_first(), name, amount);
        assert(seq![entries.first()] + entries.drop_first().push((name, amount)) =~= entries.push(
            (name, amount),
        ));
    }
}

/// Entry totals never increase from left to right.
pub open spec fn pairs_sorted_desc(s: Seq<(Seq<char>, int)>) -> bool {
    forall|i: int, j: int| 0 <= i <= j < s.len() ==> s[i].1 >= s[j].1
}

/// Places `p` after every entry whose total is at least `p`'s, and before
/// the first entry whose total is strictly smaller, so equal totals keep
/// their relative order.
pub open spec fn insert_pair_desc(
    s: Seq<(Seq<char>, int)>,
    p: (Seq<char>, int),
) -> Seq<(Seq<char>, int)>
    decreases s.len(),
{
    if s.len() == 0 {
        seq![p]
    } else if s.first().1 >= p.1 {
        seq![s.first()] + insert_pair_desc(s.drop_first(), p)
    } else {
        seq![p] + s
    }
}

/// Stable insertion sort of entries by descending total.
pub open spec fn sort_pairs_desc(s: Seq<(Seq<char>, int)>) -> Seq<(Seq<char>, int)>
    decreases s.len(),
{
    if s.len() == 0 {
        s
    } else {
        insert_pair_desc(sort_pairs_desc(s.drop_last()), s.last())
    }
}

/// Inserting adds one entry.
pub proof fn lemma_insert_pair_len(s: Seq<(Seq<char>, int)>, p: (Seq<char>, int))
    ensures
        insert_pair_desc(s, p).len() == s.len() + 1,
    decreases s.len(),
{
    if s.len() > 0 && s.first().1 >= p.1 {
        lemma_insert_pair_len(s.drop_first(), p);
    }
}

/// Inserting adds the entry's total to the combined total.
pub proof fn lemma_insert_pair_sum(s: Seq<(Seq<char>, int)>, p: (Seq<char>, int))
    ensures
        entries_sum(insert_pair_desc(s, p)) == entries_sum(s) + p.1,
    decreases s.len(),
{
    let r = insert_pair_desc(s, p);
    if s.len() == 0 {
        assert(r == seq![p]);
        assert(r.drop_last() =~= Seq::<(Seq<char>, int)>::empty());
        assert(r.last() == p);
        assert(entries_sum(r) == entries_sum(r.drop_last()) + r.last().1);
    } else if s.first().1 >= p.1 {
        lemma_insert_pair_sum(s.drop_first(), p);
        let sub = insert_pair_desc(s.drop_first(), p);
        assert(r == seq![s.first()] + sub);
        lemma_sum_of_cons(s.first(), sub);
        lemma_sum_of_cons(s.first(), s.drop_first());
        assert(seq![s.first()] + s.drop_first() =~= s);
    } else {
        assert(r == seq![p] + s);
        lemma_sum_of_cons(p, s);
    }
}

/// Sorting the entries leaves the combined total unchanged.
pub proof fn lemma_sort_pairs_sum(s: Seq<(Seq<char>, int)>)
    ensures
        entries_sum(sort_pairs_desc(s)) == entries_sum(s),
        sort_pairs_desc(s).len() == s.len(),
    decreases s.len(),
{
    if s.len() > 0 {
        lemma_sort_pairs_sum(s.drop_last());
        lemma_insert_pair_sum(sort_pairs_desc(s.drop_last()), s.last());
        lemma_insert_pair_len(sort_pairs_desc(s.drop_last()), s.last());
    }
}

/// Inserting into entries sorted by descending total keeps them sorted.
pub proof fn lemma_insert_pair_sorted(s: Seq<(Seq<char>, int)>, p: (Seq<char>, int))
    requires
        pairs_sorted_desc(s),
    ensures
        pairs_sorted_desc(insert_pair_desc(s, p)),
    decreases s.len(),
{
    if s.len() > 0 && s.first().1 >= p.1 {
        assert(pairs_sorted_desc(s.drop_first()));
        lemma_insert_pair_sorted(s.drop_first(), p);
        lemma_insert_pair_len(s.drop_first(), p);
        let tail = insert_pair_desc(s.drop_first(), p);
        let r = seq![s.first()] + tail;
        assert forall|k: int| 0 <= k < tail.len() implies r[0].1 >= tail[k].1 by {
            lemma_insert_pair_totals(s.drop_first(), p, k);
        }
    }
}

/// Every total in the inserted entries is the new entry's total or one
/// already present.
pub proof fn lemma_insert_pair_totals(s: Seq<(Seq<char>, int)>, p: (Seq<char>, int), k: int)
    requires
        0 <= k < insert_pair_desc(s, p).len(),
    ensures
        insert_pair_desc(s, p)[k].1 == p.1 || exists|m: int|
            0 <= m < s.len() && insert_pair_desc(s, p)[k].1 == (#[trigger] s[m]).1,
    decreases s.len(),
{
    if s.len() == 0 {
    } else if s.first().1 >= p.1 {
        if k > 0 {
            lemma_insert_pair_totals(s.drop_first(), p, k - 1);
            let r = insert_pair_desc(s.drop_first(), p);
            if r[k - 1].1 != p.1 {
                let m = choose|m: int|
                    0 <= m < s.drop_first().len() && r[k - 1].1 == (#[trigger] s.drop_first()[m]).1;
                assert(s.drop_first()[m] == s[m + 1]);
            }
        } else {
            assert(insert_pair_desc(s, p)[0] == s[0]);
        }
    } else {
        if k > 0 {
            assert(insert_pair_desc(s, p)[k] == s[k - 1]);
        }
    }
}

/// Sorting yields entries of non-increasing totals.
pub proof fn lemma_sort_pairs_sorted(s: Seq<(Seq<char>, int)>)
    ensures
        pairs_sorted_desc(sort_pairs_desc(s)),
    decreases s.len(),
{
    if s.len() > 0 {
        lemma_sort_pairs_sorted(s.drop_last());
        lemma_insert_pair_sorted(sort_pairs_desc(s.drop_last()), s.last());
    }
}

/// When everything before position `j` totals at least `p.1` and position
/// `j` (if any) totals strictly less, inserting lands exactly at `j`.
pub proof fn lemma_insert_pair_split(s: Seq<(Seq<char>, int)>, p: (Seq<char>, int), j: int)
    requires
        0 <= j <= s.len(),
        forall|m: int| 0 <= m < j ==> (#[trigger] s[m]).1 >= p.1,
        j < s.len() ==> s[j].1 < p.1,
    ensures
        insert_pair_desc(s, p) == s.insert(j, p),
    decreases s.len(),
{
    if j == 0 {
        assert(insert_pair_desc(s, p) =~= s.insert(0, p));
    } else {
        assert(s[0].1 >= p.1);
        assert(forall|m: int| 0 <= m < j - 1 ==> (#[trigger] s.drop_first()[m]) == s[m + 1]);
        lemma_insert_pair_split(s.drop_first(), p, j - 1);
        assert(seq![s.first()] + s.drop_first().insert(j - 1, p) =~= s.insert(j, p));
    }
}

/// An order's total never exceeds the collection's combined total.
pub proof fn lemma_order_total_le_sum(s: Seq<OrderView>, i: int)
    requires
        0 <= i < s.len(),
    ensures
        order_total(s[i]) <= orders_sum(s),
{
    crate::analytics::lemma_orders_sum_take_step(s, i);
    crate::analytics::lemma_orders_sum_nonneg(s.take(i));
    lemma_orders_sum_take_le(s, i + 1);
}

/// Finds the first entry carrying `name`, if any.
fn find_entry(entries: &Vec<(String, u64)>, name: &str) -> (r: Option<usize>)
    ensures
        match r {
            Some(j) => j < entries@.len() && entries@[j as int].0@ == name@ && forall|m: int|
                0 <= m < j ==> (#[trigger] entries@[m]).0@ != name@,
            None => forall|m: int|
                0 <= m < entries@.len() ==> (#[trigger] entries@[m]).0@ != name@,
        },
{
    let mut j: usize = 0;
    while j < entries.len()
        invariant
            j <= entries.len(),
            forall|m: int| 0 <= m < j ==> (#[trigger] entries@[m]).0@ != name@,
        decreases entries.len() - j,
    {
        if str_eq(entries[j].0.as_str(), name) {
            return Some(j);
        }
        j = j + 1;
    }
    None
}

/// Finds the first position whose entry totals strictly less than `total`;
/// the length when no such position exists.
fn pair_insertion_position(sorted: &Vec<(String, u64)>, total: u64) -> (j: usize)
    ensures
        j <= sorted@.len(),
        forall|m: int| 0 <= m < j ==> (#[trigger] sorted@[m]).1 >= total,
        j < sorted@.len() ==> sorted@[j as int].1 < total,
{
    let mut j: usize = 0;
    while j < sorted.len()
        invariant
            j <= sorted.len(),
            forall|m: int| 0 <= m < j ==> (#[trigger] sorted@[m]).1 >= total,
        decreases sorted.len() - j,
    {
        if sorted[j].1 < total {
            return j;
        }
        j = j + 1;
    }
    j
}

/// Aggregates spending by user display name: one entry per name carrying
/// the exact sum of that name's order totals, ranked by descending total;
/// names with equal totals keep their order of first appearance.
pub fn calculate_user_spending(orders: &Vec<Order>) -> (r: Vec<(String, u64)>)
    requires
        orders_sum(order_views(orders@)) <= u64::MAX,
    ensures
        pair_views(r@) == sort_pairs_desc(spending_entries(order_views(orders@))),
{
    let ghost all = order_views(orders@);
    let mut acc: Vec<(String, u64)> = Vec::new();
    let mut i: usize = 0;
    while i < orders.len()
        invariant
            i <= orders.len(),
            orders_sum(all) <= u64::MAX,
            all == order_views(orders@),
            pair_views(acc@) == spending_entries(order_views(orders@.take(i as int))),
        decreases orders.len() - i,
    {
        let ghost prefix = order_views(orders@.take(i as int));
        let ghost ov = orders@[i as int]@;
        let ghost entries = spending_entries(prefix);
        proof {
            lemma_order_total_le_sum(all, i as int);
            assert(all[i as int] == ov);
            assert(order_views(orders@.take(i as int + 1)) =~= prefix.push(ov));
            assert(order_views(orders@.take(i as int + 1)).drop_last() =~= prefix);
            lemma_spending_entries_nonneg(prefix);
            lemma_spending_entries_sum(prefix);
            lemma_orders_sum_take_le(all, i as int + 1);
            crate::analytics::lemma_orders_sum_take_step(all, i as int);
            assert(order_views(orders@.take(i as int)) =~= all.take(i as int));
            assert(order_views(orders@.take(i as int + 1)) =~= all.take(i as int + 1));
        }
        let total = crate::analytics::calculate_order_total(&orders[i]);
        let ghost next = add_spend(entries, ov.user.name, order_total(ov));
        proof {
            assert(spending_entries(order_views(orders@.take(i as int + 1))) == next);
            lemma_add_spend_sum(entries, ov.user.name, order_total(ov));
            lemma_add_spend_nonneg(entries, ov.user.name, order_total(ov));
            assert(entries_sum(next) == orders_sum(all.take(i as int + 1)));
        }
        match find_entry(&acc, orders[i].user.name.as_str()) {
            Some(j) => {
                proof {
                    lemma_add_spend_found(entries, ov.user.name, order_total(ov), j as int);
                    lemma_entry_le_sum(next, j as int);
                    assert(next[j as int].1 == entries[j as int].1 + order_total(ov));
                    assert(acc@[j as int].1 == entries[j as int].1);
                }
                let name_j = acc[j].0.clone();
                let prev = acc[j].1;
                acc.set(j, (name_j, prev + total));
                proof {
                    assert(pair_views(acc@) =~= next);
                }
            },
            None => {
                proof {
                    lemma_add_spend_absent(entries, ov.user.name, order_total(ov));
                }
                acc.push((orders[i].user.name.clone(), total));
                proof {
                    assert(pair_views(acc@) =~= next);
                }
            },
        }
        i = i + 1;
    }
    proof {
        assert(orders@.take(orders@.len() as int) =~= orders@);
    }
    let ghost full = spending_entries(all);
    let mut r: Vec<(String, u64)> = Vec::new();
    let mut k: usize = 0;
    while k < acc.len()
        invariant
            k <= acc.len(),
            pair_views(acc@) == full,
            pair_views(r@) == sort_pairs_desc(pair_views(acc@.take(k as int))),
        decreases acc.len() - k,
    {
        let ghost sprefix = pair_views(acc@.take(k as int));
        let ghost pv = (acc@[k as int].0@, acc@[k as int].1 as int);
        let p = (acc[k].0.clone(), acc[k].1);
        let j = pair_insertion_position(&r, p.1);
        proof {
            assert(forall|m: int| 0 <= m < j ==> (#[trigger] pair_views(r@)[m]).1 >= pv.1);
            lemma_insert_pair_split(pair_views(r@), pv, j as int);
        }
        r.insert(j, p);
        proof {
            assert(pair_views(r@) =~= insert_pair_desc(sort_pairs_desc(sprefix), pv));
            assert(pair_views(acc@.take(k as int + 1)) =~= sprefix.push(pv));
            assert(pair_views(acc@.take(k as int + 1)).drop_last() =~= sprefix);
            assert(sort_pairs_desc(pair_views(acc@.take(k as int + 1))) == insert_pair_desc(
                sort_pairs_desc(sprefix),
                pv,
            ));
        }
        k = k + 1;
    }
    proof {
        assert(acc@.take(acc@.len() as int) =~= acc@);
    }
    r
}

/// The aggregation law: ranked per-name totals sum to the same grand total
/// as summing every order's total directly.
pub proof fn lemma_spending_grand_total(s: Seq<OrderView>)
    ensures
        entries_sum(sort_pairs_desc(spending_entries(s))) == orders_sum(s),
{
    lemma_spending_entries_sum(s);
    lemma_sort_pairs_sum(spending_entries(s));
}

} // verus!
