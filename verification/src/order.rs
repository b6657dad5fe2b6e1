//! Limit orders and the price-sorted order books of a market.

use vstd::prelude::*;
use crate::MAX_PRICE;

verus! {

/// Identifier of an agent: its index in the agent collection.
pub type AgentId = usize;

/// One limit order: who placed it, how many assets, and the limit price in
/// fixed-point units. Ephemeral: orders live only within one clearing step.
#[derive(Debug, Clone, Copy, PartialEq, Eq, Structural)]
pub struct GenoaOrder {
    pub agent: AgentId,
    pub asset_quantity: u64,
    pub limit_price: u64,
}

/// A well-formed order carries a positive limit price within the price cap.
pub open spec fn order_wf(o: GenoaOrder) -> bool {
    1 <= o.limit_price <= MAX_PRICE
}

/// All orders of a book are well-formed.
pub open spec fn orders_wf(s: Seq<GenoaOrder>) -> bool {
    forall|i: int| 0 <= i < s.len() ==> order_wf(#[trigger] s[i])
}

/// Key order used by the books: descending limit price for buys (best bid
/// first), ascending for sells (best ask first).
pub open spec fn key_le(desc: bool, a: u64, b: u64) -> bool {
    if desc {
        a >= b
    } else {
        a <= b
    }
}

/// A book sorted by limit price in the given direction.
pub open spec fn sorted_by_price(s: Seq<GenoaOrder>, desc: bool) -> bool {
    forall|i: int, j: int| 0 <= i < j < s.len()
        ==> key_le(desc, #[trigger] s[i].limit_price, #[trigger] s[j].limit_price)
}

/// Total asset quantity of a book.
pub open spec fn qty_sum(s: Seq<GenoaOrder>) -> int
    decreases s.len(),
{
    if s.len() == 0 {
        0
    } else {
        qty_sum(s.drop_last()) + s.last().asset_quantity
    }
}

/// Extending a prefix by one order adds its quantity.
pub proof fn lemma_qty_sum_take_step(s: Seq<GenoaOrder>, i: int)
    requires
        0 <= i < s.len(),
    ensures
        qty_sum(s.take(i + 1)) == qty_sum(s.take(i)) + s[i].asset_quantity,
{
    assert(s.take(i + 1).drop_last() =~= s.take(i));
}

/// The quantity of a concatenation is the sum of the parts.
pub proof fn lemma_qty_sum_concat(a: Seq<GenoaOrder>, b: Seq<GenoaOrder>)
    ensures
        qty_sum(a + b) == qty_sum(a) + qty_sum(b),
    decreases b.len(),
{
    if b.len() == 0 {
        assert(a + b =~= a);
    } else {
        lemma_qty_sum_concat(a, b.drop_last());
        assert((a + b).drop_last() =~= a + b.drop_last());
    }
}

/// Walking one order forward splits its quantity off the remaining book.
pub proof fn lemma_qty_sum_skip_step(s: Seq<GenoaOrder>, i: int)
    requires
        0 <= i < s.len(),
    ensures
        qty_sum(s.skip(i)) == s[i].asset_quantity + qty_sum(s.skip(i + 1)),
{
    assert(s.skip(i) =~= seq![s[i]] + s.skip(i + 1));
    lemma_qty_sum_concat(seq![s[i]], s.skip(i + 1));
    assert(qty_sum(seq![s[i]]) == s[i].asset_quantity) by {
        let one = seq![s[i]];
        assert(one.len() == 1);
        assert(one.last() == s[i]);
        assert(one.drop_last() =~= Seq::<GenoaOrder>::empty());
        assert(qty_sum(one.drop_last()) == 0);
    }
}

/// A book's total quantity is never negative.
pub proof fn lemma_qty_sum_nonneg(s: Seq<GenoaOrder>)
    ensures
        qty_sum(s) >= 0,
    decreases s.len(),
{
    if s.len() > 0 {
        lemma_qty_sum_nonneg(s.drop_last());
    }
}

/// A prefix never holds more quantity than the whole book.
pub proof fn lemma_qty_sum_take_le(s: Seq<GenoaOrder>, i: int)
    requires
        0 <= i <= s.len(),
    ensures
        qty_sum(s.take(i)) <= qty_sum(s),
    decreases s.len() - i,
{
    if i == s.len() {
        assert(s.take(i) =~= s);
    } else {
        lemma_qty_sum_take_step(s, i);
        lemma_qty_sum_take_le(s, i + 1);
    }
}

/// Where a new order goes in a sorted book: after every order whose price
/// is at or beyond it in the book's direction, so equal prices keep their
/// arrival order.
pub open spec fn split_point(s: Seq<GenoaOrder>, o: GenoaOrder, desc: bool) -> int
    decreases s.len(),
{
    if s.len() == 0 || !key_le(desc, s[0].limit_price, o.limit_price) {
        0
    } else {
        1 + split_point(s.drop_first(), o, desc)
    }
}

/// One step of the stable insertion sort: the new order spliced in at its
/// split point.
pub open spec fn insert_sorted_spec(s: Seq<GenoaOrder>, o: GenoaOrder, desc: bool)
    -> Seq<GenoaOrder>
{
    s.insert(split_point(s, o, desc), o)
}

/// The stable insertion sort of a whole book: orders are inserted in
/// arrival order, each after all orders of equal price.
pub open spec fn sort_spec(s: Seq<GenoaOrder>, desc: bool) -> Seq<GenoaOrder>
    decreases s.len(),
{
    if s.len() == 0 {
        Seq::empty()
    } else {
        insert_sorted_spec(sort_spec(s.drop_last(), desc), s.last(), desc)
    }
}

/// The split point is a valid index into the extended book.
pub proof fn lemma_split_point_in_range(s: Seq<GenoaOrder>, o: GenoaOrder, desc: bool)
    ensures
        0 <= split_point(s, o, desc) <= s.len(),
    decreases s.len(),
{
    if s.len() > 0 && key_le(desc, s[0].limit_price, o.limit_price) {
        lemma_split_point_in_range(s.drop_first(), o, desc);
    }
}

/// Insert one order into a price-sorted book, after any orders of equal
/// price (so books stay sorted by price with ties in arrival order).
fn insert_sorted(v: &mut Vec<GenoaOrder>, o: GenoaOrder, desc: bool)
    requires
        sorted_by_price(old(v)@, desc),
    ensures
        sorted_by_price(final(v)@, desc),
        final(v)@ == insert_sorted_spec(old(v)@, o, desc),
        final(v)@.to_multiset() =~= old(v)@.to_multiset().insert(o),
        final(v)@.len() == old(v)@.len() + 1,
        forall|k: int| 0 <= k < final(v)@.len()
            ==> #[trigger] final(v)@[k] == o || old(v)@.contains(final(v)@[k]),
{
    broadcast use vstd::seq_lib::group_to_multiset_ensures;
    broadcast use vstd::multiset::group_multiset_axioms;

    let mut i: usize = 0;
    proof {
        assert(v@.skip(0) =~= v@);
    }
    while i < v.len() && key_le_exec(desc, v[i].limit_price, o.limit_price)
        invariant
            0 <= i <= v@.len(),
            sorted_by_price(v@, desc),
            forall|j: int| 0 <= j < i
                ==> key_le(desc, #[trigger] v@[j].limit_price, o.limit_price),
            split_point(v@, o, desc) == i + split_point(v@.skip(i as int), o, desc),
        decreases v@.len() - i,
    {
        proof {
            assert(v@.skip(i as int).drop_first() =~= v@.skip(i as int + 1));
            assert(v@.skip(i as int)[0] == v@[i as int]);
        }
        i = i + 1;
    }
    proof {
        assert(v@.skip(0) =~= v@);
        if i < v.len() {
            assert(v@.skip(i as int)[0] == v@[i as int]);
            assert(split_point(v@.skip(i as int), o, desc) == 0);
        } else {
            assert(v@.skip(i as int) =~= Seq::<GenoaOrder>::empty());
        }
        assert(split_point(v@, o, desc) == i);
    }
    let ghost split = i as int;
    let ghost pre = v@;
    v.insert(i, o);
    proof {
        pre.insert_ensures(split, o);
        lemma_insert_sorted_props(pre, o, desc, split);
    }
}

/// Executable form of [`key_le`].
fn key_le_exec(desc: bool, a: u64, b: u64) -> (r: bool)
    ensures
        r == key_le(desc, a, b),
{
    if desc {
        a >= b
    } else {
        a <= b
    }
}

/// Splicing an order between the prefix that may precede it and the suffix
/// it may precede keeps the book sorted.
proof fn lemma_insert_sorted_props(v: Seq<GenoaOrder>, o: GenoaOrder, desc: bool, split: int)
    requires
        sorted_by_price(v, desc),
        0 <= split <= v.len(),
        forall|j: int| 0 <= j < split
            ==> key_le(desc, #[trigger] v[j].limit_price, o.limit_price),
        split < v.len() ==> !key_le(desc, v[split].limit_price, o.limit_price),
    ensures
        sorted_by_price(v.insert(split, o), desc),
        forall|k: int| 0 <= k < v.len() + 1
            ==> #[trigger] v.insert(split, o)[k] == o || v.contains(v.insert(split, o)[k]),
{
    v.insert_ensures(split, o);
    let r = v.insert(split, o);
    assert forall|i: int, j: int| 0 <= i < j < r.len()
        implies key_le(desc, #[trigger] r[i].limit_price, #[trigger] r[j].limit_price) by {
        if i < split {
            assert(r[i] == v[i]);
        } else if i == split {
            assert(r[i] == o);
        } else {
            assert(r[i] == v[i - 1]);
        }
        if j < split {
            assert(r[j] == v[j]);
        } else if j == split {
            assert(r[j] == o);
        } else {
            assert(r[j] == v[j - 1]);
        }
        if i == split && j > split {
            // the book is sorted and v[split] does not precede o, so o's
            // key precedes every key from split onward
            assert(key_le(desc, v[split].limit_price, v[j - 1].limit_price));
        }
    }
    assert forall|k: int| 0 <= k < v.len() + 1
        implies #[trigger] r[k] == o || v.contains(r[k]) by {
        if k < split {
            assert(r[k] == v[k]);
        } else if k > split {
            assert(r[k] == v[k - 1]);
        }
    }
}

/// Sort a book by limit price, descending for buys and ascending for
/// sells; ties keep their arrival order (stable insertion).
pub fn sort_book(v: &Vec<GenoaOrder>, desc: bool) -> (r: Vec<GenoaOrder>)
    ensures
        r@ == sort_spec(v@, desc),
        sorted_by_price(r@, desc),
        r@.to_multiset() =~= v@.to_multiset(),
        r@.len() == v@.len(),
        orders_wf(v@) ==> orders_wf(r@),
        qty_sum(r@) == qty_sum(v@),
{
    broadcast use vstd::seq_lib::group_to_multiset_ensures;
    broadcast use vstd::multiset::group_multiset_axioms;

    let mut r: Vec<GenoaOrder> = Vec::new();
    let mut i: usize = 0;
    proof {
        assert(v@.take(0) =~= Seq::<GenoaOrder>::empty());
    }
    while i < v.len()
        invariant
            0 <= i <= v@.len(),
            sorted_by_price(r@, desc),
            r@ == sort_spec(v@.take(i as int), desc),
            r@.to_multiset() =~= v@.take(i as int).to_multiset(),
            r@.len() == i,
            forall|k: int| 0 <= k < r@.len() ==> v@.contains(#[trigger] r@[k]),
        decreases v@.len() - i,
    {
        let o = v[i];
        let ghost pre = r@;
        insert_sorted(&mut r, o, desc);
        proof {
            assert(v@.take(i as int + 1).drop_last() =~= v@.take(i as int));
            assert(v@.take(i as int + 1).last() == o);
            assert(v@.take(i as int + 1) =~= v@.take(i as int).push(o));
            vstd::seq_lib::to_multiset_build(v@.take(i as int), o);
            assert(v@.take(i as int + 1).to_multiset()
                =~= v@.take(i as int).to_multiset().insert(o));
            assert forall|k: int| 0 <= k < r@.len()
                implies v@.contains(#[trigger] r@[k]) by {
                if r@[k] == o {
                    assert(v@[i as int] == o);
                } else {
                    assert(pre.contains(r@[k]));
                }
            }
        }
        i = i + 1;
    }
    proof {
        assert(v@.take(v@.len() as int) =~= v@);
        assert(r@.len() == v@.len()) by {
            assert(r@.to_multiset().len() == r@.len());
            assert(v@.to_multiset().len() == v@.len());
        }
        assert forall|k: int| 0 <= k < r@.len() implies order_wf(#[trigger] r@[k])
            || !orders_wf(v@) by {
            if orders_wf(v@) {
                if v@.contains(r@[k]) {
                    let w = choose|w: int| 0 <= w < v@.len() && v@[w] == r@[k];
                    assert(order_wf(v@[w]));
                }
            }
        }
        lemma_qty_sum_permutation(r@, v@);
    }
    r
}

/// Books with equal multisets hold equal total quantity.
proof fn lemma_qty_sum_permutation(a: Seq<GenoaOrder>, b: Seq<GenoaOrder>)
    requires
        a.to_multiset() == b.to_multiset(),
    ensures
        qty_sum(a) == qty_sum(b),
    decreases a.len(),
{
    broadcast use vstd::seq_lib::group_to_multiset_ensures;
    broadcast use vstd::multiset::group_multiset_axioms;

    if a.len() > 0 {
        let last = a.last();
        let w = a.drop_last();
        assert(a.to_multiset().contains(last)) by {
            assert(a =~= w.push(last));
            assert(a.to_multiset() =~= w.to_multiset().insert(last));
        }
        assert(b.to_multiset().count(last) > 0);
        assert(b.contains(last));
        let j = choose|j: int| 0 <= j < b.len() && b[j] == last;
        let b2 = b.remove(j);
        assert(b2.to_multiset() =~= b.to_multiset().remove(last));
        assert(a =~= w.push(last));
        assert(w.push(last).to_multiset() =~= w.to_multiset().insert(last));
        assert(w.to_multiset() =~= a.to_multiset().remove(last));
        assert(w.to_multiset() =~= b2.to_multiset());
        lemma_qty_sum_permutation(w, b2);
        lemma_qty_sum_remove(b, j);
        assert(qty_sum(a) == qty_sum(w) + last.asset_quantity);
        assert(qty_sum(b2) == qty_sum(b) - last.asset_quantity);
    } else {
        assert(a.to_multiset().len() == a.len());
        assert(b.to_multiset().len() == b.len());
        assert(b.len() == 0);
    }
}

/// Removing one order subtracts its quantity.
proof fn lemma_qty_sum_remove(s: Seq<GenoaOrder>, j: int)
    requires
        0 <= j < s.len(),
    ensures
        qty_sum(s.remove(j)) == qty_sum(s) - s[j].asset_quantity,
    decreases s.len(),
{
    if j == s.len() - 1 {
        assert(s.remove(j) =~= s.drop_last());
    } else {
        lemma_qty_sum_remove(s.drop_last(), j);
        assert(s.remove(j).drop_last() =~= s.drop_last().remove(j));
        assert(s.remove(j).last() == s.last());
    }
}

} // verus!
