//! The valuation engine: turns raw auction listings into a per-item monetary
//! value using a percentile-based pricing rule.
//!
//! For each catalog item, listings with a zero buyout are discarded, the
//! remaining ones are priced per unit (`buyout / quantity`), and the item's
//! "5th-percentile price" is the lowest offered unit price at which the
//! cumulative quantity offered at or below that price reaches 5% of the total
//! offered quantity — equivalently, the unit price at which a walk over the
//! listings sorted ascending by unit price first accumulates 5% of the total.
//! The item's value is that price times the catalog bundle quantity; items
//! with no eligible listing get an explicit value of zero.

use vstd::prelude::*;

use crate::order::{lemma_multiset_to_contains, lemma_remove_insert_multiset};

verus! {

/// A single auction-house listing. A `buyout` of zero means "no buyout"; such
/// listings never contribute to pricing.
#[derive(Debug, Clone, Copy, PartialEq, Eq, Structural)]
pub struct AuctionListing {
    pub item: u64,
    pub buyout: u64,
    pub quantity: u64,
}

/// One entry of the static catalog of tradeable items: the item, its display
/// name, and the quantity a single bundle sells for.
#[derive(Debug)]
pub struct TradeableItem {
    pub id: u64,
    pub name: String,
    pub quantity: u64,
}

/// The computed value of one item on one realm.
#[derive(Debug, Clone, Copy, PartialEq, Eq, Structural)]
pub struct ItemValue {
    pub id: u64,
    pub value: u64,
}

/// A listing takes part in pricing item `id` when it offers that item and has
/// a real buyout.
pub open spec fn eligible(l: AuctionListing, id: u64) -> bool {
    l.item == id && l.buyout > 0
}

/// Price of a single unit offered by `l`.
pub open spec fn unit_price(l: AuctionListing) -> u64
    recommends
        l.quantity >= 1,
{
    l.buyout / l.quantity
}

/// Sum of the quantities of all listings.
pub open spec fn sum_quantities(s: Seq<AuctionListing>) -> int
    decreases s.len(),
{
    if s.len() == 0 {
        0
    } else {
        sum_quantities(s.drop_last()) + s.last().quantity as int
    }
}

/// Total quantity of item `id` offered by eligible listings.
pub open spec fn total_quantity(s: Seq<AuctionListing>, id: u64) -> int
    decreases s.len(),
{
    if s.len() == 0 {
        0
    } else {
        total_quantity(s.drop_last(), id) + if eligible(s.last(), id) {
            s.last().quantity as int
        } else {
            0int
        }
    }
}

/// Quantity of item `id` offered by eligible listings whose unit price is at
/// most `p`.
pub open spec fn quantity_at_or_below(s: Seq<AuctionListing>, id: u64, p: u64) -> int
    decreases s.len(),
{
    if s.len() == 0 {
        0
    } else {
        quantity_at_or_below(s.drop_last(), id, p) + if eligible(s.last(), id) && unit_price(
            s.last(),
        ) <= p {
            s.last().quantity as int
        } else {
            0int
        }
    }
}

pub open spec fn has_eligible(s: Seq<AuctionListing>, id: u64) -> bool {
    exists|k: int| 0 <= k < s.len() && eligible(s[k], id)
}

/// `p` is the 5th-percentile price of item `id`: an offered unit price whose
/// cumulative at-or-below quantity reaches 5% of the total offered quantity,
/// while every lower offered price falls short of it.
pub open spec fn is_fifth_percentile_price(s: Seq<AuctionListing>, id: u64, p: u64) -> bool {
    &&& exists|k: int| 0 <= k < s.len() && eligible(#[trigger] s[k], id) && unit_price(s[k]) == p
    &&& quantity_at_or_below(s, id, p) >= total_quantity(s, id) / 20
    &&& forall|k: int|
        0 <= k < s.len() && eligible(#[trigger] s[k], id) && unit_price(s[k]) < p
            ==> quantity_at_or_below(s, id, unit_price(s[k])) < total_quantity(s, id) / 20
}

/// What the value of item `id` with bundle quantity `bundle` must be, given
/// the listings: zero when nothing eligible is offered, otherwise the
/// 5th-percentile price times the bundle quantity.
pub open spec fn item_value_ok(s: Seq<AuctionListing>, id: u64, bundle: u64, v: u64) -> bool {
    if !has_eligible(s, id) {
        v == 0
    } else {
        exists|p: u64|
            #[trigger] is_fifth_percentile_price(s, id, p) && v as int == (p as int) * (
            bundle as int)
    }
}

/// Bundle quantity the catalog assigns to item `id`.
pub open spec fn catalog_bundle(items: Seq<TradeableItem>, id: u64) -> u64 {
    items[choose|j: int| 0 <= j < items.len() && items[j].id == id].quantity
}

pub open spec fn quantities_positive(s: Seq<AuctionListing>) -> bool {
    forall|k: int| 0 <= k < s.len() ==> (#[trigger] s[k].quantity) >= 1
}

/// Every unit price times every bundle quantity fits in a machine word.
pub open spec fn values_fit(s: Seq<AuctionListing>, items: Seq<TradeableItem>) -> bool {
    forall|k: int, j: int|
        0 <= k < s.len() && 0 <= j < items.len() ==> (unit_price(#[trigger] s[k]) as int) * (
        #[trigger] items[j].quantity as int) <= u64::MAX as int
}

pub open spec fn distinct_ids(items: Seq<TradeableItem>) -> bool {
    forall|i: int, j: int| 0 <= i < j < items.len() ==> items[i].id != items[j].id
}

pub open spec fn sorted_by_value_desc(r: Seq<ItemValue>) -> bool {
    forall|a: int, b: int| 0 <= a <= b < r.len() ==> r[a].value >= r[b].value
}

/// Some entry of `r` carries identifier `id`.
pub open spec fn has_id(r: Seq<ItemValue>, id: u64) -> bool {
    exists|k: int| 0 <= k < r.len() && (#[trigger] r[k].id) == id
}

/// Some catalog entry carries identifier `id`.
pub open spec fn catalog_has_id(items: Seq<TradeableItem>, id: u64) -> bool {
    exists|j: int| 0 <= j < items.len() && (#[trigger] items[j].id) == id
}

/// The result holds exactly the catalog's items, by identifier.
pub open spec fn result_covers(items: Seq<TradeableItem>, r: Seq<ItemValue>) -> bool {
    &&& r.len() == items.len()
    &&& forall|j: int| 0 <= j < items.len() ==> has_id(r, (#[trigger] items[j]).id)
    &&& forall|k: int| 0 <= k < r.len() ==> catalog_has_id(items, (#[trigger] r[k]).id)
}

/// Everything `calculate_auction_values` promises of its result: one entry
/// per catalog item, each carrying that item's value, ordered by descending
/// value.
pub open spec fn valuation_ok(
    listings: Seq<AuctionListing>,
    items: Seq<TradeableItem>,
    r: Seq<ItemValue>,
) -> bool {
    &&& result_covers(items, r)
    &&& forall|k: int|
        0 <= k < r.len() ==> item_value_ok(
            listings,
            #[trigger] r[k].id,
            catalog_bundle(items, r[k].id),
            r[k].value,
        )
    &&& forall|k1: int, k2: int| 0 <= k1 < k2 < r.len() ==> r[k1].id != r[k2].id
    &&& sorted_by_value_desc(r)
}

/// The 5th-percentile price is unique.
pub proof fn lemma_percentile_price_unique(s: Seq<AuctionListing>, id: u64, p1: u64, p2: u64)
    requires
        is_fifth_percentile_price(s, id, p1),
        is_fifth_percentile_price(s, id, p2),
    ensures
        p1 == p2,
{
    if p1 < p2 {
        let k = choose|k: int| 0 <= k < s.len() && eligible(#[trigger] s[k], id) && unit_price(s[k])
            == p1;
        assert(quantity_at_or_below(s, id, unit_price(s[k])) < total_quantity(s, id) / 20);
    } else if p2 < p1 {
        let k = choose|k: int| 0 <= k < s.len() && eligible(#[trigger] s[k], id) && unit_price(s[k])
            == p2;
        assert(quantity_at_or_below(s, id, unit_price(s[k])) < total_quantity(s, id) / 20);
    }
}

proof fn lemma_counts_nonneg(s: Seq<AuctionListing>, id: u64, p: u64)
    ensures
        0 <= total_quantity(s, id) <= sum_quantities(s),
        0 <= quantity_at_or_below(s, id, p) <= total_quantity(s, id),
    decreases s.len(),
{
    if s.len() == 0 {
    } else {
        lemma_counts_nonneg(s.drop_last(), id, p);
    }
}

proof fn lemma_sum_take_le(s: Seq<AuctionListing>, j: int)
    requires
        0 <= j <= s.len(),
    ensures
        sum_quantities(s.take(j)) <= sum_quantities(s),
    decreases s.len() - j,
{
    if j == s.len() {
        assert(s.take(j) =~= s);
    } else {
        let t = s.take(j + 1);
        assert(t.drop_last() =~= s.take(j));
        assert(sum_quantities(s.take(j)) <= sum_quantities(t));
        lemma_sum_take_le(s, j + 1);
    }
}

/// If nothing of `id` is offered (total zero with positive quantities), then
/// no listing is eligible; conversely an eligible listing forces a positive
/// total.
proof fn lemma_total_zero_no_eligible(s: Seq<AuctionListing>, id: u64)
    requires
        quantities_positive(s),
    ensures
        total_quantity(s, id) == 0 <==> !has_eligible(s, id),
    decreases s.len(),
{
    if s.len() == 0 {
        assert(!has_eligible(s, id));
    } else {
        let t = s.drop_last();
        assert(quantities_positive(t)) by {
            assert(forall|k: int| 0 <= k < t.len() ==> t[k] == s[k]);
        }
        lemma_total_zero_no_eligible(t, id);
        lemma_counts_nonneg(t, id, 0);
        if eligible(s.last(), id) {
            assert(s[s.len() - 1].quantity >= 1);
            assert(has_eligible(s, id));
            assert(total_quantity(s, id) >= 1);
        } else {
            assert(total_quantity(s, id) == total_quantity(t, id));
            if has_eligible(s, id) {
                let k = choose|k: int| 0 <= k < s.len() && eligible(#[trigger] s[k], id);
                assert(k != s.len() - 1);
                assert(eligible(t[k], id));
                assert(has_eligible(t, id));
            }
            if has_eligible(t, id) {
                let k = choose|k: int| 0 <= k < t.len() && eligible(#[trigger] t[k], id);
                assert(eligible(s[k], id));
                assert(has_eligible(s, id));
            }
        }
    }
}

/// Among eligible listings there is one with the greatest unit price.
proof fn lemma_exists_max_price(s: Seq<AuctionListing>, id: u64) -> (k: int)
    requires
        has_eligible(s, id),
    ensures
        0 <= k < s.len(),
        eligible(s[k], id),
        forall|k2: int|
            0 <= k2 < s.len() && eligible(#[trigger] s[k2], id) ==> unit_price(s[k2]) <= unit_price(
                s[k],
            ),
    decreases s.len(),
{
    let t = s.drop_last();
    if eligible(s.last(), id) {
        if has_eligible(t, id) {
            let k0 = lemma_exists_max_price(t, id);
            if unit_price(s.last()) >= unit_price(t[k0]) {
                assert forall|k2: int|
                    0 <= k2 < s.len() && eligible(#[trigger] s[k2], id) implies unit_price(s[k2])
                    <= unit_price(s[s.len() - 1]) by {
                    if k2 < s.len() - 1 {
                        assert(s[k2] == t[k2]);
                        assert(unit_price(t[k2]) <= unit_price(t[k0]));
                    }
                }
                s.len() - 1
            } else {
                assert(eligible(s[k0], id));
                assert forall|k2: int|
                    0 <= k2 < s.len() && eligible(#[trigger] s[k2], id) implies unit_price(s[k2])
                    <= unit_price(s[k0]) by {
                    if k2 < s.len() - 1 {
                        assert(s[k2] == t[k2]);
                    }
                }
                k0
            }
        } else {
            assert forall|k2: int|
                0 <= k2 < s.len() && eligible(#[trigger] s[k2], id) implies unit_price(s[k2])
                <= unit_price(s[s.len() - 1]) by {
                if k2 < s.len() - 1 {
                    assert(eligible(t[k2], id));
                }
            }
            s.len() - 1
        }
    } else {
        assert(has_eligible(t, id)) by {
            let k0 = choose|k0: int| 0 <= k0 < s.len() && eligible(#[trigger] s[k0], id);
            assert(eligible(t[k0], id));
        }
        let k = lemma_exists_max_price(t, id);
        assert(eligible(s[k], id));
        assert forall|k2: int|
            0 <= k2 < s.len() && eligible(#[trigger] s[k2], id) implies unit_price(s[k2])
            <= unit_price(s[k]) by {
            if k2 < s.len() - 1 {
                assert(s[k2] == t[k2]);
            }
        }
        k
    }
}

/// A price at or above every offered price gathers the whole total.
proof fn lemma_weight_at_max_is_total(s: Seq<AuctionListing>, id: u64, p: u64)
    requires
        forall|k: int|
            0 <= k < s.len() && eligible(#[trigger] s[k], id) ==> unit_price(s[k]) <= p,
    ensures
        quantity_at_or_below(s, id, p) == total_quantity(s, id),
    decreases s.len(),
{
    if s.len() == 0 {
    } else {
        let t = s.drop_last();
        assert forall|k: int|
            0 <= k < t.len() && eligible(#[trigger] t[k], id) implies unit_price(t[k]) <= p by {
            assert(t[k] == s[k]);
        }
        lemma_weight_at_max_is_total(t, id, p);
    }
}

/// Quantity of item `id` offered at or below price `p`, over the whole vector.
fn weight_at_or_below(listings: &Vec<AuctionListing>, id: u64, p: u64) -> (w: u64)
    requires
        quantities_positive(listings@),
        sum_quantities(listings@) <= u64::MAX as int,
    ensures
        w as int == quantity_at_or_below(listings@, id, p),
{
    let ghost s: Seq<AuctionListing> = listings@;
    let mut w: u64 = 0;
    let mut j: usize = 0;
    while j < listings.len()
        invariant
            0 <= j <= s.len(),
            s == listings@,
            quantities_positive(s),
            sum_quantities(s) <= u64::MAX as int,
            w as int == quantity_at_or_below(s.take(j as int), id, p),
        decreases s.len() - j,
    {
        let l = listings[j];
        proof {
            let t = s.take(j as int + 1);
            assert(t.drop_last() =~= s.take(j as int));
            assert(t.last() == s[j as int]);
            assert(s[j as int].quantity >= 1);
            lemma_counts_nonneg(t, id, p);
            lemma_sum_take_le(s, j as int + 1);
        }
        if l.item == id && l.buyout > 0 && l.buyout / l.quantity <= p {
            w = w + l.quantity;
        }
        j = j + 1;
    }
    proof {
        assert(s.take(s.len() as int) =~= s);
    }
    w
}

/// Total quantity of item `id` offered by eligible listings, over the whole
/// vector.
fn total_for_item(listings: &Vec<AuctionListing>, id: u64) -> (total: u64)
    requires
        sum_quantities(listings@) <= u64::MAX as int,
    ensures
        total as int == total_quantity(listings@, id),
{
    let ghost s: Seq<AuctionListing> = listings@;
    let mut total: u64 = 0;
    let mut j: usize = 0;
    while j < listings.len()
        invariant
            0 <= j <= s.len(),
            s == listings@,
            sum_quantities(s) <= u64::MAX as int,
            total as int == total_quantity(s.take(j as int), id),
        decreases s.len() - j,
    {
        let l = listings[j];
        proof {
            let t = s.take(j as int + 1);
            assert(t.drop_last() =~= s.take(j as int));
            assert(t.last() == s[j as int]);
            lemma_counts_nonneg(t, id, 0);
            lemma_sum_take_le(s, j as int + 1);
        }
        if l.item == id && l.buyout > 0 {
            total = total + l.quantity;
        }
        j = j + 1;
    }
    proof {
        assert(s.take(s.len() as int) =~= s);
    }
    total
}

/// The value of one catalog item: its 5th-percentile unit price times the
/// bundle quantity, or zero when nothing eligible is offered.
fn value_for_item(listings: &Vec<AuctionListing>, id: u64, bundle: u64) -> (v: u64)
    requires
        quantities_positive(listings@),
        sum_quantities(listings@) <= u64::MAX as int,
        forall|k: int|
            0 <= k < listings@.len() ==> (unit_price(#[trigger] listings@[k]) as int) * (
            bundle as int) <= u64::MAX as int,
    ensures
        item_value_ok(listings@, id, bundle, v),
{
    let ghost s: Seq<AuctionListing> = listings@;
    let total = total_for_item(listings, id);
    if total == 0 {
        proof {
            lemma_total_zero_no_eligible(s, id);
        }
        return 0;
    }
    let threshold = total / 20;
    let mut best: u64 = 0;
    let mut found = false;
    let mut j: usize = 0;
    while j < listings.len()
        invariant
            0 <= j <= s.len(),
            s == listings@,
            quantities_positive(s),
            sum_quantities(s) <= u64::MAX as int,
            total as int == total_quantity(s, id),
            threshold as int == total_quantity(s, id) / 20,
            found ==> exists|k: int|
                0 <= k < s.len() && eligible(#[trigger] s[k], id) && unit_price(s[k]) == best,
            found ==> quantity_at_or_below(s, id, best) >= threshold as int,
            forall|k: int|
                0 <= k < j && eligible(#[trigger] s[k], id) && (!found || unit_price(s[k]) < best)
                    ==> quantity_at_or_below(s, id, unit_price(s[k])) < threshold as int,
        decreases s.len() - j,
    {
        let l = listings[j];
        proof {
            assert(s[j as int].quantity >= 1);
        }
        if l.item == id && l.buyout > 0 {
            let p = l.buyout / l.quantity;
            if !found || p < best {
                let w = weight_at_or_below(listings, id, p);
                if w >= threshold {
                    best = p;
                    found = true;
                }
            }
        }
        j = j + 1;
    }
    proof {
        lemma_total_zero_no_eligible(s, id);
        if !found {
            let k = lemma_exists_max_price(s, id);
            lemma_weight_at_max_is_total(s, id, unit_price(s[k]));
            lemma_counts_nonneg(s, id, 0);
            assert(quantity_at_or_below(s, id, unit_price(s[k])) >= threshold as int);
            assert(false);
        }
        let k = choose|k: int|
            0 <= k < s.len() && eligible(#[trigger] s[k], id) && unit_price(s[k]) == best;
        assert((unit_price(s[k]) as int) * (bundle as int) <= u64::MAX as int);
    }
    let v = best * bundle;
    proof {
        assert(is_fifth_percentile_price(s, id, best));
    }
    v
}

/// One insertion-sort step keeps the growing prefix sorted: the entry at `i`
/// moves to position `j`, right after the sorted-prefix entries not below it.
proof fn lemma_insert_keeps_prefix_sorted(before: Seq<ItemValue>, i: int, j: int)
    requires
        0 <= j <= i < before.len(),
        sorted_by_value_desc(before.take(i)),
        forall|m: int| j <= m < i ==> (#[trigger] before[m].value) < before[i].value,
        j > 0 ==> before[j - 1].value >= before[i].value,
    ensures
        sorted_by_value_desc(before.remove(i).insert(j, before[i]).take(i + 1)),
{
    let x = before[i];
    let after = before.remove(i).insert(j, x);
    before.remove_ensures(i);
    before.remove(i).insert_ensures(j, x);
    assert(forall|m: int| 0 <= m < j ==> #[trigger] after[m] == before[m]);
    assert(after[j] == x);
    assert forall|m: int| j < m <= i implies #[trigger] after[m] == before[m - 1] by {
        assert(before.remove(i)[m - 1] == before[m - 1]);
    }
    let pfx = after.take(i + 1);
    assert forall|a: int, b: int|
        0 <= a <= b < i + 1 implies (#[trigger] pfx[a].value) >= (#[trigger] pfx[b].value) by {
        assert(pfx[a] == after[a]);
        assert(pfx[b] == after[b]);
        assert(forall|m: int| 0 <= m < i ==> #[trigger] before.take(i)[m] == before[m]);
        if a < j {
            if b < j {
                assert(before.take(i)[a].value >= before.take(i)[b].value);
            } else if b == j {
                assert(before.take(i)[a].value >= before.take(i)[j - 1].value);
            } else {
                assert(before.take(i)[a].value >= before.take(i)[b - 1].value);
            }
        } else if a == j {
            if b > j {
                assert(before[b - 1].value < x.value);
            }
        } else {
            assert(before.take(i)[a - 1].value >= before.take(i)[b - 1].value);
        }
    }
}

/// Sorts item values descending by value. The result is a rearrangement of
/// the input: same elements, same length.
#[verifier::rlimit(50)]
fn sort_values_desc(v: &mut Vec<ItemValue>)
    ensures
        final(v)@.len() == old(v)@.len(),
        final(v)@.to_multiset() == old(v)@.to_multiset(),
        sorted_by_value_desc(final(v)@),
{
    let ghost orig: Seq<ItemValue> = v@;
    if v.len() == 0 {
        return ;
    }
    let mut i: usize = 1;
    while i < v.len()
        invariant
            1 <= i <= v@.len(),
            v@.len() == orig.len(),
            v@.to_multiset() == orig.to_multiset(),
            sorted_by_value_desc(v@.take(i as int)),
        decreases v@.len() - i,
    {
        let ghost before: Seq<ItemValue> = v@;
        let x = v[i];
        let mut j: usize = i;
        while j > 0 && v[j - 1].value < x.value
            invariant
                0 <= j <= i < v@.len(),
                v@ == before,
                x == before[i as int],
                forall|m: int| j <= m < i ==> #[trigger] before[m].value < x.value,
            decreases j,
        {
            j = j - 1;
        }
        v.remove(i);
        v.insert(j, x);
        proof {
            // Same elements: one entry was removed and re-inserted elsewhere,
            // and the sorted prefix grew by one.
            lemma_remove_insert_multiset(before, i as int, j as int);
            lemma_insert_keeps_prefix_sorted(before, i as int, j as int);
        }
        i = i + 1;
    }
    proof {
        assert(v@.take(v@.len() as int) =~= v@);
    }
}

/// Computes the value of every catalog item from the given listings and
/// returns them sorted by descending value. Every catalog item appears
/// exactly once; an item with no eligible listing appears with value zero
/// rather than being omitted.
#[verifier::rlimit(100)]
pub fn calculate_auction_values(listings: &Vec<AuctionListing>, items: &Vec<TradeableItem>) -> (r:
    Vec<ItemValue>)
    requires
        quantities_positive(listings@),
        sum_quantities(listings@) <= u64::MAX as int,
        values_fit(listings@, items@),
        distinct_ids(items@),
    ensures
        valuation_ok(listings@, items@, r@),
{
    let ghost s: Seq<AuctionListing> = listings@;
    let ghost cat: Seq<TradeableItem> = items@;
    let mut r: Vec<ItemValue> = Vec::new();
    let mut i: usize = 0;
    while i < items.len()
        invariant
            0 <= i <= cat.len(),
            s == listings@,
            cat == items@,
            quantities_positive(s),
            sum_quantities(s) <= u64::MAX as int,
            values_fit(s, cat),
            distinct_ids(cat),
            r@.len() == i,
            forall|k: int| 0 <= k < i ==> #[trigger] r@[k].id == cat[k].id,
            forall|k: int|
                0 <= k < i ==> item_value_ok(s, #[trigger] r@[k].id, cat[k].quantity, r@[k].value),
        decreases cat.len() - i,
    {
        let it_id = items[i].id;
        let it_bundle = items[i].quantity;
        proof {
            assert forall|k: int| 0 <= k < s.len() implies (unit_price(#[trigger] s[k]) as int) * (
            it_bundle as int) <= u64::MAX as int by {
                assert((unit_price(s[k]) as int) * (cat[i as int].quantity as int) <= u64::MAX
                    as int);
            }
        }
        let v = value_for_item(listings, it_id, it_bundle);
        r.push(ItemValue { id: it_id, value: v });
        i = i + 1;
    }
    let ghost pre: Seq<ItemValue> = r@;
    sort_values_desc(&mut r);
    proof {
        lemma_fill_facts(s, cat, pre);
        lemma_transfer_after_sort(s, cat, pre, r@);
    }
    r
}

/// Before sorting, entry `k` belongs to catalog entry `k`: its id's catalog
/// bundle is that entry's, and all entries are distinct.
proof fn lemma_fill_facts(s: Seq<AuctionListing>, cat: Seq<TradeableItem>, pre: Seq<ItemValue>)
    requires
        distinct_ids(cat),
        pre.len() == cat.len(),
        forall|k: int| 0 <= k < pre.len() ==> (#[trigger] pre[k].id) == cat[k].id,
        forall|k: int|
            0 <= k < pre.len() ==> item_value_ok(
                s,
                #[trigger] pre[k].id,
                cat[k].quantity,
                pre[k].value,
            ),
    ensures
        forall|k: int|
            0 <= k < pre.len() ==> item_value_ok(
                s,
                #[trigger] pre[k].id,
                catalog_bundle(cat, pre[k].id),
                pre[k].value,
            ),
        pre.no_duplicates(),
{
    assert forall|k: int| 0 <= k < pre.len() implies item_value_ok(
        s,
        #[trigger] pre[k].id,
        catalog_bundle(cat, pre[k].id),
        pre[k].value,
    ) by {
        assert(cat[k].id == pre[k].id);
        let jj = choose|j: int| 0 <= j < cat.len() && cat[j].id == pre[k].id;
        assert(0 <= jj < cat.len() && cat[jj].id == pre[k].id);
        assert(jj == k);
        assert(catalog_bundle(cat, pre[k].id) == cat[k].quantity);
    }
    assert forall|k1: int, k2: int| 0 <= k1 < k2 < pre.len() implies pre[k1] != pre[k2] by {
        assert(pre[k1].id == cat[k1].id);
        assert(pre[k2].id == cat[k2].id);
        assert(cat[k1].id != cat[k2].id);
    }
}

/// After rearranging, the per-entry facts carry over: each entry is one of the
/// entries computed for the catalog, each catalog item is still covered, and
/// ids stay distinct (an id determines its value, so a duplicated id would be
/// a duplicated entry).
proof fn lemma_transfer_after_sort(
    s: Seq<AuctionListing>,
    cat: Seq<TradeableItem>,
    pre: Seq<ItemValue>,
    post: Seq<ItemValue>,
)
    requires
        pre.len() == cat.len(),
        post.len() == pre.len(),
        post.to_multiset() == pre.to_multiset(),
        pre.no_duplicates(),
        forall|k: int| 0 <= k < pre.len() ==> (#[trigger] pre[k].id) == cat[k].id,
        forall|k: int|
            0 <= k < pre.len() ==> item_value_ok(
                s,
                #[trigger] pre[k].id,
                catalog_bundle(cat, pre[k].id),
                pre[k].value,
            ),
    ensures
        result_covers(cat, post),
        forall|k: int|
            0 <= k < post.len() ==> item_value_ok(
                s,
                #[trigger] post[k].id,
                catalog_bundle(cat, post[k].id),
                post[k].value,
            ),
        forall|k1: int, k2: int| 0 <= k1 < k2 < post.len() ==> post[k1].id != post[k2].id,
{
    post.to_multiset_ensures();
    pre.to_multiset_ensures();
    assert forall|k: int| 0 <= k < post.len() implies item_value_ok(
        s,
        #[trigger] post[k].id,
        catalog_bundle(cat, post[k].id),
        post[k].value,
    ) && catalog_has_id(cat, post[k].id) by {
        assert(post.to_multiset().contains(post[k]));
        lemma_multiset_to_contains(pre, post[k]);
        let m = choose|m: int| 0 <= m < pre.len() && pre[m] == post[k];
        assert(pre[m].id == post[k].id);
        assert(0 <= m < cat.len() && cat[m].id == post[k].id);
        assert(item_value_ok(s, pre[m].id, catalog_bundle(cat, pre[m].id), pre[m].value));
    }
    assert forall|j: int| 0 <= j < cat.len() implies has_id(post, (#[trigger] cat[j]).id) by {
        assert(pre.to_multiset().contains(pre[j]));
        lemma_multiset_to_contains(post, pre[j]);
        let k = choose|k: int| 0 <= k < post.len() && post[k] == pre[j];
        assert(post[k].id == cat[j].id);
    }
    pre.lemma_multiset_has_no_duplicates();
    post.lemma_multiset_has_no_duplicates_conv();
    assert forall|k1: int, k2: int| 0 <= k1 < k2 < post.len() implies post[k1].id != post[k2].id by {
        if post[k1].id == post[k2].id {
            let id = post[k1].id;
            let b = catalog_bundle(cat, id);
            if has_eligible(s, id) {
                let p1 = choose|p: u64|
                    is_fifth_percentile_price(s, id, p) && post[k1].value as int == (p as int) * (
                    b as int);
                let p2 = choose|p: u64|
                    is_fifth_percentile_price(s, id, p) && post[k2].value as int == (p as int) * (
                    b as int);
                lemma_percentile_price_unique(s, id, p1, p2);
            }
            assert(post[k1] == post[k2]);
            assert(post.no_duplicates());
        }
    }
}

} // verus!
