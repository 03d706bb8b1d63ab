use blood_money::valuation::{calculate_auction_values, AuctionListing, ItemValue, TradeableItem};

fn listing(item: u64, quantity: u64, buyout: u64) -> AuctionListing {
    AuctionListing { item, buyout, quantity }
}

fn catalog_item(id: u64, quantity: u64) -> TradeableItem {
    TradeableItem { id, name: String::from("item"), quantity }
}

#[test]
fn fifth_percentile_two_listings() {
    // Total quantity 100, threshold 100/20 = 5. Unit prices are 100/10 = 10
    // and 200/90 = 2; walking them in ascending price order, the first pair
    // (90 units at 2) already covers the threshold, so the item is valued at
    // the lower unit price.
    let listings = vec![listing(1, 10, 100), listing(1, 90, 200)];
    let catalog = vec![catalog_item(1, 1)];
    let values = calculate_auction_values(&listings, &catalog);
    assert_eq!(values, vec![ItemValue { id: 1, value: 2 }]);
}

#[test]
fn fifth_percentile_first_pair_covers() {
    // Unit prices 50/10 = 5 and 900/90 = 10, ascending order (10@5, 90@10);
    // threshold is 5 and the first pair's quantity 10 already reaches it.
    let listings = vec![listing(1, 10, 50), listing(1, 90, 900)];
    let catalog = vec![catalog_item(1, 1)];
    let values = calculate_auction_values(&listings, &catalog);
    assert_eq!(values, vec![ItemValue { id: 1, value: 5 }]);
}

#[test]
fn fifth_percentile_skips_tiny_cheap_listing() {
    // A manipulative 2-unit listing at unit price 1 does not set the price:
    // cumulative quantity at price 1 is 2, below the threshold of 5, so the
    // percentile lands on the next price up.
    let listings = vec![listing(1, 2, 2), listing(1, 98, 980)];
    let catalog = vec![catalog_item(1, 1)];
    let values = calculate_auction_values(&listings, &catalog);
    assert_eq!(values, vec![ItemValue { id: 1, value: 10 }]);
}

#[test]
fn zero_buyouts_give_explicit_zero_value() {
    // Every listing for the item has buyout 0: the item is still in the
    // result, with value 0, rather than being omitted.
    let listings = vec![listing(1, 5, 0), listing(1, 7, 0)];
    let catalog = vec![catalog_item(1, 1)];
    let values = calculate_auction_values(&listings, &catalog);
    assert_eq!(values, vec![ItemValue { id: 1, value: 0 }]);
}

#[test]
fn unlisted_item_gets_zero_value() {
    let listings = vec![listing(9, 4, 40)];
    let catalog = vec![catalog_item(1, 1), catalog_item(9, 1)];
    let values = calculate_auction_values(&listings, &catalog);
    assert_eq!(values, vec![ItemValue { id: 9, value: 10 }, ItemValue { id: 1, value: 0 }]);
}

#[test]
fn bundle_quantity_scales_value() {
    // Unit price 3, sold in bundles of 20.
    let listings = vec![listing(7, 10, 30)];
    let catalog = vec![catalog_item(7, 20)];
    let values = calculate_auction_values(&listings, &catalog);
    assert_eq!(values, vec![ItemValue { id: 7, value: 60 }]);
}

#[test]
fn result_is_sorted_by_descending_value() {
    let listings = vec![listing(1, 10, 10), listing(2, 10, 1000), listing(3, 10, 100)];
    let catalog = vec![catalog_item(1, 1), catalog_item(2, 1), catalog_item(3, 1)];
    let values = calculate_auction_values(&listings, &catalog);
    assert_eq!(
        values,
        vec![
            ItemValue { id: 2, value: 100 },
            ItemValue { id: 3, value: 10 },
            ItemValue { id: 1, value: 1 },
        ]
    );
}

#[test]
fn buyout_is_divided_by_listing_quantity() {
    // 250 for 50 units is unit price 5.
    let listings = vec![listing(4, 50, 250)];
    let catalog = vec![catalog_item(4, 1)];
    let values = calculate_auction_values(&listings, &catalog);
    assert_eq!(values, vec![ItemValue { id: 4, value: 5 }]);
}

#[test]
fn empty_listings_value_everything_at_zero() {
    let listings: Vec<AuctionListing> = Vec::new();
    let catalog = vec![catalog_item(1, 1), catalog_item(2, 4)];
    let values = calculate_auction_values(&listings, &catalog);
    assert_eq!(values, vec![ItemValue { id: 1, value: 0 }, ItemValue { id: 2, value: 0 }]);
}

#[test]
fn empty_catalog_gives_empty_result() {
    let listings = vec![listing(1, 10, 100)];
    let catalog: Vec<TradeableItem> = Vec::new();
    let values = calculate_auction_values(&listings, &catalog);
    assert!(values.is_empty());
}

#[test]
fn extreme_buyout_is_carried_exactly() {
    let listings = vec![listing(3, 1, u64::MAX)];
    let catalog = vec![catalog_item(3, 1)];
    let values = calculate_auction_values(&listings, &catalog);
    assert_eq!(values, vec![ItemValue { id: 3, value: u64::MAX }]);
}
