use shopping::pricing::{merge_items, merge_sale_items, Pricing, PricingItem, SalePricingItem};

fn plain(price: u64, currency: &str, zone: &str) -> PricingItem {
    PricingItem { price, currency: currency.to_string(), zone: zone.to_string() }
}

fn sale(
    price: u64,
    currency: &str,
    zone: &str,
    start: Option<i64>,
    end: Option<i64>,
) -> SalePricingItem {
    SalePricingItem { price, currency: currency.to_string(), zone: zone.to_string(), start, end }
}

fn record(
    msrp: Vec<PricingItem>,
    list: Vec<PricingItem>,
    sales: Vec<SalePricingItem>,
) -> Pricing {
    let mut p = Pricing::new("p1".to_string());
    p.set_prices(msrp, list, sales);
    p
}

#[test]
fn sale_price_wins_when_in_window() {
    let p = record(
        vec![plain(11, "USD", "global")],
        vec![plain(9, "USD", "global")],
        vec![sale(7, "USD", "global", Some(500), Some(1500))],
    );
    let r = p.get_price_at("USD".to_string(), "global".to_string(), 1000).unwrap();
    assert_eq!(r.price, 7);
    assert_eq!(r.currency, "USD");
    assert_eq!(r.zone, "global");
}

#[test]
fn out_of_window_sale_is_never_applied() {
    let p = record(
        vec![plain(11, "USD", "global")],
        vec![plain(9, "USD", "global")],
        vec![sale(7, "USD", "global", Some(500), Some(900))],
    );
    let r = p.get_price_at("USD".to_string(), "global".to_string(), 1000).unwrap();
    assert_eq!(r.price, 9);
}

#[test]
fn window_bounds_are_inclusive_start_exclusive_end() {
    let p = record(vec![], vec![], vec![sale(7, "USD", "global", Some(500), Some(1500))]);
    assert_eq!(p.get_price_at("USD".into(), "global".into(), 500).unwrap().price, 7);
    assert!(p.get_price_at("USD".into(), "global".into(), 1500).is_none());
    assert!(p.get_price_at("USD".into(), "global".into(), 499).is_none());
}

#[test]
fn missing_bounds_leave_the_window_open() {
    let p = record(
        vec![],
        vec![],
        vec![sale(7, "USD", "global", None, Some(1500)), sale(8, "USD", "global", Some(500), None)],
    );
    assert_eq!(p.get_price_at("USD".into(), "global".into(), -1000).unwrap().price, 7);
    assert_eq!(p.get_price_at("USD".into(), "global".into(), 2000).unwrap().price, 8);
}

#[test]
fn msrp_used_only_when_no_sale_and_no_list_matches() {
    let p = record(
        vec![plain(11, "USD", "global")],
        vec![plain(9, "EUR", "global")],
        vec![sale(7, "USD", "eu", None, None)],
    );
    let r = p.get_price_at("USD".to_string(), "global".to_string(), 1000).unwrap();
    assert_eq!(r.price, 11);
}

#[test]
fn resolution_fails_when_no_tier_matches() {
    let p = record(vec![plain(11, "USD", "global")], vec![], vec![]);
    assert!(p.get_price_at("USD".to_string(), "eu".to_string(), 1000).is_none());
    assert!(p.get_price_at("EUR".to_string(), "global".to_string(), 1000).is_none());
}

#[test]
fn clock_based_resolution_applies_an_always_open_sale() {
    let p = record(
        vec![plain(11, "USD", "global")],
        vec![plain(9, "USD", "global")],
        vec![sale(7, "USD", "global", None, None)],
    );
    let r = p.get_price("USD".to_string(), "global".to_string()).unwrap();
    assert_eq!(r.price, 7);
}

#[test]
fn merge_with_empty_updates_returns_current_unchanged() {
    let current = vec![plain(9, "USD", "global"), plain(10, "EUR", "eu")];
    let r = merge_items(vec![], current);
    assert_eq!(r.len(), 2);
    assert_eq!(r[0].price, 9);
    assert_eq!(r[1].price, 10);
}

#[test]
fn merge_into_empty_current_returns_updates_unchanged() {
    let updates = vec![plain(9, "USD", "global"), plain(10, "EUR", "eu")];
    let r = merge_items(updates, vec![]);
    assert_eq!(r.len(), 2);
    assert_eq!(r[0].price, 9);
    assert_eq!(r[1].price, 10);
}

#[test]
fn merge_keeps_one_entry_per_key_and_updates_win() {
    let updates = vec![plain(5, "USD", "global")];
    let current = vec![plain(9, "USD", "global"), plain(10, "EUR", "eu")];
    let r = merge_items(updates, current);
    assert_eq!(r.len(), 2);
    let usd: Vec<&PricingItem> =
        r.iter().filter(|x| x.currency == "USD" && x.zone == "global").collect();
    let eur: Vec<&PricingItem> = r.iter().filter(|x| x.currency == "EUR" && x.zone == "eu").collect();
    assert_eq!(usd.len(), 1);
    assert_eq!(usd[0].price, 5);
    assert_eq!(eur.len(), 1);
    assert_eq!(eur[0].price, 10);
}

#[test]
fn sale_merge_output_is_sorted_by_start_with_no_start_first() {
    let updates = vec![
        sale(1, "USD", "global", Some(50), None),
        sale(2, "USD", "global", None, None),
    ];
    let current = vec![
        sale(3, "USD", "global", Some(5), None),
        sale(4, "USD", "global", Some(20), Some(30)),
    ];
    let r = merge_sale_items(updates, current);
    assert_eq!(r.len(), 4);
    assert_eq!(r[0].start, None);
    assert_eq!(r[1].start, Some(5));
    assert_eq!(r[2].start, Some(20));
    assert_eq!(r[3].start, Some(50));
}

#[test]
fn sale_merge_update_wins_on_full_key_collision() {
    let updates = vec![sale(1, "USD", "global", Some(5), Some(10))];
    let current = vec![
        sale(3, "USD", "global", Some(5), Some(10)),
        sale(4, "USD", "global", Some(5), Some(11)),
    ];
    let r = merge_sale_items(updates, current);
    assert_eq!(r.len(), 2);
    let winner: Vec<&SalePricingItem> =
        r.iter().filter(|x| x.start == Some(5) && x.end == Some(10)).collect();
    assert_eq!(winner.len(), 1);
    assert_eq!(winner[0].price, 1);
}

#[test]
fn update_prices_merges_every_tier() {
    let mut p = record(
        vec![plain(11, "USD", "global")],
        vec![plain(9, "USD", "global")],
        vec![sale(7, "USD", "global", Some(500), Some(1500))],
    );
    p.update_prices(
        vec![plain(12, "USD", "global")],
        vec![plain(8, "EUR", "eu")],
        vec![sale(6, "USD", "global", Some(100), Some(200))],
    );
    assert_eq!(p.msrp_prices.len(), 1);
    assert_eq!(p.msrp_prices[0].price, 12);
    assert_eq!(p.list_prices.len(), 2);
    assert_eq!(p.sale_prices.len(), 2);
    assert_eq!(p.sale_prices[0].start, Some(100));
    assert_eq!(p.sale_prices[1].start, Some(500));
}

#[test]
fn set_prices_replaces_all_tiers() {
    let mut p = record(
        vec![plain(11, "USD", "global")],
        vec![plain(9, "USD", "global")],
        vec![sale(7, "USD", "global", None, None)],
    );
    p.set_prices(vec![], vec![plain(1, "GBP", "uk")], vec![]);
    assert!(p.msrp_prices.is_empty());
    assert_eq!(p.list_prices.len(), 1);
    assert_eq!(p.list_prices[0].price, 1);
    assert!(p.sale_prices.is_empty());
}

#[test]
fn sale_merge_with_an_empty_side_returns_the_other_unchanged() {
    let seeded = vec![
        sale(3, "USD", "global", Some(50), None),
        sale(4, "USD", "global", Some(5), None),
    ];
    // the short-circuit hands the stored entries back as they are
    let r = merge_sale_items(vec![], seeded);
    assert_eq!(r.len(), 2);
    assert_eq!(r[0].start, Some(50));
    assert_eq!(r[1].start, Some(5));
    let updates = vec![sale(1, "USD", "global", Some(9), None)];
    let r = merge_sale_items(updates, vec![]);
    assert_eq!(r.len(), 1);
    assert_eq!(r[0].start, Some(9));
}
