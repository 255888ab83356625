use shopping::assistant::{
    reduce_order_items, RECOMMENDATION_BRAND_COUNT, RECOMMENDATION_INPUT_COUNT,
    RECOMMENDATION_PRODUCT_COUNT,
};
use shopping::order::OrderItem;

fn line(id: &str, name: &str, qty: u32) -> OrderItem {
    OrderItem {
        product_id: id.to_string(),
        product_name: name.to_string(),
        product_brand: "Acme".to_string(),
        price: 10,
        quantity: qty,
    }
}

#[test]
fn grouping_sums_quantities_per_product() {
    let r = reduce_order_items(vec![line("p1", "Widget", 5), line("p2", "Gadget", 1), line(
        "p1",
        "Widget renamed",
        2,
    )]);
    assert_eq!(r.len(), 2);
    let p1: Vec<&OrderItem> = r.iter().filter(|i| i.product_id == "p1").collect();
    assert_eq!(p1.len(), 1);
    assert_eq!(p1[0].quantity, 7);
    // the first occurrence's snapshot is kept
    assert_eq!(p1[0].product_name, "Widget");
}

#[test]
fn digest_is_sorted_ascending_by_quantity() {
    let r = reduce_order_items(vec![
        line("p1", "Widget", 9),
        line("p2", "Gadget", 1),
        line("p3", "Gizmo", 4),
    ]);
    assert_eq!(r.len(), 3);
    assert_eq!(r[0].product_id, "p2");
    assert_eq!(r[1].product_id, "p3");
    assert_eq!(r[2].product_id, "p1");
}

#[test]
fn empty_history_gives_an_empty_digest() {
    let r = reduce_order_items(vec![]);
    assert!(r.is_empty());
}

#[test]
fn digest_is_capped_at_the_input_count() {
    let mut items: Vec<OrderItem> = Vec::new();
    let mut i: u32 = 0;
    while i < 150 {
        items.push(line(&format!("p{}", i), "Widget", i + 1));
        i += 1;
    }
    let r = reduce_order_items(items);
    assert_eq!(r.len(), RECOMMENDATION_INPUT_COUNT as usize);
    // the smallest summed quantities are kept
    assert_eq!(r[0].quantity, 1);
    assert_eq!(r[99].quantity, 100);
}

#[test]
fn recommendation_counts_are_fixed() {
    assert_eq!(RECOMMENDATION_INPUT_COUNT, 100);
    assert_eq!(RECOMMENDATION_PRODUCT_COUNT, 4);
    assert_eq!(RECOMMENDATION_BRAND_COUNT, 3);
}
