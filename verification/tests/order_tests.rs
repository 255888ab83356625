use shopping::common::Address;
use shopping::order::{
    AddItemError, CancelOrderError, Order, OrderItem, OrderStatus, RemoveItemError, ShipOrderError,
    UpdateEmailError, UpdateItemQuantityError,
};
use shopping::pricing::PricingItem;
use shopping::product::Product;

fn address() -> Address {
    Address {
        street: "1 Main St".to_string(),
        city: "Springfield".to_string(),
        state_or_region: "IL".to_string(),
        country: "US".to_string(),
        postal_code: "62704".to_string(),
        name: Some("Pat Doe".to_string()),
        phone_number: None,
    }
}

fn product(id: &str, name: &str, brand: &str) -> Product {
    Product::new(
        id.to_string(),
        name.to_string(),
        brand.to_string(),
        "a thing".to_string(),
        vec!["tag".to_string()],
    )
}

fn price(p: u64) -> PricingItem {
    PricingItem { price: p, currency: "USD".to_string(), zone: "global".to_string() }
}

fn order_with_item() -> Order {
    let mut o = Order::new("o1".to_string(), "u1".to_string());
    o.add_item("p1".to_string(), 2, Some(product("p1", "Widget", "Acme")), Some(price(10)))
        .unwrap();
    o
}

#[test]
fn new_order_starts_empty_and_new() {
    let o = Order::new("o1".to_string(), "u1".to_string());
    assert_eq!(o.order_status, OrderStatus::New);
    assert!(o.items.is_empty());
    assert_eq!(o.total, 0);
    assert_eq!(o.currency, "USD");
    assert!(o.email.is_none());
}

#[test]
fn add_item_snapshots_product_and_price() {
    let o = order_with_item();
    assert_eq!(o.items.len(), 1);
    assert_eq!(o.items[0].product_name, "Widget");
    assert_eq!(o.items[0].product_brand, "Acme");
    assert_eq!(o.items[0].price, 10);
    assert_eq!(o.items[0].quantity, 2);
    assert_eq!(o.total, 20);
}

#[test]
fn add_item_on_order_is_additive_and_skips_lookups() {
    let mut o = order_with_item();
    // the item exists, so the lookup responses are irrelevant
    o.add_item("p1".to_string(), 3, None, None).unwrap();
    assert_eq!(o.items.len(), 1);
    assert_eq!(o.items[0].quantity, 5);
    assert_eq!(o.total, 50);
}

#[test]
fn add_item_reports_missing_product_before_missing_price() {
    let mut o = Order::new("o1".to_string(), "u1".to_string());
    let r = o.add_item("nope".to_string(), 1, None, None);
    assert!(matches!(r, Err(AddItemError::ProductNotFound(_))));
    let r = o.add_item("p9".to_string(), 1, Some(product("p9", "X", "Y")), None);
    assert!(matches!(r, Err(AddItemError::PricingNotFound(_))));
    assert!(o.items.is_empty());
    assert_eq!(o.total, 0);
}

#[test]
fn update_item_quantity_overwrites_on_order() {
    let mut o = order_with_item();
    o.update_item_quantity("p1".to_string(), 7).unwrap();
    assert_eq!(o.items[0].quantity, 7);
    assert_eq!(o.total, 70);
    let r = o.update_item_quantity("absent".to_string(), 7);
    assert!(matches!(r, Err(UpdateItemQuantityError::ItemNotFound(_))));
}

#[test]
fn remove_item_recomputes_total() {
    let mut o = order_with_item();
    o.add_item("p2".to_string(), 1, Some(product("p2", "Gadget", "Acme")), Some(price(5)))
        .unwrap();
    assert_eq!(o.total, 25);
    o.remove_item("p1".to_string()).unwrap();
    assert_eq!(o.items.len(), 1);
    assert_eq!(o.total, 5);
    let r = o.remove_item("p1".to_string());
    assert!(matches!(r, Err(RemoveItemError::ItemNotFound(_))));
}

#[test]
fn ship_order_fails_on_empty_items_before_other_checks() {
    // items empty, billing set, email set: EmptyItems is reported first
    let mut o = Order::new("o1".to_string(), "u1".to_string());
    o.update_billing_address(address()).unwrap();
    o.update_email("user@example.com".to_string()).unwrap();
    let r = o.ship_order();
    assert!(matches!(r, Err(ShipOrderError::EmptyItems(_))));
    assert_eq!(o.order_status, OrderStatus::New);
}

#[test]
fn ship_order_checks_billing_then_email() {
    let mut o = order_with_item();
    let r = o.ship_order();
    assert!(matches!(r, Err(ShipOrderError::BillingAddressNotSet(_))));
    o.update_billing_address(address()).unwrap();
    let r = o.ship_order();
    assert!(matches!(r, Err(ShipOrderError::EmptyEmail(_))));
    o.update_email("user@example.com".to_string()).unwrap();
    o.ship_order().unwrap();
    assert_eq!(o.order_status, OrderStatus::Shipped);
}

#[test]
fn shipped_is_terminal() {
    let mut o = order_with_item();
    o.update_billing_address(address()).unwrap();
    o.update_email("user@example.com".to_string()).unwrap();
    o.ship_order().unwrap();
    let r = o.cancel_order();
    match r {
        Err(CancelOrderError::ActionNotAllowed(e)) => {
            assert_eq!(e.status, OrderStatus::Shipped);
        },
        _ => panic!("cancel on a shipped order must fail"),
    }
    assert_eq!(o.order_status, OrderStatus::Shipped);
    let r = o.ship_order();
    assert!(matches!(r, Err(ShipOrderError::ActionNotAllowed(_))));
}

#[test]
fn cancel_order_needs_no_other_precondition() {
    let mut o = Order::new("o1".to_string(), "u1".to_string());
    o.cancel_order().unwrap();
    assert_eq!(o.order_status, OrderStatus::Cancelled);
}

#[test]
fn cancelled_is_terminal() {
    let mut o = order_with_item();
    o.cancel_order().unwrap();
    let r = o.cancel_order();
    match r {
        Err(CancelOrderError::ActionNotAllowed(e)) => {
            assert_eq!(e.status, OrderStatus::Cancelled);
        },
        _ => panic!("cancel on a cancelled order must fail"),
    }
    assert_eq!(o.order_status, OrderStatus::Cancelled);
}

#[test]
fn mutations_are_gated_after_cancel() {
    let mut o = order_with_item();
    o.cancel_order().unwrap();
    assert!(matches!(
        o.update_email("user@example.com".to_string()),
        Err(UpdateEmailError::ActionNotAllowed(_))
    ));
    assert!(matches!(o.add_item("p2".to_string(), 1, None, None), Err(
        AddItemError::ActionNotAllowed(_)
    )));
    assert!(matches!(o.remove_item("p1".to_string()), Err(RemoveItemError::ActionNotAllowed(_))));
    assert!(matches!(
        o.update_item_quantity("p1".to_string(), 9),
        Err(UpdateItemQuantityError::ActionNotAllowed(_))
    ));
    assert_eq!(o.items[0].quantity, 2);
    assert_eq!(o.total, 20);
}

#[test]
fn order_update_email_validates() {
    let mut o = Order::new("o1".to_string(), "u1".to_string());
    let r = o.update_email("not an email".to_string());
    assert!(matches!(r, Err(UpdateEmailError::EmailNotValid(_))));
    assert!(o.email.is_none());
    o.update_email("user@example.com".to_string()).unwrap();
    assert_eq!(o.email.as_deref(), Some("user@example.com"));
}

#[test]
fn reinitializing_a_new_order_is_allowed() {
    let mut o = Order::new("o1".to_string(), "u1".to_string());
    let data = shopping::order::CreateOrder {
        user_id: "u2".to_string(),
        email: Some("user@example.com".to_string()),
        items: vec![OrderItem {
            product_id: "p1".to_string(),
            product_name: "Widget".to_string(),
            product_brand: "Acme".to_string(),
            price: 10,
            quantity: 2,
        }],
        billing_address: Some(address()),
        shipping_address: None,
        total: 20,
        currency: "USD".to_string(),
    };
    o.initialize_order(data).unwrap();
    assert_eq!(o.user_id, "u2");
    assert_eq!(o.total, 20);
    // still New, so a second initialization is permitted
    let data2 = shopping::order::CreateOrder {
        user_id: "u3".to_string(),
        email: None,
        items: vec![],
        billing_address: None,
        shipping_address: None,
        total: 0,
        currency: "USD".to_string(),
    };
    o.initialize_order(data2).unwrap();
    assert_eq!(o.user_id, "u3");
    assert_eq!(o.total, 0);
}
