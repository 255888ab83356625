use shopping::cart::{
    validate_cart, AddItemError, Cart, CartAgentId, CheckoutError, RemoveItemError,
    UpdateEmailError, UpdateItemQuantityError,
};
use shopping::common::Address;
use shopping::order::OrderStatus;
use shopping::pricing::PricingItem;
use shopping::product::Product;

fn address() -> Address {
    Address {
        street: "1 Main St".to_string(),
        city: "Springfield".to_string(),
        state_or_region: "IL".to_string(),
        country: "US".to_string(),
        postal_code: "62704".to_string(),
        name: None,
        phone_number: Some("555-0100".to_string()),
    }
}

fn product(id: &str, name: &str, brand: &str) -> Product {
    Product::new(
        id.to_string(),
        name.to_string(),
        brand.to_string(),
        "a thing".to_string(),
        vec![],
    )
}

fn price(p: u64) -> PricingItem {
    PricingItem { price: p, currency: "USD".to_string(), zone: "global".to_string() }
}

#[test]
fn new_cart_is_empty_with_default_currency() {
    let c = Cart::new("u1".to_string());
    assert!(c.items.is_empty());
    assert_eq!(c.total, 0);
    assert_eq!(c.currency, "USD");
    assert!(c.previous_order_ids.is_empty());
}

#[test]
fn cart_agent_id_wraps_the_user_id() {
    let _id = CartAgentId::new("u1".to_string());
}

#[test]
fn add_item_unknown_product_fails_before_pricing() {
    let mut c = Cart::new("u1".to_string());
    // both lookups failed; the product error must surface
    let r = c.add_item("nope".to_string(), 1, None, None);
    assert!(matches!(r, Err(AddItemError::ProductNotFound(_))));
    // known product, no price entry for the cart's currency and zone
    let r = c.add_item("p1".to_string(), 1, Some(product("p1", "Widget", "Acme")), None);
    assert!(matches!(r, Err(AddItemError::PricingNotFound(_))));
    assert!(c.items.is_empty());
    assert_eq!(c.total, 0);
}

#[test]
fn cart_add_item_overwrites_quantity() {
    let mut c = Cart::new("u1".to_string());
    c.add_item("p1".to_string(), 2, Some(product("p1", "Widget", "Acme")), Some(price(10)))
        .unwrap();
    assert_eq!(c.total, 20);
    // the item exists, so the quantity is replaced, not added, and lookups are ignored
    c.add_item("p1".to_string(), 3, None, None).unwrap();
    assert_eq!(c.items.len(), 1);
    assert_eq!(c.items[0].quantity, 3);
    assert_eq!(c.total, 30);
}

#[test]
fn total_tracks_every_mutation() {
    let mut c = Cart::new("u1".to_string());
    c.add_item("p1".to_string(), 2, Some(product("p1", "Widget", "Acme")), Some(price(10)))
        .unwrap();
    assert_eq!(c.total, 20);
    c.add_item("p2".to_string(), 3, Some(product("p2", "Gadget", "Acme")), Some(price(5)))
        .unwrap();
    assert_eq!(c.total, 35);
    c.update_item_quantity("p1".to_string(), 5).unwrap();
    assert_eq!(c.total, 65);
    c.remove_item("p2".to_string()).unwrap();
    assert_eq!(c.total, 50);
    c.clear();
    assert_eq!(c.total, 0);
}

#[test]
fn zero_quantity_is_kept_not_removed() {
    let mut c = Cart::new("u1".to_string());
    c.add_item("p1".to_string(), 2, Some(product("p1", "Widget", "Acme")), Some(price(10)))
        .unwrap();
    c.update_item_quantity("p1".to_string(), 0).unwrap();
    assert_eq!(c.items.len(), 1);
    assert_eq!(c.total, 0);
}

#[test]
fn remove_and_update_fail_on_absent_items() {
    let mut c = Cart::new("u1".to_string());
    assert!(matches!(c.remove_item("p1".to_string()), Err(RemoveItemError::ItemNotFound(_))));
    assert!(matches!(
        c.update_item_quantity("p1".to_string(), 2),
        Err(UpdateItemQuantityError::ItemNotFound(_))
    ));
}

#[test]
fn update_email_validates_syntax() {
    let mut c = Cart::new("u1".to_string());
    let r = c.update_email("definitely not an email".to_string());
    assert!(matches!(r, Err(UpdateEmailError::EmailNotValid(_))));
    assert!(c.email.is_none());
    c.update_email("user@example.com".to_string()).unwrap();
    assert_eq!(c.email.as_deref(), Some("user@example.com"));
}

#[test]
fn clear_keeps_email_and_history() {
    let mut c = Cart::new("u1".to_string());
    c.update_email("user@example.com".to_string()).unwrap();
    c.set_billing_address(address());
    c.add_item("p1".to_string(), 2, Some(product("p1", "Widget", "Acme")), Some(price(10)))
        .unwrap();
    c.clear();
    assert!(c.items.is_empty());
    assert!(c.billing_address.is_none());
    assert!(c.shipping_address.is_none());
    assert_eq!(c.total, 0);
    assert_eq!(c.email.as_deref(), Some("user@example.com"));
}

#[test]
fn validate_cart_checks_items_then_billing_then_email() {
    let mut c = Cart::new("u1".to_string());
    // empty items wins even with everything else missing
    assert!(matches!(validate_cart(&c), Err(CheckoutError::EmptyItems(_))));
    c.add_item("p1".to_string(), 1, Some(product("p1", "Widget", "Acme")), Some(price(10)))
        .unwrap();
    assert!(matches!(validate_cart(&c), Err(CheckoutError::BillingAddressNotSet(_))));
    c.set_billing_address(address());
    assert!(matches!(validate_cart(&c), Err(CheckoutError::EmptyEmail(_))));
    c.set_email("user@example.com".to_string());
    assert!(validate_cart(&c).is_ok());
}

#[test]
fn checkout_fails_without_changing_the_cart() {
    let mut c = Cart::new("u1".to_string());
    c.add_item("p1".to_string(), 2, Some(product("p1", "Widget", "Acme")), Some(price(10)))
        .unwrap();
    let r = c.checkout();
    assert!(matches!(r, Err(CheckoutError::BillingAddressNotSet(_))));
    assert_eq!(c.items.len(), 1);
    assert_eq!(c.total, 20);
    assert!(c.previous_order_ids.is_empty());
}

#[test]
fn checkout_creates_a_new_order_and_clears_the_cart() {
    let mut c = Cart::new("u1".to_string());
    c.add_item("p1".to_string(), 2, Some(product("p1", "Widget", "Acme")), Some(price(10)))
        .unwrap();
    c.set_billing_address(address());
    c.update_email("user@example.com".to_string()).unwrap();
    let (conf, order) = c.checkout().unwrap();
    assert_eq!(conf.order_id, order.order_id);
    assert_eq!(order.order_status, OrderStatus::New);
    assert_eq!(order.user_id, "u1");
    assert_eq!(order.email.as_deref(), Some("user@example.com"));
    assert_eq!(order.total, 20);
    assert_eq!(order.currency, "USD");
    assert_eq!(order.items.len(), 1);
    assert_eq!(order.items[0].product_id, "p1");
    assert_eq!(order.items[0].product_name, "Widget");
    assert_eq!(order.items[0].price, 10);
    assert_eq!(order.items[0].quantity, 2);
    let billing = order.billing_address.expect("billing address must carry over");
    assert_eq!(billing.street, "1 Main St");
    assert!(c.items.is_empty());
    assert_eq!(c.total, 0);
    assert_eq!(c.previous_order_ids, vec![conf.order_id.clone()]);
    assert_eq!(c.email.as_deref(), Some("user@example.com"));
}

#[test]
fn failed_order_creation_leaves_the_cart_retryable() {
    let mut c = Cart::new("u1".to_string());
    c.add_item("p1".to_string(), 2, Some(product("p1", "Widget", "Acme")), Some(price(10)))
        .unwrap();
    c.set_billing_address(address());
    c.set_email("user@example.com".to_string());
    let r = c.complete_checkout("o1".to_string(), false);
    assert!(matches!(r, Err(CheckoutError::OrderCreate(_))));
    assert_eq!(c.items.len(), 1);
    assert_eq!(c.total, 20);
    assert!(c.previous_order_ids.is_empty());
    let conf = c.complete_checkout("o1".to_string(), true).unwrap();
    assert_eq!(conf.order_id, "o1");
    assert!(c.items.is_empty());
    assert_eq!(c.previous_order_ids, vec!["o1".to_string()]);
}

#[test]
fn to_create_order_snapshots_the_cart() {
    let mut c = Cart::new("u1".to_string());
    c.add_item("p1".to_string(), 2, Some(product("p1", "Widget", "Acme")), Some(price(10)))
        .unwrap();
    c.set_shipping_address(address());
    let data = c.to_create_order();
    assert_eq!(data.user_id, "u1");
    assert_eq!(data.total, 20);
    assert_eq!(data.items.len(), 1);
    assert_eq!(data.items[0].product_brand, "Acme");
    assert!(data.billing_address.is_none());
    assert_eq!(data.shipping_address.expect("shipping carries over").city, "Springfield");
    // the cart itself is untouched
    assert_eq!(c.items.len(), 1);
}

#[test]
fn set_items_recomputes_total() {
    let mut c = Cart::new("u1".to_string());
    c.set_items(vec![
        shopping::cart::CartItem {
            product_id: "p1".to_string(),
            product_name: "Widget".to_string(),
            product_brand: "Acme".to_string(),
            price: 7,
            quantity: 3,
        },
    ]);
    assert_eq!(c.total, 21);
}
