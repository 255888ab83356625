use vstd::prelude::*;

use crate::common::{email_ok, email_parse_error, Address, AddressModel, CURRENCY_DEFAULT};
use crate::order::{
    has_item, items_nonneg, items_without, lemma_total_push,
    lemma_total_take_succ, lemma_total_without_le, set_quantities, total_of,
    BillingAddressNotSetError, CreateOrder, EmailNotValidError, EmptyEmailError, EmptyItemsError,
    ItemModel, ItemNotFoundError, Order, OrderItem, OrderStatus, PricingNotFoundError,
    ProductNotFoundError,
};
use crate::pricing::PricingItem;
use crate::product::Product;

verus! {

// ---------------------------------------------------------------------------
// Cart
//
// A per-user cart accumulates item snapshots and addresses, keeps its total
// equal to the sum of price times quantity after every mutation, and turns
// into an order at checkout: the cart is validated, an order-creation
// request is built from its state, and on success the cart is cleared and
// the new order id is appended to its history.
// ---------------------------------------------------------------------------

/// One cart line: a product snapshot (name, brand, unit price in minor
/// units taken at add time) and a quantity.
pub struct CartItem {
    pub product_id: String,
    pub product_name: String,
    pub product_brand: String,
    pub price: u64,
    pub quantity: u32,
}

impl View for CartItem {
    type V = ItemModel;

    open spec fn view(&self) -> ItemModel {
        ItemModel {
            product_id: self.product_id@,
            product_name: self.product_name@,
            product_brand: self.product_brand@,
            price: self.price as int,
            quantity: self.quantity as int,
        }
    }
}

impl Clone for CartItem {
    fn clone(&self) -> (res: Self)
        ensures
            res@ == self@,
    {
        CartItem {
            product_id: self.product_id.clone(),
            product_name: self.product_name.clone(),
            product_brand: self.product_brand.clone(),
            price: self.price,
            quantity: self.quantity,
        }
    }
}

impl CartItem {
    /// The same line as an order line.
    pub fn to_order_item(&self) -> (r: OrderItem)
        ensures
            r@ == self@,
    {
        OrderItem {
            product_id: self.product_id.clone(),
            product_name: self.product_name.clone(),
            product_brand: self.product_brand.clone(),
            price: self.price,
            quantity: self.quantity,
        }
    }
}

/// The views of a sequence of cart lines.
pub open spec fn cart_item_views(s: Seq<CartItem>) -> Seq<ItemModel> {
    s.map_values(|x: CartItem| x@)
}

/// The order-creation call failed downstream.
#[derive(Debug)]
pub struct OrderCreateError {
    pub message: String,
}

/// Why adding an item to a cart failed.
#[derive(Debug)]
pub enum AddItemError {
    ProductNotFound(ProductNotFoundError),
    PricingNotFound(PricingNotFoundError),
}

/// Why removing an item from a cart failed.
#[derive(Debug)]
pub enum RemoveItemError {
    ItemNotFound(ItemNotFoundError),
}

/// Why updating a cart's email failed.
#[derive(Debug)]
pub enum UpdateEmailError {
    EmailNotValid(EmailNotValidError),
}

/// Why updating a cart item's quantity failed.
#[derive(Debug)]
pub enum UpdateItemQuantityError {
    ItemNotFound(ItemNotFoundError),
}

/// Why checkout failed.
#[derive(Debug)]
pub enum CheckoutError {
    ProductNotFound(ProductNotFoundError),
    PricingNotFound(PricingNotFoundError),
    EmptyItems(EmptyItemsError),
    EmptyEmail(EmptyEmailError),
    BillingAddressNotSet(BillingAddressNotSetError),
    OrderCreate(OrderCreateError),
}

/// Why updating a cart's address failed.
#[derive(Debug)]
pub enum UpdateAddressError {
    AddressNotValid(AddressNotValidError),
}

/// The address is not valid.
#[derive(Debug)]
pub struct AddressNotValidError {
    pub message: String,
}

/// What a successful checkout hands back: the new order's id.
pub struct OrderConfirmation {
    pub order_id: String,
}

/// A handle naming one user's cart in a key-addressed registry of carts.
pub struct CartAgentId {
    id: String,
}

impl View for CartAgentId {
    type V = Seq<char>;

    closed spec fn view(&self) -> Seq<char> {
        self.id@
    }
}

impl CartAgentId {
    pub fn new(id: String) -> (r: Self)
        ensures
            r@ == id@,
    {
        CartAgentId { id }
    }
}

/// Mathematical model of a [`Cart`].
#[verifier::ext_equal]
pub struct CartModel {
    pub user_id: Seq<char>,
    pub email: Option<Seq<char>>,
    pub items: Seq<ItemModel>,
    pub billing_address: Option<AddressModel>,
    pub shipping_address: Option<AddressModel>,
    pub total: int,
    pub currency: Seq<char>,
    pub previous_order_ids: Seq<Seq<char>>,
}

/// A per-user cart: item snapshots, optional addresses and email, a derived
/// total, the cart's currency, and the ids of orders it has produced.
pub struct Cart {
    pub user_id: String,
    pub email: Option<String>,
    pub items: Vec<CartItem>,
    pub billing_address: Option<Address>,
    pub shipping_address: Option<Address>,
    pub total: u64,
    pub currency: String,
    pub previous_order_ids: Vec<String>,
}

impl View for Cart {
    type V = CartModel;

    open spec fn view(&self) -> CartModel {
        CartModel {
            user_id: self.user_id@,
            email: match self.email {
                Some(e) => Some(e@),
                None => None,
            },
            items: cart_item_views(self.items@),
            billing_address: match self.billing_address {
                Some(a) => Some(a@),
                None => None,
            },
            shipping_address: match self.shipping_address {
                Some(a) => Some(a@),
                None => None,
            },
            total: self.total as int,
            currency: self.currency@,
            previous_order_ids: self.previous_order_ids@.map_values(|s: String| s@),
        }
    }
}

/// The total of all cart lines, in minor units.
fn get_total_price(items: &Vec<CartItem>) -> (r: u64)
    requires
        total_of(cart_item_views(items@)) <= u64::MAX,
    ensures
        r as int == total_of(cart_item_views(items@)),
{
    let ghost s = cart_item_views(items@);
    proof {
        assert(items_nonneg(s));
    }
    let n = items.len();
    let mut total: u64 = 0;
    let mut i: usize = 0;
    while i < n
        invariant
            i <= n,
            n == items@.len(),
            s == cart_item_views(items@),
            items_nonneg(s),
            total_of(s) <= u64::MAX,
            total as int == total_of(s.take(i as int)),
        decreases n - i,
    {
        proof {
            lemma_total_take_succ(s, i as int);
            crate::order::lemma_total_prefix_bound(s, i as int + 1);
            vstd::arithmetic::mul::lemma_mul_nonnegative(s[i as int].price, s[i as int].quantity);
            assert(s[i as int] == items@[i as int]@);
        }
        let it = &items[i];
        total = total + it.price * (it.quantity as u64);
        i += 1;
    }
    proof {
        assert(s.take(n as int) =~= s);
    }
    total
}

/// Relies on `uuid::Uuid::new_v4` and its hyphenated `Display` form: a fresh
/// random order id. Nothing is promised of the value; it is drawn from the
/// process's random source.
#[verifier::external_body]
fn generate_order_id() -> String {
    uuid::Uuid::new_v4().to_string()
}

/// Validate a cart for checkout, in order: it must hold items, then a
/// billing address, then an email. The first failing check decides the
/// error; a cart that passes all three may check out.
pub fn validate_cart(cart: &Cart) -> (r: Result<(), CheckoutError>)
    ensures
        cart@.items.len() == 0 ==> r matches Err(CheckoutError::EmptyItems(_)),
        cart@.items.len() > 0 && cart@.billing_address is None ==> r matches Err(
            CheckoutError::BillingAddressNotSet(_),
        ),
        cart@.items.len() > 0 && cart@.billing_address is Some && cart@.email is None ==> r
            matches Err(CheckoutError::EmptyEmail(_)),
        cart@.items.len() > 0 && cart@.billing_address is Some && cart@.email is Some ==> r is Ok,
{
    if cart.items.len() == 0 {
        Err(CheckoutError::EmptyItems(EmptyItemsError {
            message: String::from_str("Empty items"),
        }))
    } else if cart.billing_address.is_none() {
        Err(CheckoutError::BillingAddressNotSet(BillingAddressNotSetError {
            message: String::from_str("Billing address not set"),
        }))
    } else if cart.email.is_none() {
        Err(CheckoutError::EmptyEmail(EmptyEmailError {
            message: String::from_str("Email not set"),
        }))
    } else {
        Ok(())
    }
}

impl Cart {
    /// The cart's total equals the sum of price times quantity over its
    /// items; established by the constructor and preserved by every
    /// operation.
    pub open spec fn wf(&self) -> bool {
        self@.total == total_of(self@.items)
    }

    /// A fresh cart for the user: no items, no addresses, no email, total
    /// zero, the default currency and no order history.
    pub fn new(user_id: String) -> (r: Self)
        ensures
            r@.user_id == user_id@,
            r@.email is None,
            r@.items == Seq::<ItemModel>::empty(),
            r@.billing_address is None,
            r@.shipping_address is None,
            r@.total == 0,
            r@.currency == CURRENCY_DEFAULT@,
            r@.previous_order_ids == Seq::<Seq<char>>::empty(),
            r.wf(),
    {
        let r = Cart {
            user_id,
            email: None,
            items: Vec::new(),
            billing_address: None,
            shipping_address: None,
            total: 0,
            currency: String::from_str(CURRENCY_DEFAULT),
            previous_order_ids: Vec::new(),
        };
        proof {
            assert(r@.items =~= Seq::<ItemModel>::empty());
            assert(r@.previous_order_ids =~= Seq::<Seq<char>>::empty());
        }
        r
    }

    /// Set the billing address, unconditionally.
    pub fn set_billing_address(&mut self, address: Address)
        requires
            old(self).wf(),
        ensures
            final(self).wf(),
            final(self)@ == (CartModel { billing_address: Some(address@), ..old(self)@ }),
    {
        self.billing_address = Some(address);
    }

    /// Set the shipping address, unconditionally.
    pub fn set_shipping_address(&mut self, address: Address)
        requires
            old(self).wf(),
        ensures
            final(self).wf(),
            final(self)@ == (CartModel { shipping_address: Some(address@), ..old(self)@ }),
    {
        self.shipping_address = Some(address);
    }

    /// Set the email, unconditionally; validation happens at the
    /// email-update and checkout boundaries, not here.
    pub fn set_email(&mut self, email: String)
        requires
            old(self).wf(),
        ensures
            final(self).wf(),
            final(self)@ == (CartModel { email: Some(email@), ..old(self)@ }),
    {
        self.email = Some(email);
    }

    /// Set the billing address through the cart's public operation surface;
    /// never fails.
    pub fn update_billing_address(&mut self, address: Address) -> (r: Result<
        (),
        UpdateAddressError,
    >)
        requires
            old(self).wf(),
        ensures
            final(self).wf(),
            r is Ok,
            final(self)@ == (CartModel { billing_address: Some(address@), ..old(self)@ }),
    {
        self.set_billing_address(address);
        Ok(())
    }

    /// Set the shipping address through the cart's public operation surface;
    /// never fails.
    pub fn update_shipping_address(&mut self, address: Address) -> (r: Result<
        (),
        UpdateAddressError,
    >)
        requires
            old(self).wf(),
        ensures
            final(self).wf(),
            r is Ok,
            final(self)@ == (CartModel { shipping_address: Some(address@), ..old(self)@ }),
    {
        self.set_shipping_address(address);
        Ok(())
    }

    /// Set the cart's email after validating it; a malformed address fails
    /// with EmailNotValid and changes nothing.
    pub fn update_email(&mut self, email: String) -> (r: Result<(), UpdateEmailError>)
        requires
            old(self).wf(),
        ensures
            final(self).wf(),
            email_ok(email@) ==> r is Ok && final(self)@ == (CartModel {
                email: Some(email@),
                ..old(self)@
            }),
            !email_ok(email@) ==> (r matches Err(UpdateEmailError::EmailNotValid(_))) && final(self)@ == old(self)@,
    {
        match email_parse_error(email.as_str()) {
            None => {
                self.set_email(email);
                Ok(())
            },
            Some(msg) => {
                let m = String::from_str("Invalid email: ").concat(msg.as_str());
                Err(UpdateEmailError::EmailNotValid(EmailNotValidError { message: m }))
            },
        }
    }

    /// Empty the items and addresses and reset the total; the email, the
    /// history and the currency stay.
    pub fn clear(&mut self)
        requires
            old(self).wf(),
        ensures
            final(self).wf(),
            final(self)@ == (CartModel {
                items: Seq::<ItemModel>::empty(),
                billing_address: None,
                shipping_address: None,
                total: 0,
                ..old(self)@
            }),
    {
        self.items.clear();
        self.billing_address = None;
        self.shipping_address = None;
        self.total = 0;
        proof {
            assert(final(self)@.items =~= Seq::<ItemModel>::empty());
        }
    }

    /// Record a completed checkout: clear the cart and append the new order
    /// id to its history.
    pub fn order_created(&mut self, order_id: String)
        requires
            old(self).wf(),
        ensures
            final(self).wf(),
            final(self)@ == (CartModel {
                items: Seq::<ItemModel>::empty(),
                billing_address: None,
                shipping_address: None,
                total: 0,
                previous_order_ids: old(self)@.previous_order_ids.push(order_id@),
                ..old(self)@
            }),
    {
        let ghost h0 = self@.previous_order_ids;
        self.clear();
        self.previous_order_ids.push(order_id);
        proof {
            assert(final(self)@.previous_order_ids =~= h0.push(order_id@));
        }
    }

    /// Replace the quantity of every line with the given product id,
    /// recomputing the total when anything matched.
    fn set_quantity(&mut self, product_id: &String, quantity: u32) -> (updated: bool)
        requires
            old(self).wf(),
            total_of(set_quantities(old(self)@.items, product_id@, quantity as int)) <= u64::MAX,
        ensures
            final(self).wf(),
            updated == has_item(old(self)@.items, product_id@),
            !updated ==> final(self)@ == old(self)@,
            updated ==> final(self)@ == (CartModel {
                items: set_quantities(old(self)@.items, product_id@, quantity as int),
                total: total_of(set_quantities(old(self)@.items, product_id@, quantity as int)),
                ..old(self)@
            }),
    {
        let ghost s0 = old(self)@.items;
        let ghost target = set_quantities(s0, product_id@, quantity as int);
        let n = self.items.len();
        let mut i: usize = 0;
        let mut updated = false;
        while i < n
            invariant
                i <= n,
                n == self.items@.len(),
                s0 == old(self)@.items,
                s0.len() == n,
                target == set_quantities(s0, product_id@, quantity as int),
                self@ == (CartModel { items: cart_item_views(self.items@), ..old(self)@ }),
                forall|j: int| i <= j < n ==> #[trigger] cart_item_views(self.items@)[j] == s0[j],
                forall|j: int|
                    0 <= j < i ==> #[trigger] cart_item_views(self.items@)[j] == target[j],
                updated == has_item(s0.take(i as int), product_id@),
            decreases n - i,
        {
            proof {
                assert(cart_item_views(self.items@)[i as int] == self.items@[i as int]@);
            }
            let matches_id = {
                let it = &self.items[i];
                it.product_id == *product_id
            };
            if matches_id {
                let ghost pv = cart_item_views(self.items@);
                let mut it = self.items[i].clone();
                it.quantity = quantity;
                self.items[i] = it;
                updated = true;
                proof {
                    assert(cart_item_views(self.items@) =~= pv.update(i as int, it@));
                    assert(cart_item_views(self.items@)[i as int] == target[i as int]);
                    assert(s0.take(i + 1)[i as int].product_id == product_id@);
                    assert(has_item(s0.take(i + 1), product_id@));
                }
            } else {
                proof {
                    assert(cart_item_views(self.items@)[i as int] == target[i as int]);
                    if has_item(s0.take(i + 1), product_id@) {
                        let j = choose|j: int|
                            0 <= j < i + 1 && (#[trigger] s0.take(i + 1)[j]).product_id
                                == product_id@;
                        if j == i {
                            assert(s0[i as int].product_id == product_id@);
                        } else {
                            assert(s0.take(i as int)[j] == s0[j]);
                            assert(has_item(s0.take(i as int), product_id@));
                        }
                    }
                    if has_item(s0.take(i as int), product_id@) {
                        let j = choose|j: int|
                            0 <= j < i && (#[trigger] s0.take(i as int)[j]).product_id
                                == product_id@;
                        assert(s0.take(i + 1)[j].product_id == product_id@);
                        assert(has_item(s0.take(i + 1), product_id@));
                    }
                }
            }
            i += 1;
        }
        proof {
            assert(s0.take(n as int) =~= s0);
            if updated {
                assert(cart_item_views(self.items@) =~= target);
            } else {
                assert forall|j: int| 0 <= j < n implies target[j] == s0[j] by {
                    if s0[j].product_id == product_id@ {
                        assert(s0.take(n as int)[j].product_id == product_id@);
                        assert(has_item(s0.take(n as int), product_id@));
                    }
                }
                assert(cart_item_views(self.items@) =~= s0);
                assert(target =~= s0);
            }
        }
        if updated {
            self.total = get_total_price(&self.items);
        }
        updated
    }

    /// Replace the quantity of the item with the given product id; fails
    /// with ItemNotFound when no such item exists.
    pub fn update_item_quantity(&mut self, product_id: String, quantity: u32) -> (r: Result<
        (),
        UpdateItemQuantityError,
    >)
        requires
            old(self).wf(),
            total_of(set_quantities(old(self)@.items, product_id@, quantity as int)) <= u64::MAX,
        ensures
            final(self).wf(),
            !has_item(old(self)@.items, product_id@) ==> (r matches Err(
                UpdateItemQuantityError::ItemNotFound(e),
            ) && e.product_id@ == product_id@) && final(self)@ == old(self)@,
            has_item(old(self)@.items, product_id@) ==> r is Ok && final(self)@ == (CartModel {
                items: set_quantities(old(self)@.items, product_id@, quantity as int),
                total: total_of(set_quantities(old(self)@.items, product_id@, quantity as int)),
                ..old(self)@
            }),
    {
        let updated = self.set_quantity(&product_id, quantity);
        if updated {
            Ok(())
        } else {
            Err(UpdateItemQuantityError::ItemNotFound(ItemNotFoundError::new(product_id)))
        }
    }

    /// Add a line for the product. When a line with this product id already
    /// exists, its quantity is overwritten (not added) and no lookup is
    /// read; otherwise the product and resolved-price responses decide,
    /// product first: a missing product fails with ProductNotFound, then a
    /// missing price with PricingNotFound, and otherwise a snapshot of the
    /// product's name, brand and resolved price is appended.
    pub fn add_item(
        &mut self,
        product_id: String,
        quantity: u32,
        product: Option<Product>,
        pricing: Option<PricingItem>,
    ) -> (r: Result<(), AddItemError>)
        requires
            old(self).wf(),
            total_of(set_quantities(old(self)@.items, product_id@, quantity as int)) <= u64::MAX,
            pricing matches Some(p) ==> total_of(old(self)@.items) + p@.price * quantity
                <= u64::MAX,
        ensures
            final(self).wf(),
            has_item(old(self)@.items, product_id@) ==> r is Ok && final(self)@ == (CartModel {
                items: set_quantities(old(self)@.items, product_id@, quantity as int),
                total: total_of(set_quantities(old(self)@.items, product_id@, quantity as int)),
                ..old(self)@
            }),
            !has_item(old(self)@.items, product_id@) && product is None ==> (r matches Err(
                AddItemError::ProductNotFound(e),
            ) && e.product_id@ == product_id@) && final(self)@ == old(self)@,
            !has_item(old(self)@.items, product_id@) && product is Some && pricing is None ==> (r
                matches Err(AddItemError::PricingNotFound(e)) && e.product_id@ == product_id@)
                && final(self)@ == old(self)@,
            !has_item(old(self)@.items, product_id@) ==> (product matches Some(pr) ==> (pricing
                matches Some(pi) ==> r is Ok && final(self)@ == (CartModel {
                items: old(self)@.items.push(
                    ItemModel {
                        product_id: product_id@,
                        product_name: pr@.name,
                        product_brand: pr@.brand,
                        price: pi@.price,
                        quantity: quantity as int,
                    },
                ),
                total: total_of(old(self)@.items) + pi@.price * quantity,
                ..old(self)@
            }))),
    {
        let updated = self.set_quantity(&product_id, quantity);
        if updated {
            return Ok(());
        }
        match (product, pricing) {
            (Some(pr), Some(pi)) => {
                let ghost s0 = self@.items;
                let item = CartItem {
                    product_id,
                    product_name: pr.name,
                    product_brand: pr.brand,
                    price: pi.price,
                    quantity,
                };
                let ghost xv = item@;
                self.items.push(item);
                proof {
                    assert(cart_item_views(self.items@) =~= s0.push(xv));
                    lemma_total_push(s0, xv);
                }
                self.total = get_total_price(&self.items);
                Ok(())
            },
            (None, _) => Err(AddItemError::ProductNotFound(ProductNotFoundError::new(product_id))),
            (_, None) => Err(AddItemError::PricingNotFound(PricingNotFoundError::new(product_id))),
        }
    }

    /// Remove every line with the given product id and recompute the total;
    /// fails with ItemNotFound when no such line exists.
    pub fn remove_item(&mut self, product_id: String) -> (r: Result<(), RemoveItemError>)
        requires
            old(self).wf(),
        ensures
            final(self).wf(),
            !has_item(old(self)@.items, product_id@) ==> (r matches Err(
                RemoveItemError::ItemNotFound(e),
            ) && e.product_id@ == product_id@) && final(self)@ == old(self)@,
            has_item(old(self)@.items, product_id@) ==> r is Ok && final(self)@ == (CartModel {
                items: items_without(old(self)@.items, product_id@),
                total: total_of(items_without(old(self)@.items, product_id@)),
                ..old(self)@
            }),
    {
        let exists_item = cart_find_item(&self.items, &product_id);
        if !exists_item {
            return Err(RemoveItemError::ItemNotFound(ItemNotFoundError::new(product_id)));
        }
        let ghost s0 = old(self)@.items;
        let n = self.items.len();
        let mut kept: Vec<CartItem> = Vec::new();
        let mut i: usize = 0;
        while i < n
            invariant
                i <= n,
                n == self.items@.len(),
                s0 == cart_item_views(self.items@),
                self@ == old(self)@,
                cart_item_views(kept@) == items_without(s0.take(i as int), product_id@),
            decreases n - i,
        {
            proof {
                assert(cart_item_views(self.items@)[i as int] == self.items@[i as int]@);
                crate::order::lemma_items_without_take_succ(s0, product_id@, i as int);
            }
            let ghost kv0 = cart_item_views(kept@);
            let matches_id = {
                let it = &self.items[i];
                it.product_id == product_id
            };
            if !matches_id {
                let it = self.items[i].clone();
                kept.push(it);
                proof {
                    assert(cart_item_views(kept@) =~= kv0.push(s0[i as int]));
                }
            }
            i += 1;
        }
        proof {
            assert(s0.take(n as int) =~= s0);
            assert(items_nonneg(s0));
            lemma_total_without_le(s0, product_id@);
        }
        self.items = kept;
        self.total = get_total_price(&self.items);
        Ok(())
    }

    /// Replace the cart's lines wholesale and recompute the total; used by
    /// hosts that refresh item snapshots from the catalog and pricing
    /// collaborators.
    pub fn set_items(&mut self, items: Vec<CartItem>)
        requires
            old(self).wf(),
            total_of(cart_item_views(items@)) <= u64::MAX,
        ensures
            final(self).wf(),
            final(self)@ == (CartModel {
                items: cart_item_views(items@),
                total: total_of(cart_item_views(items@)),
                ..old(self)@
            }),
    {
        let total = get_total_price(&items);
        self.items = items;
        self.total = total;
    }

    /// The order-creation request for this cart's current state: the same
    /// items, addresses, email, total and currency.
    pub fn to_create_order(&self) -> (r: CreateOrder)
        ensures
            r@.user_id == self@.user_id,
            r@.email == self@.email,
            r@.items == self@.items,
            r@.billing_address == self@.billing_address,
            r@.shipping_address == self@.shipping_address,
            r@.total == self@.total,
            r@.currency == self@.currency,
            self.wf() ==> r.wf(),
    {
        let n = self.items.len();
        let mut items: Vec<OrderItem> = Vec::new();
        let mut i: usize = 0;
        while i < n
            invariant
                i <= n,
                n == self.items@.len(),
                crate::order::order_item_views(items@) == cart_item_views(self.items@).take(
                    i as int,
                ),
            decreases n - i,
        {
            let ghost kv0 = crate::order::order_item_views(items@);
            proof {
                assert(cart_item_views(self.items@)[i as int] == self.items@[i as int]@);
            }
            let it = self.items[i].to_order_item();
            items.push(it);
            proof {
                assert(crate::order::order_item_views(items@) =~= kv0.push(
                    cart_item_views(self.items@)[i as int],
                ));
                assert(cart_item_views(self.items@).take(i + 1) =~= cart_item_views(
                    self.items@,
                ).take(i as int).push(cart_item_views(self.items@)[i as int]));
            }
            i += 1;
        }
        proof {
            assert(cart_item_views(self.items@).take(n as int) =~= cart_item_views(self.items@));
        }
        let r = CreateOrder {
            user_id: self.user_id.clone(),
            email: match &self.email {
                Some(e) => Some(e.clone()),
                None => None,
            },
            items,
            billing_address: match &self.billing_address {
                Some(a) => Some(a.clone()),
                None => None,
            },
            shipping_address: match &self.shipping_address {
                Some(a) => Some(a.clone()),
                None => None,
            },
            total: self.total,
            currency: self.currency.clone(),
        };
        r
    }

    /// Check out the cart: validate it (items, then billing address, then
    /// email), create a New order under a freshly generated id initialized
    /// with the cart's state, and on success clear the cart, append the new
    /// order id to its history and return the confirmation together with
    /// the order. A failing validation leaves the cart unchanged.
    pub fn checkout(&mut self) -> (r: Result<(OrderConfirmation, Order), CheckoutError>)
        requires
            old(self).wf(),
        ensures
            final(self).wf(),
            old(self)@.items.len() == 0 ==> (r matches Err(CheckoutError::EmptyItems(_))) && final(self)@ == old(self)@,
            old(self)@.items.len() > 0 && old(self)@.billing_address is None ==> (r matches Err(
                CheckoutError::BillingAddressNotSet(_),
            )) && final(self)@ == old(self)@,
            old(self)@.items.len() > 0 && old(self)@.billing_address is Some && old(self)@.email is None ==> (r matches Err(CheckoutError::EmptyEmail(_))) && final(self)@
                == old(self)@,
            old(self)@.items.len() > 0 && old(self)@.billing_address is Some && old(self)@.email is Some ==> (r matches Ok(p) && {
                let conf = p.0;
                let order = p.1;
                &&& conf.order_id@ == order@.order_id
                &&& order@.order_status == OrderStatus::New
                &&& order@.user_id == old(self)@.user_id
                &&& order@.email == old(self)@.email
                &&& order@.items == old(self)@.items
                &&& order@.billing_address == old(self)@.billing_address
                &&& order@.shipping_address == old(self)@.shipping_address
                &&& order@.total == old(self)@.total
                &&& order@.currency == old(self)@.currency
                &&& order.wf()
                &&& final(self)@ == (CartModel {
                    items: Seq::<ItemModel>::empty(),
                    billing_address: None,
                    shipping_address: None,
                    total: 0,
                    previous_order_ids: old(self)@.previous_order_ids.push(order@.order_id),
                    ..old(self)@
                })
            }),
    {
        match validate_cart(self) {
            Err(e) => Err(e),
            Ok(()) => {
                let order_id = generate_order_id();
                let data = self.to_create_order();
                let mut order = Order::new(order_id.clone(), self.user_id.clone());
                let init = order.initialize_order(data);
                proof {
                    assert(init is Ok);
                }
                self.order_created(order_id);
                let conf = OrderConfirmation { order_id: order.order_id.clone() };
                Ok((conf, order))
            },
        }
    }

    /// Commit or abandon a checkout whose order-initialization step ran
    /// elsewhere, for hosts that create the order through a remote order
    /// component: when the step succeeded the cart is cleared and the order
    /// id joins its history, and when it failed the checkout fails with
    /// OrderCreate and the cart is left completely unchanged, safe to retry.
    pub fn complete_checkout(&mut self, order_id: String, created: bool) -> (r: Result<
        OrderConfirmation,
        CheckoutError,
    >)
        requires
            old(self).wf(),
        ensures
            final(self).wf(),
            !created ==> (r matches Err(CheckoutError::OrderCreate(_))) && final(self)@ == old(self)@,
            created ==> (r matches Ok(conf) && conf.order_id@ == order_id@) && final(self)@ == (
            CartModel {
                items: Seq::<ItemModel>::empty(),
                billing_address: None,
                shipping_address: None,
                total: 0,
                previous_order_ids: old(self)@.previous_order_ids.push(order_id@),
                ..old(self)@
            }),
    {
        if created {
            let conf = OrderConfirmation { order_id: order_id.clone() };
            self.order_created(order_id);
            Ok(conf)
        } else {
            Err(CheckoutError::OrderCreate(OrderCreateError {
                message: String::from_str("Failed to create order"),
            }))
        }
    }
}

/// Whether some line of `items` carries the given product id.
fn cart_find_item(items: &Vec<CartItem>, product_id: &String) -> (r: bool)
    ensures
        r == has_item(cart_item_views(items@), product_id@),
{
    let n = items.len();
    let mut i: usize = 0;
    while i < n
        invariant
            i <= n,
            n == items@.len(),
            forall|j: int|
                0 <= j < i ==> (#[trigger] cart_item_views(items@)[j]).product_id != product_id@,
        decreases n - i,
    {
        let it = &items[i];
        if it.product_id == *product_id {
            proof {
                assert(cart_item_views(items@)[i as int].product_id == product_id@);
            }
            return true;
        }
        i += 1;
    }
    false
}

} // verus!
