use vstd::prelude::*;

use crate::common::{email_parse_error, Address, AddressModel, CURRENCY_DEFAULT};
use crate::common::email_ok;
use crate::pricing::PricingItem;
use crate::product::Product;

verus! {

// ---------------------------------------------------------------------------
// Order lifecycle
//
// An order is created with status New and progresses to one of the terminal
// states Shipped or Cancelled. Every field mutation is gated by the status:
// it is permitted only while the order is New, and fails with
// ActionNotAllowed carrying the current status otherwise. The order's total
// is recomputed synchronously after every item mutation, so the invariant
// `total == sum of price * quantity` holds after each operation.
// ---------------------------------------------------------------------------

/// Mathematical model of a cart or order line item.
#[verifier::ext_equal]
pub struct ItemModel {
    pub product_id: Seq<char>,
    pub product_name: Seq<char>,
    pub product_brand: Seq<char>,
    pub price: int,
    pub quantity: int,
}

/// One order line: a product snapshot (name, brand, unit price in minor
/// units taken at add time) and a quantity.
pub struct OrderItem {
    pub product_id: String,
    pub product_name: String,
    pub product_brand: String,
    pub price: u64,
    pub quantity: u32,
}

impl View for OrderItem {
    type V = ItemModel;

    open spec fn view(&self) -> ItemModel {
        ItemModel {
            product_id: self.product_id@,
            product_name: self.product_name@,
            product_brand: self.product_brand@,
            price: self.price as int,
            quantity: self.quantity as int,
        }
    }
}

impl Clone for OrderItem {
    fn clone(&self) -> (res: Self)
        ensures
            res@ == self@,
    {
        OrderItem {
            product_id: self.product_id.clone(),
            product_name: self.product_name.clone(),
            product_brand: self.product_brand.clone(),
            price: self.price,
            quantity: self.quantity,
        }
    }
}

/// The views of a sequence of order lines.
pub open spec fn order_item_views(s: Seq<OrderItem>) -> Seq<ItemModel> {
    s.map_values(|x: OrderItem| x@)
}

/// The total of a sequence of line items: the sum of price times quantity.
pub open spec fn total_of(items: Seq<ItemModel>) -> int
    decreases items.len(),
{
    if items.len() == 0 {
        0
    } else {
        total_of(items.drop_last()) + items.last().price * items.last().quantity
    }
}

/// Every item carries a non-negative price and quantity; true of the view of
/// any executable item sequence.
pub open spec fn items_nonneg(s: Seq<ItemModel>) -> bool {
    forall|i: int| 0 <= i < s.len() ==> #[trigger] s[i].price >= 0 && s[i].quantity >= 0
}

/// Whether some item of `s` carries the product id `pid`.
pub open spec fn has_item(s: Seq<ItemModel>, pid: Seq<char>) -> bool {
    exists|i: int| 0 <= i < s.len() && (#[trigger] s[i]).product_id == pid
}

/// Every item with product id `pid` gets its quantity replaced by `q`.
pub open spec fn set_quantities(s: Seq<ItemModel>, pid: Seq<char>, q: int) -> Seq<ItemModel> {
    s.map_values(
        |it: ItemModel|
            if it.product_id == pid {
                ItemModel { quantity: q, ..it }
            } else {
                it
            },
    )
}

/// Every item with product id `pid` gets `q` added to its quantity.
pub open spec fn bump_quantities(s: Seq<ItemModel>, pid: Seq<char>, q: int) -> Seq<ItemModel> {
    s.map_values(
        |it: ItemModel|
            if it.product_id == pid {
                ItemModel { quantity: it.quantity + q, ..it }
            } else {
                it
            },
    )
}

pub(crate) proof fn lemma_total_take_succ(s: Seq<ItemModel>, i: int)
    requires
        0 <= i < s.len(),
    ensures
        total_of(s.take(i + 1)) == total_of(s.take(i)) + s[i].price * s[i].quantity,
{
    assert(s.take(i + 1).drop_last() =~= s.take(i));
    assert(s.take(i + 1).last() == s[i]);
}

pub(crate) proof fn lemma_total_prefix_bound(s: Seq<ItemModel>, i: int)
    requires
        items_nonneg(s),
        0 <= i <= s.len(),
    ensures
        total_of(s.take(i)) <= total_of(s),
        total_of(s.take(i)) >= 0,
    decreases s.len() - i,
{
    if i == s.len() {
        assert(s.take(i) =~= s);
        lemma_total_nonneg(s);
    } else {
        lemma_total_take_succ(s, i);
        vstd::arithmetic::mul::lemma_mul_nonnegative(s[i].price, s[i].quantity);
        lemma_total_prefix_bound(s, i + 1);
        assert(total_of(s.take(i)) <= total_of(s.take(i + 1)));
        lemma_total_prefix_nonneg(s, i);
    }
}

pub(crate) proof fn lemma_total_nonneg(s: Seq<ItemModel>)
    requires
        items_nonneg(s),
    ensures
        total_of(s) >= 0,
    decreases s.len(),
{
    if s.len() > 0 {
        assert(items_nonneg(s.drop_last())) by {
            assert(forall|i: int|
                0 <= i < s.drop_last().len() ==> #[trigger] s.drop_last()[i] == s[i]);
        }
        lemma_total_nonneg(s.drop_last());
        vstd::arithmetic::mul::lemma_mul_nonnegative(s.last().price, s.last().quantity);
    }
}

pub(crate) proof fn lemma_total_prefix_nonneg(s: Seq<ItemModel>, i: int)
    requires
        items_nonneg(s),
        0 <= i <= s.len(),
    ensures
        total_of(s.take(i)) >= 0,
{
    assert(items_nonneg(s.take(i))) by {
        assert(forall|j: int| 0 <= j < s.take(i).len() ==> #[trigger] s.take(i)[j] == s[j]);
    }
    lemma_total_nonneg(s.take(i));
}

/// The total of all order lines, in minor units.
pub fn get_total_price(items: &Vec<OrderItem>) -> (r: u64)
    requires
        total_of(order_item_views(items@)) <= u64::MAX,
    ensures
        r as int == total_of(order_item_views(items@)),
{
    let ghost s = order_item_views(items@);
    proof {
        assert(items_nonneg(s));
    }
    let n = items.len();
    let mut total: u64 = 0;
    let mut i: usize = 0;
    while i < n
        invariant
            i <= n,
            n == items@.len(),
            s == order_item_views(items@),
            items_nonneg(s),
            total_of(s) <= u64::MAX,
            total as int == total_of(s.take(i as int)),
        decreases n - i,
    {
        proof {
            lemma_total_take_succ(s, i as int);
            lemma_total_prefix_bound(s, i as int + 1);
            vstd::arithmetic::mul::lemma_mul_nonnegative(s[i as int].price, s[i as int].quantity);
            assert(s[i as int] == items@[i as int]@);
        }
        let it = &items[i];
        total = total + it.price * (it.quantity as u64);
        i += 1;
    }
    proof {
        assert(s.take(n as int) =~= s);
    }
    total
}

/// The lifecycle state of an order. New is the only state that permits
/// mutation; Shipped and Cancelled are terminal.
#[derive(Clone, Copy, PartialEq, Eq, Structural, Debug)]
pub enum OrderStatus {
    New,
    Shipped,
    Cancelled,
}

/// The action is not permitted while the order is in its current status.
#[derive(Debug)]
pub struct ActionNotAllowedError {
    pub message: String,
    pub status: OrderStatus,
}

impl ActionNotAllowedError {
    pub fn new(status: OrderStatus) -> (r: ActionNotAllowedError)
        ensures
            r.status == status,
    {
        ActionNotAllowedError { message: String::from_str("Can not update order with status"), status }
    }
}

/// No item with the requested product id exists.
#[derive(Debug)]
pub struct ItemNotFoundError {
    pub message: String,
    pub product_id: String,
}

impl ItemNotFoundError {
    pub fn new(product_id: String) -> (r: ItemNotFoundError)
        ensures
            r.product_id@ == product_id@,
    {
        ItemNotFoundError { message: String::from_str("Item not found"), product_id }
    }
}

/// No price could be resolved for the product.
#[derive(Debug)]
pub struct PricingNotFoundError {
    pub message: String,
    pub product_id: String,
}

impl PricingNotFoundError {
    pub fn new(product_id: String) -> (r: PricingNotFoundError)
        ensures
            r.product_id@ == product_id@,
    {
        PricingNotFoundError { message: String::from_str("Pricing not found"), product_id }
    }
}

/// No product record exists for the product id.
#[derive(Debug)]
pub struct ProductNotFoundError {
    pub message: String,
    pub product_id: String,
}

impl ProductNotFoundError {
    pub fn new(product_id: String) -> (r: ProductNotFoundError)
        ensures
            r.product_id@ == product_id@,
    {
        ProductNotFoundError { message: String::from_str("Product not found"), product_id }
    }
}

/// The email address is not syntactically well-formed.
#[derive(Debug)]
pub struct EmailNotValidError {
    pub message: String,
}

/// The order or cart holds no items.
#[derive(Debug)]
pub struct EmptyItemsError {
    pub message: String,
}

/// The address is not valid.
#[derive(Debug)]
pub struct AddressNotValidError {
    pub message: String,
}

/// No billing address has been set.
#[derive(Debug)]
pub struct BillingAddressNotSetError {
    pub message: String,
}

/// No email address has been set.
#[derive(Debug)]
pub struct EmptyEmailError {
    pub message: String,
}

/// Why adding an item to an order failed.
#[derive(Debug)]
pub enum AddItemError {
    ProductNotFound(ProductNotFoundError),
    PricingNotFound(PricingNotFoundError),
    ActionNotAllowed(ActionNotAllowedError),
}

/// Why removing an item from an order failed.
#[derive(Debug)]
pub enum RemoveItemError {
    ItemNotFound(ItemNotFoundError),
    ActionNotAllowed(ActionNotAllowedError),
}

/// Why shipping an order failed.
#[derive(Debug)]
pub enum ShipOrderError {
    EmptyItems(EmptyItemsError),
    EmptyEmail(EmptyEmailError),
    BillingAddressNotSet(BillingAddressNotSetError),
    ActionNotAllowed(ActionNotAllowedError),
}

/// Why updating an order's email failed.
#[derive(Debug)]
pub enum UpdateEmailError {
    EmailNotValid(EmailNotValidError),
    ActionNotAllowed(ActionNotAllowedError),
}

/// Why updating an item's quantity on an order failed.
#[derive(Debug)]
pub enum UpdateItemQuantityError {
    ItemNotFound(ItemNotFoundError),
    ActionNotAllowed(ActionNotAllowedError),
}

/// Why cancelling an order failed.
#[derive(Debug)]
pub enum CancelOrderError {
    ActionNotAllowed(ActionNotAllowedError),
}

/// Why initializing an order failed.
#[derive(Debug)]
pub enum InitOrderError {
    ActionNotAllowed(ActionNotAllowedError),
}

/// Why updating an order's address failed.
#[derive(Debug)]
pub enum UpdateAddressError {
    AddressNotValid(AddressNotValidError),
    ActionNotAllowed(ActionNotAllowedError),
}

/// Mathematical model of an [`Order`].
#[verifier::ext_equal]
pub struct OrderModel {
    pub order_id: Seq<char>,
    pub user_id: Seq<char>,
    pub email: Option<Seq<char>>,
    pub order_status: OrderStatus,
    pub items: Seq<ItemModel>,
    pub billing_address: Option<AddressModel>,
    pub shipping_address: Option<AddressModel>,
    pub total: int,
    pub currency: Seq<char>,
}

/// A post-checkout order: its identity, its line items and addresses, and
/// the lifecycle status that gates every mutation.
pub struct Order {
    pub order_id: String,
    pub user_id: String,
    pub email: Option<String>,
    pub order_status: OrderStatus,
    pub items: Vec<OrderItem>,
    pub billing_address: Option<Address>,
    pub shipping_address: Option<Address>,
    pub total: u64,
    pub currency: String,
}

impl View for Order {
    type V = OrderModel;

    open spec fn view(&self) -> OrderModel {
        OrderModel {
            order_id: self.order_id@,
            user_id: self.user_id@,
            email: match self.email {
                Some(e) => Some(e@),
                None => None,
            },
            order_status: self.order_status,
            items: order_item_views(self.items@),
            billing_address: match self.billing_address {
                Some(a) => Some(a@),
                None => None,
            },
            shipping_address: match self.shipping_address {
                Some(a) => Some(a@),
                None => None,
            },
            total: self.total as int,
            currency: self.currency@,
        }
    }
}

/// Mathematical model of a [`CreateOrder`] request.
#[verifier::ext_equal]
pub struct CreateOrderModel {
    pub user_id: Seq<char>,
    pub email: Option<Seq<char>>,
    pub items: Seq<ItemModel>,
    pub billing_address: Option<AddressModel>,
    pub shipping_address: Option<AddressModel>,
    pub total: int,
    pub currency: Seq<char>,
}

/// The order-creation request that checkout hands to the order component:
/// a snapshot of the cart's items, addresses, email, total and currency.
pub struct CreateOrder {
    pub user_id: String,
    pub email: Option<String>,
    pub items: Vec<OrderItem>,
    pub billing_address: Option<Address>,
    pub shipping_address: Option<Address>,
    pub total: u64,
    pub currency: String,
}

impl View for CreateOrder {
    type V = CreateOrderModel;

    open spec fn view(&self) -> CreateOrderModel {
        CreateOrderModel {
            user_id: self.user_id@,
            email: match self.email {
                Some(e) => Some(e@),
                None => None,
            },
            items: order_item_views(self.items@),
            billing_address: match self.billing_address {
                Some(a) => Some(a@),
                None => None,
            },
            shipping_address: match self.shipping_address {
                Some(a) => Some(a@),
                None => None,
            },
            total: self.total as int,
            currency: self.currency@,
        }
    }
}

impl CreateOrder {
    /// The request carries a total consistent with its items.
    pub open spec fn wf(&self) -> bool {
        self@.total == total_of(self@.items)
    }
}

impl Order {
    /// The order's total equals the sum of price times quantity over its
    /// items; established by the constructor and preserved by every
    /// operation.
    pub open spec fn wf(&self) -> bool {
        self@.total == total_of(self@.items)
    }

    /// A fresh order: status New, no items, no addresses, no email, total
    /// zero and the default currency.
    pub fn new(order_id: String, user_id: String) -> (r: Self)
        ensures
            r@.order_id == order_id@,
            r@.user_id == user_id@,
            r@.email is None,
            r@.order_status == OrderStatus::New,
            r@.items == Seq::<ItemModel>::empty(),
            r@.billing_address is None,
            r@.shipping_address is None,
            r@.total == 0,
            r@.currency == CURRENCY_DEFAULT@,
            r.wf(),
    {
        let r = Order {
            order_id,
            user_id,
            email: None,
            order_status: OrderStatus::New,
            items: Vec::new(),
            billing_address: None,
            shipping_address: None,
            total: 0,
            currency: String::from_str(CURRENCY_DEFAULT),
        };
        proof {
            assert(r@.items =~= Seq::<ItemModel>::empty());
        }
        r
    }

    /// Copy every field of the request into the order. Allowed only while
    /// the order is New; fails with ActionNotAllowed carrying the current
    /// status otherwise, leaving the order unchanged.
    pub fn initialize_order(&mut self, data: CreateOrder) -> (r: Result<(), InitOrderError>)
        requires
            old(self).wf(),
            data.wf(),
        ensures
            final(self).wf(),
            old(self)@.order_status == OrderStatus::New ==> r is Ok && final(self)@ == (OrderModel {
                user_id: data@.user_id,
                email: data@.email,
                items: data@.items,
                billing_address: data@.billing_address,
                shipping_address: data@.shipping_address,
                total: data@.total,
                currency: data@.currency,
                ..old(self)@
            }),
            old(self)@.order_status != OrderStatus::New ==> (r matches Err(
                InitOrderError::ActionNotAllowed(e),
            ) && e.status == old(self)@.order_status) && final(self)@ == old(self)@,
    {
        if self.order_status == OrderStatus::New {
            self.user_id = data.user_id;
            self.email = data.email;
            self.items = data.items;
            self.billing_address = data.billing_address;
            self.shipping_address = data.shipping_address;
            self.total = data.total;
            self.currency = data.currency;
            Ok(())
        } else {
            Err(InitOrderError::ActionNotAllowed(ActionNotAllowedError::new(self.order_status)))
        }
    }

    /// Transition a New order to Shipped, after checking in order that it
    /// has items, a billing address and an email. Fails with
    /// ActionNotAllowed on a non-New order, and with the first failing check
    /// otherwise, leaving the order unchanged in every failing case.
    pub fn ship_order(&mut self) -> (r: Result<(), ShipOrderError>)
        requires
            old(self).wf(),
        ensures
            final(self).wf(),
            old(self)@.order_status != OrderStatus::New ==> (r matches Err(
                ShipOrderError::ActionNotAllowed(e),
            ) && e.status == old(self)@.order_status) && final(self)@ == old(self)@,
            old(self)@.order_status == OrderStatus::New && old(self)@.items.len() == 0 ==> (r
                matches Err(ShipOrderError::EmptyItems(_))) && final(self)@ == old(self)@,
            old(self)@.order_status == OrderStatus::New && old(self)@.items.len() > 0 && old(
                self,
            )@.billing_address is None ==> (r matches Err(ShipOrderError::BillingAddressNotSet(_)))
                && final(self)@ == old(self)@,
            old(self)@.order_status == OrderStatus::New && old(self)@.items.len() > 0 && old(
                self,
            )@.billing_address is Some && old(self)@.email is None ==> (r matches Err(
                ShipOrderError::EmptyEmail(_),
            )) && final(self)@ == old(self)@,
            old(self)@.order_status == OrderStatus::New && old(self)@.items.len() > 0 && old(
                self,
            )@.billing_address is Some && old(self)@.email is Some ==> r is Ok && final(self)@ == (
            OrderModel { order_status: OrderStatus::Shipped, ..old(self)@ }),
    {
        if self.order_status != OrderStatus::New {
            Err(ShipOrderError::ActionNotAllowed(ActionNotAllowedError::new(self.order_status)))
        } else if self.items.len() == 0 {
            Err(ShipOrderError::EmptyItems(EmptyItemsError {
                message: String::from_str("Empty items"),
            }))
        } else if self.billing_address.is_none() {
            Err(ShipOrderError::BillingAddressNotSet(BillingAddressNotSetError {
                message: String::from_str("Billing address not set"),
            }))
        } else if self.email.is_none() {
            Err(ShipOrderError::EmptyEmail(EmptyEmailError {
                message: String::from_str("Email not set"),
            }))
        } else {
            self.order_status = OrderStatus::Shipped;
            Ok(())
        }
    }

    /// Transition a New order to Cancelled, unconditionally; on a Shipped or
    /// Cancelled order fail with ActionNotAllowed carrying the current
    /// status, leaving the status unchanged.
    pub fn cancel_order(&mut self) -> (r: Result<(), CancelOrderError>)
        requires
            old(self).wf(),
        ensures
            final(self).wf(),
            old(self)@.order_status == OrderStatus::New ==> r is Ok && final(self)@ == (OrderModel {
                order_status: OrderStatus::Cancelled,
                ..old(self)@
            }),
            old(self)@.order_status != OrderStatus::New ==> (r matches Err(
                CancelOrderError::ActionNotAllowed(e),
            ) && e.status == old(self)@.order_status) && final(self)@ == old(self)@,
    {
        if self.order_status == OrderStatus::New {
            self.order_status = OrderStatus::Cancelled;
            Ok(())
        } else {
            Err(CancelOrderError::ActionNotAllowed(ActionNotAllowedError::new(self.order_status)))
        }
    }

    /// Set the order's email after validating it. Gated by status; a
    /// malformed address fails with EmailNotValid and changes nothing.
    pub fn update_email(&mut self, email: String) -> (r: Result<(), UpdateEmailError>)
        requires
            old(self).wf(),
        ensures
            final(self).wf(),
            old(self)@.order_status != OrderStatus::New ==> (r matches Err(
                UpdateEmailError::ActionNotAllowed(e),
            ) && e.status == old(self)@.order_status) && final(self)@ == old(self)@,
            old(self)@.order_status == OrderStatus::New && email_ok(email@) ==> r is Ok
                && final(self)@ == (OrderModel { email: Some(email@), ..old(self)@ }),
            old(self)@.order_status == OrderStatus::New && !email_ok(email@) ==> (r matches Err(
                UpdateEmailError::EmailNotValid(_),
            )) && final(self)@ == old(self)@,
    {
        if self.order_status != OrderStatus::New {
            return Err(UpdateEmailError::ActionNotAllowed(ActionNotAllowedError::new(
                self.order_status,
            )));
        }
        match email_parse_error(email.as_str()) {
            None => {
                self.email = Some(email);
                Ok(())
            },
            Some(msg) => {
                let m = String::from_str("Invalid email: ").concat(msg.as_str());
                Err(UpdateEmailError::EmailNotValid(EmailNotValidError { message: m }))
            },
        }
    }

    /// Set the billing address. Gated by status; never fails otherwise.
    pub fn update_billing_address(&mut self, address: Address) -> (r: Result<
        (),
        UpdateAddressError,
    >)
        requires
            old(self).wf(),
        ensures
            final(self).wf(),
            old(self)@.order_status != OrderStatus::New ==> (r matches Err(
                UpdateAddressError::ActionNotAllowed(e),
            ) && e.status == old(self)@.order_status) && final(self)@ == old(self)@,
            old(self)@.order_status == OrderStatus::New ==> r is Ok && final(self)@ == (OrderModel {
                billing_address: Some(address@),
                ..old(self)@
            }),
    {
        if self.order_status == OrderStatus::New {
            self.billing_address = Some(address);
            Ok(())
        } else {
            Err(UpdateAddressError::ActionNotAllowed(ActionNotAllowedError::new(
                self.order_status,
            )))
        }
    }

    /// Set the shipping address. Gated by status; never fails otherwise.
    pub fn update_shipping_address(&mut self, address: Address) -> (r: Result<
        (),
        UpdateAddressError,
    >)
        requires
            old(self).wf(),
        ensures
            final(self).wf(),
            old(self)@.order_status != OrderStatus::New ==> (r matches Err(
                UpdateAddressError::ActionNotAllowed(e),
            ) && e.status == old(self)@.order_status) && final(self)@ == old(self)@,
            old(self)@.order_status == OrderStatus::New ==> r is Ok && final(self)@ == (OrderModel {
                shipping_address: Some(address@),
                ..old(self)@
            }),
    {
        if self.order_status == OrderStatus::New {
            self.shipping_address = Some(address);
            Ok(())
        } else {
            Err(UpdateAddressError::ActionNotAllowed(ActionNotAllowedError::new(
                self.order_status,
            )))
        }
    }
}


/// The items of `s` whose product id is not `pid`, in order.
pub open spec fn items_without(s: Seq<ItemModel>, pid: Seq<char>) -> Seq<ItemModel>
    decreases s.len(),
{
    if s.len() == 0 {
        s
    } else {
        let rest = items_without(s.drop_last(), pid);
        if s.last().product_id != pid {
            rest.push(s.last())
        } else {
            rest
        }
    }
}

pub(crate) proof fn lemma_total_push(s: Seq<ItemModel>, x: ItemModel)
    ensures
        total_of(s.push(x)) == total_of(s) + x.price * x.quantity,
{
    assert(s.push(x).drop_last() =~= s);
    assert(s.push(x).last() == x);
}

pub(crate) proof fn lemma_total_without_le(s: Seq<ItemModel>, pid: Seq<char>)
    requires
        items_nonneg(s),
    ensures
        total_of(items_without(s, pid)) <= total_of(s),
        total_of(items_without(s, pid)) >= 0,
    decreases s.len(),
{
    if s.len() > 0 {
        assert(items_nonneg(s.drop_last())) by {
            assert(forall|i: int|
                0 <= i < s.drop_last().len() ==> #[trigger] s.drop_last()[i] == s[i]);
        }
        lemma_total_without_le(s.drop_last(), pid);
        vstd::arithmetic::mul::lemma_mul_nonnegative(s.last().price, s.last().quantity);
        if s.last().product_id != pid {
            lemma_total_push(items_without(s.drop_last(), pid), s.last());
        }
    }
}

pub(crate) proof fn lemma_items_without_take_succ(s: Seq<ItemModel>, pid: Seq<char>, i: int)
    requires
        0 <= i < s.len(),
    ensures
        items_without(s.take(i + 1), pid) == if s[i].product_id != pid {
            items_without(s.take(i), pid).push(s[i])
        } else {
            items_without(s.take(i), pid)
        },
{
    assert(s.take(i + 1).drop_last() =~= s.take(i));
    assert(s.take(i + 1).last() == s[i]);
}

/// Whether some line of `items` carries the given product id.
fn find_item(items: &Vec<OrderItem>, product_id: &String) -> (r: bool)
    ensures
        r == has_item(order_item_views(items@), product_id@),
{
    let n = items.len();
    let mut i: usize = 0;
    while i < n
        invariant
            i <= n,
            n == items@.len(),
            forall|j: int|
                0 <= j < i ==> (#[trigger] order_item_views(items@)[j]).product_id != product_id@,
        decreases n - i,
    {
        let it = &items[i];
        if it.product_id == *product_id {
            proof {
                assert(order_item_views(items@)[i as int].product_id == product_id@);
            }
            return true;
        }
        i += 1;
    }
    false
}

impl Order {
    /// Set (or, with `add`, increase by) the quantity of every line with the
    /// given product id, recomputing the total when anything matched.
    fn set_or_bump_quantity(&mut self, product_id: &String, quantity: u32, add: bool) -> (updated:
        bool)
        requires
            old(self).wf(),
            add ==> forall|i: int|
                0 <= i < old(self)@.items.len() && (#[trigger] old(self)@.items[i]).product_id
                    == product_id@ ==> old(self)@.items[i].quantity + quantity <= u32::MAX,
            total_of(
                if add {
                    bump_quantities(old(self)@.items, product_id@, quantity as int)
                } else {
                    set_quantities(old(self)@.items, product_id@, quantity as int)
                },
            ) <= u64::MAX,
        ensures
            final(self).wf(),
            updated == has_item(old(self)@.items, product_id@),
            !updated ==> final(self)@ == old(self)@,
            updated ==> final(self)@ == (OrderModel {
                items: if add {
                    bump_quantities(old(self)@.items, product_id@, quantity as int)
                } else {
                    set_quantities(old(self)@.items, product_id@, quantity as int)
                },
                total: total_of(
                    if add {
                        bump_quantities(old(self)@.items, product_id@, quantity as int)
                    } else {
                        set_quantities(old(self)@.items, product_id@, quantity as int)
                    },
                ),
                ..old(self)@
            }),
    {
        let ghost s0 = old(self)@.items;
        let ghost target = if add {
            bump_quantities(s0, product_id@, quantity as int)
        } else {
            set_quantities(s0, product_id@, quantity as int)
        };
        let n = self.items.len();
        let mut i: usize = 0;
        let mut updated = false;
        while i < n
            invariant
                i <= n,
                n == self.items@.len(),
                s0 == old(self)@.items,
                s0.len() == n,
                target == (if add {
                    bump_quantities(s0, product_id@, quantity as int)
                } else {
                    set_quantities(s0, product_id@, quantity as int)
                }),
                add ==> forall|j: int|
                    0 <= j < s0.len() && (#[trigger] s0[j]).product_id == product_id@
                        ==> s0[j].quantity + quantity <= u32::MAX,
                self@ == (OrderModel {
                    items: order_item_views(self.items@),
                    ..old(self)@
                }),
                forall|j: int|
                    i <= j < n ==> #[trigger] order_item_views(self.items@)[j] == s0[j],
                forall|j: int|
                    0 <= j < i ==> #[trigger] order_item_views(self.items@)[j] == target[j],
                updated == has_item(s0.take(i as int), product_id@),
            decreases n - i,
        {
            proof {
                assert(order_item_views(self.items@)[i as int] == self.items@[i as int]@);
            }
            let matches_id = {
                let it = &self.items[i];
                it.product_id == *product_id
            };
            if matches_id {
                let newq = if add {
                    proof {
                        assert(s0[i as int].product_id == product_id@);
                    }
                    self.items[i].quantity + quantity
                } else {
                    quantity
                };
                let ghost pv = order_item_views(self.items@);
                let mut it = self.items[i].clone();
                it.quantity = newq;
                self.items[i] = it;
                updated = true;
                proof {
                    assert(order_item_views(self.items@) =~= pv.update(i as int, it@));
                    assert(order_item_views(self.items@)[i as int] == target[i as int]);
                    assert(s0.take(i + 1)[i as int].product_id == product_id@);
                    assert(has_item(s0.take(i + 1), product_id@));
                }
            } else {
                proof {
                    assert(order_item_views(self.items@)[i as int] == target[i as int]);
                    if has_item(s0.take(i + 1), product_id@) {
                        let j = choose|j: int|
                            0 <= j < i + 1 && (#[trigger] s0.take(i + 1)[j]).product_id
                                == product_id@;
                        if j == i {
                            assert(s0[i as int].product_id == product_id@);
                        } else {
                            assert(s0.take(i as int)[j] == s0[j]);
                            assert(has_item(s0.take(i as int), product_id@));
                        }
                    }
                    if has_item(s0.take(i as int), product_id@) {
                        let j = choose|j: int|
                            0 <= j < i && (#[trigger] s0.take(i as int)[j]).product_id
                                == product_id@;
                        assert(s0.take(i + 1)[j].product_id == product_id@);
                        assert(has_item(s0.take(i + 1), product_id@));
                    }
                }
            }
            i += 1;
        }
        proof {
            assert(s0.take(n as int) =~= s0);
            if updated {
                assert(order_item_views(self.items@) =~= target);
            } else {
                assert forall|j: int| 0 <= j < n implies target[j] == s0[j] by {
                    if s0[j].product_id == product_id@ {
                        assert(s0.take(n as int)[j].product_id == product_id@);
                        assert(has_item(s0.take(n as int), product_id@));
                    }
                }
                assert(order_item_views(self.items@) =~= s0);
                assert(target =~= s0);
            }
        }
        if updated {
            self.total = get_total_price(&self.items);
        }
        updated
    }

    /// Replace the quantity of the item with the given product id. Gated by
    /// status; fails with ItemNotFound when no such item exists.
    pub fn update_item_quantity(&mut self, product_id: String, quantity: u32) -> (r: Result<
        (),
        UpdateItemQuantityError,
    >)
        requires
            old(self).wf(),
            total_of(set_quantities(old(self)@.items, product_id@, quantity as int)) <= u64::MAX,
        ensures
            final(self).wf(),
            old(self)@.order_status != OrderStatus::New ==> (r matches Err(
                UpdateItemQuantityError::ActionNotAllowed(e),
            ) && e.status == old(self)@.order_status) && final(self)@ == old(self)@,
            old(self)@.order_status == OrderStatus::New && !has_item(
                old(self)@.items,
                product_id@,
            ) ==> (r matches Err(UpdateItemQuantityError::ItemNotFound(e)) && e.product_id@
                == product_id@) && final(self)@ == old(self)@,
            old(self)@.order_status == OrderStatus::New && has_item(old(self)@.items, product_id@)
                ==> r is Ok && final(self)@ == (OrderModel {
                items: set_quantities(old(self)@.items, product_id@, quantity as int),
                total: total_of(set_quantities(old(self)@.items, product_id@, quantity as int)),
                ..old(self)@
            }),
    {
        if self.order_status != OrderStatus::New {
            return Err(UpdateItemQuantityError::ActionNotAllowed(ActionNotAllowedError::new(
                self.order_status,
            )));
        }
        let updated = self.set_or_bump_quantity(&product_id, quantity, false);
        if updated {
            Ok(())
        } else {
            Err(UpdateItemQuantityError::ItemNotFound(ItemNotFoundError::new(product_id)))
        }
    }

    /// Add a line for the product, additively: when a line with this product
    /// id already exists its quantity is increased and no lookup is read;
    /// otherwise the product and resolved-price responses decide, product
    /// first. Gated by status.
    pub fn add_item(
        &mut self,
        product_id: String,
        quantity: u32,
        product: Option<Product>,
        pricing: Option<PricingItem>,
    ) -> (r: Result<(), AddItemError>)
        requires
            old(self).wf(),
            forall|i: int|
                0 <= i < old(self)@.items.len() && (#[trigger] old(self)@.items[i]).product_id
                    == product_id@ ==> old(self)@.items[i].quantity + quantity <= u32::MAX,
            total_of(bump_quantities(old(self)@.items, product_id@, quantity as int)) <= u64::MAX,
            pricing matches Some(p) ==> total_of(old(self)@.items) + p@.price * quantity
                <= u64::MAX,
        ensures
            final(self).wf(),
            old(self)@.order_status != OrderStatus::New ==> (r matches Err(
                AddItemError::ActionNotAllowed(e),
            ) && e.status == old(self)@.order_status) && final(self)@ == old(self)@,
            old(self)@.order_status == OrderStatus::New && has_item(old(self)@.items, product_id@)
                ==> r is Ok && final(self)@ == (OrderModel {
                items: bump_quantities(old(self)@.items, product_id@, quantity as int),
                total: total_of(bump_quantities(old(self)@.items, product_id@, quantity as int)),
                ..old(self)@
            }),
            old(self)@.order_status == OrderStatus::New && !has_item(old(self)@.items, product_id@)
                && product is None ==> (r matches Err(AddItemError::ProductNotFound(e))
                && e.product_id@ == product_id@) && final(self)@ == old(self)@,
            old(self)@.order_status == OrderStatus::New && !has_item(old(self)@.items, product_id@)
                && product is Some && pricing is None ==> (r matches Err(
                AddItemError::PricingNotFound(e),
            ) && e.product_id@ == product_id@) && final(self)@ == old(self)@,
            old(self)@.order_status == OrderStatus::New && !has_item(old(self)@.items, product_id@)
                ==> (product matches Some(pr) ==> (pricing matches Some(pi) ==> r is Ok
                && final(self)@ == (OrderModel {
                items: old(self)@.items.push(
                    ItemModel {
                        product_id: product_id@,
                        product_name: pr@.name,
                        product_brand: pr@.brand,
                        price: pi@.price,
                        quantity: quantity as int,
                    },
                ),
                total: total_of(old(self)@.items) + pi@.price * quantity,
                ..old(self)@
            }))),
    {
        if self.order_status != OrderStatus::New {
            return Err(AddItemError::ActionNotAllowed(ActionNotAllowedError::new(
                self.order_status,
            )));
        }
        let updated = self.set_or_bump_quantity(&product_id, quantity, true);
        if updated {
            return Ok(());
        }
        match (product, pricing) {
            (Some(pr), Some(pi)) => {
                let ghost s0 = self@.items;
                let item = OrderItem {
                    product_id,
                    product_name: pr.name,
                    product_brand: pr.brand,
                    price: pi.price,
                    quantity,
                };
                let ghost xv = item@;
                self.items.push(item);
                proof {
                    assert(order_item_views(self.items@) =~= s0.push(xv));
                    lemma_total_push(s0, xv);
                }
                self.total = get_total_price(&self.items);
                Ok(())
            },
            (None, _) => Err(AddItemError::ProductNotFound(ProductNotFoundError::new(product_id))),
            (_, None) => Err(AddItemError::PricingNotFound(PricingNotFoundError::new(product_id))),
        }
    }

    /// Remove every line with the given product id and recompute the total.
    /// Gated by status; fails with ItemNotFound when no such line exists.
    pub fn remove_item(&mut self, product_id: String) -> (r: Result<(), RemoveItemError>)
        requires
            old(self).wf(),
        ensures
            final(self).wf(),
            old(self)@.order_status != OrderStatus::New ==> (r matches Err(
                RemoveItemError::ActionNotAllowed(e),
            ) && e.status == old(self)@.order_status) && final(self)@ == old(self)@,
            old(self)@.order_status == OrderStatus::New && !has_item(
                old(self)@.items,
                product_id@,
            ) ==> (r matches Err(RemoveItemError::ItemNotFound(e)) && e.product_id@ == product_id@)
                && final(self)@ == old(self)@,
            old(self)@.order_status == OrderStatus::New && has_item(old(self)@.items, product_id@)
                ==> r is Ok && final(self)@ == (OrderModel {
                items: items_without(old(self)@.items, product_id@),
                total: total_of(items_without(old(self)@.items, product_id@)),
                ..old(self)@
            }),
    {
        if self.order_status != OrderStatus::New {
            return Err(RemoveItemError::ActionNotAllowed(ActionNotAllowedError::new(
                self.order_status,
            )));
        }
        let exists_item = find_item(&self.items, &product_id);
        if !exists_item {
            return Err(RemoveItemError::ItemNotFound(ItemNotFoundError::new(product_id)));
        }
        let ghost s0 = old(self)@.items;
        let n = self.items.len();
        let mut kept: Vec<OrderItem> = Vec::new();
        let mut i: usize = 0;
        while i < n
            invariant
                i <= n,
                n == self.items@.len(),
                s0 == order_item_views(self.items@),
                self@ == old(self)@,
                order_item_views(kept@) == items_without(s0.take(i as int), product_id@),
            decreases n - i,
        {
            proof {
                assert(order_item_views(self.items@)[i as int] == self.items@[i as int]@);
                lemma_items_without_take_succ(s0, product_id@, i as int);
            }
            let ghost kv0 = order_item_views(kept@);
            let matches_id = {
                let it = &self.items[i];
                it.product_id == product_id
            };
            if !matches_id {
                let it = self.items[i].clone();
                kept.push(it);
                proof {
                    assert(order_item_views(kept@) =~= kv0.push(s0[i as int]));
                }
            }
            i += 1;
        }
        proof {
            assert(s0.take(n as int) =~= s0);
            assert(items_nonneg(s0));
            lemma_total_without_le(s0, product_id@);
        }
        self.items = kept;
        self.total = get_total_price(&self.items);
        Ok(())
    }
}


} // verus!
