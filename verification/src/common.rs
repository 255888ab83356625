use vstd::prelude::*;

verus! {

/// Currency key given to every newly created cart and order.
pub const CURRENCY_DEFAULT: &'static str = "USD";

/// Pricing zone used when a price is resolved for a cart or an order.
pub const PRICING_ZONE_DEFAULT: &'static str = "global";

/// Mathematical model of an [`Address`]: each text field as a sequence of
/// characters.
#[verifier::ext_equal]
pub struct AddressModel {
    pub street: Seq<char>,
    pub city: Seq<char>,
    pub state_or_region: Seq<char>,
    pub country: Seq<char>,
    pub postal_code: Seq<char>,
    pub name: Option<Seq<char>>,
    pub phone_number: Option<Seq<char>>,
}

/// A postal address attached to a cart or an order. Structural validity is a
/// caller concern; the library only tracks presence or absence.
pub struct Address {
    pub street: String,
    pub city: String,
    pub state_or_region: String,
    pub country: String,
    pub postal_code: String,
    pub name: Option<String>,
    pub phone_number: Option<String>,
}

impl View for Address {
    type V = AddressModel;

    open spec fn view(&self) -> AddressModel {
        AddressModel {
            street: self.street@,
            city: self.city@,
            state_or_region: self.state_or_region@,
            country: self.country@,
            postal_code: self.postal_code@,
            name: match self.name {
                Some(s) => Some(s@),
                None => None,
            },
            phone_number: match self.phone_number {
                Some(s) => Some(s@),
                None => None,
            },
        }
    }
}

impl Clone for Address {
    fn clone(&self) -> (res: Self)
        ensures
            res@ == self@,
    {
        Address {
            street: self.street.clone(),
            city: self.city.clone(),
            state_or_region: self.state_or_region.clone(),
            country: self.country.clone(),
            postal_code: self.postal_code.clone(),
            name: match &self.name {
                Some(s) => Some(s.clone()),
                None => None,
            },
            phone_number: match &self.phone_number {
                Some(s) => Some(s.clone()),
                None => None,
            },
        }
    }
}

/// Whether a string is a syntactically well-formed email address, as decided
/// by `email_address::EmailAddress::from_str`. The decision is a function of
/// the characters alone.
pub uninterp spec fn email_ok(s: Seq<char>) -> bool;

/// Relies on `email_address::EmailAddress::from_str`: parses the string and
/// returns the parse error, if any. The outcome depends on the characters of
/// the input alone.
#[verifier::external_body]
pub(crate) fn email_parse_error(email: &str) -> (r: Option<String>)
    ensures
        r is None <==> email_ok(email@),
{
    match <email_address::EmailAddress as std::str::FromStr>::from_str(email) {
        Ok(_) => None,
        Err(e) => Some(e.to_string()),
    }
}

} // verus!
