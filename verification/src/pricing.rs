use vstd::prelude::*;

verus! {

// ---------------------------------------------------------------------------
// Data model
//
// A product's pricing record holds three independent tiers: msrp, list and
// sale prices. Plain entries are keyed by (zone, currency); sale entries
// additionally carry an optional validity window [start, end) in milliseconds
// since the Unix epoch, open on either side when the bound is absent.
// Prices are amounts in minor currency units.
// ---------------------------------------------------------------------------

/// Mathematical model of a [`PricingItem`].
#[verifier::ext_equal]
pub struct PricingItemModel {
    pub price: int,
    pub currency: Seq<char>,
    pub zone: Seq<char>,
}

/// Mathematical model of a [`SalePricingItem`].
#[verifier::ext_equal]
pub struct SalePricingItemModel {
    pub price: int,
    pub currency: Seq<char>,
    pub zone: Seq<char>,
    pub start: Option<int>,
    pub end: Option<int>,
}

/// One msrp or list price entry: an amount in minor units, keyed by
/// (zone, currency).
pub struct PricingItem {
    pub price: u64,
    pub currency: String,
    pub zone: String,
}

impl View for PricingItem {
    type V = PricingItemModel;

    open spec fn view(&self) -> PricingItemModel {
        PricingItemModel {
            price: self.price as int,
            currency: self.currency@,
            zone: self.zone@,
        }
    }
}

impl Clone for PricingItem {
    fn clone(&self) -> (res: Self)
        ensures
            res@ == self@,
    {
        PricingItem {
            price: self.price,
            currency: self.currency.clone(),
            zone: self.zone.clone(),
        }
    }
}

/// One sale price entry: a plain entry plus an optional validity window.
pub struct SalePricingItem {
    pub price: u64,
    pub currency: String,
    pub zone: String,
    pub start: Option<i64>,
    pub end: Option<i64>,
}

impl View for SalePricingItem {
    type V = SalePricingItemModel;

    open spec fn view(&self) -> SalePricingItemModel {
        SalePricingItemModel {
            price: self.price as int,
            currency: self.currency@,
            zone: self.zone@,
            start: match self.start {
                Some(t) => Some(t as int),
                None => None,
            },
            end: match self.end {
                Some(t) => Some(t as int),
                None => None,
            },
        }
    }
}

impl Clone for SalePricingItem {
    fn clone(&self) -> (res: Self)
        ensures
            res@ == self@,
    {
        SalePricingItem {
            price: self.price,
            currency: self.currency.clone(),
            zone: self.zone.clone(),
            start: self.start,
            end: self.end,
        }
    }
}

/// The views of a sequence of plain entries.
pub open spec fn item_views(s: Seq<PricingItem>) -> Seq<PricingItemModel> {
    s.map_values(|p: PricingItem| p@)
}

/// The views of a sequence of sale entries.
pub open spec fn sale_views(s: Seq<SalePricingItem>) -> Seq<SalePricingItemModel> {
    s.map_values(|p: SalePricingItem| p@)
}

/// Mathematical model of a [`Pricing`] record.
#[verifier::ext_equal]
pub struct PricingModel {
    pub product_id: Seq<char>,
    pub msrp_prices: Seq<PricingItemModel>,
    pub list_prices: Seq<PricingItemModel>,
    pub sale_prices: Seq<SalePricingItemModel>,
}

/// A product's pricing record: the three price tiers, keyed by product id.
pub struct Pricing {
    pub product_id: String,
    pub msrp_prices: Vec<PricingItem>,
    pub list_prices: Vec<PricingItem>,
    pub sale_prices: Vec<SalePricingItem>,
}

impl View for Pricing {
    type V = PricingModel;

    open spec fn view(&self) -> PricingModel {
        PricingModel {
            product_id: self.product_id@,
            msrp_prices: item_views(self.msrp_prices@),
            list_prices: item_views(self.list_prices@),
            sale_prices: sale_views(self.sale_prices@),
        }
    }
}

// ---------------------------------------------------------------------------
// Resolution
//
// resolve(currency, zone) at instant `now` evaluates in strict precedence
// order: an in-window sale entry wins over any list entry, a list entry over
// any msrp entry; within one tier the first entry in record order wins.
// ---------------------------------------------------------------------------

/// Whether a plain entry matches the requested (currency, zone) key.
pub open spec fn plain_matches(p: PricingItemModel, currency: Seq<char>, zone: Seq<char>) -> bool {
    p.zone == zone && p.currency == currency
}

/// Whether the instant `now` lies inside a sale entry's validity window:
/// `start <= now < end`, where an absent bound is unconstrained.
pub open spec fn sale_window_contains(s: SalePricingItemModel, now: int) -> bool {
    &&& match s.start {
        Some(st) => st <= now,
        None => true,
    }
    &&& match s.end {
        Some(e) => now < e,
        None => true,
    }
}

/// Whether a sale entry matches the requested key and is active at `now`.
pub open spec fn sale_matches(
    s: SalePricingItemModel,
    currency: Seq<char>,
    zone: Seq<char>,
    now: int,
) -> bool {
    s.zone == zone && s.currency == currency && sale_window_contains(s, now)
}

/// A sale entry stripped of its window.
pub open spec fn sale_to_plain(s: SalePricingItemModel) -> PricingItemModel {
    PricingItemModel { price: s.price, currency: s.currency, zone: s.zone }
}

/// The first sale entry, in record order, that matches and is active.
pub open spec fn first_matching_sale(
    s: Seq<SalePricingItemModel>,
    currency: Seq<char>,
    zone: Seq<char>,
    now: int,
) -> Option<SalePricingItemModel>
    decreases s.len(),
{
    if s.len() == 0 {
        None
    } else if sale_matches(s[0], currency, zone, now) {
        Some(s[0])
    } else {
        first_matching_sale(s.drop_first(), currency, zone, now)
    }
}

/// The first plain entry, in record order, that matches the key.
pub open spec fn first_matching_plain(
    s: Seq<PricingItemModel>,
    currency: Seq<char>,
    zone: Seq<char>,
) -> Option<PricingItemModel>
    decreases s.len(),
{
    if s.len() == 0 {
        None
    } else if plain_matches(s[0], currency, zone) {
        Some(s[0])
    } else {
        first_matching_plain(s.drop_first(), currency, zone)
    }
}

/// What resolution returns at instant `now`: an active sale entry if any,
/// else a matching list entry, else a matching msrp entry, else nothing.
pub open spec fn resolved_price(
    p: PricingModel,
    currency: Seq<char>,
    zone: Seq<char>,
    now: int,
) -> Option<PricingItemModel> {
    match first_matching_sale(p.sale_prices, currency, zone, now) {
        Some(s) => Some(sale_to_plain(s)),
        None => match first_matching_plain(p.list_prices, currency, zone) {
            Some(l) => Some(l),
            None => first_matching_plain(p.msrp_prices, currency, zone),
        },
    }
}

/// The view of an optional plain entry.
pub open spec fn opt_item_view(r: Option<PricingItem>) -> Option<PricingItemModel> {
    match r {
        Some(p) => Some(p@),
        None => None,
    }
}

proof fn lemma_first_matching_sale_found(
    s: Seq<SalePricingItemModel>,
    currency: Seq<char>,
    zone: Seq<char>,
    now: int,
    i: int,
)
    requires
        0 <= i < s.len(),
        forall|j: int| 0 <= j < i ==> !sale_matches(#[trigger] s[j], currency, zone, now),
        sale_matches(s[i], currency, zone, now),
    ensures
        first_matching_sale(s, currency, zone, now) == Some(s[i]),
    decreases i,
{
    if i > 0 {
        lemma_first_matching_sale_found(s.drop_first(), currency, zone, now, i - 1);
    }
}

proof fn lemma_first_matching_sale_none(
    s: Seq<SalePricingItemModel>,
    currency: Seq<char>,
    zone: Seq<char>,
    now: int,
)
    requires
        forall|j: int| 0 <= j < s.len() ==> !sale_matches(#[trigger] s[j], currency, zone, now),
    ensures
        first_matching_sale(s, currency, zone, now) is None,
    decreases s.len(),
{
    if s.len() > 0 {
        lemma_first_matching_sale_none(s.drop_first(), currency, zone, now);
    }
}

proof fn lemma_first_matching_plain_found(
    s: Seq<PricingItemModel>,
    currency: Seq<char>,
    zone: Seq<char>,
    i: int,
)
    requires
        0 <= i < s.len(),
        forall|j: int| 0 <= j < i ==> !plain_matches(#[trigger] s[j], currency, zone),
        plain_matches(s[i], currency, zone),
    ensures
        first_matching_plain(s, currency, zone) == Some(s[i]),
    decreases i,
{
    if i > 0 {
        lemma_first_matching_plain_found(s.drop_first(), currency, zone, i - 1);
    }
}

proof fn lemma_first_matching_plain_none(s: Seq<PricingItemModel>, currency: Seq<char>, zone: Seq<char>)
    requires
        forall|j: int| 0 <= j < s.len() ==> !plain_matches(#[trigger] s[j], currency, zone),
    ensures
        first_matching_plain(s, currency, zone) is None,
    decreases s.len(),
{
    if s.len() > 0 {
        lemma_first_matching_plain_none(s.drop_first(), currency, zone);
    }
}

/// Law: resolution observes the tier precedence absolutely. When some sale
/// entry matches and is in window at `now`, the result is a matching sale
/// entry's price, whatever the other tiers hold; when none is, a matching
/// list entry is returned if one exists; msrp is used only when neither
/// sale nor list matches; and resolution fails exactly when no tier matches.
pub proof fn lemma_resolve_precedence(
    p: PricingModel,
    currency: Seq<char>,
    zone: Seq<char>,
    now: int,
)
    ensures
        (exists|i: int|
            0 <= i < p.sale_prices.len() && sale_matches(
                #[trigger] p.sale_prices[i],
                currency,
                zone,
                now,
            )) ==> exists|i: int|
            0 <= i < p.sale_prices.len() && sale_matches(
                #[trigger] p.sale_prices[i],
                currency,
                zone,
                now,
            ) && resolved_price(p, currency, zone, now) == Some(sale_to_plain(p.sale_prices[i])),
        (!(exists|i: int|
            0 <= i < p.sale_prices.len() && sale_matches(
                #[trigger] p.sale_prices[i],
                currency,
                zone,
                now,
            )) && (exists|i: int|
            0 <= i < p.list_prices.len() && plain_matches(
                #[trigger] p.list_prices[i],
                currency,
                zone,
            ))) ==> exists|i: int|
            0 <= i < p.list_prices.len() && plain_matches(
                #[trigger] p.list_prices[i],
                currency,
                zone,
            ) && resolved_price(p, currency, zone, now) == Some(p.list_prices[i]),
        (!(exists|i: int|
            0 <= i < p.sale_prices.len() && sale_matches(
                #[trigger] p.sale_prices[i],
                currency,
                zone,
                now,
            )) && !(exists|i: int|
            0 <= i < p.list_prices.len() && plain_matches(
                #[trigger] p.list_prices[i],
                currency,
                zone,
            )) && (exists|i: int|
            0 <= i < p.msrp_prices.len() && plain_matches(
                #[trigger] p.msrp_prices[i],
                currency,
                zone,
            ))) ==> exists|i: int|
            0 <= i < p.msrp_prices.len() && plain_matches(
                #[trigger] p.msrp_prices[i],
                currency,
                zone,
            ) && resolved_price(p, currency, zone, now) == Some(p.msrp_prices[i]),
        (!(exists|i: int|
            0 <= i < p.sale_prices.len() && sale_matches(
                #[trigger] p.sale_prices[i],
                currency,
                zone,
                now,
            )) && !(exists|i: int|
            0 <= i < p.list_prices.len() && plain_matches(
                #[trigger] p.list_prices[i],
                currency,
                zone,
            )) && !(exists|i: int|
            0 <= i < p.msrp_prices.len() && plain_matches(
                #[trigger] p.msrp_prices[i],
                currency,
                zone,
            ))) ==> resolved_price(p, currency, zone, now) is None,
{
    if exists|i: int|
        0 <= i < p.sale_prices.len() && sale_matches(#[trigger] p.sale_prices[i], currency, zone, now) {
        let i = choose|i: int|
            0 <= i < p.sale_prices.len() && sale_matches(
                #[trigger] p.sale_prices[i],
                currency,
                zone,
                now,
            );
        let f = first_of_sale_matches(p.sale_prices, currency, zone, now, i);
        lemma_first_matching_sale_found(p.sale_prices, currency, zone, now, f);
    } else {
        lemma_first_matching_sale_none(p.sale_prices, currency, zone, now);
        if exists|i: int|
            0 <= i < p.list_prices.len() && plain_matches(#[trigger] p.list_prices[i], currency, zone) {
            let i = choose|i: int|
                0 <= i < p.list_prices.len() && plain_matches(
                    #[trigger] p.list_prices[i],
                    currency,
                    zone,
                );
            let f = first_of_plain_matches(p.list_prices, currency, zone, i);
            lemma_first_matching_plain_found(p.list_prices, currency, zone, f);
        } else {
            lemma_first_matching_plain_none(p.list_prices, currency, zone);
            if exists|i: int|
                0 <= i < p.msrp_prices.len() && plain_matches(
                    #[trigger] p.msrp_prices[i],
                    currency,
                    zone,
                ) {
                let i = choose|i: int|
                    0 <= i < p.msrp_prices.len() && plain_matches(
                        #[trigger] p.msrp_prices[i],
                        currency,
                        zone,
                    );
                let f = first_of_plain_matches(p.msrp_prices, currency, zone, i);
                lemma_first_matching_plain_found(p.msrp_prices, currency, zone, f);
            } else {
                lemma_first_matching_plain_none(p.msrp_prices, currency, zone);
            }
        }
    }
}

proof fn first_of_sale_matches(
    s: Seq<SalePricingItemModel>,
    currency: Seq<char>,
    zone: Seq<char>,
    now: int,
    i: int,
) -> (f: int)
    requires
        0 <= i < s.len(),
        sale_matches(s[i], currency, zone, now),
    ensures
        0 <= f < s.len(),
        sale_matches(s[f], currency, zone, now),
        forall|j: int| 0 <= j < f ==> !sale_matches(#[trigger] s[j], currency, zone, now),
    decreases i,
{
    if exists|j: int| 0 <= j < i && sale_matches(#[trigger] s[j], currency, zone, now) {
        let j = choose|j: int| 0 <= j < i && sale_matches(#[trigger] s[j], currency, zone, now);
        first_of_sale_matches(s, currency, zone, now, j)
    } else {
        i
    }
}

proof fn first_of_plain_matches(
    s: Seq<PricingItemModel>,
    currency: Seq<char>,
    zone: Seq<char>,
    i: int,
) -> (f: int)
    requires
        0 <= i < s.len(),
        plain_matches(s[i], currency, zone),
    ensures
        0 <= f < s.len(),
        plain_matches(s[f], currency, zone),
        forall|j: int| 0 <= j < f ==> !plain_matches(#[trigger] s[j], currency, zone),
    decreases i,
{
    if exists|j: int| 0 <= j < i && plain_matches(#[trigger] s[j], currency, zone) {
        let j = choose|j: int| 0 <= j < i && plain_matches(#[trigger] s[j], currency, zone);
        first_of_plain_matches(s, currency, zone, j)
    } else {
        i
    }
}

/// Relies on `chrono::Utc::now`: the current instant as milliseconds since
/// the Unix epoch. Nothing is promised of the value; it depends on the clock.
#[verifier::external_body]
fn current_unix_millis() -> i64 {
    chrono::Utc::now().timestamp_millis()
}

impl Pricing {
    /// A fresh pricing record with empty tiers.
    pub fn new(product_id: String) -> (r: Self)
        ensures
            r@.product_id == product_id@,
            r@.msrp_prices == Seq::<PricingItemModel>::empty(),
            r@.list_prices == Seq::<PricingItemModel>::empty(),
            r@.sale_prices == Seq::<SalePricingItemModel>::empty(),
    {
        let r = Pricing {
            product_id,
            msrp_prices: Vec::new(),
            list_prices: Vec::new(),
            sale_prices: Vec::new(),
        };
        proof {
            assert(r@.msrp_prices =~= Seq::<PricingItemModel>::empty());
            assert(r@.list_prices =~= Seq::<PricingItemModel>::empty());
            assert(r@.sale_prices =~= Seq::<SalePricingItemModel>::empty());
        }
        r
    }

    /// Resolve a price for (currency, zone) as of the instant `now`.
    pub fn get_price_at(&self, currency: String, zone: String, now: i64) -> (r: Option<
        PricingItem,
    >)
        ensures
            opt_item_view(r) == resolved_price(self@, currency@, zone@, now as int),
    {
        let nsale = self.sale_prices.len();
        let mut i: usize = 0;
        while i < nsale
            invariant
                i <= nsale,
                nsale == self.sale_prices@.len(),
                forall|j: int|
                    0 <= j < i ==> !sale_matches(
                        #[trigger] sale_views(self.sale_prices@)[j],
                        currency@,
                        zone@,
                        now as int,
                    ),
            decreases nsale - i,
        {
            let it = &self.sale_prices[i];
            let in_window = (match it.start {
                Some(st) => st <= now,
                None => true,
            }) && (match it.end {
                Some(e) => now < e,
                None => true,
            });
            if it.zone == zone && it.currency == currency && in_window {
                proof {
                    lemma_first_matching_sale_found(
                        sale_views(self.sale_prices@),
                        currency@,
                        zone@,
                        now as int,
                        i as int,
                    );
                }
                return Some(
                    PricingItem {
                        price: it.price,
                        currency: it.currency.clone(),
                        zone: it.zone.clone(),
                    },
                );
            }
            i += 1;
        }
        proof {
            lemma_first_matching_sale_none(
                sale_views(self.sale_prices@),
                currency@,
                zone@,
                now as int,
            );
        }
        let nlist = self.list_prices.len();
        let mut i: usize = 0;
        while i < nlist
            invariant
                i <= nlist,
                nlist == self.list_prices@.len(),
                first_matching_sale(sale_views(self.sale_prices@), currency@, zone@, now as int)
                    is None,
                forall|j: int|
                    0 <= j < i ==> !plain_matches(
                        #[trigger] item_views(self.list_prices@)[j],
                        currency@,
                        zone@,
                    ),
            decreases nlist - i,
        {
            let it = &self.list_prices[i];
            if it.zone == zone && it.currency == currency {
                proof {
                    lemma_first_matching_plain_found(
                        item_views(self.list_prices@),
                        currency@,
                        zone@,
                        i as int,
                    );
                }
                return Some(it.clone());
            }
            i += 1;
        }
        proof {
            lemma_first_matching_plain_none(item_views(self.list_prices@), currency@, zone@);
        }
        let nmsrp = self.msrp_prices.len();
        let mut i: usize = 0;
        while i < nmsrp
            invariant
                i <= nmsrp,
                nmsrp == self.msrp_prices@.len(),
                first_matching_sale(sale_views(self.sale_prices@), currency@, zone@, now as int)
                    is None,
                first_matching_plain(item_views(self.list_prices@), currency@, zone@) is None,
                forall|j: int|
                    0 <= j < i ==> !plain_matches(
                        #[trigger] item_views(self.msrp_prices@)[j],
                        currency@,
                        zone@,
                    ),
            decreases nmsrp - i,
        {
            let it = &self.msrp_prices[i];
            if it.zone == zone && it.currency == currency {
                proof {
                    lemma_first_matching_plain_found(
                        item_views(self.msrp_prices@),
                        currency@,
                        zone@,
                        i as int,
                    );
                }
                return Some(it.clone());
            }
            i += 1;
        }
        proof {
            lemma_first_matching_plain_none(item_views(self.msrp_prices@), currency@, zone@);
        }
        None
    }

    /// Resolve a price for (currency, zone) as of the current clock instant.
    pub fn get_price(&self, currency: String, zone: String) -> (r: Option<PricingItem>)
        ensures
            exists|t: int| opt_item_view(r) == resolved_price(self@, currency@, zone@, t),
    {
        let now = current_unix_millis();
        let r = self.get_price_at(currency, zone, now);
        proof {
            assert(opt_item_view(r) == resolved_price(self@, currency@, zone@, now as int));
        }
        r
    }
}


// ---------------------------------------------------------------------------
// Merging
//
// update(msrp, list, sale) merges each incoming tier over the stored one,
// keyed by (zone, currency) for plain tiers and by (zone, currency, start,
// end) for the sale tier: an incoming entry always wins over a stored entry
// with the same key, stored entries without a replacement are kept, and the
// result holds one entry per key. The merged sale tier is additionally
// produced sorted ascending by window start, entries without a start first.
// ---------------------------------------------------------------------------

/// The merge key of a plain entry.
pub open spec fn plain_key(p: PricingItemModel) -> (Seq<char>, Seq<char>) {
    (p.zone, p.currency)
}

/// Whether some entry of `s` carries the key `k`.
pub open spec fn has_plain_key(s: Seq<PricingItemModel>, k: (Seq<char>, Seq<char>)) -> bool {
    exists|i: int| 0 <= i < s.len() && plain_key(#[trigger] s[i]) == k
}

/// The last entry of `s` with key `k`, if any.
pub open spec fn last_plain_with_key(
    s: Seq<PricingItemModel>,
    k: (Seq<char>, Seq<char>),
) -> Option<PricingItemModel>
    decreases s.len(),
{
    if s.len() == 0 {
        None
    } else if plain_key(s.last()) == k {
        Some(s.last())
    } else {
        last_plain_with_key(s.drop_last(), k)
    }
}

/// The first entry of `s` with key `k`, if any.
pub open spec fn first_plain_with_key(
    s: Seq<PricingItemModel>,
    k: (Seq<char>, Seq<char>),
) -> Option<PricingItemModel>
    decreases s.len(),
{
    if s.len() == 0 {
        None
    } else if first_plain_with_key(s.drop_last(), k) is Some {
        first_plain_with_key(s.drop_last(), k)
    } else if plain_key(s.last()) == k {
        Some(s.last())
    } else {
        None
    }
}

/// The entry that the merge keeps for key `k`: the last incoming entry with
/// that key when one exists, else the first stored entry with it.
pub open spec fn plain_winner(
    u: Seq<PricingItemModel>,
    c: Seq<PricingItemModel>,
    k: (Seq<char>, Seq<char>),
) -> Option<PricingItemModel> {
    if last_plain_with_key(u, k) is Some {
        last_plain_with_key(u, k)
    } else {
        first_plain_with_key(c, k)
    }
}

/// No two entries of `s` share a merge key.
pub open spec fn plain_keys_unique(s: Seq<PricingItemModel>) -> bool {
    forall|i: int, j: int| 0 <= i < j < s.len() ==> plain_key(s[i]) != plain_key(s[j])
}

/// `r` is the merge of incoming entries `u` over stored entries `c`: one
/// entry per key of the union, the incoming entry winning on a collision.
pub open spec fn merged_plain(
    u: Seq<PricingItemModel>,
    c: Seq<PricingItemModel>,
    r: Seq<PricingItemModel>,
) -> bool {
    &&& plain_keys_unique(r)
    &&& forall|i: int|
        0 <= i < r.len() ==> Some(#[trigger] r[i]) == plain_winner(u, c, plain_key(r[i]))
    &&& forall|i: int|
        0 <= i < r.len() ==> has_plain_key(u, plain_key(#[trigger] r[i])) || has_plain_key(
            c,
            plain_key(r[i]),
        )
    &&& forall|k: (Seq<char>, Seq<char>)|
        #![trigger has_plain_key(u, k)]
        #![trigger has_plain_key(c, k)]
        has_plain_key(u, k) || has_plain_key(c, k) ==> has_plain_key(r, k)
}

/// What merging a plain tier returns: an empty incoming list keeps the
/// stored list as it is, an empty stored list keeps the incoming list as it
/// is, and otherwise the result is the keyed merge.
pub open spec fn plain_merge_post(
    u: Seq<PricingItemModel>,
    c: Seq<PricingItemModel>,
    r: Seq<PricingItemModel>,
) -> bool {
    if u.len() == 0 {
        r == c
    } else if c.len() == 0 {
        r == u
    } else {
        merged_plain(u, c, r)
    }
}

proof fn lemma_has_plain_key_push(s: Seq<PricingItemModel>, x: PricingItemModel, k: (Seq<char>, Seq<char>))
    ensures
        has_plain_key(s.push(x), k) <==> (has_plain_key(s, k) || plain_key(x) == k),
{
    if has_plain_key(s.push(x), k) {
        let j = choose|j: int| 0 <= j < s.push(x).len() && plain_key(#[trigger] s.push(x)[j]) == k;
        if j < s.len() {
            assert(s[j] == s.push(x)[j]);
        }
    }
    if has_plain_key(s, k) {
        let j = choose|j: int| 0 <= j < s.len() && plain_key(#[trigger] s[j]) == k;
        assert(plain_key(s.push(x)[j]) == k);
    }
    if plain_key(x) == k {
        assert(plain_key(s.push(x)[s.len() as int]) == k);
    }
}

proof fn lemma_has_plain_key_take_succ(s: Seq<PricingItemModel>, i: int, k: (Seq<char>, Seq<char>))
    requires
        0 <= i < s.len(),
    ensures
        has_plain_key(s.take(i + 1), k) <==> (has_plain_key(s.take(i), k) || plain_key(s[i]) == k),
{
    assert(s.take(i + 1) =~= s.take(i).push(s[i]));
    lemma_has_plain_key_push(s.take(i), s[i], k);
}

proof fn lemma_last_plain_take_succ(s: Seq<PricingItemModel>, i: int, k: (Seq<char>, Seq<char>))
    requires
        0 <= i < s.len(),
    ensures
        last_plain_with_key(s.take(i + 1), k) == if plain_key(s[i]) == k {
            Some(s[i])
        } else {
            last_plain_with_key(s.take(i), k)
        },
{
    assert(s.take(i + 1).drop_last() =~= s.take(i));
    assert(s.take(i + 1).last() == s[i]);
}

proof fn lemma_first_plain_take_succ(s: Seq<PricingItemModel>, i: int, k: (Seq<char>, Seq<char>))
    requires
        0 <= i < s.len(),
    ensures
        first_plain_with_key(s.take(i + 1), k) == if first_plain_with_key(s.take(i), k) is Some {
            first_plain_with_key(s.take(i), k)
        } else if plain_key(s[i]) == k {
            Some(s[i])
        } else {
            None::<PricingItemModel>
        },
{
    assert(s.take(i + 1).drop_last() =~= s.take(i));
    assert(s.take(i + 1).last() == s[i]);
}

proof fn lemma_first_plain_some_iff(s: Seq<PricingItemModel>, k: (Seq<char>, Seq<char>))
    ensures
        first_plain_with_key(s, k) is Some <==> has_plain_key(s, k),
    decreases s.len(),
{
    if s.len() > 0 {
        lemma_first_plain_some_iff(s.drop_last(), k);
        if has_plain_key(s, k) {
            let j = choose|j: int| 0 <= j < s.len() && plain_key(#[trigger] s[j]) == k;
            if j < s.len() - 1 {
                assert(s.drop_last()[j] == s[j]);
                assert(has_plain_key(s.drop_last(), k));
            }
        }
        if has_plain_key(s.drop_last(), k) {
            let j = choose|j: int|
                0 <= j < s.drop_last().len() && plain_key(#[trigger] s.drop_last()[j]) == k;
            assert(plain_key(s[j]) == k);
        }
    }
}

proof fn lemma_last_plain_some_iff(s: Seq<PricingItemModel>, k: (Seq<char>, Seq<char>))
    ensures
        last_plain_with_key(s, k) is Some <==> has_plain_key(s, k),
    decreases s.len(),
{
    if s.len() > 0 {
        lemma_last_plain_some_iff(s.drop_last(), k);
        if has_plain_key(s, k) {
            let j = choose|j: int| 0 <= j < s.len() && plain_key(#[trigger] s[j]) == k;
            if j < s.len() - 1 {
                assert(s.drop_last()[j] == s[j]);
                assert(has_plain_key(s.drop_last(), k));
            }
        }
        if has_plain_key(s.drop_last(), k) {
            let j = choose|j: int|
                0 <= j < s.drop_last().len() && plain_key(#[trigger] s.drop_last()[j]) == k;
            assert(plain_key(s[j]) == k);
        }
    }
}

/// The index of the first entry of `v` whose (zone, currency) key equals the
/// given one, if any entry carries it.
fn find_plain_key(v: &Vec<PricingItem>, zone: &String, currency: &String) -> (r: Option<usize>)
    ensures
        match r {
            Some(j) => j < v@.len() && plain_key(item_views(v@)[j as int]) == (zone@, currency@),
            None => !has_plain_key(item_views(v@), (zone@, currency@)),
        },
{
    let n = v.len();
    let mut i: usize = 0;
    while i < n
        invariant
            i <= n,
            n == v@.len(),
            forall|j: int|
                0 <= j < i ==> plain_key(#[trigger] item_views(v@)[j]) != (zone@, currency@),
        decreases n - i,
    {
        let it = &v[i];
        if it.zone == *zone && it.currency == *currency {
            return Some(i);
        }
        i += 1;
    }
    None
}

/// Merge incoming plain entries over stored ones, keyed by (zone, currency).
/// Incoming entries always win; stored entries with no replacement are kept;
/// an empty side short-circuits to the other, unchanged.
pub fn merge_items(updates: Vec<PricingItem>, current: Vec<PricingItem>) -> (r: Vec<PricingItem>)
    ensures
        plain_merge_post(item_views(updates@), item_views(current@), item_views(r@)),
{
    let un = updates.len();
    if un == 0 {
        return current;
    }
    let cn = current.len();
    if cn == 0 {
        return updates;
    }
    let ghost u = item_views(updates@);
    let ghost c = item_views(current@);
    let mut result: Vec<PricingItem> = Vec::new();
    let mut i: usize = 0;
    while i < un
        invariant
            i <= un,
            un == updates@.len(),
            u == item_views(updates@),
            plain_keys_unique(item_views(result@)),
            forall|a: int|
                0 <= a < result@.len() ==> Some(#[trigger] item_views(result@)[a])
                    == last_plain_with_key(u.take(i as int), plain_key(item_views(result@)[a])),
            forall|k: (Seq<char>, Seq<char>)|
                #![trigger has_plain_key(u.take(i as int), k)]
                #![trigger has_plain_key(item_views(result@), k)]
                has_plain_key(u.take(i as int), k) <==> has_plain_key(item_views(result@), k),
        decreases un - i,
    {
        let ghost rv0 = item_views(result@);
        let it = updates[i].clone();
        proof {
            assert(u[i as int] == updates@[i as int]@);
            assert(it@ == u[i as int]);
        }
        let ghost k0 = plain_key(u[i as int]);
        match find_plain_key(&result, &it.zone, &it.currency) {
            Some(j) => {
                result[j] = it;
                proof {
                    assert(item_views(result@) =~= rv0.update(j as int, u[i as int]));
                    let rv = item_views(result@);
                    lemma_last_plain_take_succ(u, i as int, k0);
                    assert forall|a: int| 0 <= a < rv.len() implies Some(#[trigger] rv[a])
                        == last_plain_with_key(u.take(i + 1), plain_key(rv[a])) by {
                        if a == j {
                            assert(rv[a] == u[i as int]);
                        } else {
                            assert(rv[a] == rv0[a]);
                            assert(plain_key(rv0[a]) != k0);
                            lemma_last_plain_take_succ(u, i as int, plain_key(rv0[a]));
                        }
                    }
                    assert forall|k: (Seq<char>, Seq<char>)|
                        has_plain_key(u.take(i + 1), k) <==> has_plain_key(
                        item_views(result@),
                        k,
                    ) by {
                        lemma_has_plain_key_take_succ(u, i as int, k);
                        if has_plain_key(rv0, k) {
                            let a = choose|a: int|
                                0 <= a < rv0.len() && plain_key(#[trigger] rv0[a]) == k;
                            if a == j {
                                assert(plain_key(item_views(result@)[j as int]) == k0);
                                assert(k == k0);
                            } else {
                                assert(plain_key(item_views(result@)[a]) == k);
                            }
                            assert(has_plain_key(item_views(result@), k));
                        }
                        if has_plain_key(item_views(result@), k) {
                            let a = choose|a: int|
                                0 <= a < item_views(result@).len() && plain_key(
                                    #[trigger] item_views(result@)[a],
                                ) == k;
                            if a == j {
                                assert(k == k0);
                                assert(has_plain_key(u.take(i + 1), k));
                            } else {
                                assert(plain_key(rv0[a]) == k);
                                assert(has_plain_key(rv0, k));
                            }
                        }
                    }
                }
            },
            None => {
                result.push(it);
                proof {
                    assert(item_views(result@) =~= rv0.push(u[i as int]));
                    let rv = item_views(result@);
                    lemma_last_plain_take_succ(u, i as int, k0);
                    assert forall|a: int, b: int| 0 <= a < b < rv.len() implies plain_key(rv[a])
                        != plain_key(rv[b]) by {
                        if b == rv.len() - 1 {
                            assert(rv[a] == rv0[a]);
                            if plain_key(rv0[a]) == k0 {
                                assert(has_plain_key(rv0, k0));
                            }
                        }
                    }
                    assert forall|a: int| 0 <= a < rv.len() implies Some(#[trigger] rv[a])
                        == last_plain_with_key(u.take(i + 1), plain_key(rv[a])) by {
                        if a == rv.len() - 1 {
                            assert(rv[a] == u[i as int]);
                        } else {
                            assert(rv[a] == rv0[a]);
                            if plain_key(rv0[a]) == k0 {
                                assert(has_plain_key(rv0, k0));
                            }
                            lemma_last_plain_take_succ(u, i as int, plain_key(rv0[a]));
                        }
                    }
                    assert forall|k: (Seq<char>, Seq<char>)|
                        has_plain_key(u.take(i + 1), k) <==> has_plain_key(rv, k) by {
                        lemma_has_plain_key_take_succ(u, i as int, k);
                        lemma_has_plain_key_push(rv0, u[i as int], k);
                    }
                }
            },
        }
        i += 1;
    }
    proof {
        assert(u.take(un as int) =~= u);
    }
    let mut i: usize = 0;
    while i < cn
        invariant
            i <= cn,
            cn == current@.len(),
            u == item_views(updates@),
            c == item_views(current@),
            u.len() > 0,
            plain_keys_unique(item_views(result@)),
            forall|a: int|
                0 <= a < result@.len() ==> Some(#[trigger] item_views(result@)[a]) == plain_winner(
                    u,
                    c.take(i as int),
                    plain_key(item_views(result@)[a]),
                ),
            forall|k: (Seq<char>, Seq<char>)|
                #![trigger has_plain_key(item_views(result@), k)]
                has_plain_key(item_views(result@), k) <==> (has_plain_key(u, k) || has_plain_key(
                    c.take(i as int),
                    k,
                )),
        decreases cn - i,
    {
        let ghost rv0 = item_views(result@);
        let it = current[i].clone();
        proof {
            assert(c[i as int] == current@[i as int]@);
            assert(it@ == c[i as int]);
        }
        let ghost k0 = plain_key(c[i as int]);
        match find_plain_key(&result, &it.zone, &it.currency) {
            Some(j) => {
                proof {
                    let rv = item_views(result@);
                    assert(has_plain_key(rv, k0));
                    assert forall|a: int| 0 <= a < rv.len() implies Some(#[trigger] rv[a])
                        == plain_winner(u, c.take(i + 1), plain_key(rv[a])) by {
                        let ka = plain_key(rv[a]);
                        lemma_first_plain_take_succ(c, i as int, ka);
                        if last_plain_with_key(u, ka) is Some {
                        } else {
                            assert(Some(rv[a]) == first_plain_with_key(c.take(i as int), ka));
                        }
                    }
                    assert forall|k: (Seq<char>, Seq<char>)|
                        has_plain_key(item_views(result@), k) <==> (has_plain_key(u, k)
                        || has_plain_key(c.take(i + 1), k)) by {
                        lemma_has_plain_key_take_succ(c, i as int, k);
                        if k == k0 {
                            assert(has_plain_key(item_views(result@), k0));
                        }
                    }
                }
            },
            None => {
                result.push(it);
                proof {
                    assert(item_views(result@) =~= rv0.push(c[i as int]));
                    let rv = item_views(result@);
                    assert(!has_plain_key(rv0, k0));
                    assert(!has_plain_key(u, k0));
                    assert(!has_plain_key(c.take(i as int), k0));
                    lemma_last_plain_some_iff(u, k0);
                    lemma_first_plain_some_iff(c.take(i as int), k0);
                    lemma_first_plain_take_succ(c, i as int, k0);
                    assert forall|a: int, b: int| 0 <= a < b < rv.len() implies plain_key(rv[a])
                        != plain_key(rv[b]) by {
                        if b == rv.len() - 1 {
                            assert(rv[a] == rv0[a]);
                            if plain_key(rv0[a]) == k0 {
                                assert(has_plain_key(rv0, k0));
                            }
                        }
                    }
                    assert forall|a: int| 0 <= a < rv.len() implies Some(#[trigger] rv[a])
                        == plain_winner(u, c.take(i + 1), plain_key(rv[a])) by {
                        let ka = plain_key(rv[a]);
                        if a == rv.len() - 1 {
                            assert(rv[a] == c[i as int]);
                            assert(ka == k0);
                        } else {
                            assert(rv[a] == rv0[a]);
                            lemma_first_plain_take_succ(c, i as int, ka);
                            if last_plain_with_key(u, ka) is Some {
                            } else {
                                assert(Some(rv[a]) == first_plain_with_key(c.take(i as int), ka));
                            }
                        }
                    }
                    assert forall|k: (Seq<char>, Seq<char>)|
                        has_plain_key(rv, k) <==> (has_plain_key(u, k) || has_plain_key(
                        c.take(i + 1),
                        k,
                    )) by {
                        lemma_has_plain_key_take_succ(c, i as int, k);
                        lemma_has_plain_key_push(rv0, c[i as int], k);
                    }
                }
            },
        }
        i += 1;
    }
    proof {
        assert(c.take(cn as int) =~= c);
        let rv = item_views(result@);
        assert forall|a: int| 0 <= a < rv.len() implies has_plain_key(
            u,
            plain_key(#[trigger] rv[a]),
        ) || has_plain_key(c, plain_key(rv[a])) by {
            let ka = plain_key(rv[a]);
            assert(Some(rv[a]) == plain_winner(u, c, ka));
            lemma_last_plain_some_iff(u, ka);
            lemma_first_plain_some_iff(c, ka);
        }
        assert(merged_plain(u, c, rv));
    }
    result
}



/// The merge key of a sale entry: its (zone, currency) key together with its
/// window bounds.
pub open spec fn sale_key(s: SalePricingItemModel) -> (Seq<char>, Seq<char>, Option<int>, Option<int>) {
    (s.zone, s.currency, s.start, s.end)
}

/// Whether some entry of `s` carries the sale key `k`.
pub open spec fn has_sale_key(
    s: Seq<SalePricingItemModel>,
    k: (Seq<char>, Seq<char>, Option<int>, Option<int>),
) -> bool {
    exists|i: int| 0 <= i < s.len() && sale_key(#[trigger] s[i]) == k
}

/// The last entry of `s` with sale key `k`, if any.
pub open spec fn last_sale_with_key(
    s: Seq<SalePricingItemModel>,
    k: (Seq<char>, Seq<char>, Option<int>, Option<int>),
) -> Option<SalePricingItemModel>
    decreases s.len(),
{
    if s.len() == 0 {
        None
    } else if sale_key(s.last()) == k {
        Some(s.last())
    } else {
        last_sale_with_key(s.drop_last(), k)
    }
}

/// The first entry of `s` with sale key `k`, if any.
pub open spec fn first_sale_with_key(
    s: Seq<SalePricingItemModel>,
    k: (Seq<char>, Seq<char>, Option<int>, Option<int>),
) -> Option<SalePricingItemModel>
    decreases s.len(),
{
    if s.len() == 0 {
        None
    } else if first_sale_with_key(s.drop_last(), k) is Some {
        first_sale_with_key(s.drop_last(), k)
    } else if sale_key(s.last()) == k {
        Some(s.last())
    } else {
        None
    }
}

/// The sale entry that the merge keeps for key `k`.
pub open spec fn sale_winner(
    u: Seq<SalePricingItemModel>,
    c: Seq<SalePricingItemModel>,
    k: (Seq<char>, Seq<char>, Option<int>, Option<int>),
) -> Option<SalePricingItemModel> {
    if last_sale_with_key(u, k) is Some {
        last_sale_with_key(u, k)
    } else {
        first_sale_with_key(c, k)
    }
}

/// No two entries of `s` share a sale key.
pub open spec fn sale_keys_unique(s: Seq<SalePricingItemModel>) -> bool {
    forall|i: int, j: int| 0 <= i < j < s.len() ==> sale_key(s[i]) != sale_key(s[j])
}

/// The order of sale windows by their start: an absent start precedes every
/// present one, and present starts compare as instants.
pub open spec fn start_le(a: Option<int>, b: Option<int>) -> bool {
    match (a, b) {
        (None, _) => true,
        (Some(_), None) => false,
        (Some(x), Some(y)) => x <= y,
    }
}

/// The sequence is sorted ascending by window start, no-start entries first.
pub open spec fn sorted_by_start(s: Seq<SalePricingItemModel>) -> bool {
    forall|i: int, j: int| 0 <= i < j < s.len() ==> start_le(s[i].start, s[j].start)
}

/// `r` is the merge of incoming sale entries `u` over stored ones `c`.
pub open spec fn merged_sale(
    u: Seq<SalePricingItemModel>,
    c: Seq<SalePricingItemModel>,
    r: Seq<SalePricingItemModel>,
) -> bool {
    &&& sale_keys_unique(r)
    &&& forall|i: int|
        0 <= i < r.len() ==> Some(#[trigger] r[i]) == sale_winner(u, c, sale_key(r[i]))
    &&& forall|i: int|
        0 <= i < r.len() ==> has_sale_key(u, sale_key(#[trigger] r[i])) || has_sale_key(
            c,
            sale_key(r[i]),
        )
    &&& forall|k: (Seq<char>, Seq<char>, Option<int>, Option<int>)|
        #![trigger has_sale_key(u, k)]
        #![trigger has_sale_key(c, k)]
        has_sale_key(u, k) || has_sale_key(c, k) ==> has_sale_key(r, k)
}

/// What merging the sale tier returns: an empty side short-circuits to the
/// other unchanged, and otherwise the result is the keyed merge, sorted
/// ascending by start with no-start entries first.
pub open spec fn sale_merge_post(
    u: Seq<SalePricingItemModel>,
    c: Seq<SalePricingItemModel>,
    r: Seq<SalePricingItemModel>,
) -> bool {
    if u.len() == 0 {
        r == c
    } else if c.len() == 0 {
        r == u
    } else {
        merged_sale(u, c, r) && sorted_by_start(r)
    }
}

proof fn lemma_has_sale_key_push(
    s: Seq<SalePricingItemModel>,
    x: SalePricingItemModel,
    k: (Seq<char>, Seq<char>, Option<int>, Option<int>),
)
    ensures
        has_sale_key(s.push(x), k) <==> (has_sale_key(s, k) || sale_key(x) == k),
{
    if has_sale_key(s.push(x), k) {
        let j = choose|j: int| 0 <= j < s.push(x).len() && sale_key(#[trigger] s.push(x)[j]) == k;
        if j < s.len() {
            assert(s[j] == s.push(x)[j]);
        }
    }
    if has_sale_key(s, k) {
        let j = choose|j: int| 0 <= j < s.len() && sale_key(#[trigger] s[j]) == k;
        assert(sale_key(s.push(x)[j]) == k);
    }
    if sale_key(x) == k {
        assert(sale_key(s.push(x)[s.len() as int]) == k);
    }
}

proof fn lemma_has_sale_key_take_succ(
    s: Seq<SalePricingItemModel>,
    i: int,
    k: (Seq<char>, Seq<char>, Option<int>, Option<int>),
)
    requires
        0 <= i < s.len(),
    ensures
        has_sale_key(s.take(i + 1), k) <==> (has_sale_key(s.take(i), k) || sale_key(s[i]) == k),
{
    assert(s.take(i + 1) =~= s.take(i).push(s[i]));
    lemma_has_sale_key_push(s.take(i), s[i], k);
}

proof fn lemma_last_sale_take_succ(
    s: Seq<SalePricingItemModel>,
    i: int,
    k: (Seq<char>, Seq<char>, Option<int>, Option<int>),
)
    requires
        0 <= i < s.len(),
    ensures
        last_sale_with_key(s.take(i + 1), k) == if sale_key(s[i]) == k {
            Some(s[i])
        } else {
            last_sale_with_key(s.take(i), k)
        },
{
    assert(s.take(i + 1).drop_last() =~= s.take(i));
    assert(s.take(i + 1).last() == s[i]);
}

proof fn lemma_first_sale_take_succ(
    s: Seq<SalePricingItemModel>,
    i: int,
    k: (Seq<char>, Seq<char>, Option<int>, Option<int>),
)
    requires
        0 <= i < s.len(),
    ensures
        first_sale_with_key(s.take(i + 1), k) == if first_sale_with_key(s.take(i), k) is Some {
            first_sale_with_key(s.take(i), k)
        } else if sale_key(s[i]) == k {
            Some(s[i])
        } else {
            None::<SalePricingItemModel>
        },
{
    assert(s.take(i + 1).drop_last() =~= s.take(i));
    assert(s.take(i + 1).last() == s[i]);
}

proof fn lemma_first_sale_some_iff(
    s: Seq<SalePricingItemModel>,
    k: (Seq<char>, Seq<char>, Option<int>, Option<int>),
)
    ensures
        first_sale_with_key(s, k) is Some <==> has_sale_key(s, k),
    decreases s.len(),
{
    if s.len() > 0 {
        lemma_first_sale_some_iff(s.drop_last(), k);
        if has_sale_key(s, k) {
            let j = choose|j: int| 0 <= j < s.len() && sale_key(#[trigger] s[j]) == k;
            if j < s.len() - 1 {
                assert(s.drop_last()[j] == s[j]);
                assert(has_sale_key(s.drop_last(), k));
            }
        }
        if has_sale_key(s.drop_last(), k) {
            let j = choose|j: int|
                0 <= j < s.drop_last().len() && sale_key(#[trigger] s.drop_last()[j]) == k;
            assert(sale_key(s[j]) == k);
        }
    }
}

proof fn lemma_last_sale_some_iff(
    s: Seq<SalePricingItemModel>,
    k: (Seq<char>, Seq<char>, Option<int>, Option<int>),
)
    ensures
        last_sale_with_key(s, k) is Some <==> has_sale_key(s, k),
    decreases s.len(),
{
    if s.len() > 0 {
        lemma_last_sale_some_iff(s.drop_last(), k);
        if has_sale_key(s, k) {
            let j = choose|j: int| 0 <= j < s.len() && sale_key(#[trigger] s[j]) == k;
            if j < s.len() - 1 {
                assert(s.drop_last()[j] == s[j]);
                assert(has_sale_key(s.drop_last(), k));
            }
        }
        if has_sale_key(s.drop_last(), k) {
            let j = choose|j: int|
                0 <= j < s.drop_last().len() && sale_key(#[trigger] s.drop_last()[j]) == k;
            assert(sale_key(s[j]) == k);
        }
    }
}

/// Decide `start_le` on window starts.
fn start_le_exec(a: Option<i64>, b: Option<i64>) -> (r: bool)
    ensures
        r == start_le(
            match a {
                Some(x) => Some(x as int),
                None => None,
            },
            match b {
                Some(y) => Some(y as int),
                None => None,
            },
        ),
{
    match (a, b) {
        (None, _) => true,
        (Some(_), None) => false,
        (Some(x), Some(y)) => x <= y,
    }
}

/// Whether two sale entries carry the same merge key.
fn sale_key_eq(a: &SalePricingItem, b: &SalePricingItem) -> (r: bool)
    ensures
        r == (sale_key(a@) == sale_key(b@)),
{
    let starts_eq = match (a.start, b.start) {
        (None, None) => true,
        (Some(x), Some(y)) => x == y,
        _ => false,
    };
    let ends_eq = match (a.end, b.end) {
        (None, None) => true,
        (Some(x), Some(y)) => x == y,
        _ => false,
    };
    a.zone == b.zone && a.currency == b.currency && starts_eq && ends_eq
}

/// The index of the first entry of `v` whose sale key equals that of `x`,
/// if any entry carries it.
fn find_sale_key(v: &Vec<SalePricingItem>, x: &SalePricingItem) -> (r: Option<usize>)
    ensures
        match r {
            Some(j) => j < v@.len() && sale_key(sale_views(v@)[j as int]) == sale_key(x@),
            None => !has_sale_key(sale_views(v@), sale_key(x@)),
        },
{
    let n = v.len();
    let mut i: usize = 0;
    while i < n
        invariant
            i <= n,
            n == v@.len(),
            forall|j: int| 0 <= j < i ==> sale_key(#[trigger] sale_views(v@)[j]) != sale_key(x@),
        decreases n - i,
    {
        if sale_key_eq(&v[i], x) {
            return Some(i);
        }
        i += 1;
    }
    None
}

/// Merge incoming sale entries over stored ones, keyed by (zone, currency,
/// start, end), and produce the result sorted ascending by window start with
/// no-start entries first. An empty side short-circuits to the other,
/// unchanged and unsorted.
pub fn merge_sale_items(updates: Vec<SalePricingItem>, current: Vec<SalePricingItem>) -> (r: Vec<
    SalePricingItem,
>)
    ensures
        sale_merge_post(sale_views(updates@), sale_views(current@), sale_views(r@)),
{
    let un = updates.len();
    if un == 0 {
        return current;
    }
    let cn = current.len();
    if cn == 0 {
        return updates;
    }
    let ghost u = sale_views(updates@);
    let ghost c = sale_views(current@);
    let mut merged: Vec<SalePricingItem> = Vec::new();
    let mut i: usize = 0;
    while i < un
        invariant
            i <= un,
            un == updates@.len(),
            u == sale_views(updates@),
            sale_keys_unique(sale_views(merged@)),
            forall|a: int|
                0 <= a < merged@.len() ==> Some(#[trigger] sale_views(merged@)[a])
                    == last_sale_with_key(u.take(i as int), sale_key(sale_views(merged@)[a])),
            forall|k: (Seq<char>, Seq<char>, Option<int>, Option<int>)|
                #![trigger has_sale_key(u.take(i as int), k)]
                #![trigger has_sale_key(sale_views(merged@), k)]
                has_sale_key(u.take(i as int), k) <==> has_sale_key(sale_views(merged@), k),
        decreases un - i,
    {
        let ghost rv0 = sale_views(merged@);
        let it = updates[i].clone();
        proof {
            assert(u[i as int] == updates@[i as int]@);
            assert(it@ == u[i as int]);
        }
        let ghost k0 = sale_key(u[i as int]);
        match find_sale_key(&merged, &it) {
            Some(j) => {
                merged[j] = it;
                proof {
                    assert(sale_views(merged@) =~= rv0.update(j as int, u[i as int]));
                    let rv = sale_views(merged@);
                    lemma_last_sale_take_succ(u, i as int, k0);
                    assert forall|a: int| 0 <= a < rv.len() implies Some(#[trigger] rv[a])
                        == last_sale_with_key(u.take(i + 1), sale_key(rv[a])) by {
                        if a == j {
                            assert(rv[a] == u[i as int]);
                        } else {
                            assert(rv[a] == rv0[a]);
                            assert(sale_key(rv0[a]) != k0);
                            lemma_last_sale_take_succ(u, i as int, sale_key(rv0[a]));
                        }
                    }
                    assert forall|k: (Seq<char>, Seq<char>, Option<int>, Option<int>)|
                        has_sale_key(u.take(i + 1), k) <==> has_sale_key(
                        sale_views(merged@),
                        k,
                    ) by {
                        lemma_has_sale_key_take_succ(u, i as int, k);
                        if has_sale_key(rv0, k) {
                            let a = choose|a: int|
                                0 <= a < rv0.len() && sale_key(#[trigger] rv0[a]) == k;
                            if a == j {
                                assert(sale_key(sale_views(merged@)[j as int]) == k0);
                                assert(k == k0);
                            } else {
                                assert(sale_key(sale_views(merged@)[a]) == k);
                            }
                            assert(has_sale_key(sale_views(merged@), k));
                        }
                        if has_sale_key(sale_views(merged@), k) {
                            let a = choose|a: int|
                                0 <= a < sale_views(merged@).len() && sale_key(
                                    #[trigger] sale_views(merged@)[a],
                                ) == k;
                            if a == j {
                                assert(k == k0);
                                assert(has_sale_key(u.take(i + 1), k));
                            } else {
                                assert(sale_key(rv0[a]) == k);
                                assert(has_sale_key(rv0, k));
                            }
                        }
                    }
                }
            },
            None => {
                merged.push(it);
                proof {
                    assert(sale_views(merged@) =~= rv0.push(u[i as int]));
                    let rv = sale_views(merged@);
                    lemma_last_sale_take_succ(u, i as int, k0);
                    assert forall|a: int, b: int| 0 <= a < b < rv.len() implies sale_key(rv[a])
                        != sale_key(rv[b]) by {
                        if b == rv.len() - 1 {
                            assert(rv[a] == rv0[a]);
                            if sale_key(rv0[a]) == k0 {
                                assert(has_sale_key(rv0, k0));
                            }
                        }
                    }
                    assert forall|a: int| 0 <= a < rv.len() implies Some(#[trigger] rv[a])
                        == last_sale_with_key(u.take(i + 1), sale_key(rv[a])) by {
                        if a == rv.len() - 1 {
                            assert(rv[a] == u[i as int]);
                        } else {
                            assert(rv[a] == rv0[a]);
                            if sale_key(rv0[a]) == k0 {
                                assert(has_sale_key(rv0, k0));
                            }
                            lemma_last_sale_take_succ(u, i as int, sale_key(rv0[a]));
                        }
                    }
                    assert forall|k: (Seq<char>, Seq<char>, Option<int>, Option<int>)|
                        has_sale_key(u.take(i + 1), k) <==> has_sale_key(rv, k) by {
                        lemma_has_sale_key_take_succ(u, i as int, k);
                        lemma_has_sale_key_push(rv0, u[i as int], k);
                    }
                }
            },
        }
        i += 1;
    }
    proof {
        assert(u.take(un as int) =~= u);
    }
    let mut i: usize = 0;
    while i < cn
        invariant
            i <= cn,
            cn == current@.len(),
            u == sale_views(updates@),
            c == sale_views(current@),
            u.len() > 0,
            sale_keys_unique(sale_views(merged@)),
            forall|a: int|
                0 <= a < merged@.len() ==> Some(#[trigger] sale_views(merged@)[a]) == sale_winner(
                    u,
                    c.take(i as int),
                    sale_key(sale_views(merged@)[a]),
                ),
            forall|k: (Seq<char>, Seq<char>, Option<int>, Option<int>)|
                #![trigger has_sale_key(sale_views(merged@), k)]
                has_sale_key(sale_views(merged@), k) <==> (has_sale_key(u, k) || has_sale_key(
                    c.take(i as int),
                    k,
                )),
        decreases cn - i,
    {
        let ghost rv0 = sale_views(merged@);
        let it = current[i].clone();
        proof {
            assert(c[i as int] == current@[i as int]@);
            assert(it@ == c[i as int]);
        }
        let ghost k0 = sale_key(c[i as int]);
        match find_sale_key(&merged, &it) {
            Some(_) => {
                proof {
                    let rv = sale_views(merged@);
                    assert(has_sale_key(rv, k0));
                    assert forall|a: int| 0 <= a < rv.len() implies Some(#[trigger] rv[a])
                        == sale_winner(u, c.take(i + 1), sale_key(rv[a])) by {
                        let ka = sale_key(rv[a]);
                        lemma_first_sale_take_succ(c, i as int, ka);
                        if last_sale_with_key(u, ka) is Some {
                        } else {
                            assert(Some(rv[a]) == first_sale_with_key(c.take(i as int), ka));
                        }
                    }
                    assert forall|k: (Seq<char>, Seq<char>, Option<int>, Option<int>)|
                        has_sale_key(sale_views(merged@), k) <==> (has_sale_key(u, k)
                        || has_sale_key(c.take(i + 1), k)) by {
                        lemma_has_sale_key_take_succ(c, i as int, k);
                        if k == k0 {
                            assert(has_sale_key(sale_views(merged@), k0));
                        }
                    }
                }
            },
            None => {
                merged.push(it);
                proof {
                    assert(sale_views(merged@) =~= rv0.push(c[i as int]));
                    let rv = sale_views(merged@);
                    assert(!has_sale_key(rv0, k0));
                    assert(!has_sale_key(u, k0));
                    assert(!has_sale_key(c.take(i as int), k0));
                    lemma_last_sale_some_iff(u, k0);
                    lemma_first_sale_some_iff(c.take(i as int), k0);
                    lemma_first_sale_take_succ(c, i as int, k0);
                    assert forall|a: int, b: int| 0 <= a < b < rv.len() implies sale_key(rv[a])
                        != sale_key(rv[b]) by {
                        if b == rv.len() - 1 {
                            assert(rv[a] == rv0[a]);
                            if sale_key(rv0[a]) == k0 {
                                assert(has_sale_key(rv0, k0));
                            }
                        }
                    }
                    assert forall|a: int| 0 <= a < rv.len() implies Some(#[trigger] rv[a])
                        == sale_winner(u, c.take(i + 1), sale_key(rv[a])) by {
                        let ka = sale_key(rv[a]);
                        if a == rv.len() - 1 {
                            assert(rv[a] == c[i as int]);
                            assert(ka == k0);
                        } else {
                            assert(rv[a] == rv0[a]);
                            lemma_first_sale_take_succ(c, i as int, ka);
                            if last_sale_with_key(u, ka) is Some {
                            } else {
                                assert(Some(rv[a]) == first_sale_with_key(c.take(i as int), ka));
                            }
                        }
                    }
                    assert forall|k: (Seq<char>, Seq<char>, Option<int>, Option<int>)|
                        has_sale_key(rv, k) <==> (has_sale_key(u, k) || has_sale_key(
                        c.take(i + 1),
                        k,
                    )) by {
                        lemma_has_sale_key_take_succ(c, i as int, k);
                        lemma_has_sale_key_push(rv0, c[i as int], k);
                    }
                }
            },
        }
        i += 1;
    }
    proof {
        assert(c.take(cn as int) =~= c);
        let rv = sale_views(merged@);
        assert forall|a: int| 0 <= a < rv.len() implies has_sale_key(
            u,
            sale_key(#[trigger] rv[a]),
        ) || has_sale_key(c, sale_key(rv[a])) by {
            let ka = sale_key(rv[a]);
            assert(Some(rv[a]) == sale_winner(u, c, ka));
            lemma_last_sale_some_iff(u, ka);
            lemma_first_sale_some_iff(c, ka);
        }
        assert(merged_sale(u, c, rv));
    }
    sort_sale_items(merged, Ghost(u), Ghost(c))
}

proof fn lemma_start_le_total(a: Option<int>, b: Option<int>)
    ensures
        start_le(a, b) || start_le(b, a),
{
}

proof fn lemma_start_le_trans(a: Option<int>, b: Option<int>, d: Option<int>)
    requires
        start_le(a, b),
        start_le(b, d),
    ensures
        start_le(a, d),
{
}

/// Sort merged sale entries ascending by window start, no-start entries
/// first, keeping every merge property of the input.
fn sort_sale_items(
    merged: Vec<SalePricingItem>,
    Ghost(u): Ghost<Seq<SalePricingItemModel>>,
    Ghost(c): Ghost<Seq<SalePricingItemModel>>,
) -> (r: Vec<SalePricingItem>)
    requires
        merged_sale(u, c, sale_views(merged@)),
    ensures
        merged_sale(u, c, sale_views(r@)),
        sorted_by_start(sale_views(r@)),
{
    let ghost mv = sale_views(merged@);
    let mn = merged.len();
    let mut result: Vec<SalePricingItem> = Vec::new();
    let mut i: usize = 0;
    while i < mn
        invariant
            i <= mn,
            mn == merged@.len(),
            mv == sale_views(merged@),
            merged_sale(u, c, mv),
            sorted_by_start(sale_views(result@)),
            sale_keys_unique(sale_views(result@)),
            forall|a: int|
                0 <= a < result@.len() ==> Some(#[trigger] sale_views(result@)[a]) == sale_winner(
                    u,
                    c,
                    sale_key(sale_views(result@)[a]),
                ),
            forall|a: int, b: int|
                0 <= a < result@.len() && i <= b < mn ==> sale_key(
                    #[trigger] sale_views(result@)[a],
                ) != sale_key(#[trigger] mv[b]),
            forall|k: (Seq<char>, Seq<char>, Option<int>, Option<int>)|
                #![trigger has_sale_key(u, k)]
                #![trigger has_sale_key(c, k)]
                has_sale_key(u, k) || has_sale_key(c, k) ==> (has_sale_key(sale_views(result@), k)
                    || exists|b: int| i <= b < mn && sale_key(#[trigger] mv[b]) == k),
        decreases mn - i,
    {
        let ghost rv0 = sale_views(result@);
        let x = merged[i].clone();
        proof {
            assert(mv[i as int] == merged@[i as int]@);
            assert(x@ == mv[i as int]);
        }
        let ghost xv = mv[i as int];
        let rn = result.len();
        let mut p: usize = 0;
        while p < rn && start_le_exec(result[p].start, x.start)
            invariant
                p <= rn,
                rn == result@.len(),
                x@ == xv,
                forall|a: int|
                    0 <= a < p ==> start_le(#[trigger] sale_views(result@)[a].start, xv.start),
            decreases rn - p,
        {
            proof {
                assert(sale_views(result@)[p as int] == result@[p as int]@);
            }
            p += 1;
        }
        proof {
            assert(p < rn ==> sale_views(result@)[p as int] == result@[p as int]@);
        }
        result.insert(p, x);
        proof {
            let rv = sale_views(result@);
            assert(rv =~= rv0.insert(p as int, xv));
            rv0.insert_ensures(p as int, xv);
            assert(rv.len() == rv0.len() + 1);
            // where each entry of the new sequence comes from
            assert forall|a: int| 0 <= a < rv.len() implies (if a < p {
                rv[a] == rv0[a]
            } else if a == p {
                rv[a] == xv
            } else {
                rv[a] == rv0[a - 1]
            }) by {}
            // sortedness
            assert forall|a: int, b: int| 0 <= a < b < rv.len() implies start_le(
                rv[a].start,
                rv[b].start,
            ) by {
                if b < p {
                } else if a < p && b == p {
                    assert(start_le(rv0[a].start, xv.start));
                } else if a < p && b > p {
                    assert(start_le(rv0[a].start, rv0[b - 1].start));
                } else if a == p && b > p {
                    if p < rv0.len() {
                        lemma_start_le_total(rv0[p as int].start, xv.start);
                        assert(start_le(xv.start, rv0[p as int].start));
                        if b - 1 > p {
                            assert(start_le(rv0[p as int].start, rv0[b - 1].start));
                        }
                        lemma_start_le_trans(xv.start, rv0[p as int].start, rv0[b - 1].start);
                    }
                } else {
                    assert(start_le(rv0[a - 1].start, rv0[b - 1].start));
                }
            }
            // key uniqueness
            assert forall|a: int, b: int| 0 <= a < b < rv.len() implies sale_key(rv[a])
                != sale_key(rv[b]) by {
                if a == p || b == p {
                    let o = if a == p {
                        b
                    } else {
                        a
                    };
                    let oo = if o < p {
                        o
                    } else {
                        o - 1
                    };
                    assert(sale_key(rv0[oo]) != sale_key(mv[i as int]));
                }
            }
            // entries stay winners
            assert forall|a: int| 0 <= a < rv.len() implies Some(#[trigger] rv[a]) == sale_winner(
                u,
                c,
                sale_key(rv[a]),
            ) by {
                if a == p {
                    assert(rv[a] == mv[i as int]);
                }
            }
            // cross-uniqueness with the remaining input
            assert forall|a: int, b: int| 0 <= a < rv.len() && i + 1 <= b < mn implies sale_key(
                #[trigger] rv[a],
            ) != sale_key(#[trigger] mv[b]) by {
                if a == p {
                    assert(sale_key(mv[i as int]) != sale_key(mv[b]));
                }
            }
            // completeness
            assert forall|k: (Seq<char>, Seq<char>, Option<int>, Option<int>)|
                has_sale_key(u, k) || has_sale_key(c, k) implies (has_sale_key(rv, k) || exists|b: int|
                i + 1 <= b < mn && sale_key(#[trigger] mv[b]) == k) by {
                if has_sale_key(rv0, k) {
                    let a = choose|a: int| 0 <= a < rv0.len() && sale_key(#[trigger] rv0[a]) == k;
                    if a < p {
                        assert(sale_key(rv[a]) == k);
                    } else {
                        assert(sale_key(rv[a + 1]) == k);
                    }
                    assert(has_sale_key(rv, k));
                } else {
                    let b = choose|b: int| i <= b < mn && sale_key(#[trigger] mv[b]) == k;
                    if b == i {
                        assert(sale_key(rv[p as int]) == k);
                        assert(has_sale_key(rv, k));
                    }
                }
            }
        }
        i += 1;
    }
    proof {
        let rv = sale_views(result@);
        assert forall|a: int| 0 <= a < rv.len() implies has_sale_key(
            u,
            sale_key(#[trigger] rv[a]),
        ) || has_sale_key(c, sale_key(rv[a])) by {
            let ka = sale_key(rv[a]);
            assert(Some(rv[a]) == sale_winner(u, c, ka));
            lemma_last_sale_some_iff(u, ka);
            lemma_first_sale_some_iff(c, ka);
        }
        assert forall|k: (Seq<char>, Seq<char>, Option<int>, Option<int>)|
            has_sale_key(u, k) || has_sale_key(c, k) implies has_sale_key(
            sale_views(result@),
            k,
        ) by {}
        assert(merged_sale(u, c, rv));
    }
    result
}



proof fn lemma_last_plain_contains(s: Seq<PricingItemModel>, k: (Seq<char>, Seq<char>))
    ensures
        match last_plain_with_key(s, k) {
            Some(x) => s.contains(x) && plain_key(x) == k,
            None => true,
        },
    decreases s.len(),
{
    if s.len() > 0 {
        if plain_key(s.last()) == k {
            assert(s[s.len() - 1] == s.last());
        } else {
            lemma_last_plain_contains(s.drop_last(), k);
            if last_plain_with_key(s.drop_last(), k) is Some {
                let x = last_plain_with_key(s.drop_last(), k)->Some_0;
                let j = choose|j: int| 0 <= j < s.drop_last().len() && s.drop_last()[j] == x;
                assert(s[j] == x);
            }
        }
    }
}

proof fn lemma_first_plain_contains(s: Seq<PricingItemModel>, k: (Seq<char>, Seq<char>))
    ensures
        match first_plain_with_key(s, k) {
            Some(x) => s.contains(x) && plain_key(x) == k,
            None => true,
        },
    decreases s.len(),
{
    if s.len() > 0 {
        lemma_first_plain_contains(s.drop_last(), k);
        if first_plain_with_key(s.drop_last(), k) is Some {
            let x = first_plain_with_key(s.drop_last(), k)->Some_0;
            let j = choose|j: int| 0 <= j < s.drop_last().len() && s.drop_last()[j] == x;
            assert(s[j] == x);
        } else if plain_key(s.last()) == k {
            assert(s[s.len() - 1] == s.last());
        }
    }
}

/// Law: a plain-tier merge is the identity on its other side when either
/// side is empty, and otherwise holds exactly one entry per (zone, currency)
/// key of the union of the two sides, the incoming entry winning on a key
/// collision. Keys are assumed unique within each input list; the short-
/// circuit on an empty side returns the other list as it is, duplicates
/// included, so the union statement needs that assumption.
pub proof fn lemma_merge_key_union(
    u: Seq<PricingItemModel>,
    c: Seq<PricingItemModel>,
    r: Seq<PricingItemModel>,
)
    requires
        plain_merge_post(u, c, r),
        plain_keys_unique(u),
        plain_keys_unique(c),
    ensures
        u.len() == 0 ==> r == c,
        c.len() == 0 && u.len() > 0 ==> r == u,
        plain_keys_unique(r),
        forall|k: (Seq<char>, Seq<char>)|
            #![trigger has_plain_key(r, k)]
            has_plain_key(r, k) <==> (has_plain_key(u, k) || has_plain_key(c, k)),
        forall|i: int|
            0 <= i < r.len() && has_plain_key(u, plain_key(#[trigger] r[i])) ==> u.contains(r[i]),
        forall|i: int|
            0 <= i < r.len() && !has_plain_key(u, plain_key(#[trigger] r[i])) ==> c.contains(r[i]),
{
    if u.len() == 0 {
        assert(r == c);
        assert forall|i: int|
            0 <= i < r.len() && !has_plain_key(u, plain_key(#[trigger] r[i])) implies c.contains(
            r[i],
        ) by {
            assert(c[i] == r[i]);
        }
    } else if c.len() == 0 {
        assert(r == u);
        assert forall|i: int|
            0 <= i < r.len() && has_plain_key(u, plain_key(#[trigger] r[i])) implies u.contains(
            r[i],
        ) by {
            assert(u[i] == r[i]);
        }
        assert forall|i: int| 0 <= i < r.len() implies has_plain_key(
            u,
            plain_key(#[trigger] r[i]),
        ) by {
            assert(plain_key(u[i]) == plain_key(r[i]));
        }
    } else {
        assert forall|i: int| 0 <= i < r.len() implies {
            &&& has_plain_key(u, plain_key(#[trigger] r[i])) ==> u.contains(r[i])
            &&& !has_plain_key(u, plain_key(r[i])) ==> c.contains(r[i])
        } by {
            let ki = plain_key(r[i]);
            assert(Some(r[i]) == plain_winner(u, c, ki));
            lemma_last_plain_some_iff(u, ki);
            lemma_last_plain_contains(u, ki);
            lemma_first_plain_contains(c, ki);
        }
    }
}

impl Pricing {
    /// Replace all three tiers unconditionally; used once to seed a
    /// product's pricing.
    pub fn set_prices(
        &mut self,
        msrp_prices: Vec<PricingItem>,
        list_prices: Vec<PricingItem>,
        sale_prices: Vec<SalePricingItem>,
    )
        ensures
            final(self)@.product_id == old(self)@.product_id,
            final(self)@.msrp_prices == item_views(msrp_prices@),
            final(self)@.list_prices == item_views(list_prices@),
            final(self)@.sale_prices == sale_views(sale_prices@),
    {
        self.msrp_prices = msrp_prices;
        self.list_prices = list_prices;
        self.sale_prices = sale_prices;
    }

    /// Merge incoming entries over each stored tier: incoming entries win by
    /// key, stored entries without a replacement are kept, and the sale tier
    /// comes out sorted ascending by window start.
    pub fn update_prices(
        &mut self,
        msrp_prices: Vec<PricingItem>,
        list_prices: Vec<PricingItem>,
        sale_prices: Vec<SalePricingItem>,
    )
        ensures
            final(self)@.product_id == old(self)@.product_id,
            plain_merge_post(
                item_views(msrp_prices@),
                old(self)@.msrp_prices,
                final(self)@.msrp_prices,
            ),
            plain_merge_post(
                item_views(list_prices@),
                old(self)@.list_prices,
                final(self)@.list_prices,
            ),
            sale_merge_post(
                sale_views(sale_prices@),
                old(self)@.sale_prices,
                final(self)@.sale_prices,
            ),
    {
        let mut cur_msrp: Vec<PricingItem> = Vec::new();
        core::mem::swap(&mut cur_msrp, &mut self.msrp_prices);
        self.msrp_prices = merge_items(msrp_prices, cur_msrp);
        let mut cur_list: Vec<PricingItem> = Vec::new();
        core::mem::swap(&mut cur_list, &mut self.list_prices);
        self.list_prices = merge_items(list_prices, cur_list);
        let mut cur_sale: Vec<SalePricingItem> = Vec::new();
        core::mem::swap(&mut cur_sale, &mut self.sale_prices);
        self.sale_prices = merge_sale_items(sale_prices, cur_sale);
    }
}


} // verus!
