use vstd::prelude::*;

use crate::product::{Product, ProductModel};

verus! {

// ---------------------------------------------------------------------------
// Product query matching
//
// A free-text product query is tokenized on spaces outside double quotes;
// each token either names a field filter (`field:value`, split at the first
// colon) or is a plain search term. A product matches when every field
// filter and every term matches; terms match case-insensitively against
// name, brand, description and tags, and `*` matches anything.
// ---------------------------------------------------------------------------

/// What `str::to_lowercase` returns for a given sequence of characters; the
/// result depends on the characters alone.
pub uninterp spec fn lower_of(s: Seq<char>) -> Seq<char>;

/// Relies on `str::to_lowercase`: the Unicode lowercase mapping of the
/// string, a function of its characters alone.
#[verifier::external_body]
fn to_lowercase(s: &str) -> (r: String)
    ensures
        r@ == lower_of(s@),
{
    s.to_lowercase()
}

/// Whether `pat` occurs as a contiguous run of characters inside `text`.
pub open spec fn contains_seq(text: Seq<char>, pat: Seq<char>) -> bool {
    exists|i: int|
        0 <= i <= text.len() - pat.len() && #[trigger] text.subrange(i, i + pat.len() as int)
            == pat
}

/// Relies on `str::contains`: whether the pattern matches a sub-slice of
/// the string.
#[verifier::external_body]
fn contains_sub(text: &str, pat: &str) -> (r: bool)
    ensures
        r == contains_seq(text@, pat@),
{
    text.contains(pat)
}

/// Whether a character counts as whitespace, as decided by
/// `char::is_whitespace`; a function of the character alone.
pub uninterp spec fn is_whitespace_char(c: char) -> bool;

/// Relies on `char::is_whitespace`: the Unicode White_Space property.
#[verifier::external_body]
fn char_is_whitespace(c: char) -> (r: bool)
    ensures
        r == is_whitespace_char(c),
{
    c.is_whitespace()
}

/// Relies on `String::push`: appends the character to the end of the
/// string.
#[verifier::external_body]
fn push_char(s: &mut String, c: char)
    ensures
        final(s)@ == old(s)@.push(c),
{
    s.push(c)
}

/// The sequence without its leading whitespace.
pub open spec fn trim_start_spec(s: Seq<char>) -> Seq<char>
    decreases s.len(),
{
    if s.len() > 0 && is_whitespace_char(s[0]) {
        trim_start_spec(s.drop_first())
    } else {
        s
    }
}

/// The sequence without its trailing whitespace.
pub open spec fn trim_end_spec(s: Seq<char>) -> Seq<char>
    decreases s.len(),
{
    if s.len() > 0 && is_whitespace_char(s.last()) {
        trim_end_spec(s.drop_last())
    } else {
        s
    }
}

/// The sequence without leading and trailing whitespace.
pub open spec fn trim_spec(s: Seq<char>) -> Seq<char> {
    trim_end_spec(trim_start_spec(s))
}

/// The string without leading and trailing whitespace.
fn trim_exec(s: &String) -> (r: String)
    ensures
        r@ == trim_spec(s@),
{
    let n = s.as_str().unicode_len();
    let mut lo: usize = 0;
    proof {
        assert(s@.skip(0) =~= s@);
    }
    while lo < n && char_is_whitespace(s.as_str().get_char(lo))
        invariant
            lo <= n,
            n == s@.len(),
            trim_start_spec(s@) == trim_start_spec(s@.skip(lo as int)),
        decreases n - lo,
    {
        proof {
            assert(s@.skip(lo as int)[0] == s@[lo as int]);
            assert(s@.skip(lo as int).drop_first() =~= s@.skip(lo + 1));
        }
        lo += 1;
    }
    proof {
        if lo < n {
            assert(!is_whitespace_char(s@.skip(lo as int)[0]));
        } else {
            assert(s@.skip(lo as int) =~= Seq::<char>::empty());
        }
        assert(trim_start_spec(s@) == s@.skip(lo as int));
    }
    let ghost t = s@.skip(lo as int);
    let mut hi: usize = n;
    while hi > lo && char_is_whitespace(s.as_str().get_char(hi - 1))
        invariant
            lo <= hi <= n,
            n == s@.len(),
            t == s@.skip(lo as int),
            trim_end_spec(t) == trim_end_spec(s@.subrange(lo as int, hi as int)),
        decreases hi,
    {
        proof {
            let sub = s@.subrange(lo as int, hi as int);
            assert(sub.last() == s@[hi - 1]);
            assert(sub.drop_last() =~= s@.subrange(lo as int, hi - 1));
        }
        hi -= 1;
    }
    proof {
        let sub = s@.subrange(lo as int, hi as int);
        if hi > lo {
            assert(sub.last() == s@[hi - 1]);
            assert(!is_whitespace_char(sub.last()));
        } else {
            assert(sub =~= Seq::<char>::empty());
        }
        assert(trim_end_spec(sub) == sub);
        assert(t =~= s@.subrange(lo as int, n as int));
    }
    let r = s.as_str().substring_char(lo, hi);
    r.to_owned()
}

/// The pending token joins the token list, trimmed, unless it is empty.
pub open spec fn flush_token(tokens: Seq<Seq<char>>, current: Seq<char>) -> Seq<Seq<char>> {
    if current.len() > 0 {
        tokens.push(trim_spec(current))
    } else {
        tokens
    }
}

/// The tokens produced from the remaining characters, given the tokens
/// already produced, the pending token, and whether a double quote is open:
/// a space outside quotes ends the pending token, a double quote toggles
/// the quote state and is dropped, and every other character joins the
/// pending token.
pub open spec fn tokenize_rec(
    rest: Seq<char>,
    tokens: Seq<Seq<char>>,
    current: Seq<char>,
    in_quotes: bool,
) -> Seq<Seq<char>>
    decreases rest.len(),
{
    if rest.len() == 0 {
        flush_token(tokens, current)
    } else {
        let c = rest[0];
        if c == ' ' && !in_quotes {
            tokenize_rec(rest.drop_first(), flush_token(tokens, current), Seq::empty(), in_quotes)
        } else if c == '"' {
            tokenize_rec(rest.drop_first(), tokens, current, !in_quotes)
        } else {
            tokenize_rec(rest.drop_first(), tokens, current.push(c), in_quotes)
        }
    }
}

/// The tokens of a query string.
pub open spec fn tokenize_spec(s: Seq<char>) -> Seq<Seq<char>> {
    tokenize_rec(s, Seq::empty(), Seq::empty(), false)
}

/// The index of the first colon in the token, if any.
pub open spec fn first_colon(t: Seq<char>) -> Option<int>
    decreases t.len(),
{
    if t.len() == 0 {
        None
    } else if t[0] == ':' {
        Some(0)
    } else {
        match first_colon(t.drop_first()) {
            Some(i) => Some(i + 1),
            None => None,
        }
    }
}

/// The plain terms and the (field, value) filters among the tokens, in
/// order: a token with a colon splits at its first colon into a filter,
/// and every other token is a term.
pub open spec fn parse_tokens(toks: Seq<Seq<char>>) -> (Seq<Seq<char>>, Seq<
    (Seq<char>, Seq<char>),
>)
    decreases toks.len(),
{
    if toks.len() == 0 {
        (Seq::empty(), Seq::empty())
    } else {
        let prior = parse_tokens(toks.drop_last());
        let t = toks.last();
        match first_colon(t) {
            Some(i) => (prior.0, prior.1.push((t.take(i), t.skip(i + 1)))),
            None => (prior.0.push(t), prior.1),
        }
    }
}

proof fn lemma_first_colon_found(t: Seq<char>, i: int)
    requires
        0 <= i < t.len(),
        forall|j: int| 0 <= j < i ==> t[j] != ':',
        t[i] == ':',
    ensures
        first_colon(t) == Some(i),
    decreases i,
{
    if i > 0 {
        lemma_first_colon_found(t.drop_first(), i - 1);
    }
}

proof fn lemma_first_colon_none(t: Seq<char>)
    requires
        forall|j: int| 0 <= j < t.len() ==> t[j] != ':',
    ensures
        first_colon(t) is None,
    decreases t.len(),
{
    if t.len() > 0 {
        lemma_first_colon_none(t.drop_first());
    }
}

/// Mathematical model of a [`ProductQueryMatcher`].
#[verifier::ext_equal]
pub struct MatcherModel {
    pub terms: Seq<Seq<char>>,
    pub field_filters: Seq<(Seq<char>, Seq<char>)>,
}

/// A parsed product query: plain search terms and (field, value) filters.
pub struct ProductQueryMatcher {
    pub terms: Vec<String>,
    pub field_filters: Vec<(String, String)>,
}

impl View for ProductQueryMatcher {
    type V = MatcherModel;

    open spec fn view(&self) -> MatcherModel {
        MatcherModel {
            terms: self.terms@.map_values(|t: String| t@),
            field_filters: self.field_filters@.map_values(|p: (String, String)| (p.0@, p.1@)),
        }
    }
}

/// Whether the query text matches the field text, case-insensitively; `*`
/// matches anything.
pub open spec fn text_matches(text: Seq<char>, q: Seq<char>) -> bool {
    q == "*"@ || contains_seq(lower_of(text), lower_of(q))
}

/// Whether the query text equals the field text exactly; `*` matches
/// anything.
pub open spec fn text_exact_matches(text: Seq<char>, q: Seq<char>) -> bool {
    q == "*"@ || text == q
}

/// Whether a product satisfies one (field, value) filter. The field name is
/// compared case-insensitively; an unknown field matches nothing.
pub open spec fn field_filter_matches(p: ProductModel, field: Seq<char>, value: Seq<char>) -> bool {
    let f = lower_of(field);
    if f == "product-id"@ || f == "productid"@ {
        text_exact_matches(p.product_id, value)
    } else if f == "name"@ {
        text_matches(p.name, value)
    } else if f == "brand"@ {
        text_matches(p.brand, value)
    } else if f == "description"@ {
        text_matches(p.description, value)
    } else if f == "tag"@ || f == "tags"@ {
        exists|i: int| 0 <= i < p.tags.len() && text_matches(#[trigger] p.tags[i], value)
    } else {
        false
    }
}

/// Whether a product matches one plain term, in any searchable field.
pub open spec fn term_matches(p: ProductModel, term: Seq<char>) -> bool {
    ||| text_matches(p.name, term)
    ||| text_matches(p.brand, term)
    ||| text_matches(p.description, term)
    ||| exists|i: int| 0 <= i < p.tags.len() && text_matches(#[trigger] p.tags[i], term)
}

/// Whether a product matches the whole query: every field filter and every
/// term must match.
pub open spec fn matcher_matches(m: MatcherModel, p: ProductModel) -> bool {
    &&& forall|i: int|
        0 <= i < m.field_filters.len() ==> field_filter_matches(
            p,
            (#[trigger] m.field_filters[i]).0,
            m.field_filters[i].1,
        )
    &&& forall|i: int| 0 <= i < m.terms.len() ==> term_matches(p, #[trigger] m.terms[i])
}

/// Decide `text_matches`.
fn text_matches_exec(text: &String, q: &String) -> (r: bool)
    ensures
        r == text_matches(text@, q@),
{
    let star = String::from_str("*");
    if *q == star {
        true
    } else {
        let tl = to_lowercase(text.as_str());
        let ql = to_lowercase(q.as_str());
        contains_sub(tl.as_str(), ql.as_str())
    }
}

/// Decide `text_exact_matches`.
fn text_exact_matches_exec(text: &String, q: &String) -> (r: bool)
    ensures
        r == text_exact_matches(text@, q@),
{
    let star = String::from_str("*");
    if *q == star {
        true
    } else {
        *text == *q
    }
}

/// Decide whether any tag of the product matches the query text.
fn any_tag_matches(product: &Product, q: &String) -> (r: bool)
    ensures
        r == exists|i: int|
            0 <= i < product@.tags.len() && text_matches(#[trigger] product@.tags[i], q@),
{
    let n = product.tags.len();
    let mut i: usize = 0;
    while i < n
        invariant
            i <= n,
            n == product.tags@.len(),
            forall|j: int| 0 <= j < i ==> !text_matches(#[trigger] product@.tags[j], q@),
        decreases n - i,
    {
        proof {
            assert(product@.tags[i as int] == product.tags@[i as int]@);
        }
        let tag = &product.tags[i];
        if text_matches_exec(tag, q) {
            return true;
        }
        i += 1;
    }
    false
}

/// The index of the first colon in the token, if any entry carries one.
fn find_colon(token: &String) -> (r: Option<usize>)
    ensures
        match r {
            Some(j) => j < token@.len() && token@[j as int] == ':' && forall|k: int|
                0 <= k < j ==> token@[k] != ':',
            None => forall|k: int| 0 <= k < token@.len() ==> token@[k] != ':',
        },
{
    let tn = token.as_str().unicode_len();
    let mut j: usize = 0;
    while j < tn
        invariant
            j <= tn,
            tn == token@.len(),
            forall|k: int| 0 <= k < j ==> token@[k] != ':',
        decreases tn - j,
    {
        if token.as_str().get_char(j) == ':' {
            return Some(j);
        }
        j += 1;
    }
    None
}

impl ProductQueryMatcher {
    /// Parse a query string into terms and field filters.
    pub fn new(query: &str) -> (r: Self)
        ensures
            r@.terms == parse_tokens(tokenize_spec(query@)).0,
            r@.field_filters == parse_tokens(tokenize_spec(query@)).1,
    {
        let tokens = Self::tokenize(query);
        let ghost toks = tokens@.map_values(|t: String| t@);
        let n = tokens.len();
        let mut terms: Vec<String> = Vec::new();
        let mut field_filters: Vec<(String, String)> = Vec::new();
        let mut i: usize = 0;
        while i < n
            invariant
                i <= n,
                n == tokens@.len(),
                toks == tokens@.map_values(|t: String| t@),
                terms@.map_values(|t: String| t@) == parse_tokens(toks.take(i as int)).0,
                field_filters@.map_values(|p: (String, String)| (p.0@, p.1@)) == parse_tokens(
                    toks.take(i as int),
                ).1,
            decreases n - i,
        {
            let ghost tv0 = terms@.map_values(|t: String| t@);
            let ghost fv0 = field_filters@.map_values(|p: (String, String)| (p.0@, p.1@));
            proof {
                assert(toks[i as int] == tokens@[i as int]@);
                assert(toks.take(i + 1).drop_last() =~= toks.take(i as int));
                assert(toks.take(i + 1).last() == toks[i as int]);
            }
            let token = &tokens[i];
            let tn = token.as_str().unicode_len();
            let colon = find_colon(token);
            match colon {
                Some(cj) => {
                    proof {
                        lemma_first_colon_found(toks[i as int], cj as int);
                    }
                    let field = token.as_str().substring_char(0, cj).to_owned();
                    let value = token.as_str().substring_char(cj + 1, tn).to_owned();
                    field_filters.push((field, value));
                    proof {
                        assert(field_filters@.map_values(|p: (String, String)| (p.0@, p.1@))
                            =~= fv0.push(
                            (toks[i as int].take(cj as int), toks[i as int].skip(cj + 1)),
                        ));
                        assert(toks[i as int].take(cj as int) =~= token@.subrange(0, cj as int));
                        assert(toks[i as int].skip(cj + 1) =~= token@.subrange(
                            cj + 1,
                            tn as int,
                        ));
                    }
                },
                None => {
                    proof {
                        lemma_first_colon_none(toks[i as int]);
                    }
                    terms.push(token.clone());
                    proof {
                        assert(terms@.map_values(|t: String| t@) =~= tv0.push(toks[i as int]));
                    }
                },
            }
            i += 1;
        }
        proof {
            assert(toks.take(n as int) =~= toks);
        }
        ProductQueryMatcher { terms, field_filters }
    }

    /// Tokenize a query string: split on spaces outside double quotes, drop
    /// the quotes, and trim each token; a pending token that trims to
    /// nothing but held characters still yields its (empty) trimmed form.
    pub fn tokenize(query: &str) -> (r: Vec<String>)
        ensures
            r@.map_values(|t: String| t@) == tokenize_spec(query@),
    {
        let n = query.unicode_len();
        let mut tokens: Vec<String> = Vec::new();
        let mut current = String::new();
        let mut in_quotes = false;
        let mut i: usize = 0;
        proof {
            assert(query@.skip(0) =~= query@);
            assert(tokens@.map_values(|t: String| t@) =~= Seq::<Seq<char>>::empty());
        }
        while i < n
            invariant
                i <= n,
                n == query@.len(),
                tokenize_spec(query@) == tokenize_rec(
                    query@.skip(i as int),
                    tokens@.map_values(|t: String| t@),
                    current@,
                    in_quotes,
                ),
            decreases n - i,
        {
            proof {
                assert(query@.skip(i as int)[0] == query@[i as int]);
                assert(query@.skip(i as int).drop_first() =~= query@.skip(i + 1));
            }
            let c = query.get_char(i);
            if c == ' ' && !in_quotes {
                let ghost tv0 = tokens@.map_values(|t: String| t@);
                let ghost cv0 = current@;
                if !current.as_str().is_empty() {
                    let t = trim_exec(&current);
                    tokens.push(t);
                    current = String::new();
                    proof {
                        assert(tokens@.map_values(|t: String| t@) =~= tv0.push(trim_spec(cv0)));
                        assert(tokens@.map_values(|t: String| t@) == flush_token(tv0, cv0));
                    }
                } else {
                    proof {
                        assert(cv0.len() == 0);
                        assert(flush_token(tv0, cv0) == tv0);
                        assert(current@ =~= Seq::<char>::empty());
                    }
                }
            } else if c == '"' {
                in_quotes = !in_quotes;
            } else {
                push_char(&mut current, c);
            }
            i += 1;
        }
        proof {
            assert(query@.skip(n as int) =~= Seq::<char>::empty());
        }
        if !current.as_str().is_empty() {
            let ghost tv0 = tokens@.map_values(|t: String| t@);
            let t = trim_exec(&current);
            tokens.push(t);
            proof {
                assert(tokens@.map_values(|t: String| t@) =~= tv0.push(trim_spec(current@)));
            }
        }
        tokens
    }

    /// Whether a product matches this query.
    pub fn matches(&self, product: &Product) -> (r: bool)
        ensures
            r == matcher_matches(self@, product@),
    {
        let filter_count = self.field_filters.len();
        let mut i: usize = 0;
        while i < filter_count
            invariant
                i <= filter_count,
                filter_count == self.field_filters@.len(),
                forall|j: int|
                    0 <= j < i ==> field_filter_matches(
                        product@,
                        (#[trigger] self@.field_filters[j]).0,
                        self@.field_filters[j].1,
                    ),
            decreases filter_count - i,
        {
            proof {
                assert(self@.field_filters[i as int] == (
                    self.field_filters@[i as int].0@,
                    self.field_filters@[i as int].1@,
                ));
            }
            let pair = &self.field_filters[i];
            let field = &pair.0;
            let value = &pair.1;
            let f = to_lowercase(field.as_str());
            let ok = if f == String::from_str("product-id") || f == String::from_str("productid") {
                text_exact_matches_exec(&product.product_id, value)
            } else if f == String::from_str("name") {
                text_matches_exec(&product.name, value)
            } else if f == String::from_str("brand") {
                text_matches_exec(&product.brand, value)
            } else if f == String::from_str("description") {
                text_matches_exec(&product.description, value)
            } else if f == String::from_str("tag") || f == String::from_str("tags") {
                any_tag_matches(product, value)
            } else {
                false
            };
            if !ok {
                return false;
            }
            i += 1;
        }
        let tn = self.terms.len();
        let mut i: usize = 0;
        while i < tn
            invariant
                i <= tn,
                tn == self.terms@.len(),
                forall|j: int|
                    0 <= j < self.field_filters@.len() ==> field_filter_matches(
                        product@,
                        (#[trigger] self@.field_filters[j]).0,
                        self@.field_filters[j].1,
                    ),
                forall|j: int| 0 <= j < i ==> term_matches(product@, #[trigger] self@.terms[j]),
            decreases tn - i,
        {
            proof {
                assert(self@.terms[i as int] == self.terms@[i as int]@);
            }
            let term = &self.terms[i];
            let ok = text_matches_exec(&product.name, term) || text_matches_exec(
                &product.brand,
                term,
            ) || text_matches_exec(&product.description, term) || any_tag_matches(
                product,
                term,
            );
            if !ok {
                return false;
            }
            i += 1;
        }
        true
    }
}

} // verus!
