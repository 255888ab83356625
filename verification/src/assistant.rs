use vstd::prelude::*;

use crate::order::{has_item, items_nonneg, ItemModel, OrderItem};

verus! {

// ---------------------------------------------------------------------------
// Recommendation input
//
// The recommendation collaborator is fed a digest of a user's past order
// lines: lines are grouped by product id (the first occurrence keeps the
// name, brand and price; quantities are summed across all occurrences),
// sorted ascending by the summed quantity, and capped at a fixed count.
// The collaborator itself, a language model behind the host's transport,
// is outside this library.
// ---------------------------------------------------------------------------

/// How many grouped order lines are fed to the recommendation collaborator
/// at most.
pub const RECOMMENDATION_INPUT_COUNT: u8 = 100;

/// How many product recommendations are requested.
pub const RECOMMENDATION_PRODUCT_COUNT: u8 = 4;

/// How many brand recommendations are requested.
pub const RECOMMENDATION_BRAND_COUNT: u8 = 3;

/// What the recommendation collaborator answers with: product ids and
/// brands to suggest.
pub struct LlmRecommendedItems {
    pub product_ids: Vec<String>,
    pub product_brands: Vec<String>,
}

/// The stored recommendation state for a user, stamped with the instant of
/// its last refresh, in milliseconds since the Unix epoch.
pub struct RecommendedItems {
    pub product_ids: Vec<String>,
    pub product_brands: Vec<String>,
    pub updated_at: i64,
}

/// The summed quantity of every line of `s` with product id `pid`.
pub open spec fn sum_qty(s: Seq<ItemModel>, pid: Seq<char>) -> int
    decreases s.len(),
{
    if s.len() == 0 {
        0
    } else {
        sum_qty(s.drop_last(), pid) + if s.last().product_id == pid {
            s.last().quantity
        } else {
            0int
        }
    }
}

/// The first line of `s` with product id `pid`, if any.
pub open spec fn first_with_id(s: Seq<ItemModel>, pid: Seq<char>) -> Option<ItemModel>
    decreases s.len(),
{
    if s.len() == 0 {
        None
    } else if first_with_id(s.drop_last(), pid) is Some {
        first_with_id(s.drop_last(), pid)
    } else if s.last().product_id == pid {
        Some(s.last())
    } else {
        None
    }
}

/// How many distinct product ids occur in `s`.
pub open spec fn num_distinct(s: Seq<ItemModel>) -> int
    decreases s.len(),
{
    if s.len() == 0 {
        0
    } else {
        num_distinct(s.drop_last()) + if has_item(s.drop_last(), s.last().product_id) {
            0int
        } else {
            1int
        }
    }
}

/// The grouped line that the digest keeps for product id `pid`: the first
/// occurrence's snapshot with the summed quantity.
pub open spec fn reduced_entry(s: Seq<ItemModel>, pid: Seq<char>) -> Option<ItemModel> {
    match first_with_id(s, pid) {
        Some(it) => Some(ItemModel { quantity: sum_qty(s, pid), ..it }),
        None => None,
    }
}

/// No two lines of `s` share a product id.
pub open spec fn ids_unique(s: Seq<ItemModel>) -> bool {
    forall|i: int, j: int| 0 <= i < j < s.len() ==> s[i].product_id != s[j].product_id
}

/// The lines are sorted ascending by quantity.
pub open spec fn sorted_by_quantity(s: Seq<ItemModel>) -> bool {
    forall|i: int, j: int| 0 <= i < j < s.len() ==> s[i].quantity <= s[j].quantity
}

proof fn lemma_has_item_push(s: Seq<ItemModel>, x: ItemModel, pid: Seq<char>)
    ensures
        has_item(s.push(x), pid) <==> (has_item(s, pid) || x.product_id == pid),
{
    if has_item(s.push(x), pid) {
        let j = choose|j: int|
            0 <= j < s.push(x).len() && (#[trigger] s.push(x)[j]).product_id == pid;
        if j < s.len() {
            assert(s[j] == s.push(x)[j]);
        }
    }
    if has_item(s, pid) {
        let j = choose|j: int| 0 <= j < s.len() && (#[trigger] s[j]).product_id == pid;
        assert(s.push(x)[j].product_id == pid);
    }
    if x.product_id == pid {
        assert(s.push(x)[s.len() as int].product_id == pid);
    }
}

proof fn lemma_has_item_take_succ(s: Seq<ItemModel>, i: int, pid: Seq<char>)
    requires
        0 <= i < s.len(),
    ensures
        has_item(s.take(i + 1), pid) <==> (has_item(s.take(i), pid) || s[i].product_id == pid),
{
    assert(s.take(i + 1) =~= s.take(i).push(s[i]));
    lemma_has_item_push(s.take(i), s[i], pid);
}

proof fn lemma_sum_qty_take_succ(s: Seq<ItemModel>, i: int, pid: Seq<char>)
    requires
        0 <= i < s.len(),
    ensures
        sum_qty(s.take(i + 1), pid) == sum_qty(s.take(i), pid) + if s[i].product_id == pid {
            s[i].quantity
        } else {
            0int
        },
{
    assert(s.take(i + 1).drop_last() =~= s.take(i));
    assert(s.take(i + 1).last() == s[i]);
}

proof fn lemma_first_with_id_take_succ(s: Seq<ItemModel>, i: int, pid: Seq<char>)
    requires
        0 <= i < s.len(),
    ensures
        first_with_id(s.take(i + 1), pid) == if first_with_id(s.take(i), pid) is Some {
            first_with_id(s.take(i), pid)
        } else if s[i].product_id == pid {
            Some(s[i])
        } else {
            None::<ItemModel>
        },
{
    assert(s.take(i + 1).drop_last() =~= s.take(i));
    assert(s.take(i + 1).last() == s[i]);
}

proof fn lemma_first_with_id_some_iff(s: Seq<ItemModel>, pid: Seq<char>)
    ensures
        first_with_id(s, pid) is Some <==> has_item(s, pid),
    decreases s.len(),
{
    if s.len() > 0 {
        lemma_first_with_id_some_iff(s.drop_last(), pid);
        if has_item(s, pid) {
            let j = choose|j: int| 0 <= j < s.len() && (#[trigger] s[j]).product_id == pid;
            if j < s.len() - 1 {
                assert(s.drop_last()[j] == s[j]);
                assert(has_item(s.drop_last(), pid));
            }
        }
        if has_item(s.drop_last(), pid) {
            let j = choose|j: int|
                0 <= j < s.drop_last().len() && (#[trigger] s.drop_last()[j]).product_id == pid;
            assert(s[j].product_id == pid);
        }
    }
}

proof fn lemma_num_distinct_take_succ(s: Seq<ItemModel>, i: int)
    requires
        0 <= i < s.len(),
    ensures
        num_distinct(s.take(i + 1)) == num_distinct(s.take(i)) + if has_item(
            s.take(i),
            s[i].product_id,
        ) {
            0int
        } else {
            1int
        },
{
    assert(s.take(i + 1).drop_last() =~= s.take(i));
    assert(s.take(i + 1).last() == s[i]);
}

proof fn lemma_sum_qty_prefix_bound(s: Seq<ItemModel>, i: int, pid: Seq<char>)
    requires
        items_nonneg(s),
        0 <= i <= s.len(),
    ensures
        sum_qty(s.take(i), pid) <= sum_qty(s, pid),
        sum_qty(s.take(i), pid) >= 0,
    decreases s.len() - i,
{
    if i == s.len() {
        assert(s.take(i) =~= s);
        lemma_sum_qty_nonneg(s, pid);
    } else {
        lemma_sum_qty_take_succ(s, i, pid);
        lemma_sum_qty_prefix_bound(s, i + 1, pid);
        lemma_sum_qty_nonneg_prefix(s, i, pid);
        assert(s[i].price >= 0 && s[i].quantity >= 0);
    }
}

proof fn lemma_sum_qty_nonneg(s: Seq<ItemModel>, pid: Seq<char>)
    requires
        items_nonneg(s),
    ensures
        sum_qty(s, pid) >= 0,
    decreases s.len(),
{
    if s.len() > 0 {
        assert(items_nonneg(s.drop_last())) by {
            assert(forall|i: int|
                0 <= i < s.drop_last().len() ==> #[trigger] s.drop_last()[i] == s[i]);
        }
        lemma_sum_qty_nonneg(s.drop_last(), pid);
        assert(s[s.len() - 1] == s.last());
        assert(s[s.len() - 1].price >= 0 && s[s.len() - 1].quantity >= 0);
    }
}

proof fn lemma_sum_qty_nonneg_prefix(s: Seq<ItemModel>, i: int, pid: Seq<char>)
    requires
        items_nonneg(s),
        0 <= i <= s.len(),
    ensures
        sum_qty(s.take(i), pid) >= 0,
{
    assert(items_nonneg(s.take(i))) by {
        assert(forall|j: int| 0 <= j < s.take(i).len() ==> #[trigger] s.take(i)[j] == s[j]);
    }
    lemma_sum_qty_nonneg(s.take(i), pid);
}

/// The index of the first grouped line with the given product id, if any.
fn find_by_id(v: &Vec<OrderItem>, product_id: &String) -> (r: Option<usize>)
    ensures
        match r {
            Some(j) => j < v@.len() && crate::order::order_item_views(v@)[j as int].product_id
                == product_id@,
            None => !has_item(crate::order::order_item_views(v@), product_id@),
        },
{
    let n = v.len();
    let mut i: usize = 0;
    while i < n
        invariant
            i <= n,
            n == v@.len(),
            forall|j: int|
                0 <= j < i ==> (#[trigger] crate::order::order_item_views(v@)[j]).product_id
                    != product_id@,
        decreases n - i,
    {
        proof {
            assert(crate::order::order_item_views(v@)[i as int] == v@[i as int]@);
        }
        let it = &v[i];
        if it.product_id == *product_id {
            return Some(i);
        }
        i += 1;
    }
    None
}

/// Group past order lines by product id (the first occurrence keeps the
/// name, brand and price; quantities are summed), sort ascending by the
/// summed quantity, and keep at most `RECOMMENDATION_INPUT_COUNT` lines.
pub fn reduce_order_items(items: Vec<OrderItem>) -> (r: Vec<OrderItem>)
    requires
        forall|i: int|
            0 <= i < crate::order::order_item_views(items@).len() ==> sum_qty(
                crate::order::order_item_views(items@),
                (#[trigger] crate::order::order_item_views(items@)[i]).product_id,
            ) <= u32::MAX,
    ensures
        ({
            let v = crate::order::order_item_views(items@);
            let rv = crate::order::order_item_views(r@);
            &&& ids_unique(rv)
            &&& sorted_by_quantity(rv)
            &&& forall|a: int|
                0 <= a < rv.len() ==> Some(#[trigger] rv[a]) == reduced_entry(v, rv[a].product_id)
            &&& rv.len() == vstd::math::min(
                RECOMMENDATION_INPUT_COUNT as int,
                num_distinct(v),
            )
            &&& num_distinct(v) <= RECOMMENDATION_INPUT_COUNT as int ==> forall|pid: Seq<char>|
                #![trigger has_item(v, pid)]
                #![trigger has_item(rv, pid)]
                has_item(v, pid) <==> has_item(rv, pid)
            &&& forall|pid: Seq<char>, a: int|
                #![trigger has_item(rv, pid), rv[a]]
                has_item(v, pid) && !has_item(rv, pid) && 0 <= a < rv.len() ==> rv[a].quantity
                    <= sum_qty(v, pid)
        }),
{
    let ghost v = crate::order::order_item_views(items@);
    let n = items.len();
    let mut grouped: Vec<OrderItem> = Vec::new();
    let mut i: usize = 0;
    while i < n
        invariant
            i <= n,
            n == items@.len(),
            v == crate::order::order_item_views(items@),
            items_nonneg(v),
            forall|a: int|
                0 <= a < v.len() ==> sum_qty(v, (#[trigger] v[a]).product_id) <= u32::MAX,
            ids_unique(crate::order::order_item_views(grouped@)),
            crate::order::order_item_views(grouped@).len() == num_distinct(v.take(i as int)),
            forall|a: int|
                0 <= a < grouped@.len() ==> Some(#[trigger] crate::order::order_item_views(
                    grouped@,
                )[a]) == reduced_entry(
                    v.take(i as int),
                    crate::order::order_item_views(grouped@)[a].product_id,
                ),
            forall|pid: Seq<char>|
                #![trigger has_item(v.take(i as int), pid)]
                #![trigger has_item(crate::order::order_item_views(grouped@), pid)]
                has_item(v.take(i as int), pid) <==> has_item(
                    crate::order::order_item_views(grouped@),
                    pid,
                ),
        decreases n - i,
    {
        let ghost gv0 = crate::order::order_item_views(grouped@);
        proof {
            assert(v[i as int] == items@[i as int]@);
            lemma_has_item_take_succ(v, i as int, v[i as int].product_id);
            lemma_sum_qty_take_succ(v, i as int, v[i as int].product_id);
            lemma_first_with_id_take_succ(v, i as int, v[i as int].product_id);
        }
        let it = &items[i];
        match find_by_id(&grouped, &it.product_id) {
            Some(j) => {
                proof {
                    assert(gv0[j as int].product_id == v[i as int].product_id);
                    assert(Some(gv0[j as int]) == reduced_entry(
                        v.take(i as int),
                        v[i as int].product_id,
                    ));
                    lemma_first_with_id_some_iff(v.take(i as int), v[i as int].product_id);
                    assert(v.take(i as int).take(i as int) =~= v.take(i as int));
                    lemma_sum_qty_prefix_bound(v, i as int, v[i as int].product_id);
                    assert(sum_qty(v.take(i as int), v[i as int].product_id) + v[i as int].quantity
                        <= sum_qty(v, v[i as int].product_id)) by {
                        lemma_sum_qty_prefix_bound(v, i as int + 1, v[i as int].product_id);
                        lemma_sum_qty_take_succ(v, i as int, v[i as int].product_id);
                    }
                }
                let add_q = it.quantity;
                let ghost pv = crate::order::order_item_views(grouped@);
                let mut g = grouped[j].clone();
                g.quantity = g.quantity + add_q;
                grouped[j] = g;
                proof {
                    assert(crate::order::order_item_views(grouped@) =~= pv.update(j as int, g@));
                    assert forall|a: int| 0 <= a < crate::order::order_item_views(grouped@).len()
                        implies Some(#[trigger] crate::order::order_item_views(grouped@)[a])
                        == reduced_entry(
                        v.take(i + 1),
                        crate::order::order_item_views(grouped@)[a].product_id,
                    ) by {
                        let gv = crate::order::order_item_views(grouped@);
                        let pid = gv[a].product_id;
                        lemma_first_with_id_take_succ(v, i as int, pid);
                        lemma_sum_qty_take_succ(v, i as int, pid);
                        if a == j {
                        } else {
                            assert(gv[a] == gv0[a]);
                            assert(pid != v[i as int].product_id);
                        }
                    }
                    assert forall|pid: Seq<char>|
                        has_item(v.take(i + 1), pid) <==> has_item(
                        crate::order::order_item_views(grouped@),
                        pid,
                    ) by {
                        lemma_has_item_take_succ(v, i as int, pid);
                        let gv = crate::order::order_item_views(grouped@);
                        if has_item(gv0, pid) {
                            let a = choose|a: int|
                                0 <= a < gv0.len() && (#[trigger] gv0[a]).product_id == pid;
                            assert(gv[a].product_id == pid);
                            assert(has_item(gv, pid));
                        }
                        if has_item(gv, pid) {
                            let a = choose|a: int|
                                0 <= a < gv.len() && (#[trigger] gv[a]).product_id == pid;
                            assert(gv0[a].product_id == pid);
                            assert(has_item(gv0, pid));
                        }
                    }
                    lemma_num_distinct_take_succ(v, i as int);
                }
            },
            None => {
                proof {
                    assert(!has_item(gv0, v[i as int].product_id));
                    assert(!has_item(v.take(i as int), v[i as int].product_id));
                    lemma_first_with_id_some_iff(v.take(i as int), v[i as int].product_id);
                    lemma_sum_qty_prefix_bound(v, i as int, v[i as int].product_id);
                }
                let g = it.clone();
                grouped.push(g);
                proof {
                    assert(crate::order::order_item_views(grouped@) =~= gv0.push(v[i as int]));
                    let gv = crate::order::order_item_views(grouped@);
                    assert forall|a: int, b: int| 0 <= a < b < gv.len() implies gv[a].product_id
                        != gv[b].product_id by {
                        if b == gv.len() - 1 {
                            assert(gv[a] == gv0[a]);
                            if gv0[a].product_id == v[i as int].product_id {
                                assert(has_item(gv0, v[i as int].product_id));
                            }
                        }
                    }
                    assert forall|a: int| 0 <= a < gv.len() implies Some(#[trigger] gv[a])
                        == reduced_entry(v.take(i + 1), gv[a].product_id) by {
                        let pid = gv[a].product_id;
                        lemma_first_with_id_take_succ(v, i as int, pid);
                        lemma_sum_qty_take_succ(v, i as int, pid);
                        if a == gv.len() - 1 {
                            assert(gv[a] == v[i as int]);
                            assert(sum_qty(v.take(i as int), pid) == 0) by {
                                lemma_first_with_id_some_iff(v.take(i as int), pid);
                                lemma_sum_qty_zero_when_absent(v.take(i as int), pid);
                            }
                        } else {
                            assert(gv[a] == gv0[a]);
                            if pid == v[i as int].product_id {
                                assert(has_item(gv0, v[i as int].product_id));
                            }
                        }
                    }
                    assert forall|pid: Seq<char>|
                        has_item(v.take(i + 1), pid) <==> has_item(gv, pid) by {
                        lemma_has_item_take_succ(v, i as int, pid);
                        lemma_has_item_push(gv0, v[i as int], pid);
                    }
                    lemma_num_distinct_take_succ(v, i as int);
                }
            },
        }
        i += 1;
    }
    proof {
        assert(v.take(n as int) =~= v);
    }
    let mut result = sort_by_quantity(grouped, Ghost(v));
    let cap = RECOMMENDATION_INPUT_COUNT as usize;
    if result.len() > cap {
        let ghost before = crate::order::order_item_views(result@);
        result.truncate(cap);
        proof {
            let rv = crate::order::order_item_views(result@);
            assert(rv =~= before.take(cap as int));
            assert forall|a: int| 0 <= a < rv.len() implies Some(#[trigger] rv[a])
                == reduced_entry(v, rv[a].product_id) by {
                assert(rv[a] == before[a]);
            }
            assert forall|pid: Seq<char>, a: int|
                #![trigger has_item(rv, pid), rv[a]]
                has_item(v, pid) && !has_item(rv, pid) && 0 <= a < rv.len() implies rv[
                a].quantity <= sum_qty(v, pid) by {
                assert(has_item(before, pid));
                let b = choose|b: int|
                    0 <= b < before.len() && (#[trigger] before[b]).product_id == pid;
                if b < cap {
                    assert(rv[b].product_id == pid);
                    assert(has_item(rv, pid));
                } else {
                    assert(rv[a] == before[a]);
                    assert(before[a].quantity <= before[b].quantity);
                    assert(Some(before[b]) == reduced_entry(v, before[b].product_id));
                }
            }
        }
    } else {
        proof {
            let rv = crate::order::order_item_views(result@);
            assert forall|pid: Seq<char>, a: int|
                #![trigger has_item(rv, pid), rv[a]]
                has_item(v, pid) && !has_item(rv, pid) && 0 <= a < rv.len() implies rv[
                a].quantity <= sum_qty(v, pid) by {
                assert(has_item(rv, pid));
            }
        }
    }
    result
}

proof fn lemma_sum_qty_zero_when_absent(s: Seq<ItemModel>, pid: Seq<char>)
    requires
        !has_item(s, pid),
    ensures
        sum_qty(s, pid) == 0,
    decreases s.len(),
{
    if s.len() > 0 {
        assert(!has_item(s.drop_last(), pid)) by {
            if has_item(s.drop_last(), pid) {
                let j = choose|j: int|
                    0 <= j < s.drop_last().len() && (#[trigger] s.drop_last()[j]).product_id
                        == pid;
                assert(s[j].product_id == pid);
            }
        }
        lemma_sum_qty_zero_when_absent(s.drop_last(), pid);
        assert(s[s.len() - 1] == s.last());
    }
}

/// Whether the grouped line at `p` has a quantity at most that of `x`.
fn quantity_le(v: &Vec<OrderItem>, p: usize, x: &OrderItem) -> (r: bool)
    requires
        p < v@.len(),
    ensures
        r == (crate::order::order_item_views(v@)[p as int].quantity <= x@.quantity),
{
    proof {
        assert(crate::order::order_item_views(v@)[p as int] == v@[p as int]@);
    }
    let cur = &v[p];
    cur.quantity <= x.quantity
}

/// Sort grouped lines ascending by quantity, keeping the grouping
/// properties of the input.
fn sort_by_quantity(grouped: Vec<OrderItem>, Ghost(v): Ghost<Seq<ItemModel>>) -> (r: Vec<
    OrderItem,
>)
    requires
        ids_unique(crate::order::order_item_views(grouped@)),
        forall|a: int|
            0 <= a < grouped@.len() ==> Some(#[trigger] crate::order::order_item_views(grouped@)[a])
                == reduced_entry(v, crate::order::order_item_views(grouped@)[a].product_id),
        forall|pid: Seq<char>|
            #![trigger has_item(v, pid)]
            has_item(v, pid) <==> has_item(crate::order::order_item_views(grouped@), pid),
    ensures
        crate::order::order_item_views(r@).len() == grouped@.len(),
        ids_unique(crate::order::order_item_views(r@)),
        sorted_by_quantity(crate::order::order_item_views(r@)),
        forall|a: int|
            0 <= a < r@.len() ==> Some(#[trigger] crate::order::order_item_views(r@)[a])
                == reduced_entry(v, crate::order::order_item_views(r@)[a].product_id),
        forall|pid: Seq<char>|
            #![trigger has_item(v, pid)]
            has_item(v, pid) <==> has_item(crate::order::order_item_views(r@), pid),
{
    let ghost mv = crate::order::order_item_views(grouped@);
    let mn = grouped.len();
    let mut result: Vec<OrderItem> = Vec::new();
    let mut i: usize = 0;
    while i < mn
        invariant
            i <= mn,
            mn == grouped@.len(),
            mv == crate::order::order_item_views(grouped@),
            ids_unique(mv),
            forall|a: int|
                0 <= a < mv.len() ==> Some(#[trigger] mv[a]) == reduced_entry(v, mv[a].product_id),
            result@.len() == i,
            sorted_by_quantity(crate::order::order_item_views(result@)),
            ids_unique(crate::order::order_item_views(result@)),
            forall|a: int|
                0 <= a < result@.len() ==> Some(#[trigger] crate::order::order_item_views(
                    result@,
                )[a]) == reduced_entry(
                    v,
                    crate::order::order_item_views(result@)[a].product_id,
                ),
            forall|a: int, b: int|
                0 <= a < result@.len() && i <= b < mn ==> (
                #[trigger] crate::order::order_item_views(result@)[a]).product_id != (
                #[trigger] mv[b]).product_id,
            forall|pid: Seq<char>|
                #![trigger has_item(v, pid)]
                has_item(v, pid) ==> (has_item(crate::order::order_item_views(result@), pid)
                    || exists|b: int| i <= b < mn && (#[trigger] mv[b]).product_id == pid),
            forall|pid: Seq<char>|
                #![trigger has_item(crate::order::order_item_views(result@), pid)]
                has_item(crate::order::order_item_views(result@), pid) ==> has_item(v, pid),
        decreases mn - i,
    {
        let ghost rv0 = crate::order::order_item_views(result@);
        proof {
            assert(mv[i as int] == grouped@[i as int]@);
        }
        let x = grouped[i].clone();
        let ghost xv = mv[i as int];
        let rn = result.len();
        let mut p: usize = 0;
        while p < rn && quantity_le(&result, p, &x)
            invariant
                p <= rn,
                rn == result@.len(),
                x@ == xv,
                forall|a: int|
                    0 <= a < p ==> (#[trigger] crate::order::order_item_views(result@)[a]).quantity
                        <= xv.quantity,
            decreases rn - p,
        {
            proof {
                assert(crate::order::order_item_views(result@)[p as int] == result@[p as int]@);
            }
            p += 1;
        }
        proof {
            assert(p < rn ==> crate::order::order_item_views(result@)[p as int]
                == result@[p as int]@);
        }
        result.insert(p, x);
        proof {
            let rv = crate::order::order_item_views(result@);
            assert(rv =~= rv0.insert(p as int, xv));
            rv0.insert_ensures(p as int, xv);
            assert forall|a: int, b: int| 0 <= a < b < rv.len() implies rv[a].quantity
                <= rv[b].quantity by {
                if b < p {
                } else if a < p && b == p {
                } else if a < p && b > p {
                    assert(rv0[a].quantity <= rv0[b - 1].quantity);
                } else if a == p && b > p {
                    assert(!(rv0[p as int].quantity <= xv.quantity));
                    assert(rv[a].quantity <= rv0[p as int].quantity);
                    if b - 1 > p {
                        assert(rv0[p as int].quantity <= rv0[b - 1].quantity);
                    }
                } else {
                    assert(rv0[a - 1].quantity <= rv0[b - 1].quantity);
                }
            }
            assert forall|a: int, b: int| 0 <= a < b < rv.len() implies rv[a].product_id
                != rv[b].product_id by {
                if a == p || b == p {
                    let o = if a == p {
                        b
                    } else {
                        a
                    };
                    let oo = if o < p {
                        o
                    } else {
                        o - 1
                    };
                    assert(rv0[oo].product_id != mv[i as int].product_id);
                }
            }
            assert forall|a: int| 0 <= a < rv.len() implies Some(#[trigger] rv[a])
                == reduced_entry(v, rv[a].product_id) by {
                if a == p {
                    assert(rv[a] == mv[i as int]);
                }
            }
            assert forall|a: int, b: int|
                0 <= a < rv.len() && i + 1 <= b < mn implies (#[trigger] rv[a]).product_id != (
            #[trigger] mv[b]).product_id by {
                if a == p {
                    assert(mv[i as int].product_id != mv[b].product_id);
                }
            }
            assert forall|pid: Seq<char>| has_item(v, pid) implies (has_item(rv, pid) || exists|
                b: int,
            | i + 1 <= b < mn && (#[trigger] mv[b]).product_id == pid) by {
                if has_item(rv0, pid) {
                    let a = choose|a: int|
                        0 <= a < rv0.len() && (#[trigger] rv0[a]).product_id == pid;
                    if a < p {
                        assert(rv[a].product_id == pid);
                    } else {
                        assert(rv[a + 1].product_id == pid);
                    }
                    assert(has_item(rv, pid));
                } else if exists|b: int| i <= b < mn && (#[trigger] mv[b]).product_id == pid {
                    let b = choose|b: int| i <= b < mn && (#[trigger] mv[b]).product_id == pid;
                    if b == i {
                        assert(rv[p as int].product_id == pid);
                        assert(has_item(rv, pid));
                    }
                }
            }
            assert forall|pid: Seq<char>| has_item(rv, pid) implies has_item(v, pid) by {
                let a = choose|a: int| 0 <= a < rv.len() && (#[trigger] rv[a]).product_id == pid;
                if a == p {
                    assert(mv[i as int].product_id == pid);
                    assert(has_item(mv, pid));
                    let b = choose|b: int| 0 <= b < mv.len() && (#[trigger] mv[b]).product_id == pid;
                    assert(Some(mv[b]) == reduced_entry(v, pid));
                    lemma_first_with_id_some_iff(v, pid);
                } else {
                    let oo = if a < p {
                        a
                    } else {
                        a - 1
                    };
                    assert(rv0[oo].product_id == pid);
                    assert(has_item(rv0, pid));
                }
            }
        }
        i += 1;
    }
    result
}

} // verus!
