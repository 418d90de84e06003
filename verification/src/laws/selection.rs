//! Laws of the selection of intents.
use vstd::prelude::*;

use crate::intent::IntentView;
use crate::{select, sorting};

verus! {

/// The list holds the items of another list, each at most once for every time
/// that it stands there.
pub open spec fn drawn_from<T>(part: Seq<T>, whole: Seq<T>) -> bool {
    exists|at: Seq<int>| #[trigger] drawn_at(part, whole, at)
}

/// The items of `part` stand in `whole` at the places `at`, all of which
/// differ.
pub open spec fn drawn_at<T>(part: Seq<T>, whole: Seq<T>, at: Seq<int>) -> bool {
    &&& at.len() == part.len()
    &&& forall|i: int|
        0 <= i < at.len() ==> 0 <= #[trigger] at[i] < whole.len() && part[i] == whole[at[i]]
    &&& forall|i: int, j: int| 0 <= i < j < at.len() ==> #[trigger] at[i] != #[trigger] at[j]
}

/// No two intents of the list need a common resource.
pub open spec fn compatible(list: Seq<IntentView>) -> bool {
    forall|i: int, j: int|
        0 <= i < j < list.len() ==> !select::conflict(#[trigger] list[i], #[trigger] list[j])
}

/// Conflict goes both ways.
pub proof fn conflict_is_mutual(a: IntentView, b: IntentView)
    ensures
        select::conflict(a, b) == select::conflict(b, a),
{
    if select::conflict(a, b) {
        let (i, j) = choose|i: int, j: int|
            0 <= i < a.resources.len() && 0 <= j < b.resources.len() && #[trigger] a.resources[i]
                == #[trigger] b.resources[j];
        assert(b.resources[j] == a.resources[i]);
    }
    if select::conflict(b, a) {
        let (i, j) = choose|i: int, j: int|
            0 <= i < b.resources.len() && 0 <= j < a.resources.len() && #[trigger] b.resources[i]
                == #[trigger] a.resources[j];
        assert(a.resources[j] == b.resources[i]);
    }
}

/// What a filter lets through stands in the list, in its order.
pub proof fn filter_is_a_part<T>(list: Seq<T>, fits: spec_fn(T) -> bool) -> (at: Seq<int>)
    ensures
        drawn_at(list.filter(fits), list, at),
        forall|i: int, j: int| 0 <= i < j < at.len() ==> #[trigger] at[i] < #[trigger] at[j],
        forall|i: int| 0 <= i < list.filter(fits).len() ==> fits(#[trigger] list.filter(fits)[i]),
        forall|i: int|
            0 <= i < list.len() && fits(#[trigger] list[i]) ==> list.filter(fits).contains(
                list[i],
            ),
    decreases list.len(),
{
    reveal(Seq::filter);
    if list.len() == 0 {
        Seq::empty()
    } else {
        let fewer = list.drop_last();
        let some = fewer.filter(fits);
        let before = filter_is_a_part(fewer, fits);
        let all = list.filter(fits);
        assert forall|i: int| 0 <= i < list.len() && fits(#[trigger] list[i]) implies all.contains(
            list[i],
        ) by {
            if i < fewer.len() {
                assert(list[i] == fewer[i]);
                assert(some.contains(fewer[i]));
                let k = choose|k: int| 0 <= k < some.len() && some[k] == fewer[i];
                assert(all[k] == list[i]);
            } else {
                assert(all[some.len() as int] == list[i]);
            }
        }
        if fits(list.last()) {
            before.push(list.len() - 1)
        } else {
            before
        }
    }
}

/// No two intents that are kept need a common resource.
pub proof fn kept_is_compatible(items: Seq<IntentView>)
    ensures
        compatible(select::kept(items)),
    decreases items.len(),
{
    if items.len() > 0 {
        let chosen = select::kept(items.drop_last());
        kept_is_compatible(items.drop_last());
        if !select::blocked(chosen, items.last()) {
            let all = chosen.push(items.last());
            assert forall|i: int, j: int| 0 <= i < j < all.len() implies !select::conflict(
                #[trigger] all[i],
                #[trigger] all[j],
            ) by {
                assert(all[i] == chosen[i]);
                if j < chosen.len() {
                    assert(all[j] == chosen[j]);
                }
            }
        }
    }
}

/// What is kept stands among the items, in the order in which it stood there.
pub proof fn kept_is_a_part(items: Seq<IntentView>) -> (at: Seq<int>)
    ensures
        drawn_at(select::kept(items), items, at),
        forall|i: int, j: int| 0 <= i < j < at.len() ==> #[trigger] at[i] < #[trigger] at[j],
    decreases items.len(),
{
    if items.len() == 0 {
        Seq::empty()
    } else {
        let before = kept_is_a_part(items.drop_last());
        if select::blocked(select::kept(items.drop_last()), items.last()) {
            before
        } else {
            before.push(items.len() - 1)
        }
    }
}

/// Every item is kept, or conflicts with one that is kept and was tried
/// before it.
pub proof fn left_out_only_for_an_earlier_one(items: Seq<IntentView>, i: int)
    requires
        0 <= i < items.len(),
    ensures
        select::kept(items).contains(items[i]) || exists|k: int|
            0 <= k < i && select::kept(items).contains(items[k]) && select::conflict(
                #[trigger] items[k],
                items[i],
            ),
    decreases items.len(),
{
    let fewer = items.drop_last();
    let chosen = select::kept(fewer);
    let all = select::kept(items);
    if i == items.len() - 1 {
        if select::blocked(chosen, items[i]) {
            let c = choose|c: int|
                0 <= c < chosen.len() && select::conflict(#[trigger] chosen[c], items[i]);
            let at = kept_is_a_part(fewer);
            assert(chosen[c] == fewer[at[c]]);
            assert(select::conflict(items[at[c]], items[i]));
            assert(all.contains(items[at[c]]));
        } else {
            assert(all[chosen.len() as int] == items[i]);
        }
    } else {
        left_out_only_for_an_earlier_one(fewer, i);
        lemma_kept_grows(items);
        if chosen.contains(fewer[i]) {
            assert(all.contains(items[i]));
        } else {
            let k = choose|k: int|
                0 <= k < i && chosen.contains(fewer[k]) && select::conflict(
                    #[trigger] fewer[k],
                    fewer[i],
                );
            assert(items[k] == fewer[k]);
            assert(all.contains(items[k]));
            assert(select::conflict(items[k], items[i]));
        }
    }
}

/// What was kept stays kept when another item is tried.
proof fn lemma_kept_grows(items: Seq<IntentView>)
    requires
        items.len() > 0,
    ensures
        forall|it: IntentView|
            select::kept(items.drop_last()).contains(it) ==> #[trigger] select::kept(
                items,
            ).contains(it),
{
    let chosen = select::kept(items.drop_last());
    assert forall|it: IntentView| chosen.contains(it) implies #[trigger] select::kept(
        items,
    ).contains(it) by {
        let c = choose|c: int| 0 <= c < chosen.len() && chosen[c] == it;
        assert(select::kept(items)[c] == it);
    }
}

/// Where no two items conflict, all of them are kept.
pub proof fn compatible_items_are_all_kept(items: Seq<IntentView>)
    requires
        compatible(items),
    ensures
        select::kept(items) == items,
    decreases items.len(),
{
    if items.len() > 0 {
        let fewer = items.drop_last();
        assert forall|i: int, j: int| 0 <= i < j < fewer.len() implies !select::conflict(
            #[trigger] fewer[i],
            #[trigger] fewer[j],
        ) by {
            assert(!select::conflict(items[i], items[j]));
        }
        compatible_items_are_all_kept(fewer);
        assert forall|k: int| 0 <= k < fewer.len() implies !select::conflict(
            #[trigger] fewer[k],
            items.last(),
        ) by {
            assert(!select::conflict(items[k], items[items.len() - 1]));
        }
        assert(select::kept(items) =~= items);
    } else {
        assert(select::kept(items) =~= items);
    }
}

/// To select out of what was selected changes nothing.
pub proof fn selecting_again_changes_nothing(items: Seq<IntentView>)
    ensures
        select::kept(select::kept(items)) == select::kept(items),
{
    kept_is_compatible(items);
    compatible_items_are_all_kept(select::kept(items));
}

/// The first item that is tried is kept, and stands first.
pub proof fn the_first_is_kept(items: Seq<IntentView>)
    requires
        items.len() > 0,
    ensures
        select::kept(items).len() > 0,
        select::kept(items)[0] == items[0],
    decreases items.len(),
{
    if items.len() > 1 {
        the_first_is_kept(items.drop_last());
    } else {
        assert(select::kept(items.drop_last()).len() == 0);
    }
}

/// Sorting takes every item once.
pub proof fn sorting_takes_every_item<T>(s: Seq<T>, keys: Seq<(int, int)>)
    requires
        s.len() == keys.len(),
    ensures
        sorting::arranged(s, sorting::stable_order(keys)).len() == s.len(),
        drawn_at(
            sorting::arranged(s, sorting::stable_order(keys)),
            s,
            sorting::stable_order(keys),
        ),
        forall|i: int| 0 <= i < s.len() ==> sorting::stable_order(keys).contains(i),
{
    sorting::lemma_order_exists(keys);
    let order = sorting::stable_order(keys);
    assert forall|i: int, j: int| 0 <= i < j < order.len() implies #[trigger] order[i]
        != #[trigger] order[j] by {
        assert(sorting::precedes(keys, order[i], order[j]));
    }
}

/// In the order of profit, no item earns more than one before it.
pub proof fn profits_fall(items: Seq<IntentView>, i: int, j: int)
    requires
        0 <= i <= j < items.len(),
        select::comparable(items),
    ensures
        select::by_profit(items).len() == items.len(),
        i < j ==> select::by_profit(items)[j].profit.at_most(select::by_profit(items)[i].profit),
{
    let keys = items.map_values(|it: IntentView| select::profit_key(it));
    sorting::lemma_order_exists(keys);
    let order = sorting::stable_order(keys);
    if i < j {
        assert(sorting::precedes(keys, order[i], order[j]));
        assert(!items[order[i]].profit.nan());
        assert(!items[order[j]].profit.nan());
    }
}

/// In the order of arrival, no item arrived later than one after it.
pub proof fn arrivals_rise(items: Seq<IntentView>, i: int, j: int)
    requires
        0 <= i <= j < items.len(),
    ensures
        select::by_arrival(items).len() == items.len(),
        select::arrival_key(select::by_arrival(items)[i]).0 <= select::arrival_key(
            select::by_arrival(items)[j],
        ).0,
{
    let keys = items.map_values(|it: IntentView| select::arrival_key(it));
    sorting::lemma_order_exists(keys);
    let order = sorting::stable_order(keys);
    if i < j {
        assert(sorting::precedes(keys, order[i], order[j]));
    }
}

/// Items whose indices rise already stand in the order of arrival.
pub proof fn in_order_of_arrival(items: Seq<IntentView>)
    requires
        forall|i: int, j: int|
            0 <= i < j < items.len() ==> select::arrival_key(#[trigger] items[i]).0
                <= select::arrival_key(#[trigger] items[j]).0,
    ensures
        select::by_arrival(items) == items,
{
    let keys = items.map_values(|it: IntentView| select::arrival_key(it));
    let plain = Seq::new(items.len(), |i: int| i);
    assert forall|i: int, j: int| 0 <= i < j < plain.len() implies sorting::precedes(
        keys,
        #[trigger] plain[i],
        #[trigger] plain[j],
    ) by {
        assert(select::arrival_key(items[i]).0 <= select::arrival_key(items[j]).0);
    }
    assert forall|k: int| 0 <= k < items.len() implies #[trigger] plain.contains(k) by {
        assert(plain[k] == k);
    }
    sorting::lemma_order_exists(keys);
    sorting::lemma_order_unique(
        plain,
        sorting::stable_order(keys),
        keys,
        0,
        items.len() as int,
    );
    assert(select::by_arrival(items) =~= items);
}

/// Items that all earn the same keep their order in the order of profit.
pub proof fn equal_profits_keep_their_order(items: Seq<IntentView>)
    requires
        forall|i: int, j: int|
            0 <= i < j < items.len() ==> (#[trigger] items[i]).profit.rank() == (
            #[trigger] items[j]).profit.rank(),
    ensures
        select::by_profit(items) == items,
{
    let keys = items.map_values(|it: IntentView| select::profit_key(it));
    let plain = Seq::new(items.len(), |i: int| i);
    assert forall|i: int, j: int| 0 <= i < j < plain.len() implies sorting::precedes(
        keys,
        #[trigger] plain[i],
        #[trigger] plain[j],
    ) by {
        assert(items[i].profit.rank() == items[j].profit.rank());
    }
    assert forall|k: int| 0 <= k < items.len() implies #[trigger] plain.contains(k) by {
        assert(plain[k] == k);
    }
    sorting::lemma_order_exists(keys);
    sorting::lemma_order_unique(
        plain,
        sorting::stable_order(keys),
        keys,
        0,
        items.len() as int,
    );
    assert(select::by_profit(items) =~= items);
}

/// What the greedy order selects are items of the list, each taken once, and
/// no two of them conflict.
pub proof fn greedy_selection_is_sound(items: Seq<IntentView>)
    ensures
        drawn_from(select::kept(select::by_profit(items)), items),
        compatible(select::kept(select::by_profit(items))),
{
    let keys = items.map_values(|it: IntentView| select::profit_key(it));
    lemma_drawn_through_sorting(items, keys);
    kept_is_compatible(select::by_profit(items));
}

/// What the order of arrival selects are items of the list, each taken once,
/// and no two of them conflict.
pub proof fn fifo_selection_is_sound(items: Seq<IntentView>)
    ensures
        drawn_from(select::kept(select::by_arrival(items)), items),
        compatible(select::kept(select::by_arrival(items))),
{
    let keys = items.map_values(|it: IntentView| select::arrival_key(it));
    lemma_drawn_through_sorting(items, keys);
    kept_is_compatible(select::by_arrival(items));
}

proof fn lemma_drawn_through_sorting(items: Seq<IntentView>, keys: Seq<(int, int)>)
    requires
        items.len() == keys.len(),
    ensures
        drawn_from(
            select::kept(sorting::arranged(items, sorting::stable_order(keys))),
            items,
        ),
{
    let order = sorting::stable_order(keys);
    let sorted = sorting::arranged(items, order);
    let part = select::kept(sorted);
    sorting_takes_every_item(items, keys);
    let at = kept_is_a_part(sorted);
    let through = Seq::new(at.len(), |i: int| order[at[i]]);
    assert forall|i: int| 0 <= i < through.len() implies 0 <= #[trigger] through[i] < items.len()
        && part[i] == items[through[i]] by {
        assert(part[i] == sorted[at[i]]);
        assert(sorted[at[i]] == items[order[at[i]]]);
    }
    assert forall|i: int, j: int| 0 <= i < j < through.len() implies #[trigger] through[i]
        != #[trigger] through[j] by {
        assert(at[i] < at[j]);
        assert(order[at[i]] != order[at[j]]);
    }
    assert(drawn_at(part, items, through));
}

/// An item that the greedy order leaves out conflicts with a selected one
/// that earns at least as much.
pub proof fn greedy_leaves_out_only_for_better(items: Seq<IntentView>, i: int)
    requires
        0 <= i < items.len(),
        select::comparable(items),
    ensures
        ({
            let selected = select::kept(select::by_profit(items));
            selected.contains(items[i]) || exists|w: IntentView|
                selected.contains(w) && #[trigger] select::conflict(w, items[i])
                    && items[i].profit.at_most(w.profit)
        }),
{
    let keys = items.map_values(|it: IntentView| select::profit_key(it));
    let order = sorting::stable_order(keys);
    let sorted = select::by_profit(items);
    sorting_takes_every_item(items, keys);
    assert(order.contains(i));
    let p = choose|p: int| 0 <= p < order.len() && order[p] == i;
    assert(sorted[p] == items[i]);
    left_out_only_for_an_earlier_one(sorted, p);
    if !select::kept(sorted).contains(items[i]) {
        let k = choose|k: int|
            0 <= k < p && select::kept(sorted).contains(sorted[k]) && select::conflict(
                #[trigger] sorted[k],
                sorted[p],
            );
        profits_fall(items, k, p);
        assert(select::conflict(sorted[k], items[i]));
    }
}

/// An item that the order of arrival leaves out conflicts with a selected one
/// that did not arrive later.
pub proof fn fifo_leaves_out_only_for_earlier(items: Seq<IntentView>, i: int)
    requires
        0 <= i < items.len(),
    ensures
        ({
            let selected = select::kept(select::by_arrival(items));
            selected.contains(items[i]) || exists|w: IntentView|
                selected.contains(w) && #[trigger] select::conflict(w, items[i])
                    && select::arrival_key(w).0 <= select::arrival_key(items[i]).0
        }),
{
    let keys = items.map_values(|it: IntentView| select::arrival_key(it));
    let order = sorting::stable_order(keys);
    let sorted = select::by_arrival(items);
    sorting_takes_every_item(items, keys);
    assert(order.contains(i));
    let p = choose|p: int| 0 <= p < order.len() && order[p] == i;
    assert(sorted[p] == items[i]);
    left_out_only_for_an_earlier_one(sorted, p);
    if !select::kept(sorted).contains(items[i]) {
        let k = choose|k: int|
            0 <= k < p && select::kept(sorted).contains(sorted[k]) && select::conflict(
                #[trigger] sorted[k],
                sorted[p],
            );
        arrivals_rise(items, k, p);
        assert(select::conflict(sorted[k], items[i]));
    }
}

/// The greedy order selects an item that earns at least as much as every
/// other.
pub proof fn greedy_selects_the_most_profitable(items: Seq<IntentView>, i: int)
    requires
        0 <= i < items.len(),
        select::comparable(items),
    ensures
        ({
            let selected = select::kept(select::by_profit(items));
            &&& selected.len() > 0
            &&& selected[0] == items[i] || items[i].profit.at_most(selected[0].profit)
        }),
{
    let keys = items.map_values(|it: IntentView| select::profit_key(it));
    let order = sorting::stable_order(keys);
    let sorted = select::by_profit(items);
    sorting_takes_every_item(items, keys);
    assert(order.contains(i));
    let p = choose|p: int| 0 <= p < order.len() && order[p] == i;
    the_first_is_kept(sorted);
    if p > 0 {
        profits_fall(items, 0, p);
    }
}

} // verus!
