//! Which intents are chosen, said of the intents themselves: of the resources
//! that they name, of when they arrived and of what they earn.
use vstd::prelude::*;

use crate::block::Sharing;
use crate::double::Double;
use crate::intent::IntentView;
use crate::{block, engine, select, sorting};

verus! {

/// Some resource is named by both intents.
pub open spec fn share_a_resource(a: IntentView, b: IntentView) -> bool {
    exists|name: Seq<char>| #[trigger]
        a.resources.contains(name) && b.resources.contains(name)
}

/// When an intent arrived; one without an index counts as the latest of all.
pub open spec fn arrival(it: IntentView) -> int {
    match it.arrival_index {
        Some(index) => index as int,
        None => u64::MAX as int,
    }
}

/// No profit among two or more is NaN.
pub open spec fn profits_are_numbers(items: Seq<IntentView>) -> bool {
    items.len() < 2 || forall|i: int| 0 <= i < items.len() ==> !(#[trigger] items[i]).profit.nan()
}

/// In the order of arrival the item at `i` comes before the one at `j`: it
/// arrived earlier, or with it and stands before it.
pub open spec fn earlier(items: Seq<IntentView>, i: int, j: int) -> bool {
    arrival(items[i]) < arrival(items[j]) || (arrival(items[i]) == arrival(items[j]) && i < j)
}

/// In the order of profit the item at `i` comes before the one at `j`: it
/// earns more, or as much and stands before it.
pub open spec fn richer(items: Seq<IntentView>, i: int, j: int) -> bool {
    items[j].profit.below(items[i].profit) || (!items[i].profit.below(items[j].profit) && i < j)
}

/// The selected intents are the items at the places `at`, and no two of them
/// name a common resource.
pub open spec fn chosen_at(
    selected: Seq<IntentView>,
    items: Seq<IntentView>,
    at: Seq<int>,
) -> bool {
    &&& at.len() == selected.len()
    &&& forall|k: int|
        0 <= k < at.len() ==> 0 <= #[trigger] at[k] < items.len() && selected[k] == items[at[k]]
    &&& forall|k: int, l: int|
        0 <= k < l < selected.len() ==> !share_a_resource(
            #[trigger] selected[k],
            #[trigger] selected[l],
        )
}

/// The item at `i` was chosen, or names a resource of one that was chosen and
/// came before it in the order of arrival.
pub open spec fn settled_by_arrival(items: Seq<IntentView>, at: Seq<int>, i: int) -> bool {
    at.contains(i) || exists|k: int|
        0 <= k < at.len() && earlier(items, #[trigger] at[k], i) && share_a_resource(
            items[at[k]],
            items[i],
        )
}

/// The same in the order of profit.
pub open spec fn settled_by_profit(items: Seq<IntentView>, at: Seq<int>, i: int) -> bool {
    at.contains(i) || exists|k: int|
        0 <= k < at.len() && richer(items, #[trigger] at[k], i) && share_a_resource(
            items[at[k]],
            items[i],
        )
}

/// The same in the order in which the items stand.
pub open spec fn settled_as_given(items: Seq<IntentView>, at: Seq<int>, i: int) -> bool {
    at.contains(i) || exists|k: int|
        0 <= k < at.len() && #[trigger] at[k] < i && share_a_resource(items[at[k]], items[i])
}

/// The choice of first come, first served: items that name no resource
/// together, in the order of arrival, and nothing is left out but for one that
/// was chosen before it.
pub open spec fn first_come_first_served(
    selected: Seq<IntentView>,
    items: Seq<IntentView>,
    at: Seq<int>,
) -> bool {
    &&& chosen_at(selected, items, at)
    &&& forall|k: int, l: int|
        0 <= k < l < at.len() ==> earlier(items, #[trigger] at[k], #[trigger] at[l])
    &&& forall|i: int| 0 <= i < items.len() ==> #[trigger] settled_by_arrival(items, at, i)
}

/// The choice of the greedy order: the same in the order of profit.
pub open spec fn richest_first(
    selected: Seq<IntentView>,
    items: Seq<IntentView>,
    at: Seq<int>,
) -> bool {
    &&& chosen_at(selected, items, at)
    &&& forall|k: int, l: int|
        0 <= k < l < at.len() ==> richer(items, #[trigger] at[k], #[trigger] at[l])
    &&& forall|i: int| 0 <= i < items.len() ==> #[trigger] settled_by_profit(items, at, i)
}

/// The choice when items are tried as they stand.
pub open spec fn tried_as_given(
    selected: Seq<IntentView>,
    items: Seq<IntentView>,
    at: Seq<int>,
) -> bool {
    &&& chosen_at(selected, items, at)
    &&& forall|k: int, l: int| 0 <= k < l < at.len() ==> #[trigger] at[k] < #[trigger] at[l]
    &&& forall|i: int| 0 <= i < items.len() ==> #[trigger] settled_as_given(items, at, i)
}

/// Intents conflict where they name a common resource, and only there.
pub proof fn conflict_is_a_common_resource(a: IntentView, b: IntentView)
    ensures
        select::conflict(a, b) == share_a_resource(a, b),
{
    if select::conflict(a, b) {
        let (i, j) = choose|i: int, j: int|
            0 <= i < a.resources.len() && 0 <= j < b.resources.len() && #[trigger] a.resources[i]
                == #[trigger] b.resources[j];
        assert(a.resources.contains(a.resources[i]));
        assert(b.resources.contains(b.resources[j]));
    }
    if share_a_resource(a, b) {
        let name = choose|name: Seq<char>| #[trigger]
            a.resources.contains(name) && b.resources.contains(name);
        let i = choose|i: int| 0 <= i < a.resources.len() && a.resources[i] == name;
        let j = choose|j: int| 0 <= j < b.resources.len() && b.resources[j] == name;
        assert(a.resources[i] == b.resources[j]);
    }
}

/// What is kept when items are tried as they stand: those that name no
/// resource of one kept before.
pub proof fn kept_as_given(items: Seq<IntentView>) -> (at: Seq<int>)
    ensures
        tried_as_given(select::kept(items), items, at),
    decreases items.len(),
{
    if items.len() == 0 {
        Seq::empty()
    } else {
        let fewer = items.drop_last();
        let chosen = select::kept(fewer);
        let it = items.last();
        let before = kept_as_given(fewer);
        let n = fewer.len() as int;
        let all = select::kept(items);
        let at = if select::blocked(chosen, it) {
            before
        } else {
            before.push(n)
        };
        assert forall|k: int, l: int| 0 <= k < l < all.len() implies !share_a_resource(
            #[trigger] all[k],
            #[trigger] all[l],
        ) by {
            assert(all[k] == chosen[k]);
            if l < chosen.len() {
                assert(all[l] == chosen[l]);
            } else {
                assert(!select::conflict(chosen[k], it));
                conflict_is_a_common_resource(chosen[k], it);
            }
        }
        assert forall|i: int| 0 <= i < items.len() implies #[trigger] settled_as_given(
            items,
            at,
            i,
        ) by {
            if i < n {
                assert(settled_as_given(fewer, before, i));
                if before.contains(i) {
                    let k = choose|k: int| 0 <= k < before.len() && before[k] == i;
                    assert(at[k] == i);
                } else {
                    let k = choose|k: int|
                        0 <= k < before.len() && #[trigger] before[k] < i && share_a_resource(
                            fewer[before[k]],
                            fewer[i],
                        );
                    assert(at[k] == before[k]);
                    assert(share_a_resource(items[at[k]], items[i]));
                }
            } else if select::blocked(chosen, it) {
                let k = choose|k: int|
                    0 <= k < chosen.len() && select::conflict(#[trigger] chosen[k], it);
                conflict_is_a_common_resource(chosen[k], it);
                assert(chosen[k] == fewer[before[k]]);
                assert(at[k] < i);
                assert(share_a_resource(items[at[k]], items[i]));
            } else {
                assert(at[before.len() as int] == i);
            }
        }
        assert forall|k: int| 0 <= k < at.len() implies 0 <= #[trigger] at[k] < items.len()
            && all[k] == items[at[k]] by {
            if k < before.len() {
                assert(at[k] == before[k]);
                assert(chosen[k] == fewer[before[k]]);
            }
        }
        at
    }
}

/// The item at `i` was chosen, or names a resource of one that was chosen and
/// has a lower key.
spec fn settled_by_keys(items: Seq<IntentView>, keys: Seq<(int, int)>, at: Seq<int>, i: int) -> bool {
    at.contains(i) || exists|k: int|
        0 <= k < at.len() && sorting::precedes(keys, #[trigger] at[k], i) && share_a_resource(
            items[at[k]],
            items[i],
        )
}

/// What is kept of sorted items, by the places that the items had.
proof fn lemma_kept_of_sorted(items: Seq<IntentView>, keys: Seq<(int, int)>) -> (at: Seq<int>)
    requires
        items.len() == keys.len(),
    ensures
        ({
            let selected = select::kept(sorting::arranged(items, sorting::stable_order(keys)));
            &&& chosen_at(selected, items, at)
            &&& forall|k: int, l: int|
                0 <= k < l < at.len() ==> sorting::precedes(
                    keys,
                    #[trigger] at[k],
                    #[trigger] at[l],
                )
            &&& forall|i: int| 0 <= i < items.len() ==> #[trigger] settled_by_keys(items, keys, at, i)
        }),
{
    let order = sorting::stable_order(keys);
    let sorted = sorting::arranged(items, order);
    sorting::lemma_order_exists(keys);
    let kt = kept_as_given(sorted);
    let selected = select::kept(sorted);
    let at = Seq::new(kt.len(), |k: int| order[kt[k]]);
    assert forall|k: int| 0 <= k < at.len() implies 0 <= #[trigger] at[k] < items.len()
        && selected[k] == items[at[k]] by {
        assert(0 <= kt[k] < sorted.len());
        assert(0 <= order[kt[k]] < items.len());
    }
    assert forall|k: int, l: int| 0 <= k < l < at.len() implies sorting::precedes(
        keys,
        #[trigger] at[k],
        #[trigger] at[l],
    ) by {
        assert(kt[k] < kt[l]);
        assert(sorting::precedes(keys, order[kt[k]], order[kt[l]]));
    }
    assert forall|i: int| 0 <= i < items.len() implies #[trigger] settled_by_keys(
        items,
        keys,
        at,
        i,
    ) by {
        assert(order.contains(i));
        let p = choose|p: int| 0 <= p < order.len() && order[p] == i;
        assert(settled_as_given(sorted, kt, p));
        if kt.contains(p) {
            let k = choose|k: int| 0 <= k < kt.len() && kt[k] == p;
            assert(at[k] == i);
        } else {
            let k = choose|k: int|
                0 <= k < kt.len() && #[trigger] kt[k] < p && share_a_resource(
                    sorted[kt[k]],
                    sorted[p],
                );
            assert(sorting::precedes(keys, order[kt[k]], order[p]));
            assert(at[k] == order[kt[k]]);
            assert(sorted[kt[k]] == items[at[k]]);
            assert(sorted[p] == items[i]);
        }
    }
    assert(at.len() == selected.len());
    assert forall|k: int, l: int| 0 <= k < l < selected.len() implies !share_a_resource(
        #[trigger] selected[k],
        #[trigger] selected[l],
    ) by {
        assert(chosen_at(selected, sorted, kt));
    }
    at
}

/// The order of arrival chooses first come, first served.
pub proof fn fifo_choice(items: Seq<IntentView>) -> (at: Seq<int>)
    ensures
        first_come_first_served(select::kept(select::by_arrival(items)), items, at),
{
    let keys = items.map_values(|it: IntentView| select::arrival_key(it));
    let at = lemma_kept_of_sorted(items, keys);
    assert forall|i: int| 0 <= i < items.len() implies #[trigger] settled_by_arrival(
        items,
        at,
        i,
    ) by {
        assert(settled_by_keys(items, keys, at, i));
        if !at.contains(i) {
            let k = choose|k: int|
                0 <= k < at.len() && sorting::precedes(keys, #[trigger] at[k], i)
                    && share_a_resource(items[at[k]], items[i]);
            assert(earlier(items, at[k], i));
        }
    }
    at
}

/// The order of profit chooses the richest first.
pub proof fn greedy_choice(items: Seq<IntentView>) -> (at: Seq<int>)
    requires
        profits_are_numbers(items),
    ensures
        richest_first(select::kept(select::by_profit(items)), items, at),
{
    let keys = items.map_values(|it: IntentView| select::profit_key(it));
    let at = lemma_kept_of_sorted(items, keys);
    assert forall|i: int| 0 <= i < items.len() implies #[trigger] settled_by_profit(
        items,
        at,
        i,
    ) by {
        assert(settled_by_keys(items, keys, at, i));
        if !at.contains(i) {
            let k = choose|k: int|
                0 <= k < at.len() && sorting::precedes(keys, #[trigger] at[k], i)
                    && share_a_resource(items[at[k]], items[i]);
            assert(items.len() >= 2);
            assert(richer(items, at[k], i));
        }
    }
    assert forall|k: int, l: int| 0 <= k < l < at.len() implies richer(
        items,
        #[trigger] at[k],
        #[trigger] at[l],
    ) by {
        assert(sorting::precedes(keys, at[k], at[l]));
        assert(items.len() >= 2);
        assert(!items[at[k]].profit.nan());
        assert(!items[at[l]].profit.nan());
    }
    at
}

/// The intents of a block, without what they are paid.
pub open spec fn intents_of(b: block::BlockView) -> Seq<IntentView> {
    Seq::new(b.selected.len(), |k: int| b.selected[k].intent)
}

/// A block chooses first come, first served under the name `fifo`, and the
/// richest first under every other.
pub proof fn a_block_chooses_by_name(
    sharing: Sharing,
    items: Seq<IntentView>,
    algorithm: Seq<char>,
    rate: Double,
) -> (at: Seq<int>)
    requires
        algorithm != "fifo"@ ==> profits_are_numbers(items),
    ensures
        ({
            let b = block::block_of(sharing, items, algorithm, rate);
            &&& algorithm == "fifo"@ ==> first_come_first_served(intents_of(b), items, at)
            &&& algorithm != "fifo"@ ==> richest_first(intents_of(b), items, at)
        }),
{
    let b = block::block_of(sharing, items, algorithm, rate);
    let chosen = block::selection(items, algorithm);
    assert(intents_of(b) =~= chosen);
    if algorithm == "fifo"@ {
        fifo_choice(items)
    } else {
        greedy_choice(items)
    }
}

/// The engine chooses first come, first served under the name `fifo`.
pub proof fn the_engine_serves_the_first(items: Seq<IntentView>) -> (at: Seq<int>)
    ensures
        first_come_first_served(engine::selection(items, "fifo"@), items, at),
{
    fifo_choice(items)
}

/// Under every other name the engine chooses the richest first, where no
/// profit is NaN.
pub proof fn the_engine_takes_the_richest(items: Seq<IntentView>, algorithm: Seq<char>) -> (at: Seq<
    int,
>)
    requires
        algorithm != "fifo"@,
        profits_are_numbers(items),
    ensures
        richest_first(engine::selection(items, algorithm), items, at),
{
    greedy_choice(items)
}

/// Where a profit is NaN and the others do not differ, the engine tries the
/// intents as they stand.
pub proof fn the_engine_tries_as_given(items: Seq<IntentView>, algorithm: Seq<char>) -> (at: Seq<
    int,
>)
    requires
        algorithm != "fifo"@,
        !profits_are_numbers(items),
        forall|i: int, j: int|
            0 <= i < items.len() && 0 <= j < items.len() ==> !(#[trigger] items[i]).profit.below(
                (#[trigger] items[j]).profit,
            ),
    ensures
        engine::orderable(items),
        tried_as_given(engine::selection(items, algorithm), items, at),
{
    assert forall|i: int, j: int|
        0 <= i < items.len() && 0 <= j < items.len() && !items[i].profit.nan()
            && !items[j].profit.nan() implies (#[trigger] items[i]).profit.rank() == (
    #[trigger] items[j]).profit.rank() by {
        assert(!items[i].profit.below(items[j].profit));
        assert(!items[j].profit.below(items[i].profit));
    }
    kept_as_given(items)
}

/// The greedy order is asked only of profits that are numbers, where there
/// are two or more.
pub proof fn what_can_be_ranked(items: Seq<IntentView>)
    ensures
        select::comparable(items) == profits_are_numbers(items),
{
}

/// The engine can order intents whose profits are numbers, and no others but
/// those whose profits do not differ.
pub proof fn what_the_engine_can_order(items: Seq<IntentView>)
    ensures
        engine::orderable(items) == (profits_are_numbers(items) || forall|i: int, j: int|
            0 <= i < items.len() && 0 <= j < items.len() ==> !(#[trigger] items[i]).profit.below(
                (#[trigger] items[j]).profit,
            )),
{
    if forall|i: int, j: int|
        0 <= i < items.len() && 0 <= j < items.len() ==> !(#[trigger] items[i]).profit.below(
            (#[trigger] items[j]).profit,
        ) {
        assert forall|i: int, j: int|
            0 <= i < items.len() && 0 <= j < items.len() && !items[i].profit.nan()
                && !items[j].profit.nan() implies (#[trigger] items[i]).profit.rank() == (
        #[trigger] items[j]).profit.rank() by {
            assert(!items[i].profit.below(items[j].profit));
            assert(!items[j].profit.below(items[i].profit));
        }
    }
}

/// There is one way to choose first come, first served.
pub proof fn the_first_choice_is_the_only_one(
    items: Seq<IntentView>,
    one: Seq<IntentView>,
    at: Seq<int>,
)
    requires
        first_come_first_served(one, items, at),
    ensures
        one == select::kept(select::by_arrival(items)),
{
    let other = select::kept(select::by_arrival(items));
    let bt = fifo_choice(items);
    lemma_same_choice(items, at, bt);
    lemma_same_choice(items, bt, at);
    lemma_same_places(items, at, bt);
    assert forall|k: int| 0 <= k < one.len() implies one[k] == other[k] by {
        assert(one[k] == items[at[k]]);
        assert(other[k] == items[bt[k]]);
    }
    assert(one =~= other);
}

/// A place of one choice is a place of the other.
proof fn lemma_same_choice(items: Seq<IntentView>, at: Seq<int>, bt: Seq<int>)
    requires
        exists|one: Seq<IntentView>| #[trigger] first_come_first_served(one, items, at),
        exists|other: Seq<IntentView>| #[trigger] first_come_first_served(other, items, bt),
    ensures
        forall|k: int| 0 <= k < at.len() ==> bt.contains(#[trigger] at[k]),
{
    assert forall|k: int| 0 <= k < at.len() implies bt.contains(#[trigger] at[k]) by {
        lemma_chosen_too(items, at, bt, k);
    }
}

proof fn lemma_chosen_too(items: Seq<IntentView>, at: Seq<int>, bt: Seq<int>, k: int)
    requires
        exists|one: Seq<IntentView>| #[trigger] first_come_first_served(one, items, at),
        exists|other: Seq<IntentView>| #[trigger] first_come_first_served(other, items, bt),
        0 <= k < at.len(),
    ensures
        bt.contains(at[k]),
    decreases arrival(items[at[k]]), at[k],
{
    let one = choose|one: Seq<IntentView>| #[trigger] first_come_first_served(one, items, at);
    let other = choose|other: Seq<IntentView>| #[trigger]
        first_come_first_served(other, items, bt);
    let i = at[k];
    assert(0 <= i < items.len());
    assert(settled_by_arrival(items, bt, i));
    if !bt.contains(i) {
        let l = choose|l: int|
            0 <= l < bt.len() && earlier(items, #[trigger] bt[l], i) && share_a_resource(
                items[bt[l]],
                items[i],
            );
        assert(0 <= bt[l] < items.len());
        lemma_chosen_too(items, bt, at, l);
        let m = choose|m: int| 0 <= m < at.len() && at[m] == bt[l];
        assert(one[m] == items[at[m]]);
        assert(one[k] == items[at[k]]);
        if m < k {
            assert(!share_a_resource(one[m], one[k]));
        } else if m > k {
            assert(earlier(items, at[k], at[m]));
        }
    }
}

/// Places that are listed in one order and are the same are listed alike.
proof fn lemma_same_places(items: Seq<IntentView>, at: Seq<int>, bt: Seq<int>)
    requires
        forall|k: int| 0 <= k < at.len() ==> bt.contains(#[trigger] at[k]),
        forall|k: int| 0 <= k < bt.len() ==> at.contains(#[trigger] bt[k]),
        forall|k: int, l: int|
            0 <= k < l < at.len() ==> earlier(items, #[trigger] at[k], #[trigger] at[l]),
        forall|k: int, l: int|
            0 <= k < l < bt.len() ==> earlier(items, #[trigger] bt[k], #[trigger] bt[l]),
    ensures
        at == bt,
    decreases at.len(),
{
    if at.len() == 0 {
        if bt.len() > 0 {
            assert(at.contains(bt[0]));
        }
        assert(at =~= bt);
    } else {
        assert(bt.contains(at[0]));
        let n = at.len() - 1;
        let m = bt.len() - 1;
        assert(at[n] == bt[m]) by {
            assert(bt.contains(at[n]));
            assert(at.contains(bt[m]));
            let x = choose|x: int| 0 <= x < bt.len() && bt[x] == at[n];
            let y = choose|y: int| 0 <= y < at.len() && at[y] == bt[m];
            if x < m && y < n {
                assert(earlier(items, bt[x], bt[m]));
                assert(earlier(items, at[y], at[n]));
            }
        }
        let a = at.drop_last();
        let b = bt.drop_last();
        assert forall|k: int| 0 <= k < a.len() implies b.contains(#[trigger] a[k]) by {
            assert(bt.contains(at[k]));
            let x = choose|x: int| 0 <= x < bt.len() && bt[x] == at[k];
            assert(earlier(items, at[k], at[n]));
            assert(x != m);
            assert(b[x] == a[k]);
        }
        assert forall|k: int| 0 <= k < b.len() implies a.contains(#[trigger] b[k]) by {
            assert(at.contains(bt[k]));
            let x = choose|x: int| 0 <= x < at.len() && at[x] == bt[k];
            assert(earlier(items, bt[k], bt[m]));
            assert(x != n);
            assert(a[x] == b[k]);
        }
        assert forall|k: int, l: int| 0 <= k < l < a.len() implies earlier(
            items,
            #[trigger] a[k],
            #[trigger] a[l],
        ) by {
            assert(earlier(items, at[k], at[l]));
        }
        assert forall|k: int, l: int| 0 <= k < l < b.len() implies earlier(
            items,
            #[trigger] b[k],
            #[trigger] b[l],
        ) by {
            assert(earlier(items, bt[k], bt[l]));
        }
        lemma_same_places(items, a, b);
        assert(at =~= a.push(at[n]));
        assert(bt =~= b.push(bt[m]));
    }
}

/// Which resources are in use: a name is, exactly if some intent names it.
pub proof fn held_are_the_names(items: Seq<IntentView>, name: Seq<char>)
    ensures
        select::held(items).contains(name) == (exists|k: int|
            0 <= k < items.len() && (#[trigger] items[k]).resources.contains(name)),
{
    if select::held(items).contains(name) {
        let (k, i) = choose|k: int, i: int|
            0 <= k < items.len() && 0 <= i < items[k].resources.len()
                && #[trigger] items[k].resources[i] == name;
        assert(items[k].resources.contains(name));
    }
    if exists|k: int| 0 <= k < items.len() && (#[trigger] items[k]).resources.contains(name) {
        let k = choose|k: int|
            0 <= k < items.len() && (#[trigger] items[k]).resources.contains(name);
        let i = choose|i: int| 0 <= i < items[k].resources.len() && items[k].resources[i] == name;
        assert(items[k].resources[i] == name);
    }
}

/// The first intents of a proposal: as many as the limit allows, each by its
/// place, in the order of arrival; what is not taken arrived no earlier.
pub proof fn a_proposal_takes_the_earliest(items: Seq<IntentView>, limit: Option<usize>) -> (at:
    Seq<int>)
    ensures
        ({
            let taken = block::earliest(items, limit);
            &&& at.len() == taken.len()
            &&& taken.len() <= items.len()
            &&& limit is None ==> taken.len() == items.len()
            &&& limit matches Some(k) ==> taken.len() <= k && (taken.len() == k || taken.len()
                == items.len())
            &&& forall|k: int|
                0 <= k < at.len() ==> 0 <= #[trigger] at[k] < items.len() && taken[k]
                    == items[at[k]]
            &&& forall|k: int, l: int|
                0 <= k < l < at.len() ==> earlier(items, #[trigger] at[k], #[trigger] at[l])
            &&& forall|k: int, i: int|
                #![trigger at[k], items[i]]
                0 <= k < at.len() && 0 <= i < items.len() && !at.contains(i) ==> earlier(
                    items,
                    at[k],
                    i,
                )
        }),
{
    let keys = items.map_values(|it: IntentView| select::arrival_key(it));
    let order = sorting::stable_order(keys);
    sorting::lemma_order_exists(keys);
    let taken = block::earliest(items, limit);
    let at = order.take(taken.len() as int);
    assert forall|k: int, l: int| 0 <= k < l < at.len() implies earlier(
        items,
        #[trigger] at[k],
        #[trigger] at[l],
    ) by {
        assert(sorting::precedes(keys, order[k], order[l]));
    }
    assert forall|k: int, i: int|
        #![trigger at[k], items[i]]
        0 <= k < at.len() && 0 <= i < items.len() && !at.contains(i) implies earlier(
        items,
        at[k],
        i,
    ) by {
        assert(order.contains(i));
        let p = choose|p: int| 0 <= p < order.len() && order[p] == i;
        if p < at.len() {
            assert(at[p] == i);
        }
        assert(sorting::precedes(keys, order[k], order[p]));
    }
    at
}

} // verus!
