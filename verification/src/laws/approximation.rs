//! How close the greedy order comes to the most profitable choice.
use vstd::prelude::*;

use crate::intent::IntentView;
use crate::laws::{amounts, precision, selection};
use crate::select;

verus! {

/// What an intent gains, exactly.
spec fn gain(it: IntentView) -> int {
    it.profit.clamped().value()
}

/// The first intent stands for the second: they conflict, and it gains no
/// less.
spec fn stands_for(w: IntentView, it: IntentView) -> bool {
    select::conflict(w, it) && gain(it) <= gain(w)
}

/// One of `selected` stands for the intent.
spec fn is_covered(it: IntentView, selected: Seq<IntentView>) -> bool {
    exists|s: int| 0 <= s < selected.len() && stands_for(#[trigger] selected[s], it)
}

/// Every intent of the list has one of `selected` that stands for it.
spec fn covered(list: Seq<IntentView>, selected: Seq<IntentView>) -> bool {
    forall|j: int| 0 <= j < list.len() ==> is_covered(#[trigger] list[j], selected)
}

/// A list splits into what a test lets through and what it does not.
proof fn lemma_gains_split(
    list: Seq<IntentView>,
    fits: spec_fn(IntentView) -> bool,
    rest: spec_fn(IntentView) -> bool,
)
    requires
        forall|it: IntentView| #[trigger] fits(it) == !rest(it),
    ensures
        precision::gains(list) == precision::gains(list.filter(fits)) + precision::gains(
            list.filter(rest),
        ),
    decreases list.len(),
{
    reveal(Seq::filter);
    if list.len() > 0 {
        let fewer = list.drop_last();
        lemma_gains_split(fewer, fits, rest);
        assert(fits(list.last()) == !rest(list.last()));
        assert(fewer.filter(fits).push(list.last()).drop_last() =~= fewer.filter(fits));
        assert(fewer.filter(rest).push(list.last()).drop_last() =~= fewer.filter(rest));
    }
}

/// Gains that are each at most `most` sum to at most `most` for each.
proof fn lemma_gains_bounded(list: Seq<IntentView>, most: int)
    requires
        most >= 0,
        forall|i: int| 0 <= i < list.len() ==> gain(#[trigger] list[i]) <= most,
    ensures
        precision::gains(list) <= list.len() * most,
    decreases list.len(),
{
    if list.len() > 0 {
        let fewer = list.drop_last();
        assert forall|i: int| 0 <= i < fewer.len() implies gain(#[trigger] fewer[i]) <= most by {
            assert(fewer[i] == list[i]);
        }
        lemma_gains_bounded(fewer, most);
        assert(gain(list[list.len() - 1]) <= most);
        let n = list.len() as int;
        assert(n * most == (n - 1) * most + most) by (nonlinear_arith);
    } else {
        assert(0 * most == 0) by (nonlinear_arith);
    }
}

/// Different places below a bound are no more than the bound.
proof fn lemma_places_fit(places: Seq<int>, bound: int)
    requires
        bound >= 0,
        forall|i: int| 0 <= i < places.len() ==> 0 <= #[trigger] places[i] < bound,
        forall|i: int, j: int|
            0 <= i < j < places.len() ==> #[trigger] places[i] != #[trigger] places[j],
    ensures
        places.len() <= bound,
{
    assert(places.no_duplicates());
    places.unique_seq_to_set();
    vstd::set_lib::lemma_int_range(0, bound);
    assert(places.to_set().subset_of(vstd::set_lib::set_int_range(0, bound)));
    vstd::set_lib::lemma_len_subset(places.to_set(), vstd::set_lib::set_int_range(0, bound));
}

/// Of intents that do not conflict, at most as many conflict with another
/// intent as that one needs resources.
proof fn lemma_few_conflicts(list: Seq<IntentView>, w: IntentView)
    requires
        selection::compatible(list),
        forall|j: int| 0 <= j < list.len() ==> select::conflict(w, #[trigger] list[j]),
    ensures
        list.len() <= w.resources.len(),
{
    let places = Seq::new(list.len(), |j: int| shared_place(w, list[j]));
    assert forall|j: int| 0 <= j < places.len() implies 0 <= #[trigger] places[j]
        < w.resources.len() by {
        assert(select::conflict(w, list[j]));
        lemma_shared_place(w, list[j]);
    }
    assert forall|i: int, j: int| 0 <= i < j < places.len() implies #[trigger] places[i]
        != #[trigger] places[j] by {
        assert(select::conflict(w, list[i]));
        assert(select::conflict(w, list[j]));
        let a = lemma_shared_place(w, list[i]);
        let b = lemma_shared_place(w, list[j]);
        if places[i] == places[j] {
            assert(list[i].resources[a] == list[j].resources[b]);
            assert(select::conflict(list[i], list[j]));
        }
    }
    lemma_places_fit(places, w.resources.len() as int);
}

/// Where the first intent names a resource that the second names too.
spec fn shared_place(w: IntentView, it: IntentView) -> int {
    choose|i: int| 0 <= i < w.resources.len() && it.resources.contains(#[trigger] w.resources[i])
}

proof fn lemma_shared_place(w: IntentView, it: IntentView) -> (b: int)
    requires
        select::conflict(w, it),
    ensures
        0 <= shared_place(w, it) < w.resources.len(),
        0 <= b < it.resources.len(),
        w.resources[shared_place(w, it)] == it.resources[b],
{
    let (i, j) = choose|i: int, j: int|
        0 <= i < w.resources.len() && 0 <= j < it.resources.len() && #[trigger] w.resources[i]
            == #[trigger] it.resources[j];
    assert(it.resources.contains(w.resources[i])) by {
        assert(it.resources[j] == w.resources[i]);
    }
    let p = shared_place(w, it);
    choose|b: int| 0 <= b < it.resources.len() && it.resources[b] == w.resources[p]
}

/// Intents that do not conflict gain at most `most` times what those gain
/// that stand for them, where none of the latter needs more than `most`
/// resources.
proof fn lemma_covered_gains(list: Seq<IntentView>, selected: Seq<IntentView>, most: int)
    requires
        selection::compatible(list),
        covered(list, selected),
        forall|s: int|
            0 <= s < selected.len() ==> (#[trigger] selected[s]).resources.len() <= most && gain(
                selected[s],
            ) >= 0,
    ensures
        precision::gains(list) <= most * precision::gains(selected),
    decreases selected.len(),
{
    if selected.len() == 0 {
        if list.len() > 0 {
            assert(is_covered(list[0], selected));
        }
        assert(most * 0 == 0) by (nonlinear_arith);
    } else {
        let w = selected.last();
        let fewer = selected.drop_last();
        let fits = |it: IntentView| stands_for(w, it);
        let rest = |it: IntentView| !stands_for(w, it);
        let mine = list.filter(fits);
        let others = list.filter(rest);
        assert(selected[selected.len() - 1] == w);
        lemma_gains_split(list, fits, rest);
        let at = selection::filter_is_a_part(list, fits);
        let bt = selection::filter_is_a_part(list, rest);
        assert forall|i: int, j: int| 0 <= i < j < mine.len() implies !select::conflict(
            #[trigger] mine[i],
            #[trigger] mine[j],
        ) by {
            assert(at[i] < at[j]);
            assert(!select::conflict(list[at[i]], list[at[j]]));
        }
        assert forall|i: int, j: int| 0 <= i < j < others.len() implies !select::conflict(
            #[trigger] others[i],
            #[trigger] others[j],
        ) by {
            assert(bt[i] < bt[j]);
            assert(!select::conflict(list[bt[i]], list[bt[j]]));
        }
        assert forall|j: int| 0 <= j < mine.len() implies select::conflict(w, #[trigger] mine[j])
            && gain(mine[j]) <= gain(w) by {
            assert(fits(mine[j]));
        }
        lemma_few_conflicts(mine, w);
        lemma_gains_bounded(mine, gain(w));
        let g = gain(w);
        let n = mine.len() as int;
        assert(n * g <= most * g) by (nonlinear_arith)
            requires
                n <= most,
                g >= 0,
        ;
        assert forall|j: int| 0 <= j < others.len() implies is_covered(
            #[trigger] others[j],
            fewer,
        ) by {
            assert(rest(others[j]));
            assert(others[j] == list[bt[j]]);
            assert(is_covered(list[bt[j]], selected));
            let s = choose|s: int|
                0 <= s < selected.len() && stands_for(#[trigger] selected[s], list[bt[j]]);
            assert(fewer[s] == selected[s]);
        }
        assert forall|s: int| 0 <= s < fewer.len() implies (
        #[trigger] fewer[s]).resources.len() <= most && gain(fewer[s]) >= 0 by {
            assert(fewer[s] == selected[s]);
        }
        lemma_covered_gains(others, fewer, most);
        let rest_gains = precision::gains(fewer);
        assert(most * (rest_gains + g) == most * rest_gains + most * g) by (nonlinear_arith);
    }
}

/// The greedy order comes close to the most profitable choice: where every
/// intent needs at least one resource and at most `most`, and profits are
/// finite, no choice of intents that do not conflict gains more than `most`
/// times what the greedy order selects.
pub proof fn greedy_is_near_the_best(items: Seq<IntentView>, choice: Seq<IntentView>, most: int)
    requires
        select::comparable(items),
        forall|i: int|
            0 <= i < items.len() ==> 1 <= (#[trigger] items[i]).resources.len() <= most
                && items[i].profit.finite(),
        selection::compatible(choice),
        forall|j: int| 0 <= j < choice.len() ==> items.contains(#[trigger] choice[j]),
    ensures
        precision::gains(choice) <= most * precision::gains(
            select::kept(select::by_profit(items)),
        ),
{
    let selected = select::kept(select::by_profit(items));
    selection::greedy_selection_is_sound(items);
    let at = choose|at: Seq<int>| #[trigger] selection::drawn_at(selected, items, at);
    assert forall|s: int| 0 <= s < selected.len() implies (
    #[trigger] selected[s]).resources.len() <= most && gain(selected[s]) >= 0 by {
        assert(selected[s] == items[at[s]]);
        lemma_gain(selected[s]);
    }
    assert forall|j: int| 0 <= j < choice.len() implies is_covered(
        #[trigger] choice[j],
        selected,
    ) by {
        assert(items.contains(choice[j]));
        let i = choose|i: int| 0 <= i < items.len() && items[i] == choice[j];
        let it = items[i];
        selection::greedy_leaves_out_only_for_better(items, i);
        if selected.contains(it) {
            let s = choose|s: int| 0 <= s < selected.len() && selected[s] == it;
            assert(it.resources[0] == it.resources[0]);
            assert(select::conflict(it, it));
            assert(stands_for(selected[s], choice[j]));
        } else {
            let w = choose|w: IntentView|
                selected.contains(w) && #[trigger] select::conflict(w, it) && it.profit.at_most(
                    w.profit,
                );
            let s = choose|s: int| 0 <= s < selected.len() && selected[s] == w;
            assert(selected[s] == items[at[s]]);
            lemma_gain(it);
            lemma_gain(w);
            amounts::order_is_that_of_values(it.profit.clamped(), w.profit.clamped());
            assert(stands_for(selected[s], choice[j]));
        }
    }
    lemma_covered_gains(choice, selected, most);
}

/// A gain is never below zero.
proof fn lemma_gain(it: IntentView)
    requires
        it.profit.finite(),
    ensures
        gain(it) >= 0,
        it.profit.clamped().finite(),
{
    assert(crate::rounding::units(0) == 0);
    crate::rounding::lemma_units_increase(0, it.profit.clamped().magnitude());
}

} // verus!
