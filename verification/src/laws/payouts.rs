//! Laws of what a block earns and of how its fee is shared.
use vstd::prelude::*;

use crate::block::Sharing;
use crate::double::{Double, ONE_BITS};
use crate::intent::IntentView;
use crate::laws::{amounts, selection};
use crate::{block, select};

verus! {

/// What intents earn together is an amount, and no less than what each of
/// them gains.
pub proof fn total_covers_each_gain(items: Seq<IntentView>)
    ensures
        amounts::amount(select::total(items)),
        !select::total(items).negative(),
        forall|i: int|
            0 <= i < items.len() ==> (#[trigger] items[i]).profit.clamped().at_most(
                select::total(items),
            ),
    decreases items.len(),
{
    if items.len() > 0 {
        let fewer = items.drop_last();
        let gain = items.last().profit.clamped();
        total_covers_each_gain(fewer);
        amounts::sums_do_not_fall(select::total(fewer), gain);
        assert forall|i: int| 0 <= i < items.len() implies (
        #[trigger] items[i]).profit.clamped().at_most(select::total(items)) by {
            if i < fewer.len() {
                assert(items[i] == fewer[i]);
                assert(fewer[i].profit.clamped().at_most(select::total(fewer)));
            }
        }
        lemma_sum_not_negative(select::total(fewer), gain);
    }
}

/// A sum of amounts without a sign has none.
proof fn lemma_sum_not_negative(a: Double, b: Double)
    requires
        amounts::amount(a),
        amounts::amount(b),
        !a.negative(),
        !b.negative(),
    ensures
        !a.sum(b).negative(),
{
    amounts::sums_do_not_fall(a, b);
    if a.finite() && b.finite() {
        crate::rounding::lemma_units_increase(0, a.magnitude());
        crate::rounding::lemma_units_increase(0, b.magnitude());
        assert(crate::rounding::units(0) == 0);
        let exact = a.value() + b.value();
        if exact > 0 {
            crate::rounding::lemma_rounded_ordered(0, 1, exact, 1);
        }
    }
}

/// Another intent never lowers what is earned.
pub proof fn another_intent_never_costs(items: Seq<IntentView>, it: IntentView)
    ensures
        select::total(items).at_most(select::total(items.push(it))),
{
    total_covers_each_gain(items);
    assert(items.push(it).drop_last() =~= items);
    amounts::sums_do_not_fall(select::total(items), it.profit.clamped());
}

/// The surplus of a block is never below zero and never NaN; it is no more
/// than what a block with a finite total earns.
pub proof fn surplus_is_an_amount(items: Seq<IntentView>, algorithm: Seq<char>)
    ensures
        ({
            let total = select::total(block::selection(items, algorithm));
            let surplus = block::surplus_over(total, block::baseline(items));
            &&& amounts::amount(surplus)
            &&& total.finite() ==> surplus.at_most(total)
        }),
{
    let total = select::total(block::selection(items, algorithm));
    total_covers_each_gain(block::selection(items, algorithm));
    total_covers_each_gain(select::kept(select::by_arrival(items)));
    if total.finite() {
        amounts::differences_do_not_rise(total, block::baseline(items));
    }
}

/// A fee rate within 0 to 1.
pub open spec fn fair_rate(rate: Double) -> bool {
    amounts::amount(rate) && rate.at_most(Double { bits: ONE_BITS })
}

/// A block is built only with a rate within 0 to 1.
pub proof fn accepted_rates_are_fair(algorithm: Seq<char>, rate: Double)
    requires
        block::buildable(algorithm, rate) is None,
    ensures
        fair_rate(rate),
{
}

/// The fee of a block with a finite total is no more than its surplus.
pub proof fn fee_stays_within_surplus(
    sharing: Sharing,
    items: Seq<IntentView>,
    algorithm: Seq<char>,
    rate: Double,
)
    requires
        fair_rate(rate),
        block::block_of(sharing, items, algorithm, rate).total_profit.finite(),
    ensures
        ({
            let b = block::block_of(sharing, items, algorithm, rate);
            &&& amounts::amount(b.sequencer_fee)
            &&& b.sequencer_fee.at_most(b.surplus)
            &&& b.sequencer_fee.finite()
        }),
{
    surplus_is_an_amount(items, algorithm);
    let total = select::total(block::selection(items, algorithm));
    let surplus = block::surplus_over(total, block::baseline(items));
    amounts::parts_do_not_exceed(surplus, rate);
}

/// The gain of a selected intent weighs between nothing and one.
proof fn lemma_weight(selected: Seq<IntentView>, i: int)
    requires
        0 <= i < selected.len(),
        select::total(selected).finite(),
        select::total(selected).positive(),
    ensures
        ({
            let weight = selected[i].profit.clamped().quotient(select::total(selected));
            &&& amounts::amount(weight)
            &&& weight.at_most(Double { bits: ONE_BITS })
        }),
        selected[i].profit.clamped().finite(),
{
    total_covers_each_gain(selected);
    let gain = selected[i].profit.clamped();
    assert(gain.at_most(select::total(selected)));
    amounts::weights_lie_within_one(gain, select::total(selected));
}

/// In a block with a finite total and a rate within 0 to 1, every intent pays
/// between nothing and the whole fee, and no trader is left with more than
/// the intent gained.
pub proof fn shares_stay_within_fee(
    sharing: Sharing,
    items: Seq<IntentView>,
    algorithm: Seq<char>,
    rate: Double,
    i: int,
)
    requires
        fair_rate(rate),
        block::block_of(sharing, items, algorithm, rate).total_profit.finite(),
        0 <= i < block::block_of(sharing, items, algorithm, rate).selected.len(),
    ensures
        ({
            let b = block::block_of(sharing, items, algorithm, rate);
            let p = b.selected[i];
            &&& amounts::amount(p.fee_share)
            &&& p.fee_share.at_most(b.sequencer_fee)
            &&& p.trader_profit.at_most(p.intent.profit.clamped())
        }),
{
    let b = block::block_of(sharing, items, algorithm, rate);
    let selected = block::selection(items, algorithm);
    let gross = select::total(selected);
    let fee = b.sequencer_fee;
    let gain = selected[i].profit.clamped();
    fee_stays_within_surplus(sharing, items, algorithm, rate);
    total_covers_each_gain(selected);
    assert(gain.at_most(gross));
    if gross.positive() {
        lemma_weight(selected, i);
        amounts::parts_do_not_exceed(fee, gain.quotient(gross));
    } else {
        let one = Double { bits: ONE_BITS };
        amounts::weights_lie_within_one(gain, one);
        amounts::parts_do_not_exceed(fee, gain.quotient(one));
    }
    amounts::differences_do_not_rise(gain, b.selected[i].fee_share);
}

/// In a block with a finite total and a rate within 0 to 1, an intent that
/// earns more pays no smaller share.
pub proof fn who_earns_more_pays_no_less(
    sharing: Sharing,
    items: Seq<IntentView>,
    algorithm: Seq<char>,
    rate: Double,
    i: int,
    j: int,
)
    requires
        fair_rate(rate),
        block::block_of(sharing, items, algorithm, rate).total_profit.finite(),
        0 <= i < block::block_of(sharing, items, algorithm, rate).selected.len(),
        0 <= j < block::block_of(sharing, items, algorithm, rate).selected.len(),
        block::selection(items, algorithm)[i].profit.at_most(
            block::selection(items, algorithm)[j].profit,
        ),
    ensures
        ({
            let b = block::block_of(sharing, items, algorithm, rate);
            b.selected[i].fee_share.at_most(b.selected[j].fee_share)
        }),
{
    let b = block::block_of(sharing, items, algorithm, rate);
    let selected = block::selection(items, algorithm);
    let gross = select::total(selected);
    let fee = b.sequencer_fee;
    let small = selected[i].profit.clamped();
    let large = selected[j].profit.clamped();
    fee_stays_within_surplus(sharing, items, algorithm, rate);
    total_covers_each_gain(selected);
    assert(small.at_most(gross));
    assert(large.at_most(gross));
    assert(small.at_most(large));
    if gross.positive() {
        lemma_weight(selected, i);
        lemma_weight(selected, j);
        amounts::larger_amounts_weigh_more(small, large, gross);
        amounts::larger_parts_are_larger(fee, small.quotient(gross), large.quotient(gross));
    } else {
        let one = Double { bits: ONE_BITS };
        amounts::weights_lie_within_one(small, one);
        amounts::weights_lie_within_one(large, one);
        amounts::larger_amounts_weigh_more(small, large, one);
        amounts::larger_parts_are_larger(fee, small.quotient(one), large.quotient(one));
    }
}

/// A block in the order of arrival earns what the baseline earns: it has no
/// surplus.
pub proof fn fifo_has_no_surplus(sharing: Sharing, items: Seq<IntentView>, rate: Double)
    ensures
        ({
            let b = block::block_of(sharing, items, "fifo"@, rate);
            &&& b.total_profit == b.baseline_fifo_profit
            &&& b.surplus == (Double { bits: 0 })
        }),
{
    let total = select::total(block::selection(items, "fifo"@));
    total_covers_each_gain(block::selection(items, "fifo"@));
    if total.finite() {
        amounts::a_number_less_itself(total);
    }
}

/// Where there is no surplus nobody pays: with a finite total and a rate
/// within 0 to 1, the fee and every share are zero, and every trader keeps
/// the whole gain.
pub proof fn without_surplus_nobody_pays(
    sharing: Sharing,
    items: Seq<IntentView>,
    algorithm: Seq<char>,
    rate: Double,
    i: int,
)
    requires
        fair_rate(rate),
        !rate.negative(),
        block::block_of(sharing, items, algorithm, rate).total_profit.finite(),
        block::block_of(sharing, items, algorithm, rate).surplus == (Double { bits: 0 }),
    ensures
        ({
            let b = block::block_of(sharing, items, algorithm, rate);
            &&& b.sequencer_fee == (Double { bits: 0 })
            &&& 0 <= i < b.selected.len() ==> b.selected[i].fee_share == (Double { bits: 0 })
                && b.selected[i].trader_profit == b.selected[i].intent.profit.clamped()
        }),
{
    let b = block::block_of(sharing, items, algorithm, rate);
    let selected = block::selection(items, algorithm);
    let gross = select::total(selected);
    let fee = b.sequencer_fee;
    amounts::parts_with_nothing(b.surplus, rate);
    if 0 <= i < b.selected.len() {
        let gain = selected[i].profit.clamped();
        total_covers_each_gain(selected);
        assert(gain.at_most(gross));
        if gross.positive() {
            lemma_weight(selected, i);
            let weight = gain.quotient(gross);
            lemma_quotient_not_negative(gain, gross);
            amounts::parts_with_nothing(fee, weight);
        } else {
            let one = Double { bits: ONE_BITS };
            amounts::weights_lie_within_one(gain, one);
            lemma_quotient_not_negative(gain, one);
            amounts::parts_with_nothing(fee, gain.quotient(one));
        }
        lemma_less_nothing(gain);
    }
}

/// A weight of amounts without a sign has none.
proof fn lemma_quotient_not_negative(gain: Double, gross: Double)
    requires
        amounts::amount(gain),
        gain.finite(),
        !gain.negative(),
        gross.positive(),
        gross.finite(),
        gain.at_most(gross),
    ensures
        !gain.quotient(gross).negative(),
{
    amounts::weights_lie_within_one(gain, gross);
    let over = crate::rounding::units(gain.magnitude()) * vstd::arithmetic::power2::pow2(
        crate::rounding::unit_exponent(),
    );
    let den = crate::rounding::units(gross.magnitude());
    assert(crate::rounding::units(0) == 0);
    crate::rounding::lemma_units_increase(0, gain.magnitude());
    crate::rounding::lemma_units_increase(0, gross.magnitude());
    vstd::arithmetic::power2::lemma_pow2_pos(crate::rounding::unit_exponent());
    assert(over >= 0) by (nonlinear_arith)
        requires
            over == crate::rounding::units(gain.magnitude()) * vstd::arithmetic::power2::pow2(
                crate::rounding::unit_exponent(),
            ),
            crate::rounding::units(gain.magnitude()) >= 0,
            vstd::arithmetic::power2::pow2(crate::rounding::unit_exponent()) > 0,
    ;
    crate::rounding::lemma_nearest_exists(over, den);
}

/// An amount less nothing is what it was.
proof fn lemma_less_nothing(a: Double)
    requires
        amounts::amount(a),
        a.finite(),
        !a.negative(),
    ensures
        a.difference(Double { bits: 0 }) == a,
{
    let zero = Double { bits: 0 };
    assert(crate::rounding::units(0) == 0);
    assert(zero.negated().magnitude() == 0);
    crate::rounding::lemma_units_increase(0, a.magnitude());
    crate::rounding::lemma_rounded_exact(a.magnitude(), a.value(), 1);
}

/// A block built and a proposal prepared share a fee alike wherever a profit
/// backs it.
pub proof fn both_sharings_agree(profit: Double, fee: Double, gross: Double)
    requires
        gross.positive(),
    ensures
        block::share_of(Sharing::AgainstOne, profit, fee, gross) == block::share_of(
            Sharing::Nothing,
            profit,
            fee,
            gross,
        ),
{
}

/// Where every two intents conflict, the greedy order earns no less than the
/// order of arrival.
pub proof fn greedy_wins_a_contest(items: Seq<IntentView>)
    requires
        select::comparable(items),
        forall|i: int, j: int|
            0 <= i < items.len() && 0 <= j < items.len() && i != j ==> select::conflict(
                #[trigger] items[i],
                #[trigger] items[j],
            ),
    ensures
        select::total(select::kept(select::by_arrival(items))).at_most(
            select::total(select::kept(select::by_profit(items))),
        ),
{
    let first_come = select::kept(select::by_arrival(items));
    let best = select::kept(select::by_profit(items));
    if items.len() == 0 {
        selection::sorting_takes_every_item(
            items,
            items.map_values(|it: IntentView| select::arrival_key(it)),
        );
        selection::sorting_takes_every_item(
            items,
            items.map_values(|it: IntentView| select::profit_key(it)),
        );
    } else {
        selection::greedy_selection_is_sound(items);
        selection::fifo_selection_is_sound(items);
        lemma_one_of_a_contest(items, first_come);
        lemma_one_of_a_contest(items, best);
        let at = choose|at: Seq<int>| #[trigger] selection::drawn_at(first_come, items, at);
        selection::greedy_selects_the_most_profitable(items, 0);
        selection::sorting_takes_every_item(
            items,
            items.map_values(|it: IntentView| select::arrival_key(it)),
        );
        selection::the_first_is_kept(select::by_arrival(items));
        assert(first_come[0] == items[at[0]]);
        selection::greedy_selects_the_most_profitable(items, at[0]);
        lemma_total_of_one(first_come);
        lemma_total_of_one(best);
    }
}

/// Of intents that all conflict, at most one is selected.
proof fn lemma_one_of_a_contest(items: Seq<IntentView>, selected: Seq<IntentView>)
    requires
        forall|i: int, j: int|
            0 <= i < items.len() && 0 <= j < items.len() && i != j ==> select::conflict(
                #[trigger] items[i],
                #[trigger] items[j],
            ),
        selection::drawn_from(selected, items),
        selection::compatible(selected),
    ensures
        selected.len() <= 1,
{
    if selected.len() > 1 {
        let at = choose|at: Seq<int>| #[trigger] selection::drawn_at(selected, items, at);
        assert(selected[0] == items[at[0]]);
        assert(selected[1] == items[at[1]]);
        assert(!select::conflict(selected[0], selected[1]));
    }
}

proof fn lemma_total_of_one(items: Seq<IntentView>)
    requires
        items.len() == 1,
    ensures
        select::total(items) == items[0].profit.clamped(),
{
    assert(select::total(items.drop_last()) == (Double { bits: 0 }));
    amounts::nothing_added(items[0].profit.clamped());
}

} // verus!
