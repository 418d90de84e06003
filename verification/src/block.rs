//! What a block earns, and how the fee on its surplus is shared.
use vstd::prelude::*;

use crate::double::{Double, ONE_BITS};
use crate::intent::{copy_string, copy_strings, Intent, IntentView};
use crate::laws::economics;
use crate::rejection::Rejection;
use crate::select::{fifo_select, greedy_select, total_profit};
use crate::text::same_text;
use crate::{intent, select};

verus! {

/// A tenth, the fee rate where a request does not say.
pub const TENTH_BITS: u64 = 0x3fb9_9999_9999_999a;

/// The algorithm where a request does not say.
pub fn default_algorithm() -> (name: String)
    ensures
        name@ == "greedy"@,
{
    "greedy".to_owned()
}

/// The fee rate where a request does not say.
pub fn default_fee_rate() -> (rate: Double)
    ensures
        rate == (Double { bits: TENTH_BITS }),
{
    Double { bits: TENTH_BITS }
}

/// A selected intent with its share of the fee and what is left to the trader.
#[derive(Debug)]
pub struct IntentPayout {
    pub profit: Double,
    pub resources: Vec<String>,
    pub client_id: Option<String>,
    pub arrival_index: Option<u64>,
    pub fee_share: Double,
    pub trader_profit: Double,
}

pub struct PayoutView {
    pub intent: IntentView,
    pub fee_share: Double,
    pub trader_profit: Double,
}

impl View for IntentPayout {
    type V = PayoutView;

    open spec fn view(&self) -> PayoutView {
        PayoutView {
            intent: IntentView {
                profit: self.profit,
                resources: intent::texts(self.resources@),
                client_id: intent::text(self.client_id),
                arrival_index: self.arrival_index,
            },
            fee_share: self.fee_share,
            trader_profit: self.trader_profit,
        }
    }
}

impl Clone for IntentPayout {
    fn clone(&self) -> (r: IntentPayout)
        ensures
            r@ == self@,
            r.profit == self.profit,
            r.resources@ == self.resources@,
            r.client_id == self.client_id,
            r.arrival_index == self.arrival_index,
            r.fee_share == self.fee_share,
            r.trader_profit == self.trader_profit,
    {
        IntentPayout {
            profit: self.profit,
            resources: copy_strings(&self.resources),
            client_id: copy_string(&self.client_id),
            arrival_index: self.arrival_index,
            fee_share: self.fee_share,
            trader_profit: self.trader_profit,
        }
    }
}

pub open spec fn payouts(list: Seq<IntentPayout>) -> Seq<PayoutView> {
    list.map_values(|p: IntentPayout| p@)
}

/// A block that was built.
#[derive(Debug)]
pub struct BlockResponse {
    pub algorithm: String,
    pub fee_rate: Double,
    pub baseline_fifo_profit: Double,
    pub total_profit: Double,
    pub surplus: Double,
    pub sequencer_fee: Double,
    pub selected: Vec<IntentPayout>,
}

pub struct BlockView {
    pub algorithm: Seq<char>,
    pub fee_rate: Double,
    pub baseline_fifo_profit: Double,
    pub total_profit: Double,
    pub surplus: Double,
    pub sequencer_fee: Double,
    pub selected: Seq<PayoutView>,
}

impl View for BlockResponse {
    type V = BlockView;

    open spec fn view(&self) -> BlockView {
        BlockView {
            algorithm: self.algorithm@,
            fee_rate: self.fee_rate,
            baseline_fifo_profit: self.baseline_fifo_profit,
            total_profit: self.total_profit,
            surplus: self.surplus,
            sequencer_fee: self.sequencer_fee,
            selected: payouts(self.selected@),
        }
    }
}

impl Clone for BlockResponse {
    fn clone(&self) -> (r: BlockResponse)
        ensures
            r@ == self@,
    {
        let mut selected: Vec<IntentPayout> = Vec::new();
        let mut i: usize = 0;
        while i < self.selected.len()
            invariant
                i <= self.selected@.len(),
                selected@.len() == i,
                forall|k: int| 0 <= k < i ==> (#[trigger] selected@[k])@ == self.selected@[k]@,
            decreases self.selected@.len() - i,
        {
            selected.push(self.selected[i].clone());
            i = i + 1;
        }
        assert(payouts(selected@) =~= payouts(self.selected@));
        BlockResponse {
            algorithm: self.algorithm.clone(),
            fee_rate: self.fee_rate,
            baseline_fifo_profit: self.baseline_fifo_profit,
            total_profit: self.total_profit,
            surplus: self.surplus,
            sequencer_fee: self.sequencer_fee,
            selected,
        }
    }
}

/// The intents that the named algorithm selects; every name but `fifo` means
/// the greedy one.
pub open spec fn selection(items: Seq<IntentView>, algorithm: Seq<char>) -> Seq<IntentView> {
    if algorithm == "fifo"@ {
        select::kept(select::by_arrival(items))
    } else {
        select::kept(select::by_profit(items))
    }
}

/// What the first-come order would have earned.
pub open spec fn baseline(items: Seq<IntentView>) -> Double {
    select::total(select::kept(select::by_arrival(items)))
}

/// What a block earns beyond the baseline, never below zero.
pub open spec fn surplus_over(total: Double, baseline: Double) -> Double {
    total.difference(baseline).clamped()
}

/// How the shares of a fee are reckoned where no profit backs them.
#[derive(Clone, Copy, Debug)]
pub enum Sharing {
    /// The profits are weighed against one.
    AgainstOne,
    /// Nobody pays.
    Nothing,
}

/// The share of `fee` that an intent pays out of profits that sum to `gross`.
pub open spec fn share_of(sharing: Sharing, profit: Double, fee: Double, gross: Double) -> Double {
    let gain = profit.clamped();
    match sharing {
        Sharing::AgainstOne => {
            let weight = if gross.at_most(Double { bits: 0 }) {
                Double { bits: ONE_BITS }
            } else {
                gross
            };
            fee.product(gain.quotient(weight))
        },
        Sharing::Nothing => {
            if gross.positive() {
                fee.product(gain.quotient(gross))
            } else {
                Double { bits: 0 }
            }
        },
    }
}

/// What becomes of a selected intent.
pub open spec fn payout_of(
    sharing: Sharing,
    it: IntentView,
    fee: Double,
    gross: Double,
) -> PayoutView {
    let share = share_of(sharing, it.profit, fee, gross);
    PayoutView {
        intent: it,
        fee_share: share,
        trader_profit: it.profit.clamped().difference(share),
    }
}

/// The block that these intents make.
pub open spec fn block_of(
    sharing: Sharing,
    items: Seq<IntentView>,
    algorithm: Seq<char>,
    fee_rate: Double,
) -> BlockView {
    let chosen = selection(items, algorithm);
    let total = select::total(chosen);
    let surplus = surplus_over(total, baseline(items));
    let fee = surplus.product(fee_rate);
    BlockView {
        algorithm,
        fee_rate,
        baseline_fifo_profit: baseline(items),
        total_profit: total,
        surplus,
        sequencer_fee: fee,
        selected: chosen.map_values(|it: IntentView| payout_of(sharing, it, fee, total)),
    }
}

/// Why no block can be built under this name and rate, if none can: the
/// algorithm is unknown, or the rate does not lie within 0 to 1.
pub open spec fn buildable(algorithm: Seq<char>, fee_rate: Double) -> Option<Rejection> {
    if algorithm != "fifo"@ && algorithm != "greedy"@ {
        Some(Rejection::UnknownAlgorithm)
    } else if !((Double { bits: 0 }).at_most(fee_rate) && fee_rate.at_most(
        Double { bits: ONE_BITS },
    )) {
        Some(Rejection::FeeRateOutOfRange)
    } else {
        None
    }
}

/// Selects intents by the name of an algorithm.
pub(crate) fn choose_intents(items: &Vec<Intent>, algorithm: &str) -> (selected: Vec<Intent>)
    requires
        algorithm@ != "fifo"@ ==> select::comparable(intent::intents(items@)),
    ensures
        intent::intents(selected@) == selection(intent::intents(items@), algorithm@),
{
    if same_text(algorithm, "fifo") {
        fifo_select(items)
    } else {
        greedy_select(items)
    }
}

/// The share of a fee that one intent pays.
fn fee_share(sharing: Sharing, profit: Double, fee: Double, gross: Double) -> (share: Double)
    ensures
        share == share_of(sharing, profit, fee, gross),
{
    let gain: Double = profit.clamp();
    match sharing {
        Sharing::AgainstOne => {
            let weight: Double = if gross.is_at_most(Double { bits: 0 }) {
                Double { bits: ONE_BITS }
            } else {
                gross
            };
            fee.times(gain.divided_by(weight))
        },
        Sharing::Nothing => {
            if (Double { bits: 0 }).is_below(gross) {
                fee.times(gain.divided_by(gross))
            } else {
                Double { bits: 0 }
            }
        },
    }
}

/// Shares a fee among the selected intents.
fn pay_out(sharing: Sharing, selected: Vec<Intent>, fee: Double, gross: Double) -> (list: Vec<
    IntentPayout,
>)
    ensures
        payouts(list@) == intent::intents(selected@).map_values(
            |it: IntentView| payout_of(sharing, it, fee, gross),
        ),
{
    let mut list: Vec<IntentPayout> = Vec::new();
    let mut i: usize = 0;
    while i < selected.len()
        invariant
            i <= selected@.len(),
            list@.len() == i,
            forall|k: int|
                0 <= k < i ==> (#[trigger] list@[k])@ == payout_of(
                    sharing,
                    selected@[k]@,
                    fee,
                    gross,
                ),
        decreases selected@.len() - i,
    {
        let it: &Intent = &selected[i];
        let share: Double = fee_share(sharing, it.profit, fee, gross);
        list.push(
            IntentPayout {
                profit: it.profit,
                resources: copy_strings(&it.resources),
                client_id: copy_string(&it.client_id),
                arrival_index: it.arrival_index,
                fee_share: share,
                trader_profit: it.profit.clamp().minus(share),
            },
        );
        i = i + 1;
    }
    assert(payouts(list@) =~= intent::intents(selected@).map_values(
        |it: IntentView| payout_of(sharing, it, fee, gross),
    ));
    list
}

/// Builds the block that these intents make.
fn assemble(
    sharing: Sharing,
    items: &Vec<Intent>,
    algorithm: &str,
    fee_rate: Double,
) -> (block: BlockResponse)
    requires
        algorithm@ != "fifo"@ ==> select::comparable(intent::intents(items@)),
    ensures
        block@ == block_of(sharing, intent::intents(items@), algorithm@, fee_rate),
        economics::is_surplus(block.surplus, block.total_profit, block.baseline_fifo_profit),
{
    proof {
        economics::a_block_reports_its_surplus(
            sharing,
            intent::intents(items@),
            algorithm@,
            fee_rate,
        );
    }
    let first_come: Vec<Intent> = fifo_select(items);
    let fifo_profit: Double = total_profit(&first_come);
    let selected: Vec<Intent> = choose_intents(items, algorithm);
    let total: Double = total_profit(&selected);
    let surplus: Double = total.minus(fifo_profit).clamp();
    let sequencer_fee: Double = surplus.times(fee_rate);
    let paid: Vec<IntentPayout> = pay_out(sharing, selected, sequencer_fee, total);
    BlockResponse {
        algorithm: algorithm.to_owned(),
        fee_rate,
        baseline_fifo_profit: fifo_profit,
        total_profit: total,
        surplus,
        sequencer_fee,
        selected: paid,
    }
}

/// Builds a block of these intents, unless the algorithm is unknown or the
/// fee rate lies outside of 0 to 1.
pub fn build_block(items: &Vec<Intent>, algorithm: &str, fee_rate: Double) -> (r: Result<
    BlockResponse,
    Rejection,
>)
    requires
        algorithm@ == "greedy"@ && buildable(algorithm@, fee_rate) is None ==> select::comparable(
            intent::intents(items@),
        ),
    ensures
        match buildable(algorithm@, fee_rate) {
            Some(why) => r == Err::<BlockResponse, Rejection>(why),
            None => r is Ok && r->Ok_0@ == block_of(
                Sharing::AgainstOne,
                intent::intents(items@),
                algorithm@,
                fee_rate,
            ),
        },
        r matches Ok(b) ==> economics::is_surplus(
            b.surplus,
            b.total_profit,
            b.baseline_fifo_profit,
        ),
{
    if !same_text(algorithm, "fifo") && !same_text(algorithm, "greedy") {
        return Err(Rejection::UnknownAlgorithm);
    }
    if !((Double { bits: 0 }).is_at_most(fee_rate) && fee_rate.is_at_most(
        Double { bits: ONE_BITS },
    )) {
        return Err(Rejection::FeeRateOutOfRange);
    }
    Ok(assemble(Sharing::AgainstOne, items, algorithm, fee_rate))
}

/// The first `limit` intents in the order of arrival; all of them where no
/// limit is set.
pub open spec fn earliest(items: Seq<IntentView>, limit: Option<usize>) -> Seq<IntentView> {
    let sorted = select::by_arrival(items);
    match limit {
        Some(k) => if sorted.len() > k {
            sorted.take(k as int)
        } else {
            sorted
        },
        None => sorted,
    }
}

/// The first `limit` intents in the order of arrival.
fn take_earliest(items: &Vec<Intent>, limit: Option<usize>) -> (r: Vec<Intent>)
    ensures
        intent::intents(r@) == earliest(intent::intents(items@), limit),
{
    let order: Vec<usize> = select::arrival_order(items);
    let count: usize = match limit {
        Some(k) => if order.len() > k {
            k
        } else {
            order.len()
        },
        None => order.len(),
    };
    let ghost sorted = select::by_arrival(intent::intents(items@));
    let mut r: Vec<Intent> = Vec::new();
    let mut i: usize = 0;
    while i < count
        invariant
            i <= count <= order@.len(),
            forall|k: int| 0 <= k < order@.len() ==> #[trigger] order@[k] < items@.len(),
            r@.len() == i,
            forall|k: int| 0 <= k < i ==> (#[trigger] r@[k])@ == items@[order@[k] as int]@,
        decreases count - i,
    {
        r.push(items[order[i]].clone());
        i = i + 1;
    }
    proof {
        assert forall|k: int| 0 <= k < count implies (#[trigger] r@[k])@ == sorted[k] by {
            assert(crate::sorting::places(order@)[k] == order@[k]);
        }
        assert(intent::intents(r@) =~= sorted.take(count as int));
        if count == order@.len() {
            assert(sorted.take(count as int) =~= sorted);
        }
    }
    r
}

/// Prepares a proposal out of the earliest intents.
pub fn prepare_proposal(
    items: &Vec<Intent>,
    algorithm: &str,
    fee_rate: Double,
    max_intents: Option<usize>,
) -> (block: BlockResponse)
    requires
        algorithm@ != "fifo"@ ==> select::comparable(
            earliest(intent::intents(items@), max_intents),
        ),
    ensures
        block@ == block_of(
            Sharing::Nothing,
            earliest(intent::intents(items@), max_intents),
            algorithm@,
            fee_rate,
        ),
        economics::is_surplus(block.surplus, block.total_profit, block.baseline_fifo_profit),
{
    let first: Vec<Intent> = take_earliest(items, max_intents);
    assemble(Sharing::Nothing, &first, algorithm, fee_rate)
}

} // verus!
