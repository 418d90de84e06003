//! The private mempool: which submissions it admits, and what it reports.
use vstd::hash_set::StringHashSet;
use vstd::prelude::*;

use crate::block::{self, BlockResponse};
use crate::double::Double;
use crate::intent::{copy_intents, Intent, IntentView, SubmitIntent, SubmitView};
use crate::rejection::Rejection;
use crate::select::{fifo_select, greedy_select, total_profit};
use crate::laws::mempool as mempool_laws;
use crate::laws::{admission, economics};
use crate::{intent, select};

verus! {

/// The most intents that one bulk request may hold.
pub const MAX_BULK_INTENTS: usize = 1000;

/// The most resources that one intent may name.
pub const MAX_RESOURCES_PER_INTENT: usize = 64;

/// The intents that wait for a block, and the index that the next one gets.
#[derive(Debug)]
pub struct AppState {
    pub intents: Vec<Intent>,
    pub next_index: u64,
}

/// Why a single submission is turned down, if it is.
pub open spec fn verdict(s: SubmitView) -> Option<Rejection> {
    if !s.profit.positive() {
        Some(Rejection::ProfitNotPositive)
    } else if s.resources.len() == 0 {
        Some(Rejection::NoResources)
    } else if s.resources.len() > MAX_RESOURCES_PER_INTENT {
        Some(Rejection::TooManyResources)
    } else {
        None
    }
}

/// How many submissions stand before the first that is turned down.
pub open spec fn leading(list: Seq<SubmitView>) -> int
    decreases list.len(),
{
    if list.len() == 0 {
        0
    } else if leading(list.drop_last()) < list.len() - 1 {
        leading(list.drop_last())
    } else if verdict(list.last()) is None {
        list.len() as int
    } else {
        list.len() - 1
    }
}

/// The submissions as intents, indexed from `start` on.
pub open spec fn admissions(list: Seq<SubmitView>, start: int) -> Seq<IntentView> {
    Seq::new(list.len(), |i: int| list[i].admitted((start + i) as u64))
}

/// An intent that the mempool may hold.
pub open spec fn admissible(it: IntentView) -> bool {
    &&& it.profit.positive()
    &&& 0 < it.resources.len() <= MAX_RESOURCES_PER_INTENT
}

/// What a bulk request does: an empty one and one that is too long change
/// nothing; else the submissions before the first that is turned down are
/// admitted, and the request succeeds if there is no such submission.
pub open spec fn bulk_outcome(
    before: AppState,
    list: Seq<SubmitView>,
    after: AppState,
    r: Result<Vec<Intent>, Rejection>,
) -> bool {
    if list.len() == 0 {
        r == Err::<Vec<Intent>, Rejection>(Rejection::NoIntents) && after == before
    } else if list.len() > MAX_BULK_INTENTS {
        r == Err::<Vec<Intent>, Rejection>(Rejection::TooManyIntents) && after == before
    } else {
        let n = leading(list);
        let admitted = admissions(list.take(n), before.next_index as int);
        &&& after.waiting() == before.waiting() + admitted
        &&& after.next_index == before.next_index + n
        &&& n == list.len() ==> r is Ok && intent::intents(r->Ok_0@) == admitted
        &&& n < list.len() ==> r is Err && verdict(list[n]) == Some(r->Err_0)
    }
}

/// What the JSON metrics report.
#[derive(Clone, Copy, Debug)]
pub struct MetricsJsonResponse {
    pub intents_count: usize,
    pub distinct_resources: usize,
    pub fifo_profit: Double,
    pub greedy_profit: Double,
    pub surplus: Double,
}

/// The profits of both orders, side by side.
#[derive(Clone, Copy, Debug)]
pub struct CompareResponse {
    pub fifo_profit: Double,
    pub greedy_profit: Double,
}

/// A block that the scheduler built, in numbers.
#[derive(Clone, Copy, Debug)]
pub struct ScheduledBlock {
    pub fee_rate: Double,
    pub baseline_fifo_profit: Double,
    pub total_profit: Double,
    pub surplus: Double,
    pub sequencer_fee: Double,
    pub selected_count: usize,
}

impl AppState {
    /// What waits in the mempool.
    pub open spec fn waiting(self) -> Seq<IntentView> {
        intent::intents(self.intents@)
    }

    /// The intents are admissible and bear the indices 0, 1, 2 and so on, in
    /// the order in which they stand.
    pub open spec fn wf(self) -> bool {
        &&& self.next_index == self.intents@.len()
        &&& forall|i: int|
            0 <= i < self.waiting().len() ==> (#[trigger] self.waiting()[i]).arrival_index == Some(
                i as u64,
            ) && admissible(self.waiting()[i])
    }

    /// Profits above zero can be compared.
    proof fn lemma_comparable(self)
        requires
            self.wf(),
        ensures
            select::comparable(self.waiting()),
    {
    }

    /// An empty mempool.
    pub fn new() -> (state: AppState)
        ensures
            state.wf(),
            state.waiting() == Seq::<IntentView>::empty(),
            state.next_index == 0,
    {
        let state: AppState = AppState { intents: Vec::new(), next_index: 0 };
        assert(state.waiting() =~= Seq::<IntentView>::empty());
        state
    }

    /// Empties the mempool and starts the indices anew.
    pub fn reset(&mut self)
        ensures
            final(self).wf(),
            final(self).waiting() == Seq::<IntentView>::empty(),
            final(self).next_index == 0,
    {
        self.intents.clear();
        self.next_index = 0;
        assert(self.waiting() =~= Seq::<IntentView>::empty());
    }

    /// The intents that wait.
    pub fn list_intents(&self) -> (list: Vec<Intent>)
        ensures
            intent::intents(list@) == self.waiting(),
            list@.len() == self.intents@.len(),
            forall|k: int|
                0 <= k < list@.len() ==> {
                    &&& (#[trigger] list@[k]).profit == self.intents@[k].profit
                    &&& list@[k].resources@ == self.intents@[k].resources@
                    &&& list@[k].client_id == self.intents@[k].client_id
                    &&& list@[k].arrival_index == self.intents@[k].arrival_index
                },
    {
        copy_intents(&self.intents)
    }

    /// Puts a submission that passed into the mempool.
    fn accept(&mut self, req: SubmitIntent) -> (it: Intent)
        requires
            old(self).wf(),
            verdict(req@) is None,
        ensures
            final(self).wf(),
            it@ == req@.admitted(old(self).next_index),
            final(self).waiting() == old(self).waiting().push(it@),
            final(self).next_index == old(self).next_index + 1,
            it.profit == req.profit,
            it.resources@ == req.resources@,
            it.client_id == req.client_id,
            it.arrival_index == Some(old(self).next_index),
            final(self).intents@.len() == old(self).intents@.len() + 1,
            forall|k: int|
                0 <= k < old(self).intents@.len() ==> #[trigger] final(self).intents@[k] == old(
                    self,
                ).intents@[k],
            final(self).intents@.last().profit == req.profit,
            final(self).intents@.last().resources@ == req.resources@,
            final(self).intents@.last().client_id == req.client_id,
            final(self).intents@.last().arrival_index == Some(old(self).next_index),
    {
        let it: Intent = Intent {
            profit: req.profit,
            resources: req.resources,
            client_id: req.client_id,
            arrival_index: Some(self.next_index),
        };
        self.intents.push(it.clone());
        // A length fits in `usize`, so that the index has room to grow.
        let stored: usize = self.intents.len();
        assert(self.next_index < stored);
        self.next_index = self.next_index + 1;
        proof {
            assert(self.waiting() =~= old(self).waiting().push(it@));
            assert forall|i: int| 0 <= i < self.waiting().len() implies (
            #[trigger] self.waiting()[i]).arrival_index == Some(i as u64) && admissible(
                self.waiting()[i],
            ) by {
                if i < old(self).waiting().len() {
                    assert(self.waiting()[i] == old(self).waiting()[i]);
                }
            }
        }
        it
    }

    /// Admits one submission, or tells why not.
    pub fn submit_intent(&mut self, req: SubmitIntent) -> (r: Result<Intent, Rejection>)
        requires
            old(self).wf(),
        ensures
            final(self).wf(),
            match verdict(req@) {
                Some(why) => {
                    &&& r == Err::<Intent, Rejection>(why)
                    &&& *final(self) == *old(self)
                },
                None => {
                    &&& r is Ok
                    &&& r->Ok_0@ == req@.admitted(old(self).next_index)
                    &&& final(self).waiting() == old(self).waiting().push(r->Ok_0@)
                    &&& final(self).next_index == old(self).next_index + 1
                },
            },
            r is Ok <==> (Double { bits: 0 }).below(req.profit) && 0 < req.resources@.len() <= 64,
            r is Err ==> *final(self) == *old(self) && admission::refusal(req) == Some(r->Err_0),
            r matches Ok(it) ==> {
                &&& it.profit == req.profit
                &&& it@.profit == req@.profit
                &&& it.resources@ == req.resources@
                &&& it@.resources == req@.resources
                &&& it.client_id == req.client_id
                &&& it@.client_id == req@.client_id
                &&& it.arrival_index == Some(old(self).next_index)
                &&& final(self).intents@.len() == old(self).intents@.len() + 1
                &&& final(self).intents@.last().profit == req.profit
                &&& final(self).intents@.last().resources@ == req.resources@
                &&& final(self).intents@.last().client_id == req.client_id
                &&& final(self).intents@.last().arrival_index == Some(old(self).next_index)
            },
            forall|k: int|
                0 <= k < old(self).intents@.len() ==> #[trigger] final(self).intents@[k] == old(
                    self,
                ).intents@[k],
    {
        match check(&req) {
            Some(why) => Err(why),
            None => Ok(self.accept(req)),
        }
    }

    /// Admits submissions one after another.  The first that is turned down
    /// ends the request; those before it stay admitted.
    pub fn submit_intents_bulk(&mut self, reqs: Vec<SubmitIntent>) -> (r: Result<
        Vec<Intent>,
        Rejection,
    >)
        requires
            old(self).wf(),
        ensures
            final(self).wf(),
            bulk_outcome(*old(self), intent::submissions(reqs@), *final(self), r),
            reqs@.len() == 0 ==> r == Err::<Vec<Intent>, Rejection>(Rejection::NoIntents)
                && *final(self) == *old(self),
            reqs@.len() > 1000 ==> r == Err::<Vec<Intent>, Rejection>(Rejection::TooManyIntents)
                && *final(self) == *old(self),
            forall|k: int|
                0 <= k < old(self).intents@.len() ==> #[trigger] final(self).intents@[k] == old(
                    self,
                ).intents@[k],
            0 < reqs@.len() <= 1000 ==> {
                let begun = old(self).intents@.len() as int;
                let n = final(self).intents@.len() - begun;
                &&& 0 <= n <= reqs@.len()
                &&& final(self).next_index == old(self).next_index + n
                &&& forall|k: int|
                    0 <= k < n ==> admission::refusal(#[trigger] reqs@[k]) is None
                &&& forall|k: int|
                    0 <= k < n ==> {
                        let it = #[trigger] final(self).intents@[begun + k];
                        &&& it.profit == reqs@[k].profit
                        &&& it.resources@ == reqs@[k].resources@
                        &&& it.client_id == reqs@[k].client_id
                        &&& it.arrival_index == Some((old(self).next_index + k) as u64)
                    }
                &&& n < reqs@.len() ==> r is Err && admission::refusal(reqs@[n]) == Some(r->Err_0)
                &&& n == reqs@.len() ==> r is Ok
            },
            r matches Ok(list) ==> {
                &&& list@.len() == reqs@.len()
                &&& forall|k: int|
                    0 <= k < list@.len() ==> {
                        let it = #[trigger] list@[k];
                        &&& it.profit == reqs@[k].profit
                        &&& it@.profit == reqs@[k]@.profit
                        &&& it.resources@ == reqs@[k].resources@
                        &&& it@.resources == reqs@[k]@.resources
                        &&& it.client_id == reqs@[k].client_id
                        &&& it@.client_id == reqs@[k]@.client_id
                        &&& it.arrival_index == Some((old(self).next_index + k) as u64)
                    }
            },
    {
        if reqs.len() == 0 {
            return Err(Rejection::NoIntents);
        }
        if reqs.len() > MAX_BULK_INTENTS {
            return Err(Rejection::TooManyIntents);
        }
        let ghost list = intent::submissions(reqs@);
        let ghost start = self.next_index;
        let ghost begun = self.waiting();
        let mut out: Vec<Intent> = Vec::new();
        let mut rest: Vec<SubmitIntent> = reqs;
        let count: usize = rest.len();
        let mut i: usize = 0;
        proof {
            lemma_leading_range(list.take(0));
            assert(list.take(0).len() == 0);
            assert(begun + admissions(list.take(0), start as int) =~= begun);
            assert(intent::intents(out@) =~= admissions(list.take(0), start as int));
        }
        while i < count
            invariant
                list == intent::submissions(reqs@),
                start == old(self).next_index,
                begun == old(self).waiting(),
                i <= count == list.len(),
                0 < count <= MAX_BULK_INTENTS,
                rest@.len() == count - i,
                forall|k: int| 0 <= k < rest@.len() ==> (#[trigger] rest@[k])@ == list[i + k],
                self.wf(),
                self.next_index == start + i,
                leading(list.take(i as int)) == i,
                self.waiting() == begun + admissions(list.take(i as int), start as int),
                intent::intents(out@) == admissions(list.take(i as int), start as int),
                rest@ == reqs@.subrange(i as int, count as int),
                reqs@.len() == count,
                self.intents@.len() == old(self).intents@.len() + i,
                forall|k: int|
                    0 <= k < old(self).intents@.len() ==> #[trigger] self.intents@[k] == old(
                        self,
                    ).intents@[k],
                forall|k: int| 0 <= k < i ==> admission::refusal(#[trigger] reqs@[k]) is None,
                forall|k: int|
                    old(self).intents@.len() <= k < self.intents@.len() ==> {
                        let it = #[trigger] self.intents@[k];
                        let req = reqs@[k - old(self).intents@.len()];
                        &&& it.profit == req.profit
                        &&& it.resources@ == req.resources@
                        &&& it.client_id == req.client_id
                        &&& it.arrival_index == Some(
                            (start + k - old(self).intents@.len()) as u64,
                        )
                    },
                out@.len() == i,
                forall|k: int|
                    0 <= k < out@.len() ==> {
                        let it = #[trigger] out@[k];
                        &&& it.profit == reqs@[k].profit
                        &&& it.resources@ == reqs@[k].resources@
                        &&& it.client_id == reqs@[k].client_id
                        &&& it.arrival_index == Some((start + k) as u64)
                    },
            decreases count - i,
        {
            proof {
                assert(list.take(i + 1).drop_last() =~= list.take(i as int));
                assert(list.take(i + 1).last() == list[i as int]);
            }
            let ghost remaining = rest@;
            let req: SubmitIntent = rest.remove(0);
            assert(req == reqs@[i as int]);
            assert(rest@ =~= reqs@.subrange(i + 1, count as int));
            assert(req@ == list[i as int]);
            match check(&req) {
                Some(why) => {
                    proof {
                        assert(leading(list.take(i + 1)) == i);
                        lemma_leading_stops(list, i + 1);
                    }
                    return Err(why);
                },
                None => {
                    let it: Intent = self.accept(req);
                    out.push(it.clone());
                    proof {
                        assert(admissions(list.take(i + 1), start as int) =~= admissions(
                            list.take(i as int),
                            start as int,
                        ).push(it@));
                        assert(self.waiting() =~= begun + admissions(
                            list.take(i + 1),
                            start as int,
                        ));
                        assert(intent::intents(out@) =~= admissions(
                            list.take(i + 1),
                            start as int,
                        ));
                    }
                },
            }
            i = i + 1;
        }
        assert(list.take(i as int) =~= list);
        Ok(out)
    }

    /// Builds a block out of what waits.
    pub fn build_block(&self, algorithm: &str, fee_rate: Double) -> (r: Result<
        BlockResponse,
        Rejection,
    >)
        requires
            self.wf(),
        ensures
            match block::buildable(algorithm@, fee_rate) {
                Some(why) => r == Err::<BlockResponse, Rejection>(why),
                None => r is Ok && r->Ok_0@ == block::block_of(
                    block::Sharing::AgainstOne,
                    self.waiting(),
                    algorithm@,
                    fee_rate,
                ),
            },
            r matches Ok(b) ==> economics::is_surplus(
                b.surplus,
                b.total_profit,
                b.baseline_fifo_profit,
            ),
    {
        proof {
            self.lemma_comparable();
        }
        block::build_block(&self.intents, algorithm, fee_rate)
    }

    /// Prepares a proposal out of the earliest intents.
    pub fn prepare_proposal(
        &self,
        algorithm: &str,
        fee_rate: Double,
        max_intents: Option<usize>,
    ) -> (block: BlockResponse)
        requires
            self.wf(),
        ensures
            block@ == block::block_of(
                block::Sharing::Nothing,
                block::earliest(self.waiting(), max_intents),
                algorithm@,
                fee_rate,
            ),
            economics::is_surplus(block.surplus, block.total_profit, block.baseline_fifo_profit),
    {
        proof {
            self.lemma_comparable();
            mempool_laws::limit_takes_the_first(*self, max_intents);
        }
        block::prepare_proposal(&self.intents, algorithm, fee_rate, max_intents)
    }

    /// Compares what both orders would earn.
    pub fn compare(&self) -> (r: CompareResponse)
        requires
            self.wf(),
        ensures
            r.fifo_profit == select::total(select::kept(select::by_arrival(self.waiting()))),
            r.greedy_profit == select::total(select::kept(select::by_profit(self.waiting()))),
    {
        proof {
            self.lemma_comparable();
        }
        let fifo: Vec<Intent> = fifo_select(&self.intents);
        let greedy: Vec<Intent> = greedy_select(&self.intents);
        CompareResponse { fifo_profit: total_profit(&fifo), greedy_profit: total_profit(&greedy) }
    }

    /// How many different resources the waiting intents name.
    fn distinct_resources(&self) -> (n: usize)
        ensures
            n == select::held(self.waiting()).len(),
    {
        let mut names = StringHashSet::new();
        let ghost all = self.waiting();
        let mut k: usize = 0;
        proof {
            assert(names@ =~= select::held(all.take(0)));
        }
        while k < self.intents.len()
            invariant
                all == self.waiting(),
                k <= self.intents@.len(),
                names@ == select::held(all.take(k as int)),
            decreases self.intents@.len() - k,
        {
            let ghost before = names@;
            select::hold(&self.intents[k], &mut names);
            proof {
                assert(all.take(k + 1) =~= all.take(k as int).push(all[k as int]));
                assert forall|name: Seq<char>|
                    names@.contains(name) == select::held(all.take(k + 1)).contains(name) by {
                    select::lemma_held_push(all.take(k as int), all[k as int], name);
                    assert(names@.contains(name) <==> before.contains(name) || exists|j: int|
                        0 <= j < all[k as int].resources.len()
                            && #[trigger] all[k as int].resources[j] == name);
                }
                assert(names@ =~= select::held(all.take(k + 1)));
            }
            k = k + 1;
        }
        assert(all.take(k as int) =~= all);
        names.len()
    }

    /// The JSON metrics of the mempool.
    pub fn metrics_json(&self) -> (r: MetricsJsonResponse)
        requires
            self.wf(),
        ensures
            r.intents_count == self.waiting().len(),
            r.distinct_resources == select::held(self.waiting()).len(),
            r.fifo_profit == select::total(select::kept(select::by_arrival(self.waiting()))),
            r.greedy_profit == select::total(select::kept(select::by_profit(self.waiting()))),
            r.surplus == block::surplus_over(r.greedy_profit, r.fifo_profit),
            economics::is_surplus(r.surplus, r.greedy_profit, r.fifo_profit),
    {
        let both: CompareResponse = self.compare();
        proof {
            economics::totals_are_amounts(select::kept(select::by_arrival(self.waiting())));
            economics::totals_are_amounts(select::kept(select::by_profit(self.waiting())));
            economics::surplus_is_the_difference(both.greedy_profit, both.fifo_profit);
        }
        MetricsJsonResponse {
            intents_count: self.intents.len(),
            distinct_resources: self.distinct_resources(),
            fifo_profit: both.fifo_profit,
            greedy_profit: both.greedy_profit,
            surplus: both.greedy_profit.minus(both.fifo_profit).clamp(),
        }
    }

    /// The block that the scheduler builds on a tick: greedy, in numbers.
    pub fn scheduled_block(&self, fee_rate: Double) -> (b: ScheduledBlock)
        requires
            self.wf(),
        ensures
            ({
                let chosen = select::kept(select::by_profit(self.waiting()));
                &&& b.fee_rate == fee_rate
                &&& b.baseline_fifo_profit == block::baseline(self.waiting())
                &&& b.total_profit == select::total(chosen)
                &&& b.surplus == block::surplus_over(b.total_profit, b.baseline_fifo_profit)
                &&& b.sequencer_fee == b.surplus.product(fee_rate)
                &&& b.selected_count == chosen.len()
            }),
            economics::is_surplus(b.surplus, b.total_profit, b.baseline_fifo_profit),
    {
        proof {
            self.lemma_comparable();
            let first = select::kept(select::by_arrival(self.waiting()));
            let chosen = select::kept(select::by_profit(self.waiting()));
            economics::totals_are_amounts(first);
            economics::totals_are_amounts(chosen);
            economics::surplus_is_the_difference(select::total(chosen), select::total(first));
        }
        let first_come: Vec<Intent> = fifo_select(&self.intents);
        let fifo_profit: Double = total_profit(&first_come);
        let selected: Vec<Intent> = greedy_select(&self.intents);
        let total: Double = total_profit(&selected);
        let surplus: Double = total.minus(fifo_profit).clamp();
        proof {
            assert(intent::intents(selected@).len() == selected@.len());
        }
        ScheduledBlock {
            fee_rate,
            baseline_fifo_profit: fifo_profit,
            total_profit: total,
            surplus,
            sequencer_fee: surplus.times(fee_rate),
            selected_count: selected.len(),
        }
    }
}

/// Why a single submission is turned down, if it is.
fn check(req: &SubmitIntent) -> (why: Option<Rejection>)
    ensures
        why == verdict(req@),
        why == admission::refusal(*req),
{
    if !(Double { bits: 0 }).is_below(req.profit) {
        Some(Rejection::ProfitNotPositive)
    } else if req.resources.len() == 0 {
        Some(Rejection::NoResources)
    } else if req.resources.len() > MAX_RESOURCES_PER_INTENT {
        Some(Rejection::TooManyResources)
    } else {
        None
    }
}

proof fn lemma_leading_range(list: Seq<SubmitView>)
    ensures
        0 <= leading(list) <= list.len(),
    decreases list.len(),
{
    if list.len() > 0 {
        lemma_leading_range(list.drop_last());
    }
}

/// What follows the first submission that is turned down does not count.
proof fn lemma_leading_stops(list: Seq<SubmitView>, n: int)
    requires
        0 <= n <= list.len(),
        leading(list.take(n)) < n,
    ensures
        leading(list) == leading(list.take(n)),
    decreases list.len() - n,
{
    if n < list.len() {
        assert(list.take(n + 1).drop_last() =~= list.take(n));
        lemma_leading_stops(list, n + 1);
    } else {
        assert(list.take(n) =~= list);
    }
}

} // verus!
