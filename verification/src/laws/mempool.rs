//! Laws of the mempool and of the blocks that it builds.
use vstd::prelude::*;

use crate::block::Sharing;
use crate::double::Double;
use crate::intent::{Intent, IntentView, SubmitView};
use crate::laws::{payouts, selection};
use crate::mempool::{AppState, MAX_BULK_INTENTS};
use crate::rejection::Rejection;
use crate::{block, mempool, select};

verus! {

/// The submissions before the first that is turned down all pass, and that
/// one, if there is one, does not.
pub proof fn leading_submissions_pass(list: Seq<SubmitView>)
    ensures
        0 <= mempool::leading(list) <= list.len(),
        forall|i: int|
            0 <= i < mempool::leading(list) ==> mempool::verdict(#[trigger] list[i]) is None,
        mempool::leading(list) < list.len() ==> mempool::verdict(list[mempool::leading(list)])
            is Some,
    decreases list.len(),
{
    if list.len() > 0 {
        let fewer = list.drop_last();
        leading_submissions_pass(fewer);
        assert forall|i: int| 0 <= i < mempool::leading(list) implies mempool::verdict(
            #[trigger] list[i],
        ) is None by {
            if i < fewer.len() {
                assert(list[i] == fewer[i]);
            }
        }
        if mempool::leading(fewer) < fewer.len() {
            assert(list[mempool::leading(fewer)] == fewer[mempool::leading(fewer)]);
        }
    }
}

/// Where every submission passes, all of them lead.
pub proof fn all_pass_together(list: Seq<SubmitView>)
    requires
        forall|i: int| 0 <= i < list.len() ==> mempool::verdict(#[trigger] list[i]) is None,
    ensures
        mempool::leading(list) == list.len(),
{
    leading_submissions_pass(list);
}

/// A bulk request of one submission does what a single submission does.
pub proof fn bulk_of_one(
    before: AppState,
    s: SubmitView,
    after: AppState,
    r: Result<Vec<Intent>, Rejection>,
)
    requires
        before.wf(),
        mempool::bulk_outcome(before, seq![s], after, r),
    ensures
        match mempool::verdict(s) {
            Some(why) => {
                &&& r == Err::<Vec<Intent>, Rejection>(why)
                &&& after.waiting() == before.waiting()
                &&& after.next_index == before.next_index
            },
            None => {
                &&& r is Ok
                &&& r->Ok_0@.len() == 1
                &&& r->Ok_0@[0]@ == s.admitted(before.next_index)
                &&& after.waiting() == before.waiting().push(s.admitted(before.next_index))
                &&& after.next_index == before.next_index + 1
            },
        },
{
    let list = seq![s];
    leading_submissions_pass(list);
    let n = mempool::leading(list);
    let admitted = mempool::admissions(list.take(n), before.next_index as int);
    if mempool::verdict(s) is None {
        assert(n == 1) by {
            all_pass_together(list);
        }
        assert(list.take(1) =~= list);
        assert(admitted[0] == s.admitted(before.next_index));
        assert(after.waiting() =~= before.waiting().push(s.admitted(before.next_index)));
        assert(crate::intent::intents(r->Ok_0@).len() == 1);
        assert(crate::intent::intents(r->Ok_0@)[0] == r->Ok_0@[0]@);
    } else {
        assert(n == 0) by {
            if n == 1 {
                assert(mempool::verdict(list[0]) is None);
            }
        }
        assert(after.waiting() =~= before.waiting());
    }
}

/// Two bulk requests that succeed, one after the other, leave the mempool as
/// one request with the submissions of both does.
pub proof fn bulks_join(
    before: AppState,
    first: Seq<SubmitView>,
    between: AppState,
    r1: Result<Vec<Intent>, Rejection>,
    second: Seq<SubmitView>,
    after: AppState,
    r2: Result<Vec<Intent>, Rejection>,
    joined: AppState,
    r: Result<Vec<Intent>, Rejection>,
)
    requires
        before.wf(),
        between.wf(),
        mempool::bulk_outcome(before, first, between, r1),
        mempool::bulk_outcome(between, second, after, r2),
        mempool::bulk_outcome(before, first + second, joined, r),
        r1 is Ok,
        r2 is Ok,
        first.len() + second.len() <= MAX_BULK_INTENTS,
    ensures
        r is Ok,
        joined.waiting() == after.waiting(),
        joined.next_index == after.next_index,
        crate::intent::intents(r->Ok_0@) == crate::intent::intents(r1->Ok_0@)
            + crate::intent::intents(r2->Ok_0@),
{
    let both = first + second;
    leading_submissions_pass(first);
    leading_submissions_pass(second);
    assert forall|i: int| 0 <= i < both.len() implies mempool::verdict(#[trigger] both[i])
        is None by {
        if i < first.len() {
            assert(both[i] == first[i]);
        } else {
            assert(both[i] == second[i - first.len()]);
        }
    }
    all_pass_together(both);
    let start = before.next_index as int;
    assert(first.take(first.len() as int) =~= first);
    assert(second.take(second.len() as int) =~= second);
    assert(both.take(both.len() as int) =~= both);
    assert(mempool::admissions(both, start) =~= mempool::admissions(first, start)
        + mempool::admissions(second, start + first.len()));
    assert(joined.waiting() =~= after.waiting());
}

/// The mempool stands in the order of arrival.
pub proof fn mempool_stands_in_order(state: AppState)
    requires
        state.wf(),
    ensures
        select::by_arrival(state.waiting()) == state.waiting(),
{
    let w = state.waiting();
    assert forall|i: int, j: int| 0 <= i < j < w.len() implies select::arrival_key(
        #[trigger] w[i],
    ).0 <= select::arrival_key(#[trigger] w[j]).0 by {
        assert(w[i].arrival_index == Some(i as u64));
        assert(w[j].arrival_index == Some(j as u64));
        assert(w.len() == state.next_index);
    }
    selection::in_order_of_arrival(w);
}

/// Two intents in the mempool never bear the same index.
pub proof fn indices_differ(state: AppState, i: int, j: int)
    requires
        state.wf(),
        0 <= i < j < state.waiting().len(),
    ensures
        state.waiting()[i].arrival_index != state.waiting()[j].arrival_index,
{
    assert(state.waiting()[i].arrival_index == Some(i as u64));
    assert(state.waiting()[j].arrival_index == Some(j as u64));
    assert(state.waiting().len() == state.next_index);
}

/// The limit of a proposal takes the intents that came first.
pub proof fn limit_takes_the_first(state: AppState, limit: Option<usize>)
    requires
        state.wf(),
    ensures
        ({
            let w = state.waiting();
            let taken = block::earliest(w, limit);
            &&& limit is None ==> taken == w
            &&& limit matches Some(k) ==> taken == w.take(
                if k < w.len() {
                    k as int
                } else {
                    w.len() as int
                },
            )
        }),
{
    mempool_stands_in_order(state);
    assert(state.waiting().take(state.waiting().len() as int) =~= state.waiting());
}

/// A proposal never selects more intents than its limit.
pub proof fn proposal_keeps_its_limit(
    items: Seq<IntentView>,
    algorithm: Seq<char>,
    rate: Double,
    limit: usize,
)
    ensures
        block::block_of(
            Sharing::Nothing,
            block::earliest(items, Some(limit)),
            algorithm,
            rate,
        ).selected.len() <= limit,
{
    let taken = block::earliest(items, Some(limit));
    if algorithm == "fifo"@ {
        let at = selection::kept_is_a_part(select::by_arrival(taken));
        let keys = taken.map_values(|it: IntentView| select::arrival_key(it));
        selection::sorting_takes_every_item(taken, keys);
        lemma_rising_places(at, taken.len() as int);
    } else {
        let at = selection::kept_is_a_part(select::by_profit(taken));
        let keys = taken.map_values(|it: IntentView| select::profit_key(it));
        selection::sorting_takes_every_item(taken, keys);
        lemma_rising_places(at, taken.len() as int);
    }
}

/// Rising places below a bound are no more than the bound.
proof fn lemma_rising_places(at: Seq<int>, bound: int)
    requires
        bound >= 0,
        forall|i: int| 0 <= i < at.len() ==> 0 <= #[trigger] at[i] < bound,
        forall|i: int, j: int| 0 <= i < j < at.len() ==> #[trigger] at[i] < #[trigger] at[j],
    ensures
        at.len() <= bound,
    decreases at.len(),
{
    if at.len() > 0 {
        let fewer = at.drop_last();
        assert forall|i: int| 0 <= i < fewer.len() implies 0 <= #[trigger] fewer[i]
            < at.last() by {
            assert(fewer[i] == at[i]);
            assert(at[i] < at[at.len() - 1]);
        }
        assert forall|i: int, j: int| 0 <= i < j < fewer.len() implies #[trigger] fewer[i]
            < #[trigger] fewer[j] by {
            assert(at[i] < at[j]);
        }
        lemma_rising_places(fewer, at.last());
    }
}

/// A proposal without a limit selects what a block over the same mempool
/// selects, and names the same profits and fee.
pub proof fn proposal_and_block_agree(state: AppState, algorithm: Seq<char>, rate: Double)
    requires
        state.wf(),
    ensures
        ({
            let built = block::block_of(Sharing::AgainstOne, state.waiting(), algorithm, rate);
            let proposed = block::block_of(
                Sharing::Nothing,
                block::earliest(state.waiting(), None),
                algorithm,
                rate,
            );
            &&& proposed.baseline_fifo_profit == built.baseline_fifo_profit
            &&& proposed.total_profit == built.total_profit
            &&& proposed.surplus == built.surplus
            &&& proposed.sequencer_fee == built.sequencer_fee
            &&& proposed.selected.len() == built.selected.len()
            &&& forall|i: int|
                0 <= i < built.selected.len() ==> (#[trigger] proposed.selected[i]).intent
                    == built.selected[i].intent
            &&& built.total_profit.positive() ==> proposed.selected == built.selected
        }),
{
    limit_takes_the_first(state, None);
    let built = block::block_of(Sharing::AgainstOne, state.waiting(), algorithm, rate);
    let proposed = block::block_of(
        Sharing::Nothing,
        block::earliest(state.waiting(), None),
        algorithm,
        rate,
    );
    if built.total_profit.positive() {
        let chosen = block::selection(state.waiting(), algorithm);
        assert forall|i: int| 0 <= i < chosen.len() implies #[trigger] proposed.selected[i]
            == built.selected[i] by {
            payouts::both_sharings_agree(
                chosen[i].profit,
                built.sequencer_fee,
                built.total_profit,
            );
        }
        assert(proposed.selected =~= built.selected);
    }
}

/// The greedy block and the scheduler select alike: the name of the greedy
/// algorithm stands for the order of profit, on which `/compare`, the metrics
/// and the scheduler report.
pub proof fn greedy_means_the_order_of_profit(
    sharing: Sharing,
    items: Seq<IntentView>,
    rate: Double,
)
    ensures
        ({
            let b = block::block_of(sharing, items, "greedy"@, rate);
            let chosen = select::kept(select::by_profit(items));
            &&& b.total_profit == select::total(chosen)
            &&& b.baseline_fifo_profit == select::total(select::kept(select::by_arrival(items)))
            &&& b.surplus == block::surplus_over(b.total_profit, b.baseline_fifo_profit)
            &&& b.sequencer_fee == b.surplus.product(rate)
            &&& b.selected.len() == chosen.len()
        }),
{
    reveal_strlit("greedy");
    reveal_strlit("fifo");
    assert("greedy"@.len() != "fifo"@.len());
}

} // verus!
