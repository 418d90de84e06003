//! Which submissions the mempool admits, said of the submissions themselves.
use vstd::prelude::*;

use crate::double::Double;
use crate::intent::{Intent, SubmitIntent, SubmitView};
use crate::mempool::AppState;
use crate::rejection::Rejection;
use crate::{intent, mempool};

verus! {

/// Why a submission is turned down: it promises no profit above zero, or it
/// names no resource, or more than 64 of them.
pub open spec fn refusal(req: SubmitIntent) -> Option<Rejection> {
    if !(Double { bits: 0 }).below(req.profit) {
        Some(Rejection::ProfitNotPositive)
    } else if req.resources@.len() == 0 {
        Some(Rejection::NoResources)
    } else if req.resources@.len() > 64 {
        Some(Rejection::TooManyResources)
    } else {
        None
    }
}

/// A submission is turned down exactly if it promises no profit above zero,
/// names no resource or names more than 64; what it promises is looked at
/// before what it names.
pub proof fn which_submissions_pass(s: SubmitView)
    ensures
        ({
            let gains = (Double { bits: 0 }).below(s.profit);
            let why = mempool::verdict(s);
            &&& why is None <==> gains && 1 <= s.resources.len() <= 64
            &&& why == Some(Rejection::ProfitNotPositive) <==> !gains
            &&& why == Some(Rejection::NoResources) <==> gains && s.resources.len() == 0
            &&& why == Some(Rejection::TooManyResources) <==> gains && s.resources.len() > 64
        }),
{
}

/// An admitted intent has every field of its submission, and the index that
/// it was given.
pub proof fn admission_keeps_every_field(s: SubmitView, index: u64)
    ensures
        s.admitted(index).profit == s.profit,
        s.admitted(index).resources == s.resources,
        s.admitted(index).client_id == s.client_id,
        s.admitted(index).arrival_index == Some(index),
{
}

/// Admissions keep the submissions in their order and number them on.
pub proof fn admissions_keep_the_order(list: Seq<SubmitView>, start: int, i: int)
    requires
        0 <= i < list.len(),
        0 <= start,
        start + list.len() <= u64::MAX,
    ensures
        mempool::admissions(list, start).len() == list.len(),
        mempool::admissions(list, start)[i].profit == list[i].profit,
        mempool::admissions(list, start)[i].resources == list[i].resources,
        mempool::admissions(list, start)[i].client_id == list[i].client_id,
        mempool::admissions(list, start)[i].arrival_index matches Some(index) && index == start + i,
{
}

/// The leading submissions are those before the first that is turned down.
pub proof fn leading_stops_at_the_first_refusal(list: Seq<SubmitView>)
    ensures
        ({
            let n = mempool::leading(list);
            &&& 0 <= n <= list.len()
            &&& forall|i: int|
                0 <= i < n ==> (Double { bits: 0 }).below((#[trigger] list[i]).profit) && 1
                    <= list[i].resources.len() <= 64
            &&& n < list.len() ==> !((Double { bits: 0 }).below(list[n].profit) && 1
                <= list[n].resources.len() <= 64)
        }),
    decreases list.len(),
{
    if list.len() > 0 {
        let fewer = list.drop_last();
        leading_stops_at_the_first_refusal(fewer);
        let n = mempool::leading(list);
        assert forall|i: int| 0 <= i < n implies (Double { bits: 0 }).below(
            (#[trigger] list[i]).profit,
        ) && 1 <= list[i].resources.len() <= 64 by {
            if i < fewer.len() {
                assert(list[i] == fewer[i]);
            }
        }
    }
}

/// What a bulk request does: nothing, where it holds no submission or more
/// than a thousand; else it admits the submissions before the first that is
/// turned down, each with all its fields and numbered on, and leaves what
/// waited as it was.  It succeeds where none is turned down.
pub proof fn what_a_bulk_does(
    before: AppState,
    list: Seq<SubmitView>,
    after: AppState,
    r: Result<Vec<Intent>, Rejection>,
) -> (n: int)
    requires
        before.wf(),
        mempool::bulk_outcome(before, list, after, r),
    ensures
        list.len() == 0 ==> r == Err::<Vec<Intent>, Rejection>(Rejection::NoIntents) && after
            == before,
        list.len() > 1000 ==> r == Err::<Vec<Intent>, Rejection>(Rejection::TooManyIntents)
            && after == before,
        0 < list.len() <= 1000 ==> {
            let was = before.waiting();
            let now = after.waiting();
            &&& 0 <= n <= list.len()
            &&& now.len() == was.len() + n
            &&& after.next_index == before.next_index + n
            &&& forall|k: int| 0 <= k < was.len() ==> #[trigger] now[k] == was[k]
            &&& forall|k: int|
                0 <= k < n ==> {
                    &&& (Double { bits: 0 }).below((#[trigger] list[k]).profit)
                    &&& 1 <= list[k].resources.len() <= 64
                    &&& now[was.len() + k].profit == list[k].profit
                    &&& now[was.len() + k].resources == list[k].resources
                    &&& now[was.len() + k].client_id == list[k].client_id
                    &&& now[was.len() + k].arrival_index == Some((before.next_index + k) as u64)
                }
            &&& n < list.len() ==> {
                &&& !((Double { bits: 0 }).below(list[n].profit) && 1 <= list[n].resources.len()
                    <= 64)
                &&& r is Err
                &&& mempool::verdict(list[n]) == Some(r->Err_0)
            }
            &&& n == list.len() ==> r is Ok && r->Ok_0@.len() == n && forall|k: int|
                0 <= k < n ==> (#[trigger] r->Ok_0@[k])@ == now[was.len() + k]
        },
{
    let n = mempool::leading(list);
    leading_stops_at_the_first_refusal(list);
    let was = before.waiting();
    let now = after.waiting();
    if 0 < list.len() <= 1000 {
        let new = mempool::admissions(list.take(n), before.next_index as int);
        assert(now == was + new);
        assert forall|k: int| 0 <= k < n implies {
            &&& (Double { bits: 0 }).below((#[trigger] list[k]).profit)
            &&& 1 <= list[k].resources.len() <= 64
            &&& now[was.len() + k].profit == list[k].profit
            &&& now[was.len() + k].resources == list[k].resources
            &&& now[was.len() + k].client_id == list[k].client_id
            &&& now[was.len() + k].arrival_index == Some((before.next_index + k) as u64)
        } by {
            assert(now[was.len() + k] == new[k]);
            assert(list.take(n)[k] == list[k]);
        }
        if n == list.len() {
            assert(intent::intents(r->Ok_0@).len() == r->Ok_0@.len());
            assert forall|k: int| 0 <= k < n implies (#[trigger] r->Ok_0@[k])@ == now[was.len()
                + k] by {
                assert(intent::intents(r->Ok_0@)[k] == r->Ok_0@[k]@);
                assert(now[was.len() + k] == new[k]);
            }
        }
    }
    n
}

/// A mempool in order holds only intents that would pass, numbered from 0 on
/// as they stand, and the next one gets the number that follows.
pub proof fn what_the_mempool_holds(state: AppState, i: int)
    requires
        state.wf(),
        0 <= i < state.intents@.len(),
    ensures
        state.next_index == state.intents@.len(),
        (Double { bits: 0 }).below(state.intents@[i].profit),
        1 <= state.intents@[i].resources@.len() <= 64,
        state.intents@[i].arrival_index == Some(i as u64),
{
    assert(state.waiting()[i] == state.intents@[i]@);
}

} // verus!
