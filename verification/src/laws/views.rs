//! What the views of the types show: every field, and every item in its
//! place.
use vstd::prelude::*;

use crate::auction::{AuctionBook, AuctionSubmit};
use crate::block::{BlockResponse, IntentPayout};
use crate::intent::{Intent, SubmitIntent};
use crate::mempool::AppState;
use crate::zk::{JobView, ZkJobState, ZkJobStatusResp, ZkJobs};
use crate::{auction, block, intent};

verus! {

/// A text that may be missing, as it is shown.
pub open spec fn shows(shown: Option<Seq<char>>, string: Option<String>) -> bool {
    &&& shown is Some <==> string is Some
    &&& string matches Some(s) ==> shown == Some(s@)
}

/// Texts are shown each in its place.
pub open spec fn shows_all(shown: Seq<Seq<char>>, strings: Seq<String>) -> bool {
    &&& shown.len() == strings.len()
    &&& forall|i: int| 0 <= i < strings.len() ==> #[trigger] shown[i] == strings[i]@
}

/// An intent is shown with all its fields.
pub proof fn an_intent_is_shown_whole(it: Intent)
    ensures
        it@.profit == it.profit,
        shows_all(it@.resources, it.resources@),
        shows(it@.client_id, it.client_id),
        it@.arrival_index == it.arrival_index,
{
}

/// A submission is shown with all its fields.
pub proof fn a_submission_is_shown_whole(s: SubmitIntent)
    ensures
        s@.profit == s.profit,
        shows_all(s@.resources, s.resources@),
        shows(s@.client_id, s.client_id),
{
}

/// Lists are shown item by item, and so are texts.
pub proof fn lists_are_shown_whole(
    its: Seq<Intent>,
    subs: Seq<SubmitIntent>,
    pays: Seq<IntentPayout>,
    orders: Seq<AuctionSubmit>,
    strings: Seq<String>,
    string: Option<String>,
    i: int,
)
    ensures
        intent::intents(its).len() == its.len(),
        0 <= i < its.len() ==> intent::intents(its)[i] == its[i]@,
        intent::submissions(subs).len() == subs.len(),
        0 <= i < subs.len() ==> intent::submissions(subs)[i] == subs[i]@,
        block::payouts(pays).len() == pays.len(),
        0 <= i < pays.len() ==> block::payouts(pays)[i] == pays[i]@,
        auction::entries(orders).len() == orders.len(),
        0 <= i < orders.len() ==> auction::entries(orders)[i] == orders[i]@,
        shows_all(intent::texts(strings), strings),
        shows(intent::text(string), string),
{
}

/// A payout is shown with all its fields.
pub proof fn a_payout_is_shown_whole(p: IntentPayout)
    ensures
        p@.intent.profit == p.profit,
        shows_all(p@.intent.resources, p.resources@),
        shows(p@.intent.client_id, p.client_id),
        p@.intent.arrival_index == p.arrival_index,
        p@.fee_share == p.fee_share,
        p@.trader_profit == p.trader_profit,
{
}

/// A block is shown with all its fields and all its payouts.
pub proof fn a_block_is_shown_whole(b: BlockResponse, i: int)
    ensures
        b@.algorithm == b.algorithm@,
        b@.fee_rate == b.fee_rate,
        b@.baseline_fifo_profit == b.baseline_fifo_profit,
        b@.total_profit == b.total_profit,
        b@.surplus == b.surplus,
        b@.sequencer_fee == b.sequencer_fee,
        b@.selected.len() == b.selected@.len(),
        0 <= i < b.selected@.len() ==> b@.selected[i] == b.selected@[i]@,
{
}

/// An order is shown with all its fields.
pub proof fn an_order_is_shown_whole(e: AuctionSubmit)
    ensures
        shows(e@.client_id, e.client_id),
        e@.order == e.order,
        e@.id == e.id,
        e@.submitted_at_ms == e.submitted_at_ms,
        e@.bid == e.bid,
        e@.priority == e.priority,
{
}

/// A book shows its orders and its winners, each in its place.
pub proof fn a_book_is_shown_whole(book: AuctionBook, i: int)
    ensures
        book.standing().len() == book.submissions@.len(),
        0 <= i < book.submissions@.len() ==> book.standing()[i] == book.submissions@[i]@,
        book.winners().len() == book.last_winners@.len(),
        0 <= i < book.last_winners@.len() ==> book.winners()[i] == book.last_winners@[i]@,
{
}

/// A mempool shows its intents, each in its place.
pub proof fn a_mempool_is_shown_whole(state: AppState, i: int)
    ensures
        state.waiting().len() == state.intents@.len(),
        0 <= i < state.intents@.len() ==> state.waiting()[i] == state.intents@[i]@,
{
}

/// A job is shown with all its fields.
pub proof fn a_job_is_shown_whole(job: ZkJobState)
    ensures
        job matches ZkJobState::Pending { created_at, claim } ==> (job@ matches JobView::Pending {
            created_at: at,
            claim: shown,
        } && at == created_at && shows(shown, claim)),
        job matches ZkJobState::Done { proof_id, claim } ==> (job@ matches JobView::Done {
            proof_id: found,
            claim: shown,
        } && found == proof_id@ && shows(shown, claim)),
{
}

/// A table of jobs shows each of them under its id, and no other.
pub proof fn a_table_of_jobs_is_shown_whole(jobs: ZkJobs, id: Seq<char>)
    ensures
        jobs.known().contains_key(id) <==> jobs.jobs@.contains_key(id),
        jobs.jobs@.contains_key(id) ==> jobs.known()[id] == jobs.jobs@[id]@,
{
}

/// The answer on a job is shown with all its fields.
pub proof fn an_answer_is_shown_whole(r: ZkJobStatusResp)
    ensures
        r@.job_id == r.job_id@,
        r@.state == r.state@,
        shows(r@.proof_id, r.proof_id),
        shows(r@.claim, r.claim),
{
}

} // verus!
