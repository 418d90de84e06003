//! What observers are told, and how a connection passes it on.
use vstd::prelude::*;

use crate::auction::AuctionBook;
use crate::block::BlockResponse;
use crate::double::Double;
use crate::intent::{copy_string, Intent};
use crate::mempool::ScheduledBlock;

verus! {

/// Something that observers are told.
#[derive(Debug)]
pub enum Event {
    Reset,
    IntentSubmitted { intent: Intent },
    IntentsBulkSubmitted { count: usize },
    BlockBuilt { result: BlockResponse },
    ScheduledBlockBuilt { block: ScheduledBlock },
    ProposalPrepared { algorithm: String, fee_rate: Double, selected_count: usize },
    ProposalProcessed { algorithm: String, fee_rate: Double, accepted: bool },
    AuctionSubmitted { id: u64, client_id: Option<String> },
    AuctionBatchSubmitted { id: u64 },
    AuctionCleared { cleared: usize },
    AuctionCanceled { id: u64 },
    ZkJobDone { job_id: String, proof_id: String },
    Shutdown,
}

impl Event {
    /// The name under which the event is told.
    pub open spec fn name(self) -> Seq<char> {
        match self {
            Event::Reset => "reset"@,
            Event::IntentSubmitted { .. } => "intent_submitted"@,
            Event::IntentsBulkSubmitted { .. } => "intents_bulk_submitted"@,
            Event::BlockBuilt { .. } => "block_built"@,
            Event::ScheduledBlockBuilt { .. } => "scheduled_block_built"@,
            Event::ProposalPrepared { .. } => "abci_prepare_proposal"@,
            Event::ProposalProcessed { .. } => "abci_process_proposal"@,
            Event::AuctionSubmitted { .. } => "auction_submitted"@,
            Event::AuctionBatchSubmitted { .. } => "auction_submitted"@,
            Event::AuctionCleared { .. } => "auction_cleared"@,
            Event::AuctionCanceled { .. } => "auction_canceled"@,
            Event::ZkJobDone { .. } => "zk_job_done"@,
            Event::Shutdown => "shutdown"@,
        }
    }

    /// Whether the event bears the id of the trace that it belongs to.
    pub open spec fn is_traced(self) -> bool {
        !(self is ZkJobDone) && !(self is Shutdown)
    }

    pub fn label(&self) -> (name: &'static str)
        ensures
            name@ == self.name(),
    {
        match self {
            Event::Reset => "reset",
            Event::IntentSubmitted { .. } => "intent_submitted",
            Event::IntentsBulkSubmitted { .. } => "intents_bulk_submitted",
            Event::BlockBuilt { .. } => "block_built",
            Event::ScheduledBlockBuilt { .. } => "scheduled_block_built",
            Event::ProposalPrepared { .. } => "abci_prepare_proposal",
            Event::ProposalProcessed { .. } => "abci_process_proposal",
            Event::AuctionSubmitted { .. } => "auction_submitted",
            Event::AuctionBatchSubmitted { .. } => "auction_submitted",
            Event::AuctionCleared { .. } => "auction_cleared",
            Event::AuctionCanceled { .. } => "auction_canceled",
            Event::ZkJobDone { .. } => "zk_job_done",
            Event::Shutdown => "shutdown",
        }
    }

    pub fn traced(&self) -> (b: bool)
        ensures
            b == self.is_traced(),
    {
        match self {
            Event::ZkJobDone { .. } => false,
            Event::Shutdown => false,
            _ => true,
        }
    }
}

/// Tells of an intent that was admitted.
pub fn intent_submitted(it: &Intent) -> (event: Event)
    ensures
        event matches Event::IntentSubmitted { intent } && intent@ == it@,
{
    Event::IntentSubmitted { intent: it.clone() }
}

/// Tells of intents that were admitted together, by their number.
pub fn bulk_submitted(admitted: &Vec<Intent>) -> (event: Event)
    ensures
        event == (Event::IntentsBulkSubmitted { count: admitted.len() }),
{
    Event::IntentsBulkSubmitted { count: admitted.len() }
}

/// Tells of a block that the scheduler built.
pub fn scheduled_block_built(block: ScheduledBlock) -> (event: Event)
    ensures
        event == (Event::ScheduledBlockBuilt { block }),
{
    Event::ScheduledBlockBuilt { block }
}

/// Tells of an order that was put into the book.
pub fn auction_submitted(id: u64, client_id: &Option<String>) -> (event: Event)
    ensures
        event == (Event::AuctionSubmitted { id, client_id: *client_id }),
{
    Event::AuctionSubmitted { id, client_id: copy_string(client_id) }
}

/// Tells of orders that were put into the book together: one event for each,
/// in their order.
pub fn auction_batch_submitted(ids: &Vec<u64>) -> (events: Vec<Event>)
    ensures
        events@ == ids@.map_values(|id: u64| Event::AuctionBatchSubmitted { id }),
{
    let mut events: Vec<Event> = Vec::new();
    let mut i: usize = 0;
    while i < ids.len()
        invariant
            i <= ids@.len(),
            events@.len() == i,
            forall|k: int|
                0 <= k < i ==> #[trigger] events@[k] == (Event::AuctionBatchSubmitted {
                    id: ids@[k],
                }),
        decreases ids@.len() - i,
    {
        events.push(Event::AuctionBatchSubmitted { id: ids[i] });
        i = i + 1;
    }
    assert(events@ =~= ids@.map_values(|id: u64| Event::AuctionBatchSubmitted { id }));
    events
}

/// Tells of a clearing, by the number of its winners.
pub fn auction_cleared(book: &AuctionBook) -> (event: Event)
    ensures
        event matches Event::AuctionCleared { cleared } && cleared == book.winners().len(),
{
    Event::AuctionCleared { cleared: book.last_winners.len() }
}

/// Tells of a block that was built, with the whole block.
pub fn block_built(block: &BlockResponse) -> (event: Event)
    ensures
        event matches Event::BlockBuilt { result } && result@ == block@,
{
    Event::BlockBuilt { result: block.clone() }
}

/// Tells of a proposal that was prepared.
pub fn proposal_prepared(block: &BlockResponse) -> (event: Event)
    ensures
        event matches Event::ProposalPrepared { algorithm, fee_rate, selected_count }
            && algorithm@ == block@.algorithm && fee_rate == block@.fee_rate && selected_count
            == block@.selected.len(),
{
    Event::ProposalPrepared {
        algorithm: block.algorithm.clone(),
        fee_rate: block.fee_rate,
        selected_count: block.selected.len(),
    }
}

/// Decides on a proposal: each is accepted, and observers are told so.
pub fn process_proposal(algorithm: String, fee_rate: Double) -> (r: (bool, Event))
    ensures
        r.0,
        r.1 == (Event::ProposalProcessed { algorithm, fee_rate, accepted: true }),
{
    let accepted: bool = true;
    (accepted, Event::ProposalProcessed { algorithm, fee_rate, accepted })
}

/// Tells of an order that was taken back; nothing is told where none was.
pub fn auction_canceled(id: u64, removed: usize) -> (event: Option<Event>)
    ensures
        event == (if removed > 0 {
            Some(Event::AuctionCanceled { id })
        } else {
            None
        }),
{
    if removed > 0 {
        Some(Event::AuctionCanceled { id })
    } else {
        None
    }
}

/// What happens on the connection to an observer.
#[derive(Debug)]
pub enum Occurrence {
    /// A message came in for the observer.
    Message(String),
    /// The observer was too slow, and this many messages were dropped.
    Lagged(u64),
    /// No more messages will come.
    Closed,
    /// A message was handed to the observer, or not.
    Delivered(bool),
}

/// What the connection does next.
#[derive(Debug)]
pub enum Step {
    Send(String),
    /// Count this many dropped messages, and wait for the next.
    CountLag(u64),
    Wait,
    Stop,
}

/// Passes messages on until none will come or the observer is gone; messages
/// that were dropped are counted and do not end the connection.
pub fn forward(happened: Occurrence) -> (step: Step)
    ensures
        step == (match happened {
            Occurrence::Message(text) => Step::Send(text),
            Occurrence::Lagged(dropped) => Step::CountLag(dropped),
            Occurrence::Closed => Step::Stop,
            Occurrence::Delivered(done) => if done {
                Step::Wait
            } else {
                Step::Stop
            },
        }),
{
    match happened {
        Occurrence::Message(text) => Step::Send(text),
        Occurrence::Lagged(dropped) => Step::CountLag(dropped),
        Occurrence::Closed => Step::Stop,
        Occurrence::Delivered(done) => if done {
            Step::Wait
        } else {
            Step::Stop
        },
    }
}

} // verus!
