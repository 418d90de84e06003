//! The block engine that other programs embed.
use vstd::prelude::*;

use crate::block::{self, choose_intents};
use crate::double::Double;
use crate::intent::{Intent, IntentView};
use crate::select::{select_as_given, total_profit};
use crate::text::same_text;
use crate::{intent, select};

verus! {

/// A field that every intent needs and that was not there.
#[derive(Clone, Copy, Debug, PartialEq, Eq, Structural)]
pub enum MissingField {
    Profit,
    Resources,
}

impl MissingField {
    /// What the caller is told.
    pub fn message(self) -> (text: &'static str)
        ensures
            self == MissingField::Profit ==> text@ == "missing profit"@,
            self == MissingField::Resources ==> text@ == "missing resources"@,
    {
        match self {
            MissingField::Profit => "missing profit",
            MissingField::Resources => "missing resources",
        }
    }
}

/// An intent out of the fields that were there.  A missing profit is told
/// before missing resources; the other two fields may be left out.
pub fn parse_intent(
    profit: Option<Double>,
    resources: Option<Vec<String>>,
    client_id: Option<String>,
    arrival_index: Option<usize>,
) -> (r: Result<Intent, MissingField>)
    ensures
        profit is None ==> r == Err::<Intent, MissingField>(MissingField::Profit),
        profit is Some && resources is None ==> r == Err::<Intent, MissingField>(
            MissingField::Resources,
        ),
        profit is Some && resources is Some ==> r is Ok && r->Ok_0@ == (IntentView {
            profit: profit->Some_0,
            resources: intent::texts(resources->Some_0@),
            client_id: intent::text(client_id),
            arrival_index: match arrival_index {
                Some(index) => Some(index as u64),
                None => None,
            },
        }),
        r matches Ok(it) ==> {
            &&& profit == Some(it.profit)
            &&& resources is Some && it.resources@ == resources->Some_0@
            &&& it.client_id == client_id
            &&& it.arrival_index is Some <==> arrival_index is Some
            &&& arrival_index matches Some(index) ==> it.arrival_index->Some_0 == index
        },
{
    let profit: Double = match profit {
        Some(given) => given,
        None => return Err(MissingField::Profit),
    };
    let resources: Vec<String> = match resources {
        Some(given) => given,
        None => return Err(MissingField::Resources),
    };
    let arrival_index: Option<u64> = match arrival_index {
        Some(index) => Some(index as u64),
        None => None,
    };
    Ok(Intent { profit, resources, client_id, arrival_index })
}

/// The profits that are numbers are all equal, so that no two intents differ
/// in profit.
pub open spec fn level(items: Seq<IntentView>) -> bool {
    forall|i: int, j: int|
        0 <= i < items.len() && 0 <= j < items.len() && !items[i].profit.nan()
            && !items[j].profit.nan() ==> (#[trigger] items[i]).profit.rank() == (
        #[trigger] items[j]).profit.rank()
}

/// The profits put the intents in an order: all of them can be compared, or no
/// two of them differ.
pub open spec fn orderable(items: Seq<IntentView>) -> bool {
    select::comparable(items) || level(items)
}

/// The intents that the named algorithm selects.  Where a profit is no
/// number and the others do not differ, the greedy order is the one given.
pub open spec fn selection(items: Seq<IntentView>, algorithm: Seq<char>) -> Seq<IntentView> {
    if algorithm == "fifo"@ || select::comparable(items) {
        block::selection(items, algorithm)
    } else {
        select::kept(items)
    }
}

/// Whether all profits can be compared.
fn all_comparable(items: &Vec<Intent>) -> (b: bool)
    ensures
        b == select::comparable(intent::intents(items@)),
{
    let ghost all = intent::intents(items@);
    if items.len() < 2 {
        return true;
    }
    let mut i: usize = 0;
    while i < items.len()
        invariant
            all == intent::intents(items@),
            2 <= items@.len(),
            i <= items@.len(),
            forall|k: int| 0 <= k < i ==> !(#[trigger] all[k]).profit.nan(),
        decreases items@.len() - i,
    {
        assert(all[i as int] == items@[i as int]@);
        if items[i].profit.is_nan() {
            return false;
        }
        i = i + 1;
    }
    true
}

/// Whether the profits put the intents in an order.
pub fn is_orderable(items: &Vec<Intent>) -> (b: bool)
    ensures
        b == orderable(intent::intents(items@)),
{
    let ghost all = intent::intents(items@);
    if all_comparable(items) {
        return true;
    }
    let mut common: Option<i64> = None;
    let ghost mut at: int = 0;
    let mut i: usize = 0;
    while i < items.len()
        invariant
            all == intent::intents(items@),
            !select::comparable(all),
            i <= items@.len(),
            common is None ==> forall|k: int| 0 <= k < i ==> (#[trigger] all[k]).profit.nan(),
            common matches Some(rank) ==> {
                &&& 0 <= at < i
                &&& !all[at].profit.nan()
                &&& all[at].profit.rank() == rank
                &&& forall|k: int|
                    0 <= k < i && !(#[trigger] all[k]).profit.nan() ==> all[k].profit.rank()
                        == rank
            },
        decreases items@.len() - i,
    {
        assert(all[i as int] == items@[i as int]@);
        if !items[i].profit.is_nan() {
            let rank: i64 = items[i].profit.order_rank();
            match common {
                Some(known) => {
                    if rank != known {
                        proof {
                            assert(all[at].profit.rank() != all[i as int].profit.rank());
                            assert(!level(all));
                        }
                        return false;
                    }
                },
                None => {
                    common = Some(rank);
                    proof {
                        at = i as int;
                    }
                },
            }
        }
        i = i + 1;
    }
    true
}

/// The intents that the named algorithm selects, what they earn together, and
/// the name as it was given.
pub fn build_block(items: &Vec<Intent>, algorithm: &str) -> (r: (Vec<Intent>, Double, String))
    requires
        algorithm@ != "fifo"@ ==> orderable(intent::intents(items@)),
    ensures
        intent::intents(r.0@) == selection(intent::intents(items@), algorithm@),
        r.1 == select::total(intent::intents(r.0@)),
        r.2@ == algorithm@,
{
    let selected: Vec<Intent> = if same_text(algorithm, "fifo") || all_comparable(items) {
        choose_intents(items, algorithm)
    } else {
        select_as_given(items)
    };
    let profit: Double = total_profit(&selected);
    (selected, profit, algorithm.to_owned())
}

} // verus!
