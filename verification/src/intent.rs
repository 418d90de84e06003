//! Trading intents: what a trader asks for, and what the mempool keeps.
use vstd::prelude::*;

use crate::double::Double;

verus! {

/// An intent in the mempool.
#[derive(Debug)]
pub struct Intent {
    pub profit: Double,
    pub resources: Vec<String>,
    pub client_id: Option<String>,
    pub arrival_index: Option<u64>,
}

/// An intent as a trader submits it.
#[derive(Debug)]
pub struct SubmitIntent {
    pub profit: Double,
    pub resources: Vec<String>,
    pub client_id: Option<String>,
}

pub struct IntentView {
    pub profit: Double,
    pub resources: Seq<Seq<char>>,
    pub client_id: Option<Seq<char>>,
    pub arrival_index: Option<u64>,
}

pub struct SubmitView {
    pub profit: Double,
    pub resources: Seq<Seq<char>>,
    pub client_id: Option<Seq<char>>,
}

/// The texts of some strings.
pub open spec fn texts(strings: Seq<String>) -> Seq<Seq<char>> {
    strings.map_values(|s: String| s@)
}

/// The text of a string that may be missing.
pub open spec fn text(string: Option<String>) -> Option<Seq<char>> {
    match string {
        Some(s) => Some(s@),
        None => None,
    }
}

impl View for Intent {
    type V = IntentView;

    open spec fn view(&self) -> IntentView {
        IntentView {
            profit: self.profit,
            resources: texts(self.resources@),
            client_id: text(self.client_id),
            arrival_index: self.arrival_index,
        }
    }
}

impl View for SubmitIntent {
    type V = SubmitView;

    open spec fn view(&self) -> SubmitView {
        SubmitView {
            profit: self.profit,
            resources: texts(self.resources@),
            client_id: text(self.client_id),
        }
    }
}

/// What the intents of a list say.
pub open spec fn intents(list: Seq<Intent>) -> Seq<IntentView> {
    list.map_values(|i: Intent| i@)
}

/// What the submissions of a list say.
pub open spec fn submissions(list: Seq<SubmitIntent>) -> Seq<SubmitView> {
    list.map_values(|i: SubmitIntent| i@)
}

impl SubmitView {
    /// The intent that this submission becomes under an arrival index.
    pub open spec fn admitted(self, arrival_index: u64) -> IntentView {
        IntentView {
            profit: self.profit,
            resources: self.resources,
            client_id: self.client_id,
            arrival_index: Some(arrival_index),
        }
    }
}

/// A copy of some strings.
pub fn copy_strings(strings: &Vec<String>) -> (r: Vec<String>)
    ensures
        texts(r@) == texts(strings@),
        r@ == strings@,
{
    let r: Vec<String> = strings.clone();
    assert(r@ =~= strings@);
    r
}

/// A copy of a string that may be missing.
pub fn copy_string(string: &Option<String>) -> (r: Option<String>)
    ensures
        text(r) == text(*string),
        r == *string,
{
    string.clone()
}

impl Clone for Intent {
    fn clone(&self) -> (r: Intent)
        ensures
            r@ == self@,
            r.profit == self.profit,
            r.resources@ == self.resources@,
            r.client_id == self.client_id,
            r.arrival_index == self.arrival_index,
    {
        Intent {
            profit: self.profit,
            resources: copy_strings(&self.resources),
            client_id: copy_string(&self.client_id),
            arrival_index: self.arrival_index,
        }
    }
}

/// A copy of some intents.
pub fn copy_intents(list: &Vec<Intent>) -> (r: Vec<Intent>)
    ensures
        intents(r@) == intents(list@),
        r@.len() == list@.len(),
        forall|k: int|
            0 <= k < list@.len() ==> {
                &&& (#[trigger] r@[k]).profit == list@[k].profit
                &&& r@[k].resources@ == list@[k].resources@
                &&& r@[k].client_id == list@[k].client_id
                &&& r@[k].arrival_index == list@[k].arrival_index
            },
{
    let mut r: Vec<Intent> = Vec::new();
    let mut i: usize = 0;
    while i < list.len()
        invariant
            i <= list@.len(),
            r@.len() == i,
            forall|k: int|
                0 <= k < i ==> {
                    &&& (#[trigger] r@[k])@ == list@[k]@
                    &&& r@[k].profit == list@[k].profit
                    &&& r@[k].resources@ == list@[k].resources@
                    &&& r@[k].client_id == list@[k].client_id
                    &&& r@[k].arrival_index == list@[k].arrival_index
                },
        decreases list@.len() - i,
    {
        r.push(list[i].clone());
        i = i + 1;
    }
    assert(intents(r@) =~= intents(list@));
    r
}

} // verus!
