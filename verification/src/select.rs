//! Which intents a block takes.
//!
//! Intents are tried one after another, in the order of their arrival or of
//! their profit, and one that needs a resource which an earlier choice holds
//! is left out.
use vstd::hash_set::StringHashSet;
use vstd::prelude::*;

use crate::double::Double;
use crate::intent::{Intent, IntentView};
use crate::{intent, sorting};

verus! {

/// The two intents need some resource in common.
pub open spec fn conflict(a: IntentView, b: IntentView) -> bool {
    exists|i: int, j: int|
        0 <= i < a.resources.len() && 0 <= j < b.resources.len() && #[trigger] a.resources[i]
            == #[trigger] b.resources[j]
}

/// The intent conflicts with one of those chosen.
pub open spec fn blocked(chosen: Seq<IntentView>, it: IntentView) -> bool {
    exists|k: int| 0 <= k < chosen.len() && conflict(#[trigger] chosen[k], it)
}

/// The intents that are kept when each is tried in turn.
pub open spec fn kept(items: Seq<IntentView>) -> Seq<IntentView>
    decreases items.len(),
{
    if items.len() == 0 {
        Seq::empty()
    } else {
        let chosen = kept(items.drop_last());
        if blocked(chosen, items.last()) {
            chosen
        } else {
            chosen.push(items.last())
        }
    }
}

/// The key of arrival order: an intent without an index comes last.
pub open spec fn arrival_key(it: IntentView) -> (int, int) {
    match it.arrival_index {
        Some(index) => (index as int, 0),
        None => (u64::MAX as int, 0),
    }
}

/// The key of profit order: the highest profit comes first.
pub open spec fn profit_key(it: IntentView) -> (int, int) {
    (0, -it.profit.rank())
}

/// The intents in the order of their arrival.
pub open spec fn by_arrival(items: Seq<IntentView>) -> Seq<IntentView> {
    sorting::arranged(
        items,
        sorting::stable_order(items.map_values(|it: IntentView| arrival_key(it))),
    )
}

/// The intents in the order of falling profit.
pub open spec fn by_profit(items: Seq<IntentView>) -> Seq<IntentView> {
    sorting::arranged(
        items,
        sorting::stable_order(items.map_values(|it: IntentView| profit_key(it))),
    )
}

/// The profits can be compared: none of two or more is NaN.
pub open spec fn comparable(items: Seq<IntentView>) -> bool {
    items.len() >= 2 ==> forall|i: int| 0 <= i < items.len() ==> !(#[trigger] items[i]).profit.nan()
}

/// What the intents earn together, counting no losses.
pub open spec fn total(items: Seq<IntentView>) -> Double
    decreases items.len(),
{
    if items.len() == 0 {
        Double { bits: 0 }
    } else {
        total(items.drop_last()).sum(items.last().profit.clamped())
    }
}

/// The resources that some intents hold.
pub open spec fn held(items: Seq<IntentView>) -> Set<Seq<char>> {
    Set::new(
        |name: Seq<char>|
            exists|k: int, i: int|
                0 <= k < items.len() && 0 <= i < items[k].resources.len()
                    && #[trigger] items[k].resources[i] == name,
    )
}

proof fn lemma_blocked_by_held(chosen: Seq<IntentView>, it: IntentView)
    ensures
        blocked(chosen, it) <==> exists|j: int|
            0 <= j < it.resources.len() && held(chosen).contains(#[trigger] it.resources[j]),
{
    if blocked(chosen, it) {
        let k = choose|k: int| 0 <= k < chosen.len() && conflict(#[trigger] chosen[k], it);
        let (i, j) = choose|i: int, j: int|
            0 <= i < chosen[k].resources.len() && 0 <= j < it.resources.len()
                && #[trigger] chosen[k].resources[i] == #[trigger] it.resources[j];
        assert(chosen[k].resources[i] == it.resources[j]);
        assert(held(chosen).contains(it.resources[j]));
    }
    if exists|j: int|
        0 <= j < it.resources.len() && held(chosen).contains(#[trigger] it.resources[j]) {
        let j = choose|j: int|
            0 <= j < it.resources.len() && held(chosen).contains(#[trigger] it.resources[j]);
        let (k, i) = choose|k: int, i: int|
            0 <= k < chosen.len() && 0 <= i < chosen[k].resources.len()
                && #[trigger] chosen[k].resources[i] == it.resources[j];
        assert(chosen[k].resources[i] == it.resources[j]);
        assert(conflict(chosen[k], it));
    }
}

/// Whether a resource of the intent is among those in use.
fn needs_any(it: &Intent, used: &StringHashSet) -> (b: bool)
    ensures
        b == exists|j: int|
            0 <= j < it@.resources.len() && used@.contains(#[trigger] it@.resources[j]),
{
    let mut j: usize = 0;
    while j < it.resources.len()
        invariant
            j <= it.resources@.len(),
            forall|i: int| 0 <= i < j ==> !used@.contains(#[trigger] it@.resources[i]),
        decreases it.resources@.len() - j,
    {
        assert(it@.resources[j as int] == it.resources@[j as int]@);
        if used.contains(it.resources[j].as_str()) {
            return true;
        }
        j = j + 1;
    }
    false
}

/// Marks the resources of the intent as in use.
pub(crate) fn hold(it: &Intent, used: &mut StringHashSet)
    ensures
        forall|name: Seq<char>| #[trigger]
            final(used)@.contains(name) <==> old(used)@.contains(name) || exists|j: int|
                0 <= j < it@.resources.len() && #[trigger] it@.resources[j] == name,
{
    let mut j: usize = 0;
    while j < it.resources.len()
        invariant
            j <= it.resources@.len(),
            forall|name: Seq<char>| #[trigger]
                used@.contains(name) <==> old(used)@.contains(name) || exists|i: int|
                    0 <= i < j && #[trigger] it@.resources[i] == name,
        decreases it.resources@.len() - j,
    {
        assert(it@.resources[j as int] == it.resources@[j as int]@);
        let ghost before = used@;
        used.insert(it.resources[j].clone());
        j = j + 1;
        proof {
            let added = it@.resources[j - 1];
            assert forall|name: Seq<char>| #[trigger]
                used@.contains(name) <==> old(used)@.contains(name) || exists|i: int|
                    0 <= i < j && #[trigger] it@.resources[i] == name by {
                if used@.contains(name) && !before.contains(name) {
                    assert(it@.resources[j - 1] == name);
                }
                if before.contains(name) && !old(used)@.contains(name) {
                    let i = choose|i: int| 0 <= i < j - 1 && #[trigger] it@.resources[i] == name;
                    assert(it@.resources[i] == name);
                }
            }
        }
    }
}

/// Tries the intents in the order given and keeps those that conflict with
/// none kept before.
fn keep(items: &Vec<Intent>, order: &Vec<usize>) -> (selected: Vec<Intent>)
    requires
        forall|i: int| 0 <= i < order@.len() ==> #[trigger] order@[i] < items@.len(),
    ensures
        intent::intents(selected@) == kept(
            sorting::arranged(intent::intents(items@), sorting::places(order@)),
        ),
{
    let ghost tried = sorting::arranged(intent::intents(items@), sorting::places(order@));
    let mut selected: Vec<Intent> = Vec::new();
    let mut used = StringHashSet::new();
    let mut i: usize = 0;
    proof {
        assert(intent::intents(selected@) =~= kept(tried.take(0)));
    }
    while i < order.len()
        invariant
            forall|i: int| 0 <= i < order@.len() ==> #[trigger] order@[i] < items@.len(),
            tried == sorting::arranged(intent::intents(items@), sorting::places(order@)),
            i <= order@.len(),
            intent::intents(selected@) == kept(tried.take(i as int)),
            used@ == held(intent::intents(selected@)),
        decreases order@.len() - i,
    {
        let it: &Intent = &items[order[i]];
        let ghost chosen = intent::intents(selected@);
        let ghost names = used@;
        proof {
            assert(tried.take(i + 1).drop_last() =~= tried.take(i as int));
            assert(tried.take(i + 1).last() == it@);
            lemma_blocked_by_held(chosen, it@);
        }
        if !needs_any(it, &used) {
            hold(it, &mut used);
            selected.push(it.clone());
            proof {
                assert(intent::intents(selected@) =~= chosen.push(it@));
                assert forall|name: Seq<char>|
                    used@.contains(name) == held(chosen.push(it@)).contains(name) by {
                    lemma_held_push(chosen, it@, name);
                    assert(used@.contains(name) <==> names.contains(name) || exists|j: int|
                        0 <= j < it@.resources.len() && #[trigger] it@.resources[j] == name);
                }
                assert(used@ =~= held(chosen.push(it@)));
            }
        }
        i = i + 1;
    }
    assert(tried.take(i as int) =~= tried);
    selected
}

pub(crate) proof fn lemma_held_push(chosen: Seq<IntentView>, it: IntentView, name: Seq<char>)
    ensures
        held(chosen.push(it)).contains(name) <==> held(chosen).contains(name) || exists|j: int|
            0 <= j < it.resources.len() && #[trigger] it.resources[j] == name,
{
    let all = chosen.push(it);
    if held(all).contains(name) {
        let (k, i) = choose|k: int, i: int|
            0 <= k < all.len() && 0 <= i < all[k].resources.len()
                && #[trigger] all[k].resources[i] == name;
        if k < chosen.len() {
            assert(chosen[k].resources[i] == name);
        } else {
            assert(it.resources[i] == name);
        }
    }
    if held(chosen).contains(name) {
        let (k, i) = choose|k: int, i: int|
            0 <= k < chosen.len() && 0 <= i < chosen[k].resources.len()
                && #[trigger] chosen[k].resources[i] == name;
        assert(all[k].resources[i] == name);
    }
    if exists|j: int| 0 <= j < it.resources.len() && #[trigger] it.resources[j] == name {
        let j = choose|j: int| 0 <= j < it.resources.len() && #[trigger] it.resources[j] == name;
        assert(all[chosen.len() as int].resources[j] == name);
    }
}

/// The places of the intents in the order of their arrival.
pub fn arrival_order(items: &Vec<Intent>) -> (order: Vec<usize>)
    ensures
        order@.len() == items@.len(),
        forall|i: int| 0 <= i < order@.len() ==> #[trigger] order@[i] < items@.len(),
        sorting::arranged(intent::intents(items@), sorting::places(order@)) == by_arrival(
            intent::intents(items@),
        ),
{
    let mut keys: Vec<(u64, i64)> = Vec::new();
    let mut i: usize = 0;
    while i < items.len()
        invariant
            i <= items@.len(),
            keys@.len() == i,
            forall|k: int| 0 <= k < i ==> sorting::numbers(keys@)[k] == arrival_key(#[trigger] items@[k]@),
        decreases items@.len() - i,
    {
        keys.push(
            match items[i].arrival_index {
                Some(index) => (index, 0),
                None => (u64::MAX, 0),
            },
        );
        i = i + 1;
    }
    proof {
        assert(sorting::numbers(keys@) =~= intent::intents(items@).map_values(
            |it: IntentView| arrival_key(it),
        ));
    }
    sorting::sorted_order(&keys)
}

/// The places of the intents in the order of falling profit.
fn profit_order(items: &Vec<Intent>) -> (order: Vec<usize>)
    ensures
        order@.len() == items@.len(),
        forall|i: int| 0 <= i < order@.len() ==> #[trigger] order@[i] < items@.len(),
        sorting::arranged(intent::intents(items@), sorting::places(order@)) == by_profit(
            intent::intents(items@),
        ),
{
    let mut keys: Vec<(u64, i64)> = Vec::new();
    let mut i: usize = 0;
    while i < items.len()
        invariant
            i <= items@.len(),
            keys@.len() == i,
            forall|k: int| 0 <= k < i ==> sorting::numbers(keys@)[k] == profit_key(#[trigger] items@[k]@),
        decreases items@.len() - i,
    {
        keys.push((0, -items[i].profit.order_rank()));
        i = i + 1;
    }
    proof {
        assert(sorting::numbers(keys@) =~= intent::intents(items@).map_values(
            |it: IntentView| profit_key(it),
        ));
    }
    sorting::sorted_order(&keys)
}

/// The intents that first come, first served leaves in a block.
pub fn fifo_select(items: &Vec<Intent>) -> (selected: Vec<Intent>)
    ensures
        intent::intents(selected@) == kept(by_arrival(intent::intents(items@))),
{
    let order: Vec<usize> = arrival_order(items);
    keep(items, &order)
}

/// The intents that a block takes when the most profitable go first.
pub fn greedy_select(items: &Vec<Intent>) -> (selected: Vec<Intent>)
    requires
        comparable(intent::intents(items@)),
    ensures
        intent::intents(selected@) == kept(by_profit(intent::intents(items@))),
{
    let order: Vec<usize> = profit_order(items);
    keep(items, &order)
}

/// The intents that a block takes when they are tried in the order given.
pub(crate) fn select_as_given(items: &Vec<Intent>) -> (selected: Vec<Intent>)
    ensures
        intent::intents(selected@) == kept(intent::intents(items@)),
{
    let mut order: Vec<usize> = Vec::new();
    let mut i: usize = 0;
    while i < items.len()
        invariant
            i <= items@.len(),
            order@.len() == i,
            forall|k: int| 0 <= k < i ==> #[trigger] order@[k] == k,
        decreases items@.len() - i,
    {
        order.push(i);
        i = i + 1;
    }
    assert(sorting::arranged(intent::intents(items@), sorting::places(order@))
        =~= intent::intents(items@));
    keep(items, &order)
}

/// What the intents earn together, counting no losses.
pub fn total_profit(items: &Vec<Intent>) -> (sum: Double)
    ensures
        sum == total(intent::intents(items@)),
{
    let ghost all = intent::intents(items@);
    let mut sum: Double = Double { bits: 0 };
    let mut i: usize = 0;
    while i < items.len()
        invariant
            all == intent::intents(items@),
            i <= items@.len(),
            sum == total(all.take(i as int)),
        decreases items@.len() - i,
    {
        proof {
            assert(all.take(i + 1).drop_last() =~= all.take(i as int));
            assert(all.take(i + 1).last() == items@[i as int]@);
        }
        sum = sum.plus(items[i].profit.clamp());
        i = i + 1;
    }
    assert(all.take(i as int) =~= all);
    sum
}

} // verus!
