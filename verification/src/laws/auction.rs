//! Laws of the auction.
use vstd::prelude::*;

use crate::auction::{AuctionBook, ClearQuery, OrderView};
use crate::double::Double;
use crate::laws::selection;
use crate::{auction, sorting};

verus! {

/// An id names one order: two places with the same id are the same place.
pub proof fn ids_differ(book: AuctionBook, i: int, j: int)
    requires
        book.wf(),
        0 <= i < book.standing().len(),
        0 <= j < book.standing().len(),
        book.standing()[i].id == book.standing()[j].id,
    ensures
        i == j,
{
    assert(book.index@[book.standing()[i].id] == i);
    assert(book.index@[book.standing()[j].id] == j);
}

/// The id that the next order gets is new.
pub proof fn the_next_id_is_new(book: AuctionBook, id: u64)
    requires
        book.wf(),
        id >= book.next_id,
    ensures
        !book.lists(id),
{
    if book.lists(id) {
        let i = choose|i: int|
            0 <= i < book.standing().len() && (#[trigger] book.standing()[i]).id == id;
        assert(book.standing()[i].id < book.next_id);
    }
}

/// An order that was submitted is found under its id, and so is every order
/// that stood before.
pub proof fn a_submitted_order_is_found(
    before: AuctionBook,
    after: AuctionBook,
    new: OrderView,
    found: OrderView,
)
    requires
        before.wf(),
        after.wf(),
        after.standing() == before.standing().push(new),
    ensures
        after.lists(new.id),
        after.standing().contains(found) && found.id == new.id ==> found == new,
        before.standing().contains(found) ==> after.standing().contains(found),
        forall|id: u64| before.lists(id) ==> #[trigger] after.lists(id),
{
    let was = before.standing();
    let now = after.standing();
    assert(now[was.len() as int] == new);
    if now.contains(found) && found.id == new.id {
        let i = choose|i: int| 0 <= i < now.len() && now[i] == found;
        ids_differ(after, i, was.len() as int);
    }
    if was.contains(found) {
        let i = choose|i: int| 0 <= i < was.len() && was[i] == found;
        assert(now[i] == found);
    }
    assert forall|id: u64| before.lists(id) implies #[trigger] after.lists(id) by {
        let i = choose|i: int| 0 <= i < was.len() && (#[trigger] was[i]).id == id;
        assert(now[i].id == id);
    }
}

/// Cancelling takes out the one order with that id and leaves all others.
pub proof fn cancelling_takes_out_one(book: AuctionBook, place: int, e: OrderView)
    requires
        book.wf(),
        0 <= place < book.standing().len(),
    ensures
        ({
            let left = auction::without(book.standing(), place);
            &&& left.len() == book.standing().len() - 1
            &&& left.contains(e) == (book.standing().contains(e) && e.id
                != book.standing()[place].id)
        }),
{
    let was = book.standing();
    let left = auction::without(was, place);
    let last = was.len() - 1;
    if left.contains(e) {
        let i = choose|i: int| 0 <= i < left.len() && left[i] == e;
        let from = if i == place {
            last
        } else {
            i
        };
        assert(was[from] == e);
        if e.id == was[place].id {
            ids_differ(book, from, place);
        }
    }
    if was.contains(e) && e.id != was[place].id {
        let i = choose|i: int| 0 <= i < was.len() && was[i] == e;
        if i == last {
            assert(left[place] == e);
        } else {
            assert(left[i] == e);
        }
    }
}

/// What a budget affords stands in the list, in its order; without a budget
/// it is the whole list.
proof fn lemma_afforded_is_a_part(list: Seq<OrderView>, cap: Option<Double>) -> (at: Seq<int>)
    ensures
        selection::drawn_at(auction::afforded(list, cap).0, list, at),
        forall|i: int, j: int| 0 <= i < j < at.len() ==> #[trigger] at[i] < #[trigger] at[j],
        cap is None ==> auction::afforded(list, cap).0 == list,
        auction::afforded(list, cap).0.len() <= list.len(),
    decreases list.len(),
{
    if list.len() == 0 {
        assert(auction::afforded(list, cap).0 =~= list);
        Seq::empty()
    } else {
        let fewer = list.drop_last();
        let before = lemma_afforded_is_a_part(fewer, cap);
        let (won, spent) = auction::afforded(fewer, cap);
        if cap is None {
            assert(won.push(list.last()) =~= list);
        }
        if auction::afforded(list, cap).0.len() > won.len() {
            before.push(list.len() - 1)
        } else {
            before
        }
    }
}

/// What the bids of some orders cost together.
pub open spec fn cost(list: Seq<OrderView>) -> Double
    decreases list.len(),
{
    if list.len() == 0 {
        Double { bits: 0 }
    } else {
        cost(list.drop_last()).sum(list.last().bid)
    }
}

/// What the winners cost together is not above the budget, if there is a
/// winner.
pub proof fn winners_stay_within_the_budget(
    standing: Seq<OrderView>,
    q: ClearQuery,
    now_ms: u64,
    cap: Double,
)
    requires
        q.budget_cap == Some(cap),
    ensures
        auction::cleared(standing, q, now_ms).len() > 0 ==> !cap.below(
            cost(auction::cleared(standing, q, now_ms)),
        ),
{
    let count: nat = match q.top_k {
        Some(k) => k as nat,
        None => 1,
    };
    let ranked = auction::best(
        standing.filter(|e: OrderView| auction::eligible(q, now_ms, e)),
        auction::by_priority(q),
        count,
    );
    lemma_spent_within(ranked, cap);
}

proof fn lemma_spent_within(list: Seq<OrderView>, cap: Double)
    ensures
        ({
            let (won, spent) = auction::afforded(list, Some(cap));
            &&& spent == cost(won)
            &&& won.len() > 0 ==> !cap.below(spent)
        }),
    decreases list.len(),
{
    if list.len() > 0 {
        let fewer = list.drop_last();
        lemma_spent_within(fewer, cap);
        let (won, spent) = auction::afforded(fewer, Some(cap));
        assert(won.push(list.last()).drop_last() =~= won);
    }
}

/// Winners are orders of the book, each taken once, that take part; there
/// are no more of them than the clearing asks for.
pub proof fn winners_take_part(standing: Seq<OrderView>, q: ClearQuery, now_ms: u64)
    ensures
        ({
            let won = auction::cleared(standing, q, now_ms);
            &&& selection::drawn_from(won, standing)
            &&& forall|i: int|
                0 <= i < won.len() ==> auction::eligible(q, now_ms, #[trigger] won[i])
            &&& won.len() <= (match q.top_k {
                Some(k) => k as nat,
                None => 1,
            })
        }),
{
    let won = auction::cleared(standing, q, now_ms);
    let parts = lemma_ways_of_clearing(standing, q, now_ms);
    assert(selection::drawn_at(won, standing, parts));
}

/// Where the winners stand in the book.
proof fn lemma_ways_of_clearing(standing: Seq<OrderView>, q: ClearQuery, now_ms: u64) -> (at: Seq<
    int,
>)
    ensures
        ({
            let won = auction::cleared(standing, q, now_ms);
            &&& selection::drawn_at(won, standing, at)
            &&& forall|i: int|
                0 <= i < won.len() ==> auction::eligible(q, now_ms, #[trigger] won[i])
            &&& won.len() <= (match q.top_k {
                Some(k) => k as nat,
                None => 1,
            })
        }),
{
    let count: nat = match q.top_k {
        Some(k) => k as nat,
        None => 1,
    };
    let fits = |e: OrderView| auction::eligible(q, now_ms, e);
    let some = standing.filter(fits);
    let first = auction::by_priority(q);
    let keys = some.map_values(|e: OrderView| auction::rank_key(first, e));
    let order = sorting::stable_order(keys);
    let ranked = sorting::arranged(some, order);
    let top = auction::best(some, first, count);
    let won = auction::afforded(top, q.budget_cap).0;
    let a = selection::filter_is_a_part(standing, fits);
    selection::sorting_takes_every_item(some, keys);
    let c = lemma_afforded_is_a_part(top, q.budget_cap);
    let at = Seq::new(c.len(), |i: int| a[order[c[i]]]);
    assert forall|i: int| 0 <= i < at.len() implies 0 <= #[trigger] at[i] < standing.len()
        && won[i] == standing[at[i]] && auction::eligible(q, now_ms, won[i]) by {
        assert(won[i] == top[c[i]]);
        assert(top[c[i]] == ranked[c[i]]);
        assert(ranked[c[i]] == some[order[c[i]]]);
        assert(some[order[c[i]]] == standing[a[order[c[i]]]]);
        assert(fits(some[order[c[i]]]));
    }
    assert forall|i: int, j: int| 0 <= i < j < at.len() implies #[trigger] at[i]
        != #[trigger] at[j] by {
        assert(c[i] < c[j]);
        assert(order[c[i]] != order[c[j]]);
        if order[c[i]] < order[c[j]] {
            assert(a[order[c[i]]] < a[order[c[j]]]);
        } else {
            assert(a[order[c[j]]] < a[order[c[i]]]);
        }
    }
    assert forall|i: int| 0 <= i < won.len() implies auction::eligible(
        q,
        now_ms,
        #[trigger] won[i],
    ) by {
        assert(0 <= at[i] < standing.len());
    }
    at
}

/// Winners come in the order of the ranking: none ranks before one that
/// stands before it.
pub proof fn winners_are_ranked(
    standing: Seq<OrderView>,
    q: ClearQuery,
    now_ms: u64,
    i: int,
    j: int,
)
    requires
        0 <= i < j < auction::cleared(standing, q, now_ms).len(),
    ensures
        ({
            let won = auction::cleared(standing, q, now_ms);
            !sorting::key_below(
                auction::rank_key(auction::by_priority(q), won[j]),
                auction::rank_key(auction::by_priority(q), won[i]),
            )
        }),
{
    let count: nat = match q.top_k {
        Some(k) => k as nat,
        None => 1,
    };
    let some = standing.filter(|e: OrderView| auction::eligible(q, now_ms, e));
    let first = auction::by_priority(q);
    let keys = some.map_values(|e: OrderView| auction::rank_key(first, e));
    let order = sorting::stable_order(keys);
    let top = auction::best(some, first, count);
    let c = lemma_afforded_is_a_part(top, q.budget_cap);
    sorting::lemma_order_exists(keys);
    assert(c[i] < c[j]);
    assert(top[c[i]] == some[order[c[i]]]);
    assert(top[c[j]] == some[order[c[j]]]);
    assert(sorting::precedes(keys, order[c[i]], order[c[j]]));
}

/// Without a budget, an order that takes part and does not win ranks before
/// no winner, and the clearing has all the winners that it asks for.
pub proof fn no_loser_beats_a_winner(
    standing: Seq<OrderView>,
    q: ClearQuery,
    now_ms: u64,
    e: OrderView,
)
    requires
        q.budget_cap is None,
        standing.contains(e),
        auction::eligible(q, now_ms, e),
        !auction::cleared(standing, q, now_ms).contains(e),
    ensures
        ({
            let won = auction::cleared(standing, q, now_ms);
            let first = auction::by_priority(q);
            &&& won.len() == (match q.top_k {
                Some(k) => k as nat,
                None => 1,
            })
            &&& forall|i: int|
                0 <= i < won.len() ==> !sorting::key_below(
                    auction::rank_key(first, e),
                    auction::rank_key(first, #[trigger] won[i]),
                )
        }),
{
    let count: nat = match q.top_k {
        Some(k) => k as nat,
        None => 1,
    };
    let fits = |e: OrderView| auction::eligible(q, now_ms, e);
    let some = standing.filter(fits);
    let first = auction::by_priority(q);
    let keys = some.map_values(|e: OrderView| auction::rank_key(first, e));
    let order = sorting::stable_order(keys);
    let ranked = sorting::arranged(some, order);
    let top = auction::best(some, first, count);
    let won = auction::cleared(standing, q, now_ms);
    let a = selection::filter_is_a_part(standing, fits);
    let c = lemma_afforded_is_a_part(top, q.budget_cap);
    assert(won == top);
    let s = choose|s: int| 0 <= s < standing.len() && standing[s] == e;
    assert(fits(standing[s]));
    assert(some.contains(e));
    let m = choose|m: int| 0 <= m < some.len() && some[m] == e;
    selection::sorting_takes_every_item(some, keys);
    sorting::lemma_order_exists(keys);
    assert(order.contains(m));
    let p = choose|p: int| 0 <= p < order.len() && order[p] == m;
    assert(ranked[p] == e);
    if p < won.len() {
        assert(won[p] == e);
    }
    assert(ranked.len() > count);
    assert forall|i: int| 0 <= i < won.len() implies !sorting::key_below(
        auction::rank_key(first, e),
        auction::rank_key(first, #[trigger] won[i]),
    ) by {
        assert(won[i] == ranked[i]);
        assert(sorting::precedes(keys, order[i], order[p]));
    }
}

} // verus!
