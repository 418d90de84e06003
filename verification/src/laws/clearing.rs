//! Who wins a clearing, said of the fields of the orders and of the query.
use vstd::prelude::*;

use crate::auction::{AuctionBook, ClearQuery, OrderView};
use crate::double::Double;
use crate::laws::auction::cost;
use crate::{auction, sorting};

verus! {

/// The order meets every filter that the query sets: it is no older than the
/// window, and it bids no less than the reserve.
pub open spec fn meets(q: ClearQuery, now_ms: u64, e: OrderView) -> bool {
    &&& q.window_ms matches Some(w) ==> e.submitted_at_ms + w >= now_ms
    &&& q.min_bid matches Some(m) ==> m.at_most(e.bid)
}

/// How many orders the query asks for; one, where it does not say.
pub open spec fn asked(q: ClearQuery) -> nat {
    match q.top_k {
        Some(k) => k as nat,
        None => 1,
    }
}

/// Every bid is a number.
pub open spec fn bids_are_numbers(list: Seq<OrderView>) -> bool {
    forall|i: int| 0 <= i < list.len() ==> !(#[trigger] list[i]).bid.nan()
}

/// One order ranks above another: by a higher bid; or, where priorities come
/// first, by a lower priority, and by a higher bid among equals.
pub open spec fn outranks(priority_first: bool, a: OrderView, b: OrderView) -> bool {
    if priority_first {
        a.priority < b.priority || (a.priority == b.priority && b.bid.below(a.bid))
    } else {
        b.bid.below(a.bid)
    }
}

/// The order at place `i` comes before the one at `j`: it outranks it, or
/// ranks with it and stands before it.
pub open spec fn comes_before(list: Seq<OrderView>, priority_first: bool, i: int, j: int) -> bool {
    outranks(priority_first, list[i], list[j]) || (!outranks(priority_first, list[j], list[i]) && i
        < j)
}

/// The places `tried` are those of the best orders that meet the filters, the
/// best first, and as many as the query asks for if there are so many.
pub open spec fn are_tried(
    standing: Seq<OrderView>,
    q: ClearQuery,
    now_ms: u64,
    tried: Seq<int>,
) -> bool {
    let first = q.priority_first == Some(true);
    &&& tried.len() <= asked(q)
    &&& forall|k: int|
        0 <= k < tried.len() ==> 0 <= #[trigger] tried[k] < standing.len() && meets(
            q,
            now_ms,
            standing[tried[k]],
        )
    &&& forall|k: int, l: int|
        0 <= k < l < tried.len() ==> comes_before(
            standing,
            first,
            #[trigger] tried[k],
            #[trigger] tried[l],
        )
    &&& forall|i: int|
        0 <= i < standing.len() && meets(q, now_ms, #[trigger] standing[i]) && !tried.contains(i)
            ==> tried.len() == asked(q) && forall|k: int|
            0 <= k < tried.len() ==> comes_before(standing, first, #[trigger] tried[k], i)
}

/// Of the places `won`, in rising order, the first `m` are those before `t`.
pub open spec fn won_before(won: Seq<int>, m: int, t: int) -> bool {
    &&& 0 <= m <= won.len()
    &&& m > 0 ==> won[m - 1] < t
    &&& m < won.len() ==> t <= won[m]
}

/// The orders at some places.
pub open spec fn orders_at(list: Seq<OrderView>, places: Seq<int>) -> Seq<OrderView> {
    Seq::new(places.len(), |j: int| list[places[j]])
}

/// Tried in turn, exactly the orders at the places `won` are bought: those
/// whose bid, on top of what was bought before, does not exceed the budget.
pub open spec fn are_bought(list: Seq<OrderView>, cap: Option<Double>, won: Seq<int>) -> bool {
    &&& forall|j: int| 0 <= j < won.len() ==> 0 <= #[trigger] won[j] < list.len()
    &&& forall|j: int, k: int| 0 <= j < k < won.len() ==> #[trigger] won[j] < #[trigger] won[k]
    &&& cap is None ==> won.len() == list.len()
    &&& cap matches Some(limit) ==> forall|m: int, t: int|
        #![trigger won_before(won, m, t)]
        0 <= t < list.len() && won_before(won, m, t) ==> won.contains(t) == !limit.below(
            cost(orders_at(list, won).take(m)).sum(list[t].bid),
        )
}

/// What a filter keeps, by the places of the list.
proof fn lemma_filter_places<T>(s: Seq<T>, fits: spec_fn(T) -> bool) -> (at: Seq<int>)
    ensures
        at.len() == s.filter(fits).len(),
        forall|k: int|
            0 <= k < at.len() ==> 0 <= #[trigger] at[k] < s.len() && s.filter(fits)[k] == s[at[k]]
                && fits(s[at[k]]),
        forall|k: int, l: int| 0 <= k < l < at.len() ==> #[trigger] at[k] < #[trigger] at[l],
        forall|i: int| 0 <= i < s.len() && fits(#[trigger] s[i]) ==> at.contains(i),
    decreases s.len(),
{
    reveal(Seq::filter);
    if s.len() == 0 {
        Seq::empty()
    } else {
        let fewer = s.drop_last();
        let n = fewer.len() as int;
        let before = lemma_filter_places(fewer, fits);
        let at = if fits(s.last()) {
            before.push(n)
        } else {
            before
        };
        assert forall|k: int| 0 <= k < at.len() implies 0 <= #[trigger] at[k] < s.len()
            && s.filter(fits)[k] == s[at[k]] && fits(s[at[k]]) by {
            if k < before.len() {
                assert(at[k] == before[k]);
                assert(fewer[before[k]] == s[at[k]]);
            }
        }
        assert forall|i: int| 0 <= i < s.len() && fits(#[trigger] s[i]) implies at.contains(i) by {
            if i < n {
                assert(fewer[i] == s[i]);
                let k = choose|k: int| 0 <= k < before.len() && before[k] == i;
                assert(at[k] == i);
            } else {
                assert(at[before.len() as int] == i);
            }
        }
        at
    }
}

/// Sorting by the key of the ranking puts first what comes first.
proof fn lemma_ranked(list: Seq<OrderView>, first: bool, i: int, j: int)
    requires
        bids_are_numbers(list),
        0 <= i < list.len(),
        0 <= j < list.len(),
    ensures
        sorting::precedes(
            list.map_values(|e: OrderView| auction::rank_key(first, e)),
            i,
            j,
        ) == comes_before(list, first, i, j),
{
    let keys = list.map_values(|e: OrderView| auction::rank_key(first, e));
    assert(keys[i] == auction::rank_key(first, list[i]));
    assert(keys[j] == auction::rank_key(first, list[j]));
}

/// The best orders of a list are as many as are asked for, or all; they come
/// in their rank, and nothing that is left out comes before them.
pub proof fn the_best_come_first(list: Seq<OrderView>, first: bool, count: nat) -> (at: Seq<int>)
    requires
        bids_are_numbers(list),
    ensures
        ({
            let best = auction::best(list, first, count);
            &&& best.len() == at.len()
            &&& best.len() == (if list.len() < count {
                list.len()
            } else {
                count
            })
            &&& forall|k: int|
                0 <= k < at.len() ==> 0 <= #[trigger] at[k] < list.len() && best[k] == list[at[k]]
            &&& forall|k: int, l: int|
                0 <= k < l < at.len() ==> comes_before(
                    list,
                    first,
                    #[trigger] at[k],
                    #[trigger] at[l],
                )
            &&& forall|i: int, k: int|
                #![trigger list[i], at[k]]
                0 <= i < list.len() && 0 <= k < at.len() && !at.contains(i) ==> comes_before(
                    list,
                    first,
                    at[k],
                    i,
                )
        }),
{
    let keys = list.map_values(|e: OrderView| auction::rank_key(first, e));
    let order = sorting::stable_order(keys);
    sorting::lemma_order_exists(keys);
    let best = auction::best(list, first, count);
    let at = order.take(best.len() as int);
    assert forall|k: int, l: int| 0 <= k < l < at.len() implies comes_before(
        list,
        first,
        #[trigger] at[k],
        #[trigger] at[l],
    ) by {
        assert(sorting::precedes(keys, order[k], order[l]));
        lemma_ranked(list, first, order[k], order[l]);
    }
    assert forall|i: int, k: int|
        #![trigger list[i], at[k]]
        0 <= i < list.len() && 0 <= k < at.len() && !at.contains(i) implies comes_before(
        list,
        first,
        at[k],
        i,
    ) by {
        assert(order.contains(i));
        let p = choose|p: int| 0 <= p < order.len() && order[p] == i;
        if p < at.len() {
            assert(at[p] == i);
        }
        assert(sorting::precedes(keys, order[k], order[p]));
        lemma_ranked(list, first, order[k], i);
    }
    at
}

/// The budget buys what it affords, in turn.
proof fn lemma_bought(list: Seq<OrderView>, cap: Option<Double>) -> (won: Seq<int>)
    ensures
        are_bought(list, cap, won),
        auction::afforded(list, cap).0 == orders_at(list, won),
        cap is Some ==> auction::afforded(list, cap).1 == cost(orders_at(list, won)),
    decreases list.len(),
{
    if list.len() == 0 {
        let won = Seq::<int>::empty();
        assert(auction::afforded(list, cap).0 =~= orders_at(list, won));
        won
    } else {
        let fewer = list.drop_last();
        let n = fewer.len() as int;
        let e = list.last();
        let before = lemma_bought(fewer, cap);
        let (was, spent) = auction::afforded(fewer, cap);
        let fits = match cap {
            Some(limit) => !limit.below(spent.sum(e.bid)),
            None => true,
        };
        let won = if fits {
            before.push(n)
        } else {
            before
        };
        assert forall|j: int| 0 <= j < before.len() implies #[trigger] orders_at(list, won)[j]
            == was[j] by {
            assert(won[j] == before[j]);
            assert(0 <= before[j] < n);
        }
        if fits {
            assert(orders_at(list, won) =~= was.push(e));
            assert(was.push(e).drop_last() =~= was);
        } else {
            assert(orders_at(list, won) =~= was);
        }
        if cap is Some {
            let limit = cap->Some_0;
            assert forall|m: int, t: int|
                #![trigger won_before(won, m, t)]
                0 <= t < list.len() && won_before(won, m, t) implies won.contains(t)
                == !limit.below(cost(orders_at(list, won).take(m)).sum(list[t].bid)) by {
                if t < n {
                    if m == before.len() + 1 {
                        assert(won[m - 1] == n);
                    }
                    assert(m <= before.len());
                    assert(won_before(before, m, t)) by {
                        if m > 0 {
                            assert(won[m - 1] == before[m - 1]);
                        }
                        if m < before.len() {
                            assert(won[m] == before[m]);
                        }
                    }
                    assert(orders_at(list, won).take(m) =~= orders_at(fewer, before).take(m));
                    assert(list[t] == fewer[t]);
                    if won.contains(t) {
                        let j = choose|j: int| 0 <= j < won.len() && won[j] == t;
                        assert(before[j] == t);
                    }
                    if before.contains(t) {
                        let j = choose|j: int| 0 <= j < before.len() && before[j] == t;
                        assert(won[j] == t);
                    }
                } else {
                    if m < before.len() {
                        assert(won[m] == before[m]);
                        assert(before[m] < n);
                    }
                    assert(m == before.len());
                    assert(orders_at(list, won).take(m) =~= was);
                    if fits {
                        assert(won[before.len() as int] == n);
                    } else if won.contains(t) {
                        let j = choose|j: int| 0 <= j < won.len() && won[j] == t;
                        assert(before[j] < n);
                    }
                }
            }
        }
        assert forall|j: int, k: int| 0 <= j < k < won.len() implies #[trigger] won[j]
            < #[trigger] won[k] by {
            assert(won[j] == before[j]);
            if k < before.len() {
                assert(won[k] == before[k]);
            }
        }
        assert forall|j: int| 0 <= j < won.len() implies 0 <= #[trigger] won[j] < list.len() by {
            if j < before.len() {
                assert(won[j] == before[j]);
            }
        }
        won
    }
}

/// Who wins a clearing: the best orders that meet every filter are tried in
/// their rank, and those win that the budget buys.
pub proof fn who_wins(standing: Seq<OrderView>, q: ClearQuery, now_ms: u64) -> (r: (
    Seq<int>,
    Seq<int>,
))
    requires
        bids_are_numbers(standing),
    ensures
        are_tried(standing, q, now_ms, r.0),
        are_bought(orders_at(standing, r.0), q.budget_cap, r.1),
        auction::cleared(standing, q, now_ms) == orders_at(orders_at(standing, r.0), r.1),
{
    let first = q.priority_first == Some(true);
    let fits = |e: OrderView| auction::eligible(q, now_ms, e);
    let some = standing.filter(fits);
    let a = lemma_filter_places(standing, fits);
    assert(bids_are_numbers(some)) by {
        assert forall|i: int| 0 <= i < some.len() implies !(#[trigger] some[i]).bid.nan() by {
            assert(some[i] == standing[a[i]]);
        }
    }
    let best = auction::best(some, first, asked(q));
    let at = the_best_come_first(some, first, asked(q));
    let tried = Seq::new(at.len(), |k: int| a[at[k]]);
    assert forall|k: int| 0 <= k < tried.len() implies 0 <= #[trigger] tried[k] < standing.len()
        && meets(q, now_ms, standing[tried[k]]) by {
        assert(0 <= at[k] < some.len());
        assert(fits(standing[a[at[k]]]));
    }
    assert forall|k: int, l: int| 0 <= k < l < tried.len() implies comes_before(
        standing,
        first,
        #[trigger] tried[k],
        #[trigger] tried[l],
    ) by {
        assert(comes_before(some, first, at[k], at[l]));
        assert(some[at[k]] == standing[a[at[k]]]);
        assert(some[at[l]] == standing[a[at[l]]]);
        if at[k] < at[l] {
            assert(a[at[k]] < a[at[l]]);
        }
    }
    assert forall|i: int|
        0 <= i < standing.len() && meets(q, now_ms, #[trigger] standing[i]) && !tried.contains(
            i,
        ) implies tried.len() == asked(q) && forall|k: int|
        0 <= k < tried.len() ==> comes_before(standing, first, #[trigger] tried[k], i) by {
        assert(fits(standing[i]));
        assert(a.contains(i));
        let m = choose|m: int| 0 <= m < a.len() && a[m] == i;
        if at.contains(m) {
            let k = choose|k: int| 0 <= k < at.len() && at[k] == m;
            assert(tried[k] == i);
        }
        if at.len() < asked(q) {
            lemma_all_listed(at, some.len() as int, m, some, first);
        }
        assert forall|k: int| 0 <= k < tried.len() implies comes_before(
            standing,
            first,
            #[trigger] tried[k],
            i,
        ) by {
            assert(some[m] == standing[i]);
            assert(comes_before(some, first, at[k], m));
            assert(some[at[k]] == standing[a[at[k]]]);
            if at[k] < m {
                assert(a[at[k]] < a[m]);
            }
        }
    }
    assert(best =~= orders_at(standing, tried)) by {
        assert forall|k: int| 0 <= k < best.len() implies best[k] == orders_at(
            standing,
            tried,
        )[k] by {
            assert(best[k] == some[at[k]]);
            assert(some[at[k]] == standing[a[at[k]]]);
        }
    }
    let won = lemma_bought(best, q.budget_cap);
    (tried, won)
}

/// A list of no fewer places than there are, none twice, holds every place.
proof fn lemma_all_listed(at: Seq<int>, n: int, m: int, list: Seq<OrderView>, first: bool)
    requires
        at.len() >= n,
        0 <= m < n,
        forall|k: int| 0 <= k < at.len() ==> 0 <= #[trigger] at[k] < n,
        forall|k: int, l: int|
            0 <= k < l < at.len() ==> comes_before(
                list,
                first,
                #[trigger] at[k],
                #[trigger] at[l],
            ),
    ensures
        at.contains(m),
{
    assert(at.no_duplicates());
    let range = Set::new(|i: int| 0 <= i < n);
    vstd::set_lib::lemma_int_range(0, n);
    assert(range =~= vstd::set_lib::set_int_range(0, n));
    at.unique_seq_to_set();
    assert(at.to_set().subset_of(range));
    vstd::set_lib::lemma_len_subset(at.to_set(), range);
    vstd::set_lib::lemma_subset_equality(at.to_set(), range);
    assert(at.to_set().contains(m));
}

/// Every winner meets every filter that is set: it is no older than the
/// window, and it bids no less than the reserve.
pub proof fn winners_meet_every_filter(
    standing: Seq<OrderView>,
    q: ClearQuery,
    now_ms: u64,
    i: int,
)
    requires
        0 <= i < auction::cleared(standing, q, now_ms).len(),
    ensures
        ({
            let e = auction::cleared(standing, q, now_ms)[i];
            &&& standing.contains(e)
            &&& q.window_ms matches Some(w) ==> e.submitted_at_ms + w >= now_ms
            &&& q.min_bid matches Some(m) ==> m.at_most(e.bid)
        }),
{
    crate::laws::auction::winners_take_part(standing, q, now_ms);
    let won = auction::cleared(standing, q, now_ms);
    let at = choose|at: Seq<int>| #[trigger]
        crate::laws::selection::drawn_at(won, standing, at);
    assert(won[i] == standing[at[i]]);
}

/// An order that meets every filter that is set takes part: it wins wherever
/// no budget is set and the query asks for as many orders as stand in the
/// book.
pub proof fn who_meets_the_filters_takes_part(
    standing: Seq<OrderView>,
    q: ClearQuery,
    now_ms: u64,
    e: OrderView,
)
    requires
        bids_are_numbers(standing),
        standing.contains(e),
        q.window_ms matches Some(w) ==> e.submitted_at_ms + w >= now_ms,
        q.min_bid matches Some(m) ==> m.at_most(e.bid),
        q.budget_cap is None,
        q.top_k matches Some(k) && k >= standing.len(),
    ensures
        auction::cleared(standing, q, now_ms).contains(e),
{
    let (tried, won) = who_wins(standing, q, now_ms);
    let i = choose|i: int| 0 <= i < standing.len() && standing[i] == e;
    let first = q.priority_first == Some(true);
    if !tried.contains(i) {
        assert(meets(q, now_ms, standing[i]));
        assert(tried.len() == asked(q));
        lemma_all_listed(tried, standing.len() as int, i, standing, first);
    }
    let k = choose|k: int| 0 <= k < tried.len() && tried[k] == i;
    lemma_whole(won, tried.len() as int, k);
    let won_orders = orders_at(orders_at(standing, tried), won);
    assert(won_orders[k] == e);
}

/// Rising places that are as many as there are name each its own.
proof fn lemma_whole(won: Seq<int>, n: int, k: int)
    requires
        won.len() == n,
        0 <= k < n,
        forall|j: int| 0 <= j < won.len() ==> 0 <= #[trigger] won[j] < n,
        forall|j: int, l: int| 0 <= j < l < won.len() ==> #[trigger] won[j] < #[trigger] won[l],
    ensures
        won[k] == k,
{
    lemma_at_least(won, k);
    lemma_at_most(won, n, k);
}

proof fn lemma_at_least(won: Seq<int>, k: int)
    requires
        0 <= k < won.len(),
        forall|j: int| 0 <= j < won.len() ==> 0 <= #[trigger] won[j],
        forall|j: int, l: int| 0 <= j < l < won.len() ==> #[trigger] won[j] < #[trigger] won[l],
    ensures
        won[k] >= k,
    decreases k,
{
    if k > 0 {
        lemma_at_least(won, k - 1);
        assert(won[k - 1] < won[k]);
    }
}

proof fn lemma_at_most(won: Seq<int>, n: int, k: int)
    requires
        won.len() == n,
        0 <= k < n,
        forall|j: int| 0 <= j < won.len() ==> #[trigger] won[j] < n,
        forall|j: int, l: int| 0 <= j < l < won.len() ==> #[trigger] won[j] < #[trigger] won[l],
    ensures
        won[k] <= k,
    decreases n - k,
{
    if k < n - 1 {
        lemma_at_most(won, n, k + 1);
        assert(won[k] < won[k + 1]);
    }
}

/// Bids in a book are numbers.
pub proof fn bids_in_a_book_are_numbers(book: AuctionBook)
    requires
        book.wf(),
    ensures
        bids_are_numbers(book.standing()),
{
}

/// An order that is put into the book keeps the client and the order of its
/// request, bears the id that it was given and the time that it came, and is
/// ranked by what is read of the order.
pub proof fn an_entry_keeps_its_request(
    client_id: Option<Seq<char>>,
    order: serde_json::Value,
    id: u64,
    now_ms: u64,
)
    ensures
        ({
            let e = auction::entry(client_id, order, id, now_ms);
            &&& e.client_id == client_id
            &&& e.order == order
            &&& e.id == id
            &&& e.submitted_at_ms == now_ms
            &&& e.bid == crate::order::bid_of(order)
            &&& e.priority == crate::order::priority_of(order)
        }),
{
}

/// A book in order finds every order under its id, and nothing else, and
/// hands out only ids that were not handed out before.
pub proof fn what_a_book_holds(book: AuctionBook, i: int, id: u64)
    requires
        book.wf(),
    ensures
        0 <= i < book.submissions@.len() ==> {
            let e = book.submissions@[i];
            &&& book.index@.contains_key(e.id)
            &&& book.index@[e.id] == i
            &&& e.id < book.next_id
            &&& e.bid == crate::order::bid_of(e.order)
            &&& e.priority == crate::order::priority_of(e.order)
        },
        book.index@.contains_key(id) ==> book.index@[id] < book.submissions@.len()
            && book.submissions@[book.index@[id] as int].id == id,
        book.lists(id) <==> exists|k: int|
            0 <= k < book.submissions@.len() && (#[trigger] book.submissions@[k]).id == id,
{
    assert(forall|k: int|
        0 <= k < book.submissions@.len() ==> (#[trigger] book.standing()[k])
            == book.submissions@[k]@);
    if 0 <= i < book.submissions@.len() {
        assert(book.standing()[i] == book.submissions@[i]@);
    }
    if exists|k: int|
        0 <= k < book.submissions@.len() && (#[trigger] book.submissions@[k]).id == id {
        let k = choose|k: int|
            0 <= k < book.submissions@.len() && (#[trigger] book.submissions@[k]).id == id;
        assert(book.standing()[k].id == id);
    }
    if book.lists(id) {
        let k = choose|k: int|
            0 <= k < book.standing().len() && (#[trigger] book.standing()[k]).id == id;
        assert(book.submissions@[k].id == id);
    }
}

/// What a clearing tells of its ranking: whether priorities came first.
pub proof fn the_ranking_is_told(q: ClearQuery)
    ensures
        q.priority_first == Some(true) ==> auction::criteria_text(q) == "priority_then_bid"@,
        q.priority_first != Some(true) ==> auction::criteria_text(q) == "bid_desc"@,
{
}

/// The order that is cancelled leaves its place to the last one; all others
/// stay where they stand.
pub proof fn the_last_order_takes_the_place(standing: Seq<OrderView>, place: int, i: int)
    requires
        0 <= place < standing.len(),
        0 <= i < standing.len() - 1,
    ensures
        auction::without(standing, place).len() == standing.len() - 1,
        i != place ==> auction::without(standing, place)[i] == standing[i],
        i == place ==> auction::without(standing, place)[i] == standing[standing.len() - 1],
{
}

/// The clients of some orders are those that an order names.
pub proof fn clients_are_those_named(list: Seq<OrderView>, name: Seq<char>)
    ensures
        auction::clients_of(list).contains(name) <==> exists|i: int|
            0 <= i < list.len() && (#[trigger] list[i]).client_id == Some(name),
{
}

} // verus!
