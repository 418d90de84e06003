//! The auction book: orders with bids, cancelled by id and cleared by rank.
use std::collections::HashMap;
use vstd::hash_set::StringHashSet;
use vstd::prelude::*;

use crate::double::Double;
use crate::intent::copy_string;
use crate::laws::clearing;
use crate::order::{read_bid, read_priority};
use crate::rejection::Rejection;
use crate::{intent, order, sorting};

verus! {

broadcast use vstd::std_specs::hash::group_hash_axioms;

/// An order as a client submits it.
#[derive(Debug)]
pub struct AuctionRequest {
    pub client_id: Option<String>,
    pub order: serde_json::Value,
}

/// An order in the book, with the fields that clearing reads.
#[derive(Debug)]
pub struct AuctionSubmit {
    pub client_id: Option<String>,
    pub order: serde_json::Value,
    pub id: u64,
    pub submitted_at_ms: u64,
    pub bid: Double,
    pub priority: u64,
}

pub struct OrderView {
    pub client_id: Option<Seq<char>>,
    pub order: serde_json::Value,
    pub id: u64,
    pub submitted_at_ms: u64,
    pub bid: Double,
    pub priority: u64,
}

impl View for AuctionSubmit {
    type V = OrderView;

    open spec fn view(&self) -> OrderView {
        OrderView {
            client_id: intent::text(self.client_id),
            order: self.order,
            id: self.id,
            submitted_at_ms: self.submitted_at_ms,
            bid: self.bid,
            priority: self.priority,
        }
    }
}

pub open spec fn entries(list: Seq<AuctionSubmit>) -> Seq<OrderView> {
    list.map_values(|s: AuctionSubmit| s@)
}

/// The entry that a request becomes.
pub open spec fn entry(
    client_id: Option<Seq<char>>,
    order: serde_json::Value,
    id: u64,
    now_ms: u64,
) -> OrderView {
    OrderView {
        client_id,
        order,
        id,
        submitted_at_ms: now_ms,
        bid: order::bid_of(order),
        priority: order::priority_of(order),
    }
}

impl Clone for AuctionSubmit {
    fn clone(&self) -> (r: AuctionSubmit)
        ensures
            r@ == self@,
            r == *self,
    {
        AuctionSubmit {
            client_id: copy_string(&self.client_id),
            order: self.order.clone(),
            id: self.id,
            submitted_at_ms: self.submitted_at_ms,
            bid: self.bid,
            priority: self.priority,
        }
    }
}

/// The orders that stand, the winners of the last clearing, where each order
/// stands by its id, and the id that the next order gets.
#[derive(Debug)]
pub struct AuctionBook {
    pub submissions: Vec<AuctionSubmit>,
    pub last_winners: Vec<AuctionSubmit>,
    pub index: HashMap<u64, usize>,
    pub next_id: u64,
}

/// How a clearing picks winners.
#[derive(Clone, Copy, Debug)]
pub struct ClearQuery {
    pub top_k: Option<usize>,
    pub min_bid: Option<Double>,
    pub budget_cap: Option<Double>,
    pub window_ms: Option<u64>,
    pub priority_first: Option<bool>,
}

impl AuctionBook {
    pub open spec fn standing(self) -> Seq<OrderView> {
        entries(self.submissions@)
    }

    pub open spec fn winners(self) -> Seq<OrderView> {
        entries(self.last_winners@)
    }

    /// The index leads to every order by its id and to nothing else, ids are
    /// below the next one, and the fields that clearing reads are those of
    /// the order.
    pub open spec fn wf(self) -> bool {
        &&& forall|i: int|
            0 <= i < self.standing().len() ==> {
                let e = #[trigger] self.standing()[i];
                &&& self.index@.contains_key(e.id)
                &&& self.index@[e.id] == i
                &&& e.id < self.next_id
                &&& e.bid == order::bid_of(e.order)
                &&& e.bid.finite()
                &&& e.priority == order::priority_of(e.order)
            }
        &&& forall|id: u64| #[trigger]
            self.index@.contains_key(id) ==> self.index@[id] < self.standing().len()
                && self.standing()[self.index@[id] as int].id == id
    }

    /// An order with this id stands in the book.
    pub open spec fn lists(self, id: u64) -> bool {
        exists|i: int| 0 <= i < self.standing().len() && (#[trigger] self.standing()[i]).id == id
    }

    /// An empty book; ids start at 1.
    pub fn new() -> (book: AuctionBook)
        ensures
            book.wf(),
            book.standing() == Seq::<OrderView>::empty(),
            book.winners() == Seq::<OrderView>::empty(),
            book.next_id == 1,
    {
        let book: AuctionBook = AuctionBook {
            submissions: Vec::new(),
            last_winners: Vec::new(),
            index: HashMap::new(),
            next_id: 1,
        };
        assert(book.standing() =~= Seq::<OrderView>::empty());
        assert(book.winners() =~= Seq::<OrderView>::empty());
        book
    }

    /// Puts an order into the book and gives it the next id.
    pub fn submit(&mut self, req: AuctionRequest, now_ms: u64) -> (id: u64)
        requires
            old(self).wf(),
            old(self).next_id < u64::MAX,
        ensures
            final(self).wf(),
            id == old(self).next_id,
            final(self).next_id == id + 1,
            final(self).standing() == old(self).standing().push(
                entry(intent::text(req.client_id), req.order, id, now_ms),
            ),
            final(self).winners() == old(self).winners(),
            final(self).submissions@.len() == old(self).submissions@.len() + 1,
            forall|i: int|
                0 <= i < old(self).submissions@.len() ==> #[trigger] final(self).submissions@[i]
                    == old(self).submissions@[i],
            ({
                let placed = final(self).submissions@.last();
                &&& placed.client_id == req.client_id
                &&& placed.order == req.order
                &&& placed.id == old(self).next_id
                &&& placed.submitted_at_ms == now_ms
                &&& placed.bid == order::bid_of(req.order)
                &&& placed.priority == order::priority_of(req.order)
            }),
            final(self).last_winners@ == old(self).last_winners@,
    {
        let id: u64 = self.next_id;
        self.next_id = id + 1;
        let bid: Double = read_bid(&req.order);
        let priority: u64 = read_priority(&req.order);
        let placed: AuctionSubmit = AuctionSubmit {
            client_id: req.client_id,
            order: req.order,
            id,
            submitted_at_ms: now_ms,
            bid,
            priority,
        };
        self.submissions.push(placed);
        let place: usize = self.submissions.len() - 1;
        self.index.insert(id, place);
        proof {
            let was = old(self).standing();
            let new = entry(intent::text(req.client_id), req.order, id, now_ms);
            assert(self.standing() =~= was.push(new));
            assert(self.winners() == old(self).winners());
            assert(!old(self).index@.contains_key(id)) by {
                if old(self).index@.contains_key(id) {
                    assert(was[old(self).index@[id] as int].id == id);
                }
            }
            assert forall|i: int| 0 <= i < self.standing().len() implies {
                let e = #[trigger] self.standing()[i];
                &&& self.index@.contains_key(e.id)
                &&& self.index@[e.id] == i
                &&& e.id < self.next_id
                &&& e.bid == order::bid_of(e.order)
                &&& e.bid.finite()
                &&& e.priority == order::priority_of(e.order)
            } by {
                if i < was.len() {
                    assert(self.standing()[i] == was[i]);
                }
            }
            assert forall|other: u64| #[trigger] self.index@.contains_key(other) implies
                self.index@[other] < self.standing().len()
                && self.standing()[self.index@[other] as int].id == other by {
                if other != id {
                    assert(old(self).index@.contains_key(other));
                }
            }
        }
        id
    }

    /// Puts orders into the book one after another, all with one time.
    pub fn submit_batch(&mut self, reqs: Vec<AuctionRequest>, now_ms: u64) -> (ids: Vec<u64>)
        requires
            old(self).wf(),
            old(self).next_id + reqs@.len() <= u64::MAX,
        ensures
            final(self).wf(),
            ids@ == Seq::new(reqs@.len(), |i: int| (old(self).next_id + i) as u64),
            final(self).next_id == old(self).next_id + reqs@.len(),
            final(self).standing() == old(self).standing() + Seq::new(
                reqs@.len(),
                |i: int|
                    entry(
                        intent::text(reqs@[i].client_id),
                        reqs@[i].order,
                        (old(self).next_id + i) as u64,
                        now_ms,
                    ),
            ),
            final(self).winners() == old(self).winners(),
            final(self).submissions@.len() == old(self).submissions@.len() + reqs@.len(),
            forall|i: int|
                0 <= i < old(self).submissions@.len() ==> #[trigger] final(self).submissions@[i]
                    == old(self).submissions@[i],
            forall|i: int|
                old(self).submissions@.len() <= i < final(self).submissions@.len() ==> {
                    let placed = #[trigger] final(self).submissions@[i];
                    let k = i - old(self).submissions@.len();
                    &&& placed.client_id == reqs@[k].client_id
                    &&& placed.order == reqs@[k].order
                    &&& placed.id == old(self).next_id + k
                    &&& placed.submitted_at_ms == now_ms
                },
    {
        let ghost given = reqs@;
        let ghost start = self.next_id;
        let ghost was = self.standing();
        let count: usize = reqs.len();
        let mut rest: Vec<AuctionRequest> = reqs;
        let mut ids: Vec<u64> = Vec::new();
        let mut i: usize = 0;
        proof {
            assert(self.standing() =~= was + batch(given, start as int, now_ms, 0));
        }
        while i < count
            invariant
                start == old(self).next_id,
                was == old(self).standing(),
                i <= count == given.len(),
                rest@ == given.subrange(i as int, count as int),
                self.wf(),
                self.next_id == start + i,
                start + count <= u64::MAX,
                ids@ == Seq::new(i as nat, |k: int| (start + k) as u64),
                self.standing() == was + batch(given, start as int, now_ms, i as nat),
                self.winners() == old(self).winners(),
                given == reqs@,
                self.submissions@.len() == old(self).submissions@.len() + i,
                forall|j: int|
                    0 <= j < old(self).submissions@.len() ==> #[trigger] self.submissions@[j]
                        == old(self).submissions@[j],
                forall|j: int|
                    old(self).submissions@.len() <= j < self.submissions@.len() ==> {
                        let placed = #[trigger] self.submissions@[j];
                        let k = j - old(self).submissions@.len();
                        &&& placed.client_id == given[k].client_id
                        &&& placed.order == given[k].order
                        &&& placed.id == start + k
                        &&& placed.submitted_at_ms == now_ms
                    },
            decreases count - i,
        {
            let ghost before = self.standing();
            let req: AuctionRequest = rest.remove(0);
            assert(req == given[i as int]);
            assert(rest@ =~= given.subrange(i + 1, count as int));
            let id: u64 = self.submit(req, now_ms);
            ids.push(id);
            i = i + 1;
            proof {
                assert(ids@ =~= Seq::new(i as nat, |k: int| (start + k) as u64));
                assert(self.standing() =~= was + batch(given, start as int, now_ms, i as nat));
            }
        }
        proof {
            assert(batch(given, start as int, now_ms, count as nat) =~= Seq::new(
                given.len(),
                |i: int|
                    entry(
                        intent::text(given[i].client_id),
                        given[i].order,
                        (start + i) as u64,
                        now_ms,
                    ),
            ));
        }
        ids
    }
}

/// The book without the order at `place`: the last order takes that place.
pub open spec fn without(standing: Seq<OrderView>, place: int) -> Seq<OrderView> {
    if place == standing.len() - 1 {
        standing.drop_last()
    } else {
        standing.drop_last().update(place, standing.last())
    }
}

impl AuctionBook {
    /// Cancels the order with this id and tells how many were removed.
    pub fn cancel(&mut self, id: u64) -> (removed: usize)
        requires
            old(self).wf(),
        ensures
            final(self).wf(),
            final(self).next_id == old(self).next_id,
            final(self).winners() == old(self).winners(),
            old(self).lists(id) ==> removed == 1 && exists|place: int|
                0 <= place < old(self).standing().len() && #[trigger] old(self).standing()[place].id
                    == id && final(self).standing() == without(old(self).standing(), place),
            !old(self).lists(id) ==> removed == 0 && final(self).standing() == old(
                self,
            ).standing(),
            !final(self).lists(id),
    {
        let ghost was = self.standing();
        let found: Option<usize> = match self.index.get(&id) {
            Some(place) => Some(*place),
            None => None,
        };
        match found {
            Some(place) => {
                assert(was[place as int].id == id);
                let last: usize = self.submissions.len() - 1;
                if place != last {
                    self.submissions.swap_remove(place);
                    let moved_id: u64 = self.submissions[place].id;
                    self.index.remove(&id);
                    self.index.insert(moved_id, place);
                    assert(self.submissions@[place as int]@ == was[last as int]);
                } else {
                    self.submissions.pop();
                    self.index.remove(&id);
                }
                proof {
                    let now = self.standing();
                    assert(now =~= without(was, place as int));
                    assert(self.winners() == old(self).winners());
                    assert forall|i: int| 0 <= i < now.len() implies {
                        let e = #[trigger] now[i];
                        &&& self.index@.contains_key(e.id)
                        &&& self.index@[e.id] == i
                        &&& e.id < self.next_id
                        &&& e.bid == order::bid_of(e.order)
                        &&& e.bid.finite()
                        &&& e.priority == order::priority_of(e.order)
                        &&& e.id != id
                    } by {
                        if i == place {
                            assert(now[i] == was[last as int]);
                        } else {
                            assert(now[i] == was[i]);
                        }
                        assert(was[last as int].id == id ==> last == place);
                    }
                    assert forall|other: u64| #[trigger] self.index@.contains_key(other) implies
                        self.index@[other] < now.len() && now[self.index@[other] as int].id
                        == other by {
                        assert(old(self).index@.contains_key(other));
                        let at = old(self).index@[other];
                        assert(was[at as int].id == other);
                        assert(was[last as int].id == other ==> at == last);
                    }
                }
                1
            },
            None => {
                proof {
                    if old(self).lists(id) {
                        let i = choose|i: int| 0 <= i < was.len() && (#[trigger] was[i]).id == id;
                        assert(old(self).index@.contains_key(was[i].id));
                    }
                }
                0
            },
        }
    }

    /// The order with this id.
    pub fn get_order(&self, id: u64) -> (r: Result<&AuctionSubmit, Rejection>)
        requires
            self.wf(),
        ensures
            self.lists(id) ==> r is Ok && r->Ok_0@.id == id && self.standing().contains(
                r->Ok_0@,
            ),
            !self.lists(id) ==> r == Err::<&AuctionSubmit, Rejection>(Rejection::OrderNotFound),
            r matches Ok(found) ==> found.id == id && self.submissions@.contains(*found),
    {
        match self.index.get(&id) {
            Some(place) => {
                let found: &AuctionSubmit = &self.submissions[*place];
                assert(self.standing()[*place as int] == found@);
                assert(self.lists(id));
                Ok(found)
            },
            None => {
                proof {
                    if self.lists(id) {
                        let i = choose|i: int|
                            0 <= i < self.standing().len() && (#[trigger] self.standing()[i]).id
                                == id;
                        assert(self.index@.contains_key(self.standing()[i].id));
                    }
                }
                Err(Rejection::OrderNotFound)
            },
        }
    }
}

/// The order is recent enough and bids enough to take part.
pub open spec fn eligible(q: ClearQuery, now_ms: u64, e: OrderView) -> bool {
    &&& q.window_ms matches Some(window) ==> e.submitted_at_ms >= (if now_ms >= window {
        now_ms - window
    } else {
        0
    })
    &&& q.min_bid matches Some(least) ==> least.at_most(e.bid)
}

/// Orders are ranked by priority before they are ranked by bid.
pub open spec fn by_priority(q: ClearQuery) -> bool {
    q.priority_first == Some(true)
}

/// The key of the ranking.  With priorities, the lowest comes first and bids
/// decide among equals; without, the highest bid comes first.
pub open spec fn rank_key(priority_first: bool, e: OrderView) -> (int, int) {
    if priority_first {
        (e.priority as int, -e.bid.rank())
    } else {
        (0, -e.bid.rank())
    }
}

/// The best `count` orders of a list, the best first; orders that rank
/// equally keep the order in which they stand in the book.
pub open spec fn best(list: Seq<OrderView>, priority_first: bool, count: nat) -> Seq<OrderView> {
    let ranked = sorting::arranged(
        list,
        sorting::stable_order(list.map_values(|e: OrderView| rank_key(priority_first, e))),
    );
    if ranked.len() > count {
        ranked.take(count as int)
    } else {
        ranked
    }
}

/// The orders that a budget affords when each is tried in turn, and what
/// they cost together.  An order that does not fit is passed over.
pub open spec fn afforded(list: Seq<OrderView>, cap: Option<Double>) -> (Seq<OrderView>, Double)
    decreases list.len(),
{
    if list.len() == 0 {
        (Seq::empty(), Double { bits: 0 })
    } else {
        let (won, spent) = afforded(list.drop_last(), cap);
        let e = list.last();
        match cap {
            Some(limit) => if limit.below(spent.sum(e.bid)) {
                (won, spent)
            } else {
                (won.push(e), spent.sum(e.bid))
            },
            None => (won.push(e), spent),
        }
    }
}

/// The winners of a clearing.
pub open spec fn cleared(standing: Seq<OrderView>, q: ClearQuery, now_ms: u64) -> Seq<OrderView> {
    let count: nat = match q.top_k {
        Some(k) => k as nat,
        None => 1,
    };
    let ranked = best(
        standing.filter(|e: OrderView| eligible(q, now_ms, e)),
        by_priority(q),
        count,
    );
    afforded(ranked, q.budget_cap).0
}

/// The name of the ranking that a clearing used.
pub open spec fn criteria_text(q: ClearQuery) -> Seq<char> {
    if by_priority(q) {
        "priority_then_bid"@
    } else {
        "bid_desc"@
    }
}

/// What the auction has seen.
#[derive(Clone, Copy, Debug)]
pub struct AuctionResults {
    pub submissions: usize,
    pub clients: usize,
    pub winners: usize,
}

/// A light picture of the book.
#[derive(Debug)]
pub struct BookSnapshot {
    pub submissions: usize,
    pub top: Vec<AuctionSubmit>,
    pub last_cleared: usize,
}

/// The clients that are named in a list of orders.
pub open spec fn clients_of(list: Seq<OrderView>) -> Set<Seq<char>> {
    Set::new(
        |name: Seq<char>|
            exists|i: int| 0 <= i < list.len() && (#[trigger] list[i]).client_id == Some(name),
    )
}

/// The most orders that a snapshot of the book shows.
pub const SNAPSHOT_ORDERS: usize = 10;

/// Copies of the orders at the given places.
fn copies(list: &Vec<AuctionSubmit>, places: &Vec<usize>) -> (r: Vec<AuctionSubmit>)
    requires
        forall|i: int| 0 <= i < places@.len() ==> #[trigger] places@[i] < list@.len(),
    ensures
        entries(r@) == sorting::arranged(entries(list@), sorting::places(places@)),
{
    let mut r: Vec<AuctionSubmit> = Vec::new();
    let mut i: usize = 0;
    while i < places.len()
        invariant
            forall|i: int| 0 <= i < places@.len() ==> #[trigger] places@[i] < list@.len(),
            i <= places@.len(),
            r@.len() == i,
            forall|k: int| 0 <= k < i ==> (#[trigger] r@[k])@ == list@[places@[k] as int]@,
        decreases places@.len() - i,
    {
        r.push(list[places[i]].clone());
        i = i + 1;
    }
    assert(entries(r@) =~= sorting::arranged(entries(list@), sorting::places(places@)));
    r
}

/// The places of the best orders among those at the given places.
fn best_places(
    list: &Vec<AuctionSubmit>,
    places: Vec<usize>,
    priority_first: bool,
    count: usize,
) -> (r: Vec<usize>)
    requires
        forall|i: int| 0 <= i < places@.len() ==> #[trigger] places@[i] < list@.len(),
    ensures
        forall|i: int| 0 <= i < r@.len() ==> #[trigger] r@[i] < list@.len(),
        sorting::arranged(entries(list@), sorting::places(r@)) == best(
            sorting::arranged(entries(list@), sorting::places(places@)),
            priority_first,
            count as nat,
        ),
{
    let ghost among = sorting::arranged(entries(list@), sorting::places(places@));
    let mut keys: Vec<(u64, i64)> = Vec::new();
    let mut i: usize = 0;
    while i < places.len()
        invariant
            forall|i: int| 0 <= i < places@.len() ==> #[trigger] places@[i] < list@.len(),
            among == sorting::arranged(entries(list@), sorting::places(places@)),
            i <= places@.len(),
            keys@.len() == i,
            forall|k: int|
                0 <= k < i ==> sorting::numbers(keys@)[k] == rank_key(
                    priority_first,
                    #[trigger] among[k],
                ),
        decreases places@.len() - i,
    {
        let e: &AuctionSubmit = &list[places[i]];
        assert(among[i as int] == e@);
        let rank: i64 = e.bid.order_rank();
        keys.push(
            if priority_first {
                (e.priority, -rank)
            } else {
                (0, -rank)
            },
        );
        i = i + 1;
    }
    let order: Vec<usize> = sorting::sorted_order(&keys);
    proof {
        assert(sorting::numbers(keys@) =~= among.map_values(
            |e: OrderView| rank_key(priority_first, e),
        ));
    }
    let mut r: Vec<usize> = Vec::new();
    let mut j: usize = 0;
    while j < order.len() && j < count
        invariant
            forall|i: int| 0 <= i < places@.len() ==> #[trigger] places@[i] < list@.len(),
            forall|i: int| 0 <= i < order@.len() ==> #[trigger] order@[i] < places@.len(),
            j <= order@.len(),
            j <= count,
            r@.len() == j,
            forall|k: int| 0 <= k < j ==> #[trigger] r@[k] == places@[order@[k] as int],
        decreases order@.len() - j,
    {
        r.push(places[order[j]]);
        j = j + 1;
    }
    proof {
        let ranked = sorting::arranged(among, sorting::places(order@));
        let got = sorting::arranged(entries(list@), sorting::places(r@));
        assert forall|k: int| 0 <= k < r@.len() implies #[trigger] got[k] == ranked[k] by {
            assert(sorting::places(r@)[k] == r@[k]);
            assert(sorting::places(order@)[k] == order@[k]);
            assert(sorting::places(places@)[order@[k] as int] == places@[order@[k] as int]);
        }
        if ranked.len() > count {
            assert(got =~= ranked.take(count as int));
        } else {
            assert(got =~= ranked);
        }
        assert forall|i: int| 0 <= i < r@.len() implies #[trigger] r@[i] < list@.len() by {
            assert(order@[i] < places@.len());
        }
    }
    r
}

impl AuctionBook {
    /// The places of the orders that take part in a clearing.
    fn eligible_places(&self, q: ClearQuery, now_ms: u64) -> (places: Vec<usize>)
        ensures
            forall|i: int| 0 <= i < places@.len() ==> #[trigger] places@[i] < self.submissions@.len(),
            sorting::arranged(self.standing(), sorting::places(places@)) == self.standing().filter(
                |e: OrderView| eligible(q, now_ms, e),
            ),
    {
        let ghost all = self.standing();
        let ghost fits = |e: OrderView| eligible(q, now_ms, e);
        let mut places: Vec<usize> = Vec::new();
        let mut i: usize = 0;
        proof {
            reveal(Seq::filter);
            assert(sorting::arranged(all, sorting::places(places@)) =~= all.take(0).filter(fits));
        }
        while i < self.submissions.len()
            invariant
                all == self.standing(),
                fits == (|e: OrderView| eligible(q, now_ms, e)),
                i <= self.submissions@.len(),
                forall|k: int|
                    0 <= k < places@.len() ==> #[trigger] places@[k] < self.submissions@.len(),
                sorting::arranged(all, sorting::places(places@)) == all.take(i as int).filter(fits),
            decreases self.submissions@.len() - i,
        {
            let e: &AuctionSubmit = &self.submissions[i];
            let ghost before = places@;
            let recent: bool = match q.window_ms {
                Some(window) => e.submitted_at_ms >= now_ms.saturating_sub(window),
                None => true,
            };
            let enough: bool = match q.min_bid {
                Some(least) => least.is_at_most(e.bid),
                None => true,
            };
            proof {
                reveal(Seq::filter);
                assert(all.take(i + 1).drop_last() =~= all.take(i as int));
                assert(all.take(i + 1).last() == e@);
            }
            if recent && enough {
                places.push(i);
                proof {
                    assert(sorting::arranged(all, sorting::places(places@)) =~= sorting::arranged(
                        all,
                        sorting::places(before),
                    ).push(e@));
                }
            }
            i = i + 1;
        }
        assert(all.take(i as int) =~= all);
        places
    }

    /// Picks the winners that a budget affords.
    fn afford(&self, places: &Vec<usize>, cap: Option<Double>) -> (won: Vec<AuctionSubmit>)
        requires
            forall|i: int| 0 <= i < places@.len() ==> #[trigger] places@[i] < self.submissions@.len(),
        ensures
            entries(won@) == afforded(
                sorting::arranged(self.standing(), sorting::places(places@)),
                cap,
            ).0,
    {
        let ghost tried = sorting::arranged(self.standing(), sorting::places(places@));
        let mut won: Vec<AuctionSubmit> = Vec::new();
        let mut spent: Double = Double { bits: 0 };
        let mut i: usize = 0;
        proof {
            assert(entries(won@) =~= afforded(tried.take(0), cap).0);
        }
        while i < places.len()
            invariant
                forall|i: int|
                    0 <= i < places@.len() ==> #[trigger] places@[i] < self.submissions@.len(),
                tried == sorting::arranged(self.standing(), sorting::places(places@)),
                i <= places@.len(),
                (entries(won@), spent) == afforded(tried.take(i as int), cap),
            decreases places@.len() - i,
        {
            let e: &AuctionSubmit = &self.submissions[places[i]];
            let ghost before = entries(won@);
            proof {
                assert(tried.take(i + 1).drop_last() =~= tried.take(i as int));
                assert(tried.take(i + 1).last() == e@);
            }
            let fits: bool = match cap {
                Some(limit) => {
                    let cost: Double = spent.plus(e.bid);
                    if limit.is_below(cost) {
                        false
                    } else {
                        spent = cost;
                        true
                    }
                },
                None => true,
            };
            if fits {
                won.push(e.clone());
                assert(entries(won@) =~= before.push(e@));
            }
            i = i + 1;
        }
        assert(tried.take(i as int) =~= tried);
        won
    }

    /// Clears the auction: ranks the orders that take part and keeps the
    /// best that the budget affords as winners.  The book itself stays.
    pub fn clear(&mut self, q: ClearQuery, now_ms: u64) -> (criteria: &'static str)
        requires
            old(self).wf(),
        ensures
            final(self).wf(),
            final(self).next_id == old(self).next_id,
            final(self).standing() == old(self).standing(),
            final(self).winners() == cleared(old(self).standing(), q, now_ms),
            criteria@ == criteria_text(q),
            forall|i: int|
                0 <= i < final(self).last_winners@.len() ==> {
                    let won = #[trigger] final(self).last_winners@[i];
                    &&& q.window_ms matches Some(w) ==> won.submitted_at_ms + w >= now_ms
                    &&& q.min_bid matches Some(m) ==> m.at_most(won.bid)
                },
            final(self).submissions@ == old(self).submissions@,
    {
        let count: usize = match q.top_k {
            Some(k) => k,
            None => 1,
        };
        let priority_first: bool = match q.priority_first {
            Some(b) => b,
            None => false,
        };
        let places: Vec<usize> = self.eligible_places(q, now_ms);
        let top: Vec<usize> = best_places(&self.submissions, places, priority_first, count);
        let won: Vec<AuctionSubmit> = self.afford(&top, q.budget_cap);
        self.last_winners = won;
        proof {
            assert forall|i: int| 0 <= i < self.last_winners@.len() implies {
                let won = #[trigger] self.last_winners@[i];
                &&& q.window_ms matches Some(w) ==> won.submitted_at_ms + w >= now_ms
                &&& q.min_bid matches Some(m) ==> m.at_most(won.bid)
            } by {
                assert(self.winners()[i] == self.last_winners@[i]@);
                clearing::winners_meet_every_filter(old(self).standing(), q, now_ms, i);
            }
        }
        if priority_first {
            "priority_then_bid"
        } else {
            "bid_desc"
        }
    }

    /// How many clients are named in the book.
    fn count_clients(&self) -> (n: usize)
        ensures
            n == clients_of(self.standing()).len(),
    {
        let ghost all = self.standing();
        let mut names = StringHashSet::new();
        let mut i: usize = 0;
        proof {
            assert(names@ =~= clients_of(all.take(0)));
        }
        while i < self.submissions.len()
            invariant
                all == self.standing(),
                i <= self.submissions@.len(),
                names@ == clients_of(all.take(i as int)),
            decreases self.submissions@.len() - i,
        {
            let ghost before = names@;
            let client: Option<String> = copy_string(&self.submissions[i].client_id);
            proof {
                let e = all[i as int];
                let was = all.take(i as int);
                let now = all.take(i + 1);
                assert forall|name: Seq<char>|
                    clients_of(now).contains(name) <==> clients_of(was).contains(name)
                        || e.client_id == Some(name) by {
                    if clients_of(now).contains(name) {
                        let k = choose|k: int|
                            0 <= k < now.len() && (#[trigger] now[k]).client_id == Some(name);
                        if k < i {
                            assert(was[k].client_id == Some(name));
                        }
                    }
                    if clients_of(was).contains(name) {
                        let k = choose|k: int|
                            0 <= k < was.len() && (#[trigger] was[k]).client_id == Some(name);
                        assert(now[k].client_id == Some(name));
                    }
                    if e.client_id == Some(name) {
                        assert(now[i as int].client_id == Some(name));
                    }
                }
            }
            match client {
                Some(name) => {
                    names.insert(name);
                },
                None => {},
            }
            assert(names@ =~= clients_of(all.take(i + 1)));
            i = i + 1;
        }
        assert(all.take(i as int) =~= all);
        names.len()
    }

    /// What the auction has seen: orders, clients and last winners.
    pub fn results(&self) -> (r: AuctionResults)
        ensures
            r.submissions == self.standing().len(),
            r.clients == clients_of(self.standing()).len(),
            r.winners == self.winners().len(),
    {
        AuctionResults {
            submissions: self.submissions.len(),
            clients: self.count_clients(),
            winners: self.last_winners.len(),
        }
    }

    /// A picture of the book with its highest bids.
    pub fn snapshot(&self) -> (r: BookSnapshot)
        requires
            self.wf(),
        ensures
            r.submissions == self.standing().len(),
            entries(r.top@) == best(self.standing(), false, SNAPSHOT_ORDERS as nat),
            r.last_cleared == self.winners().len(),
            r.submissions == self.submissions@.len(),
            r.last_cleared == self.last_winners@.len(),
            r.top@.len() == (if self.submissions@.len() < 10 {
                self.submissions@.len()
            } else {
                10
            }),
            forall|i: int, j: int|
                0 <= i < j < r.top@.len() ==> (#[trigger] r.top@[j]).bid.at_most(
                    (#[trigger] r.top@[i]).bid,
                ),
    {
        let mut places: Vec<usize> = Vec::new();
        let mut i: usize = 0;
        while i < self.submissions.len()
            invariant
                i <= self.submissions@.len(),
                places@.len() == i,
                forall|k: int| 0 <= k < i ==> #[trigger] places@[k] == k,
            decreases self.submissions@.len() - i,
        {
            places.push(i);
            i = i + 1;
        }
        assert(sorting::arranged(self.standing(), sorting::places(places@)) =~= self.standing());
        let top: Vec<usize> = best_places(&self.submissions, places, false, SNAPSHOT_ORDERS);
        let shown: Vec<AuctionSubmit> = copies(&self.submissions, &top);
        proof {
            let all = self.standing();
            clearing::bids_in_a_book_are_numbers(*self);
            let at = clearing::the_best_come_first(all, false, SNAPSHOT_ORDERS as nat);
            assert(entries(shown@).len() == shown@.len());
            assert forall|i: int, j: int| 0 <= i < j < shown@.len() implies (
            #[trigger] shown@[j]).bid.at_most((#[trigger] shown@[i]).bid) by {
                assert(entries(shown@)[i] == shown@[i]@);
                assert(entries(shown@)[j] == shown@[j]@);
                assert(clearing::comes_before(all, false, at[i], at[j]));
                assert(!all[at[i]].bid.nan() && !all[at[j]].bid.nan());
            }
        }
        BookSnapshot {
            submissions: self.submissions.len(),
            top: shown,
            last_cleared: self.last_winners.len(),
        }
    }
}

/// The entries of the first `n` requests of a batch.
spec fn batch(given: Seq<AuctionRequest>, start: int, now_ms: u64, n: nat) -> Seq<OrderView> {
    Seq::new(
        n,
        |i: int|
            entry(
                intent::text(given[i].client_id),
                given[i].order,
                (start + i) as u64,
                now_ms,
            ),
    )
}

} // verus!
