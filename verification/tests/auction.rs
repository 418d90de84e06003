//! The auction book.
use flashpoint::auction::{AuctionBook, AuctionRequest, AuctionSubmit, ClearQuery};
use flashpoint::double::Double;
use flashpoint::events::{
    auction_batch_submitted, auction_canceled, auction_cleared, auction_submitted, Event,
};
use flashpoint::order::{bid_or_zero, priority_or_last, read_bid, read_priority};
use flashpoint::rejection::Rejection;
use serde_json::Value;

fn d(x: f64) -> Double {
    Double::from_bits(x.to_bits())
}

fn f(x: Double) -> f64 {
    f64::from_bits(x.bits)
}

fn json(text: &str) -> Value {
    serde_json::from_str(text).unwrap()
}

fn request(client: &str, order: &str) -> AuctionRequest {
    AuctionRequest { client_id: Some(client.to_string()), order: json(order) }
}

fn plain(top_k: Option<usize>) -> ClearQuery {
    ClearQuery { top_k, min_bid: None, budget_cap: None, window_ms: None, priority_first: None }
}

fn bids(list: &[AuctionSubmit]) -> Vec<f64> {
    list.iter().map(|s| f(s.bid)).collect()
}

fn names(list: &[AuctionSubmit]) -> Vec<String> {
    list.iter().map(|s| s.client_id.clone().unwrap_or_default()).collect()
}

#[test]
fn mev_submit_and_results() {
    let mut book = AuctionBook::new();
    book.submit(request("c1", r#"{"type":"bundle","value":42}"#), 10);
    let r = book.results();
    assert!(r.submissions >= 1);
    assert_eq!(r.submissions, 1);
    assert_eq!(r.clients, 1);
    assert_eq!(r.winners, 0);
}

#[test]
fn mev_batch_submit_get_order_book_and_cancel() {
    let mut book = AuctionBook::new();
    let ids = book.submit_batch(
        vec![
            request("a", r#"{"bid":4.0,"priority":5}"#),
            request("b", r#"{"bid":7.0,"priority":1}"#),
        ],
        1234,
    );
    assert_eq!(ids.len(), 2);
    let id1 = ids[0];

    let order = book.get_order(id1).unwrap();
    assert_eq!(order.id, id1);
    assert_eq!(order.submitted_at_ms, 1234);
    assert_eq!(order.order, json(r#"{"bid":4.0,"priority":5}"#));

    let snapshot = book.snapshot();
    assert!(snapshot.submissions >= 2);
    assert!(!snapshot.top.is_empty());
    let top_bid = snapshot.top[0].order.get("bid").and_then(|b| b.as_f64()).unwrap_or(0.0);
    assert!(top_bid >= 4.0, "unexpected top bid: {}", top_bid);
    assert_eq!(top_bid, 7.0);

    let removed = book.cancel(id1);
    assert_eq!(removed, 1);
    let refused = book.get_order(id1).unwrap_err();
    assert_eq!(refused.status(), 404);
    assert_eq!(refused.detail(), "not found");
}

#[test]
fn mev_clear_with_filters_min_bid_budget_window_priority() {
    let mut book = AuctionBook::new();
    book.submit(request("old", r#"{"bid":2.0,"priority":10}"#), 1_000);
    for (client, order) in [
        ("p1", r#"{"bid":9.0,"priority":5}"#),
        ("p2", r#"{"bid":8.0,"priority":1}"#),
        ("low", r#"{"bid":1.0,"priority":1}"#),
    ] {
        book.submit(request(client, order), 1_200);
    }
    let q = ClearQuery {
        top_k: Some(3),
        min_bid: Some(d(2.0)),
        budget_cap: Some(d(8.0)),
        window_ms: Some(100),
        priority_first: Some(true),
    };
    let criteria = book.clear(q, 1_210);
    assert_eq!(criteria, "priority_then_bid");
    assert_eq!(book.last_winners.len(), 1, "expected 1 winner due to budget cap");
    assert_eq!(book.last_winners[0].client_id.as_deref(), Some("p2"));
}

#[test]
fn mev_auction_clear_topk_sorted() {
    let mut book = AuctionBook::new();
    for (client, order) in [("c1", r#"{"bid":1.0}"#), ("c2", r#"{"bid":5.0}"#), ("c3", r#"{"bid":3.0}"#)] {
        book.submit(request(client, order), 0);
    }
    let criteria = book.clear(plain(Some(2)), 5);
    assert_eq!(book.last_winners.len(), 2);
    let won = bids(&book.last_winners);
    assert!(won[0] >= won[1], "winners not sorted desc: {:?}", won);
    assert_eq!(won, vec![5.0, 3.0]);
    assert_eq!(criteria, "bid_desc");
    assert_eq!(book.results().winners, 2);
}

#[test]
fn ids_count_from_one_and_are_never_reused() {
    let mut book = AuctionBook::new();
    assert_eq!(book.submit(request("a", "{}"), 0), 1);
    assert_eq!(book.submit(request("b", "{}"), 0), 2);
    assert_eq!(book.cancel(2), 1);
    assert_eq!(book.submit(request("c", "{}"), 0), 3);
    assert_eq!(book.submit_batch(vec![request("d", "{}"), request("e", "{}")], 0), vec![4, 5]);
    assert_eq!(book.submit_batch(Vec::new(), 0), Vec::<u64>::new());
}

#[test]
fn cancelling_leaves_the_others() {
    let mut book = AuctionBook::new();
    for name in ["a", "b", "c", "d"] {
        book.submit(request(name, r#"{"bid":1}"#), 0);
    }
    assert_eq!(book.cancel(2), 1);
    assert_eq!(names(&book.submissions), vec!["a", "d", "c"]);
    assert_eq!(book.get_order(4).unwrap().client_id.as_deref(), Some("d"));
    assert_eq!(book.cancel(2), 0);
    assert_eq!(book.cancel(99), 0);
    assert_eq!(book.cancel(3), 1);
    assert_eq!(names(&book.submissions), vec!["a", "d"]);
    assert_eq!(book.cancel(4), 1);
    assert_eq!(book.cancel(1), 1);
    assert!(book.submissions.is_empty());
    assert_eq!(book.get_order(1).unwrap_err(), Rejection::OrderNotFound);
}

#[test]
fn cancelling_is_told_of_once() {
    match auction_canceled(7, 1) {
        Some(Event::AuctionCanceled { id }) => assert_eq!(id, 7),
        other => panic!("{other:?}"),
    }
    assert!(auction_canceled(7, 0).is_none());
}

#[test]
fn orders_without_numbers_bid_nothing() {
    assert_eq!(f(read_bid(&json(r#"{"bid":2.5}"#))), 2.5);
    assert_eq!(f(read_bid(&json(r#"{"bid":3}"#))), 3.0);
    assert_eq!(f(read_bid(&json(r#"{"bid":-4}"#))), -4.0);
    assert_eq!(f(read_bid(&json(r#"{"bid":18446744073709551615}"#))), 18446744073709551615.0);
    assert_eq!(f(read_bid(&json(r#"{"bid":"9"}"#))), 0.0);
    assert_eq!(f(read_bid(&json(r#"[1,2]"#))), 0.0);
    assert_eq!(f(read_bid(&Value::Null)), 0.0);
    assert_eq!(read_priority(&json(r#"{"priority":7}"#)), 7);
    assert_eq!(read_priority(&json(r#"{"priority":7.0}"#)), u64::MAX);
    assert_eq!(read_priority(&json(r#"{"priority":-1}"#)), u64::MAX);
    assert_eq!(read_priority(&json(r#"{}"#)), u64::MAX);
    assert_eq!(f(bid_or_zero(Some(1.5f64.to_bits()))), 1.5);
    assert_eq!(f(bid_or_zero(None)), 0.0);
    assert_eq!(priority_or_last(Some(3)), 3);
    assert_eq!(priority_or_last(None), u64::MAX);
}

#[test]
fn one_winner_by_default() {
    let mut book = AuctionBook::new();
    for bid in ["1", "9", "4"] {
        book.submit(request(bid, &format!("{{\"bid\":{bid}}}")), 0);
    }
    book.clear(plain(None), 0);
    assert_eq!(bids(&book.last_winners), vec![9.0]);
    book.clear(plain(Some(0)), 0);
    assert!(book.last_winners.is_empty());
    book.clear(plain(Some(10)), 0);
    assert_eq!(bids(&book.last_winners), vec![9.0, 4.0, 1.0]);
    assert_eq!(book.submissions.len(), 3);
}

#[test]
fn an_order_over_budget_is_passed_over() {
    let mut book = AuctionBook::new();
    for bid in ["6", "5", "3", "1"] {
        book.submit(request(bid, &format!("{{\"bid\":{bid}}}")), 0);
    }
    let q = ClearQuery { budget_cap: Some(d(9.5)), ..plain(Some(4)) };
    book.clear(q, 0);
    assert_eq!(bids(&book.last_winners), vec![6.0, 3.0]);
    let total: f64 = bids(&book.last_winners).iter().sum();
    assert!(total <= 9.5);
}

#[test]
fn the_window_and_the_reserve_are_inclusive() {
    let mut book = AuctionBook::new();
    book.submit(request("early", r#"{"bid":5}"#), 899);
    book.submit(request("edge", r#"{"bid":4}"#), 900);
    book.submit(request("late", r#"{"bid":3}"#), 950);
    let window = ClearQuery { window_ms: Some(100), ..plain(Some(9)) };
    book.clear(window, 1000);
    assert_eq!(names(&book.last_winners), vec!["edge", "late"]);
    let wide = ClearQuery { window_ms: Some(5000), ..plain(Some(9)) };
    book.clear(wide, 1000);
    assert_eq!(book.last_winners.len(), 3);
    let reserve = ClearQuery { min_bid: Some(d(4.0)), ..plain(Some(9)) };
    book.clear(reserve, 1000);
    assert_eq!(names(&book.last_winners), vec!["early", "edge"]);
}

#[test]
fn priority_decides_before_the_bid() {
    let mut book = AuctionBook::new();
    for (name, order) in [
        ("none", r#"{"bid":100}"#),
        ("two", r#"{"bid":50,"priority":2}"#),
        ("one-low", r#"{"bid":1,"priority":1}"#),
        ("one-high", r#"{"bid":2,"priority":1}"#),
    ] {
        book.submit(request(name, order), 0);
    }
    let q = ClearQuery { priority_first: Some(true), ..plain(Some(4)) };
    book.clear(q, 0);
    assert_eq!(names(&book.last_winners), vec!["one-high", "one-low", "two", "none"]);
    let q = ClearQuery { priority_first: Some(false), ..plain(Some(2)) };
    assert_eq!(book.clear(q, 0), "bid_desc");
    assert_eq!(names(&book.last_winners), vec!["none", "two"]);
}

#[test]
fn a_snapshot_shows_ten() {
    let mut book = AuctionBook::new();
    for i in 0..25u64 {
        let mut req = request("c", &format!("{{\"bid\":{}}}", (i * 7) % 25));
        if i % 2 == 0 {
            req.client_id = None;
        }
        book.submit(req, i);
    }
    let s = book.snapshot();
    assert_eq!(s.submissions, 25);
    assert_eq!(s.last_cleared, 0);
    assert_eq!(bids(&s.top), vec![24.0, 23.0, 22.0, 21.0, 20.0, 19.0, 18.0, 17.0, 16.0, 15.0]);
    assert_eq!(book.results().clients, 1);
}

#[test]
fn the_auction_is_told_of() {
    let mut book = AuctionBook::new();
    let client = Some("a".to_string());
    let id = book.submit(request("a", r#"{"bid":3}"#), 0);
    match auction_submitted(id, &client) {
        Event::AuctionSubmitted { id, client_id } => assert_eq!((id, client_id), (1, client)),
        other => panic!("{other:?}"),
    }
    let ids = book.submit_batch(vec![request("b", "{}"), request("c", "{}")], 0);
    let told = auction_batch_submitted(&ids);
    assert_eq!(told.len(), 2);
    assert!(matches!(told[0], Event::AuctionBatchSubmitted { id: 2 }));
    assert!(matches!(told[1], Event::AuctionBatchSubmitted { id: 3 }));
    assert!(told.iter().all(|e| e.label() == "auction_submitted"));
    book.clear(plain(Some(2)), 0);
    assert!(matches!(auction_cleared(&book), Event::AuctionCleared { cleared: 2 }));
}
