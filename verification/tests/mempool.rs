//! The mempool, and who may change it.
use flashpoint::auth::require_api_key;
use flashpoint::double::Double;
use flashpoint::events::{bulk_submitted, intent_submitted, Event};
use flashpoint::intent::SubmitIntent;
use flashpoint::mempool::{AppState, MAX_BULK_INTENTS, MAX_RESOURCES_PER_INTENT};
use flashpoint::rejection::Rejection;

fn d(x: f64) -> Double {
    Double::from_bits(x.to_bits())
}

fn f(x: Double) -> f64 {
    f64::from_bits(x.bits)
}

fn wish(profit: f64, resources: &[&str]) -> SubmitIntent {
    SubmitIntent {
        profit: d(profit),
        resources: resources.iter().map(|r| r.to_string()).collect(),
        client_id: None,
    }
}

#[test]
fn auth_401_without_key_on_protected() {
    let expected = Some("testkey".to_string());
    let refused = require_api_key(&expected, None).unwrap_err();
    assert_eq!(refused.status(), 401);
    assert_eq!(refused.detail(), "invalid API key");
}

#[test]
fn auth_200_with_correct_key() {
    let expected = Some("testkey".to_string());
    assert!(require_api_key(&expected, Some("testkey")).is_ok());
    let mut state = AppState::new();
    let it = state.submit_intent(wish(10.0, &["pair:ETH/USDC"])).unwrap();
    assert_eq!(f(it.profit), 10.0);
}

#[test]
fn keys_are_compared_whole() {
    let expected = Some("testkey".to_string());
    assert_eq!(require_api_key(&expected, Some("testke")), Err(Rejection::InvalidApiKey));
    assert_eq!(require_api_key(&expected, Some("TESTKEY")), Err(Rejection::InvalidApiKey));
    assert_eq!(require_api_key(&None, None), Ok(()));
    assert_eq!(require_api_key(&None, Some("any")), Ok(()));
}

#[test]
fn ws_event_shapes_via_broadcast() {
    let mut state = AppState::new();
    let it = state
        .submit_intent(SubmitIntent {
            profit: d(12.34),
            resources: vec!["pair:ETH/USDC".to_string()],
            client_id: Some("c1".to_string()),
        })
        .unwrap();
    let event = intent_submitted(&it);
    assert_eq!(event.label(), "intent_submitted");
    assert!(event.traced());
    match event {
        Event::IntentSubmitted { intent } => {
            assert_eq!(f(intent.profit), 12.34);
            assert_eq!(intent.resources, vec!["pair:ETH/USDC".to_string()]);
            assert_eq!(intent.client_id, Some("c1".to_string()));
            assert_eq!(intent.arrival_index, Some(0));
        }
        other => panic!("{other:?}"),
    }
}

#[test]
fn metrics_json_sanity() {
    let state = AppState::new();
    let m = state.metrics_json();
    assert_eq!(m.intents_count, 0);
    assert_eq!(m.distinct_resources, 0);
    assert_eq!(f(m.fifo_profit), 0.0);
    assert_eq!(f(m.greedy_profit), 0.0);
    assert_eq!(f(m.surplus), 0.0);
}

#[test]
fn metrics_count_resources_once() {
    let mut state = AppState::new();
    for (profit, names) in [(5.0, ["X", "Y"]), (9.0, ["X", "Z"]), (2.0, ["Q", "Q"])] {
        assert!(state.submit_intent(wish(profit, &names)).is_ok());
    }
    let m = state.metrics_json();
    assert_eq!(m.intents_count, 3);
    assert_eq!(m.distinct_resources, 4);
    assert_eq!(f(m.fifo_profit), 7.0);
    assert_eq!(f(m.greedy_profit), 11.0);
    assert_eq!(f(m.surplus), 4.0);
}

#[test]
fn bulk_flow_and_broadcast_count() {
    let mut state = AppState::new();
    let out = state
        .submit_intents_bulk(vec![wish(10.0, &["pair:ETH/USDC"]), wish(20.0, &["dex:uniswap"])])
        .unwrap();
    let event = bulk_submitted(&out);
    assert_eq!(event.label(), "intents_bulk_submitted");
    match event {
        Event::IntentsBulkSubmitted { count } => assert_eq!(count, 2),
        other => panic!("{other:?}"),
    }
    assert_eq!(out[0].arrival_index, Some(0));
    assert_eq!(out[1].arrival_index, Some(1));
    assert_eq!(f(out[1].profit), 20.0);
    assert_eq!(state.next_index, 2);
}

#[test]
fn reset_clears_and_broadcasts() {
    let mut state = AppState::new();
    assert!(state.submit_intent(wish(11.0, &["pair:ETH/USDC"])).is_ok());
    state.reset();
    assert!(state.list_intents().is_empty());
    assert_eq!(Event::Reset.label(), "reset");
    assert!(Event::Reset.traced());
    let again = state.submit_intent(wish(1.0, &["A"])).unwrap();
    assert_eq!(again.arrival_index, Some(0));
}

#[test]
fn each_refusal_of_a_submission() {
    let mut state = AppState::new();
    let many: Vec<&str> = vec!["r"; MAX_RESOURCES_PER_INTENT + 1];
    for (req, why, span) in [
        (wish(0.0, &["A"]), Rejection::ProfitNotPositive, "profit must be positive"),
        (wish(-1.0, &[]), Rejection::ProfitNotPositive, "profit must be positive"),
        (wish(-0.0, &["A"]), Rejection::ProfitNotPositive, "profit must be positive"),
        (wish(f64::NAN, &["A"]), Rejection::ProfitNotPositive, "profit must be positive"),
        (wish(1.0, &[]), Rejection::NoResources, "resources must be non-empty"),
        (wish(1.0, &many), Rejection::TooManyResources, "too many resources for one intent"),
    ] {
        let refused = state.submit_intent(req).unwrap_err();
        assert_eq!(refused, why);
        assert_eq!(refused.status(), 400);
        assert_eq!(refused.span_message(), Some(span));
    }
    assert_eq!(Rejection::TooManyResources.detail(), "too many resources");
    assert!(state.list_intents().is_empty());
    assert!(state.submit_intent(wish(1.0, &many[1..])).is_ok());
}

#[test]
fn each_refusal_of_a_bulk_request() {
    let mut state = AppState::new();
    let refused = state.submit_intents_bulk(Vec::new()).unwrap_err();
    assert_eq!((refused, refused.status()), (Rejection::NoIntents, 400));
    assert_eq!(refused.detail(), "intents must be non-empty");
    let many: Vec<SubmitIntent> = (0..MAX_BULK_INTENTS + 1).map(|_| wish(1.0, &["A"])).collect();
    let refused = state.submit_intents_bulk(many).unwrap_err();
    assert_eq!((refused, refused.status()), (Rejection::TooManyIntents, 413));
    assert_eq!(refused.detail(), "too many intents");
    assert_eq!(refused.span_message(), Some("too many intents in bulk request"));
    assert!(state.list_intents().is_empty());
    let full: Vec<SubmitIntent> = (0..MAX_BULK_INTENTS).map(|_| wish(1.0, &["A"])).collect();
    assert_eq!(state.submit_intents_bulk(full).unwrap().len(), MAX_BULK_INTENTS);
}

#[test]
fn what_stands_before_a_refused_submission_stays() {
    let mut state = AppState::new();
    let refused = state
        .submit_intents_bulk(vec![
            wish(1.0, &["A"]),
            wish(2.0, &["B"]),
            wish(3.0, &[]),
            wish(-1.0, &["C"]),
        ])
        .unwrap_err();
    assert_eq!(refused, Rejection::NoResources);
    assert_eq!(state.list_intents().len(), 2);
    assert_eq!(state.next_index, 2);
}

#[test]
fn bulks_join_to_one() {
    let mut apart = AppState::new();
    apart.submit_intents_bulk(vec![wish(1.0, &["A"]), wish(2.0, &["B"])]).unwrap();
    apart.submit_intents_bulk(vec![wish(3.0, &["C"])]).unwrap();
    let mut together = AppState::new();
    together
        .submit_intents_bulk(vec![wish(1.0, &["A"]), wish(2.0, &["B"]), wish(3.0, &["C"])])
        .unwrap();
    let (a, b) = (apart.list_intents(), together.list_intents());
    assert_eq!(a.len(), b.len());
    for (x, y) in a.iter().zip(b.iter()) {
        assert_eq!(x.profit.bits, y.profit.bits);
        assert_eq!(x.resources, y.resources);
        assert_eq!(x.arrival_index, y.arrival_index);
    }
}

#[test]
fn a_bulk_of_one_is_a_single_submission() {
    let mut single = AppState::new();
    let mut bulk = AppState::new();
    let a = single.submit_intent(wish(4.0, &["A"])).unwrap();
    let b = bulk.submit_intents_bulk(vec![wish(4.0, &["A"])]).unwrap();
    assert_eq!(b.len(), 1);
    assert_eq!(a.arrival_index, b[0].arrival_index);
    assert_eq!(a.profit.bits, b[0].profit.bits);
    assert_eq!(single.next_index, bulk.next_index);
}

#[test]
fn a_profit_that_is_no_number_is_refused() {
    let mut state = AppState::new();
    let refused = state.submit_intent(wish(f64::NAN, &["A"])).unwrap_err();
    assert_eq!((refused.status(), refused.detail()), (400, "profit must be positive"));
    assert!(state.list_intents().is_empty());
    assert_eq!(state.next_index, 0);
    let refused = state
        .submit_intents_bulk(vec![wish(1.0, &["A"]), wish(-f64::NAN, &["B"])])
        .unwrap_err();
    assert_eq!(refused, Rejection::ProfitNotPositive);
    assert_eq!(state.next_index, 1);
    assert_eq!(f(state.compare().greedy_profit), 1.0);
}
