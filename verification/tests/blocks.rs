//! Blocks and proposals.
use std::collections::HashMap;

use flashpoint::block::{build_block, default_algorithm, default_fee_rate, prepare_proposal, BlockResponse};
use flashpoint::double::Double;
use flashpoint::engine;
use flashpoint::events::{
    block_built, process_proposal, proposal_prepared, scheduled_block_built, Event,
};
use flashpoint::intent::{Intent, SubmitIntent};
use flashpoint::mempool::AppState;
use flashpoint::rejection::Rejection;

fn d(x: f64) -> Double {
    Double::from_bits(x.to_bits())
}

fn f(x: Double) -> f64 {
    f64::from_bits(x.bits)
}

fn submit(state: &mut AppState, profit: f64, resources: &[&str], client: Option<&str>) {
    let accepted = state.submit_intent(SubmitIntent {
        profit: d(profit),
        resources: resources.iter().map(|r| r.to_string()).collect(),
        client_id: client.map(|c| c.to_string()),
    });
    assert!(accepted.is_ok());
}

fn close(a: f64, b: f64) -> bool {
    (a - b).abs() <= 1e-9
}

fn profits(block: &BlockResponse) -> Vec<f64> {
    block.selected.iter().map(|p| f(p.profit)).collect()
}

#[test]
fn build_block_invalid_algorithm_400() {
    let state = AppState::new();
    let refused = state.build_block("bad", d(0.1)).unwrap_err();
    assert_eq!(refused, Rejection::UnknownAlgorithm);
    assert_eq!(refused.status(), 400);
    assert_eq!(refused.detail(), "algorithm must be 'fifo' or 'greedy'");
    assert_eq!(refused.span_message(), Some("invalid algorithm"));
}

#[test]
fn build_block_invalid_fee_rate_400() {
    let state = AppState::new();
    for rate in [-0.1, 1.1] {
        let refused = state.build_block("greedy", d(rate)).unwrap_err();
        assert_eq!(refused, Rejection::FeeRateOutOfRange);
        assert_eq!(refused.status(), 400);
        assert_eq!(refused.detail(), "fee_rate must be between 0.0 and 1.0");
        assert_eq!(refused.span_message(), Some("invalid fee_rate"));
    }
    for rate in [f64::NAN, -f64::NAN, f64::INFINITY, f64::NEG_INFINITY, 1.0000000000000002, -5e-324] {
        for algorithm in ["fifo", "greedy"] {
            let refused = state.build_block(algorithm, d(rate)).unwrap_err();
            assert_eq!(refused, Rejection::FeeRateOutOfRange);
        }
    }
    for rate in [0.0, -0.0, 1.0] {
        assert!(state.build_block("greedy", d(rate)).is_ok());
    }
}

#[test]
fn parity_simple_intents_and_build_block() {
    let mut state = AppState::new();
    submit(&mut state, 10.0, &["pair:ETH/USDC"], None);
    submit(&mut state, 20.0, &["dex:uniswap"], None);
    let listed = state.list_intents();
    assert_eq!(listed.len(), 2);
    assert_eq!(f(listed[0].profit), 10.0);
    assert_eq!(listed[0].resources, vec!["pair:ETH/USDC".to_string()]);
    assert_eq!(listed[0].client_id, None);
    assert_eq!(listed[0].arrival_index, Some(0));
    assert_eq!(f(listed[1].profit), 20.0);
    assert_eq!(listed[1].resources, vec!["dex:uniswap".to_string()]);
    assert_eq!(listed[1].arrival_index, Some(1));

    let block = state.build_block("greedy", d(0.1)).unwrap();
    assert_eq!(block.algorithm, "greedy");
    assert!(close(f(block.fee_rate), 0.1));
    assert!(close(f(block.baseline_fifo_profit), 30.0));
    assert!(close(f(block.total_profit), 30.0));
    assert!(close(f(block.surplus), 0.0));
    assert!(close(f(block.sequencer_fee), 0.0));
    assert_eq!(profits(&block), vec![20.0, 10.0]);
    for p in &block.selected {
        assert_eq!(f(p.fee_share), 0.0);
        assert_eq!(f(p.trader_profit), f(p.profit));
    }
    assert_eq!(block.selected[0].arrival_index, Some(1));
    assert_eq!(block.selected[1].arrival_index, Some(0));
}

#[test]
fn parity_conflict_build_block() {
    let mut state = AppState::new();
    submit(&mut state, 10.0, &["pair:ETH/USDC"], None);
    submit(&mut state, 20.0, &["dex:uniswap"], None);
    submit(&mut state, 25.0, &["pair:ETH/USDC"], None);
    let block = state.build_block("greedy", d(0.1)).unwrap();
    assert_eq!(block.algorithm, "greedy");
    assert!(close(f(block.baseline_fifo_profit), 30.0));
    assert!(close(f(block.total_profit), 45.0));
    assert!(close(f(block.surplus), 15.0));
    assert!(close(f(block.sequencer_fee), 1.5));
    assert_eq!(profits(&block), vec![25.0, 20.0]);
    assert_eq!(block.selected[0].arrival_index, Some(2));
    assert_eq!(block.selected[0].resources, vec!["pair:ETH/USDC".to_string()]);
    assert_eq!(block.selected[1].arrival_index, Some(1));
    let fee = 15.0 * 0.1;
    assert_eq!(f(block.selected[0].fee_share), fee * (25.0 / 45.0));
    assert_eq!(f(block.selected[0].trader_profit), 25.0 - fee * (25.0 / 45.0));
    assert_eq!(f(block.selected[1].fee_share), fee * (20.0 / 45.0));
    assert_eq!(f(block.selected[1].trader_profit), 20.0 - fee * (20.0 / 45.0));
}

#[test]
fn fairness_gini_in_range() {
    let mut state = AppState::new();
    for (profit, client, resource) in [
        (10.0, "a", "pair:X/1"),
        (20.0, "b", "pair:X/2"),
        (15.0, "a", "pair:X/3"),
        (5.0, "c", "pair:X/4"),
        (12.0, "b", "pair:X/5"),
    ] {
        submit(&mut state, profit, &[resource], Some(client));
    }
    let block = state.build_block("greedy", d(0.1)).unwrap();
    let mut by_client: HashMap<String, f64> = HashMap::new();
    for p in &block.selected {
        let name = p.client_id.clone().unwrap_or_default();
        *by_client.entry(name).or_insert(0.0) += f(p.trader_profit);
    }
    let mut values: Vec<f64> = by_client.into_values().collect();
    values.sort_by(|a, b| a.partial_cmp(b).unwrap());
    let sum: f64 = values.iter().sum();
    assert_eq!(values, vec![5.0, 25.0, 32.0]);
    let n = values.len() as f64;
    let mut weighted = 0.0f64;
    for (i, x) in values.iter().enumerate() {
        weighted += ((i as f64) + 1.0) * *x;
    }
    let gini = (2.0 * weighted) / (n * sum) - (n + 1.0) / n;
    assert!(gini.is_finite());
}

#[test]
fn abci_prepare_fifo_truncation_and_payouts() {
    let mut state = AppState::new();
    submit(&mut state, 10.0, &["X"], Some("c1"));
    submit(&mut state, 8.0, &["Y"], Some("c2"));
    submit(&mut state, 5.0, &["X"], Some("c3"));
    submit(&mut state, 1.0, &["Z"], Some("c4"));
    let block = state.prepare_proposal("fifo", d(0.5), Some(3));
    assert_eq!(f(block.baseline_fifo_profit), f(block.total_profit));
    assert_eq!(f(block.surplus), 0.0);
    assert_eq!(f(block.sequencer_fee), 0.0);
    assert_eq!(block.selected.len(), 2);
    for p in &block.selected {
        assert_eq!(f(p.fee_share), 0.0);
        assert!((f(p.trader_profit) - f(p.profit).max(0.0)).abs() < 1e-9);
    }
}

#[test]
fn abci_prepare_greedy_surplus_and_fee_distribution() {
    let mut state = AppState::new();
    submit(&mut state, 5.0, &["X"], Some("i1"));
    submit(&mut state, 9.0, &["X"], Some("i2"));
    submit(&mut state, 8.0, &["Y"], Some("i3"));
    let block = state.prepare_proposal("greedy", d(0.25), None);
    assert!((f(block.baseline_fifo_profit) - 13.0).abs() < 1e-9);
    assert!((f(block.total_profit) - 17.0).abs() < 1e-9);
    assert!((f(block.surplus) - 4.0).abs() < 1e-9);
    let fee = f(block.sequencer_fee);
    assert!((fee - 1.0).abs() < 1e-9);
    let shared: f64 = block.selected.iter().map(|p| f(p.fee_share)).sum();
    assert!((shared - fee).abs() < 1e-9);
    let gross: f64 = block.selected.iter().map(|p| f(p.profit).max(0.0)).sum();
    for p in &block.selected {
        let gain = f(p.profit).max(0.0);
        let expected = if gross > 0.0 { fee * (gain / gross) } else { 0.0 };
        assert!((f(p.fee_share) - expected).abs() < 1e-9);
    }
}

#[test]
fn abci_prepare_and_process_smoke() {
    let mut state = AppState::new();
    submit(&mut state, 10.0, &["pair:ETH/USDC"], Some("a"));
    submit(&mut state, 20.0, &["dex:uniswap"], Some("b"));
    let block = state.prepare_proposal("greedy", d(0.1), Some(1));
    assert_eq!(block.algorithm, "greedy");
    assert_eq!(f(block.fee_rate), 0.1);
    assert!(block.selected.len() <= 1);
    assert_eq!(block.selected[0].arrival_index, Some(0));
    let (accepted, _) = process_proposal("greedy".to_string(), d(0.1));
    assert!(accepted);
}

#[test]
fn abci_process_proposal_accepts_and_emits() {
    let (accepted, event) = process_proposal("fifo".to_string(), d(0.0));
    assert!(accepted);
    assert_eq!(event.label(), "abci_process_proposal");
    match event {
        Event::ProposalProcessed { algorithm, fee_rate, accepted } => {
            assert_eq!(algorithm, "fifo");
            assert_eq!(f(fee_rate), 0.0);
            assert!(accepted);
        }
        other => panic!("{other:?}"),
    }
}

#[test]
fn abci_prepare_event_emission_trace_id() {
    let mut state = AppState::new();
    submit(&mut state, 3.0, &["A"], Some("a"));
    submit(&mut state, 2.0, &["B"], Some("b"));
    let block = state.prepare_proposal("fifo", d(0.1), None);
    let event = proposal_prepared(&block);
    assert_eq!(event.label(), "abci_prepare_proposal");
    assert!(event.traced());
    match event {
        Event::ProposalPrepared { algorithm, fee_rate, selected_count } => {
            assert_eq!(algorithm, "fifo");
            assert_eq!(f(fee_rate), 0.1);
            assert!(selected_count >= 1);
            assert_eq!(selected_count, 2);
        }
        other => panic!("{other:?}"),
    }
}

#[test]
fn scheduler_emits_event_and_basic_fairness() {
    let mut state = AppState::new();
    submit(&mut state, 3.0, &["A"], Some("a1"));
    submit(&mut state, 2.0, &["B"], Some("b1"));
    submit(&mut state, 1.0, &["A"], Some("a2"));
    let block = state.scheduled_block(d(0.1));
    let event = scheduled_block_built(block);
    assert!(matches!(event, Event::ScheduledBlockBuilt { block: told } if told.selected_count == 2));
    assert_eq!(event.label(), "scheduled_block_built");
    assert!(event.traced());
    let fifo = f(block.baseline_fifo_profit);
    let total = f(block.total_profit);
    let surplus = f(block.surplus);
    let fee = f(block.sequencer_fee);
    assert!(total >= fifo, "greedy should not underperform FIFO");
    assert!(surplus >= 0.0 && (surplus - (total - fifo)).abs() < 1e-9);
    assert!((fee - surplus * 0.1).abs() < 1e-9);
    assert!(block.selected_count >= 1);
    assert_eq!(block.selected_count, 2);
    assert_eq!(total, 5.0);
}

#[test]
fn scheduler_emits_scheduled_block_events() {
    let state = AppState::new();
    let block = state.scheduled_block(default_fee_rate());
    assert_eq!(block.selected_count, 0);
    assert_eq!(f(block.fee_rate), 0.1);
    assert_eq!(f(block.sequencer_fee), 0.0);
    assert_eq!(scheduled_block_built(block).label(), "scheduled_block_built");
}

#[test]
fn scheduled_numbers_are_those_of_a_greedy_block() {
    let mut state = AppState::new();
    submit(&mut state, 5.0, &["X"], None);
    submit(&mut state, 9.0, &["X"], None);
    submit(&mut state, 8.0, &["Y"], None);
    let scheduled = state.scheduled_block(d(0.25));
    let block = state.build_block("greedy", d(0.25)).unwrap();
    assert_eq!(scheduled.total_profit.bits, block.total_profit.bits);
    assert_eq!(scheduled.baseline_fifo_profit.bits, block.baseline_fifo_profit.bits);
    assert_eq!(scheduled.surplus.bits, block.surplus.bits);
    assert_eq!(scheduled.sequencer_fee.bits, block.sequencer_fee.bits);
    assert_eq!(scheduled.selected_count, block.selected.len());
    let both = state.compare();
    assert_eq!(both.greedy_profit.bits, block.total_profit.bits);
    assert_eq!(both.fifo_profit.bits, block.baseline_fifo_profit.bits);
    let proposed = state.prepare_proposal("greedy", d(0.25), None);
    assert_eq!(profits(&proposed), profits(&block));
    for (a, b) in proposed.selected.iter().zip(block.selected.iter()) {
        assert_eq!(a.fee_share.bits, b.fee_share.bits);
        assert_eq!(a.trader_profit.bits, b.trader_profit.bits);
    }
}

#[test]
fn a_block_is_told_of() {
    let mut state = AppState::new();
    submit(&mut state, 5.0, &["X"], None);
    submit(&mut state, 9.0, &["X"], None);
    let block = state.build_block("greedy", d(0.5)).unwrap();
    let event = block_built(&block);
    assert_eq!(event.label(), "block_built");
    match event {
        Event::BlockBuilt { result } => {
            assert_eq!(result.algorithm, "greedy");
            assert_eq!(f(result.fee_rate), 0.5);
            assert_eq!(f(result.baseline_fifo_profit), 5.0);
            assert_eq!(f(result.total_profit), 9.0);
            assert_eq!(f(result.surplus), 4.0);
            assert_eq!(f(result.sequencer_fee), 2.0);
            assert_eq!(result.selected.len(), 1);
            assert_eq!(f(result.selected[0].profit), 9.0);
            assert_eq!(result.selected[0].resources, vec!["X".to_string()]);
            assert_eq!(result.selected[0].arrival_index, Some(1));
            assert_eq!(f(result.selected[0].fee_share), 2.0);
            assert_eq!(f(result.selected[0].trader_profit), 7.0);
        }
        other => panic!("{other:?}"),
    }
}

#[test]
fn fees_stay_within_the_surplus() {
    let mut state = AppState::new();
    submit(&mut state, 0.1, &["X"], None);
    submit(&mut state, 0.7, &["X"], None);
    submit(&mut state, 0.3, &["Y"], None);
    submit(&mut state, 0.2, &["Z"], None);
    for rate in [0.0, 0.05, 0.3, 1.0] {
        let block = state.build_block("greedy", d(rate)).unwrap();
        assert!(f(block.sequencer_fee) >= 0.0);
        assert!(f(block.sequencer_fee) <= f(block.surplus));
        let mut last = f64::INFINITY;
        for p in &block.selected {
            assert!(f(p.fee_share) >= 0.0 && f(p.fee_share) <= f(block.sequencer_fee));
            assert!(f(p.trader_profit) <= f(p.profit));
            assert!(f(p.fee_share) <= last);
            last = f(p.fee_share);
        }
    }
}

#[test]
fn fifo_blocks_have_no_surplus() {
    let mut state = AppState::new();
    submit(&mut state, 0.1, &["X"], None);
    submit(&mut state, 0.7, &["X"], None);
    let block = state.build_block("fifo", d(1.0)).unwrap();
    assert_eq!(block.total_profit.bits, block.baseline_fifo_profit.bits);
    assert_eq!(block.surplus.bits, 0);
    assert_eq!(block.sequencer_fee.bits, 0);
    assert_eq!(block.selected[0].fee_share.bits, 0);
    assert_eq!(f(block.selected[0].trader_profit), 0.1);
}

#[test]
fn blocks_without_profit() {
    let items = vec![Intent {
        profit: d(-2.0),
        resources: vec!["X".to_string()],
        client_id: None,
        arrival_index: Some(0),
    }];
    let built = build_block(&items, "greedy", d(0.5)).unwrap();
    assert_eq!(f(built.selected[0].fee_share), 0.0);
    assert_eq!(f(built.selected[0].trader_profit), 0.0);
    let proposed = prepare_proposal(&items, "anything", d(0.5), None);
    assert_eq!(proposed.algorithm, "anything");
    assert_eq!(f(proposed.selected[0].fee_share), 0.0);
    let empty = build_block(&Vec::new(), "fifo", d(0.5)).unwrap();
    assert!(empty.selected.is_empty());
    assert_eq!(f(empty.total_profit), 0.0);
}

#[test]
fn a_proposal_takes_the_earliest() {
    let mut state = AppState::new();
    submit(&mut state, 1.0, &["A"], None);
    submit(&mut state, 2.0, &["B"], None);
    submit(&mut state, 3.0, &["C"], None);
    assert_eq!(profits(&state.prepare_proposal("greedy", d(0.1), Some(2))), vec![2.0, 1.0]);
    assert_eq!(profits(&state.prepare_proposal("greedy", d(0.1), Some(0))), Vec::<f64>::new());
    assert_eq!(profits(&state.prepare_proposal("greedy", d(0.1), Some(9))), vec![3.0, 2.0, 1.0]);
    assert_eq!(profits(&state.prepare_proposal("fifo", d(0.1), None)), vec![1.0, 2.0, 3.0]);
}

#[test]
fn defaults_of_a_block() {
    assert_eq!(default_algorithm(), "greedy");
    assert_eq!(f(default_fee_rate()), 0.1);
}

#[test]
fn the_engine_selects_like_a_block() {
    let items = vec![
        Intent { profit: d(5.0), resources: vec!["X".to_string()], client_id: None, arrival_index: Some(0) },
        Intent { profit: d(9.0), resources: vec!["X".to_string()], client_id: None, arrival_index: Some(1) },
    ];
    let (selected, profit, name) = engine::build_block(&items, "fifo");
    assert_eq!((selected.len(), f(profit), name.as_str()), (1, 5.0, "fifo"));
    let (selected, profit, name) = engine::build_block(&items, "whatever");
    assert_eq!((f(selected[0].profit), f(profit), name.as_str()), (9.0, 9.0, "whatever"));
}

#[test]
fn the_engine_names_missing_fields() {
    let names = || Some(vec!["X".to_string()]);
    let missing = engine::parse_intent(None, None, None, None).unwrap_err();
    assert_eq!((missing, missing.message()), (engine::MissingField::Profit, "missing profit"));
    let missing = engine::parse_intent(None, names(), None, Some(1)).unwrap_err();
    assert_eq!(missing, engine::MissingField::Profit);
    let missing = engine::parse_intent(Some(d(1.0)), None, None, None).unwrap_err();
    assert_eq!((missing, missing.message()), (engine::MissingField::Resources, "missing resources"));
    let it = engine::parse_intent(Some(d(1.5)), names(), Some("c".to_string()), Some(7)).unwrap();
    assert_eq!(f(it.profit), 1.5);
    assert_eq!(it.resources, vec!["X".to_string()]);
    assert_eq!(it.client_id, Some("c".to_string()));
    assert_eq!(it.arrival_index, Some(7));
    let it = engine::parse_intent(Some(d(1.5)), names(), None, None).unwrap();
    assert_eq!((it.client_id, it.arrival_index), (None, None));
}

fn priced(profit: f64, resource: &str) -> Intent {
    Intent {
        profit: d(profit),
        resources: vec![resource.to_string()],
        client_id: Some(resource.to_string()),
        arrival_index: None,
    }
}

#[test]
fn the_engine_keeps_the_order_where_profits_do_not_differ() {
    let items = vec![priced(2.0, "A"), priced(f64::NAN, "B"), priced(2.0, "C"), priced(f64::NAN, "A")];
    assert!(engine::is_orderable(&items));
    let (selected, profit, _) = engine::build_block(&items, "greedy");
    let names: Vec<String> = selected.iter().map(|it| it.resources[0].clone()).collect();
    assert_eq!(names, vec!["A", "B", "C"]);
    assert_eq!(f(profit), 4.0);
    let pair = vec![priced(f64::NAN, "A"), priced(1.0, "B")];
    assert!(engine::is_orderable(&pair));
    assert!(engine::build_block(&pair, "greedy").0[0].profit.is_nan());
    assert!(engine::is_orderable(&vec![priced(0.0, "A"), priced(f64::NAN, "B"), priced(-0.0, "C")]));
    assert!(!engine::is_orderable(&vec![priced(1.0, "A"), priced(f64::NAN, "B"), priced(2.0, "C")]));
    assert!(engine::is_orderable(&vec![priced(1.0, "A"), priced(2.0, "C")]));
    let level = vec![priced(3.0, "B"), priced(3.0, "A")];
    assert_eq!(engine::build_block(&level, "greedy").0[0].resources[0], "B");
}

/// A mempool with awkward profits and some conflicts.
fn awkward() -> AppState {
    let mut state = AppState::new();
    let mut seed: u64 = 0x2545_f491_4f6c_dd1d;
    for i in 0..120u64 {
        seed ^= seed << 13;
        seed ^= seed >> 7;
        seed ^= seed << 17;
        let profit = ((seed % 100_000) as f64 + 1.0) / 997.0;
        let name = format!("r{}", (seed >> 20) % 60);
        submit(&mut state, profit, &[name.as_str()], None);
        assert_eq!(state.next_index, i + 1);
    }
    state
}

#[test]
fn shares_sum_to_the_fee_but_for_rounding() {
    let state = awkward();
    for rate in [0.1, 0.37, 1.0] {
        let block = state.build_block("greedy", d(rate)).unwrap();
        let fee = f(block.sequencer_fee);
        assert!(fee > 0.0);
        let n = block.selected.len() as f64;
        let shared: f64 = block.selected.iter().map(|p| f(p.fee_share)).sum();
        // The sum that is taken here is rounded too, once for every share.
        assert!((shared - fee).abs() <= (4.0 * n + 5.0) * fee / 9007199254740992.0);
        for p in &block.selected {
            let rest = f(p.profit) - f(p.fee_share);
            assert_eq!(f(p.trader_profit), rest);
        }
    }
}

#[test]
fn no_trader_loses_to_half_of_the_total() {
    let state = awkward();
    let block = state.build_block("greedy", d(0.5)).unwrap();
    assert!(2.0 * f(block.sequencer_fee) <= f(block.total_profit));
    for p in &block.selected {
        assert!(f(p.fee_share) <= f(p.profit));
        assert!(f(p.trader_profit) >= 0.0);
    }
}

#[test]
fn totals_are_near_the_exact_sum() {
    let mut state = AppState::new();
    for name in ["a", "b", "c", "d", "e", "f", "g", "h", "i", "j"] {
        submit(&mut state, 0.1, &[name], None);
    }
    let total = f(state.compare().fifo_profit);
    assert_eq!(total, 0.9999999999999999);
    assert!((total - 1.0).abs() <= 10.0 * total / 4503599627370496.0);
}

#[test]
fn another_intent_never_lowers_the_total() {
    let mut state = AppState::new();
    let mut last = 0.0;
    for (i, profit) in [0.1, 1e-300, 1e16, 3.0, 5e-324].iter().enumerate() {
        let name = format!("r{i}");
        submit(&mut state, *profit, &[name.as_str()], None);
        let total = f(state.compare().fifo_profit);
        assert!(total >= last);
        last = total;
    }
}
