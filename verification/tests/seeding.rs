//! Seeding the mempool.
use flashpoint::double::Double;
use flashpoint::mempool::AppState;
use flashpoint::rejection::Rejection;
use flashpoint::seed::{
    check_seed, default_max_profit, default_min_profit, default_seed_count, make_seeded, SeedDraw,
    SeedRequest,
};

fn d(x: f64) -> Double {
    Double::from_bits(x.to_bits())
}

fn f(x: Double) -> f64 {
    f64::from_bits(x.bits)
}

fn ask(count: i32, min: f64, max: f64, pool: Option<&[&str]>) -> SeedRequest {
    SeedRequest {
        count,
        min_profit: d(min),
        max_profit: d(max),
        resource_pool: pool.map(|p| p.iter().map(|r| r.to_string()).collect()),
    }
}

#[test]
fn defaults_of_a_seed() {
    assert_eq!(default_seed_count(), 50);
    assert_eq!(f(default_min_profit()), 5.0);
    assert_eq!(f(default_max_profit()), 120.0);
    let pool = check_seed(&ask(50, 5.0, 120.0, None)).unwrap();
    assert_eq!(
        pool,
        vec![
            "pair:ETH/USDC",
            "pair:WBTC/ETH",
            "pair:SOL/USDC",
            "dex:uniswap",
            "dex:curve",
            "bridge:wormhole",
            "bridge:layerzero",
        ]
    );
}

#[test]
fn each_refusal_of_a_seed() {
    for (req, why, detail) in [
        (ask(0, 5.0, 9.0, None), Rejection::CountNotPositive, "count must be positive"),
        (ask(-3, 0.0, 9.0, Some(&[])), Rejection::CountNotPositive, "count must be positive"),
        (ask(1, 0.0, 9.0, None), Rejection::InvalidProfitRange, "invalid profit range"),
        (ask(1, 5.0, -1.0, None), Rejection::InvalidProfitRange, "invalid profit range"),
        (ask(1, 9.0, 5.0, Some(&[])), Rejection::InvalidProfitRange, "invalid profit range"),
        (ask(1, 5.0, 9.0, Some(&[])), Rejection::EmptyResourcePool, "resource pool must be non-empty"),
    ] {
        let refused = check_seed(&req).unwrap_err();
        assert_eq!(refused, why);
        assert_eq!((refused.status(), refused.detail()), (400, detail));
        assert_eq!(refused.span_message(), None);
        let mut state = AppState::new();
        let draws = Vec::new();
        assert_eq!(state.seed_mempool(&req, &draws).unwrap_err(), why);
        assert!(state.list_intents().is_empty());
    }
    assert!(check_seed(&ask(1, 5.0, 5.0, Some(&["a"]))).is_ok());
}

#[test]
fn a_draw_becomes_a_submission() {
    let choices: Vec<String> = vec!["c".to_string(), "a".to_string(), "b".to_string()];
    let one = make_seeded(7, SeedDraw { profit: d(12.3456), single: true }, &choices);
    assert_eq!(f(one.profit), (12.3456f64 * 100.0).round() / 100.0);
    assert_eq!(f(one.profit), 12.35);
    assert_eq!(one.resources, vec!["c".to_string()]);
    assert_eq!(one.client_id, Some("seed-2".to_string()));
    let two = make_seeded(4, SeedDraw { profit: d(2.0), single: false }, &choices);
    assert_eq!(two.resources, vec!["c".to_string(), "a".to_string()]);
    assert_eq!(two.client_id, Some("seed-4".to_string()));
    let short: Vec<String> = vec!["x".to_string()];
    let kept = make_seeded(0, SeedDraw { profit: d(2.0), single: false }, &short);
    assert_eq!(kept.resources, vec!["x".to_string()]);
    assert_eq!(kept.client_id, Some("seed-0".to_string()));
}

#[test]
fn seeding_fills_the_mempool() {
    let pool = ["a", "b", "c", "d", "e", "f", "g", "h"];
    let req = ask(40, 1.0, 9.0, Some(&pool));
    let draws: Vec<SeedDraw> = (0..40)
        .map(|i| SeedDraw { profit: d(1.0 + i as f64 / 7.0), single: i % 2 == 0 })
        .collect();
    let mut state = AppState::new();
    let made = state.seed_mempool(&req, &draws).unwrap();
    assert_eq!(made.len(), 40);
    assert_eq!(state.list_intents().len(), 40);
    let mut firsts: Vec<String> = Vec::new();
    for (i, it) in made.iter().enumerate() {
        assert_eq!(f(it.profit), ((1.0 + i as f64 / 7.0) * 100.0).round() / 100.0);
        assert_eq!(it.client_id, Some(format!("seed-{}", i % 5)));
        assert_eq!(it.arrival_index, Some(i as u64));
        assert_eq!(it.resources.len(), if i % 2 == 0 { 1 } else { 2 });
        assert!(it.resources.iter().all(|r| pool.contains(&r.as_str())));
        if it.resources.len() == 2 {
            assert_ne!(it.resources[0], it.resources[1]);
        }
        firsts.push(it.resources[0].clone());
    }
    assert!(firsts.iter().any(|r| *r != firsts[0]), "the pool was not shuffled");
}

#[test]
fn too_many_seeds_are_refused_by_the_bulk_rule() {
    let req = ask(1001, 1.0, 9.0, None);
    let draws: Vec<SeedDraw> = (0..1001).map(|_| SeedDraw { profit: d(2.0), single: true }).collect();
    let mut state = AppState::new();
    assert_eq!(state.seed_mempool(&req, &draws).unwrap_err(), Rejection::TooManyIntents);
    assert!(state.list_intents().is_empty());
}

#[test]
fn profits_that_round_to_nothing_are_refused() {
    let req = ask(2, 0.001, 9.0, None);
    let draws = vec![
        SeedDraw { profit: d(2.0), single: true },
        SeedDraw { profit: d(0.004), single: true },
    ];
    let mut state = AppState::new();
    assert_eq!(state.seed_mempool(&req, &draws).unwrap_err(), Rejection::ProfitNotPositive);
    assert_eq!(state.list_intents().len(), 1);
}

#[test]
fn profits_in_cents_keep_their_order() {
    let choices: Vec<String> = vec!["a".to_string()];
    let mut last = 0.0;
    for i in 0..500 {
        let drawn = 0.37 * i as f64 / 41.0;
        let made = make_seeded(0, SeedDraw { profit: d(drawn), single: true }, &choices);
        let profit = f(made.profit);
        assert!(profit >= last);
        assert!((profit - drawn).abs() <= 0.0050001);
        last = profit;
    }
}
