//! Which intents are selected.
use flashpoint::double::Double;
use flashpoint::intent::{copy_intents, Intent};
use flashpoint::select::{arrival_order, fifo_select, greedy_select, total_profit};
use flashpoint::sorting::sorted_order;

fn intent(profit: f64, resources: &[&str], index: Option<u64>) -> Intent {
    Intent {
        profit: Double::from_bits(profit.to_bits()),
        resources: resources.iter().map(|r| r.to_string()).collect(),
        client_id: None,
        arrival_index: index,
    }
}

fn profits(list: &[Intent]) -> Vec<f64> {
    list.iter().map(|i| f64::from_bits(i.profit.bits)).collect()
}

fn value(x: Double) -> f64 {
    f64::from_bits(x.bits)
}

#[test]
fn first_come_first_served() {
    let items = vec![
        intent(5.0, &["Z"], None),
        intent(8.0, &["Y", "X"], Some(2)),
        intent(3.0, &["X"], Some(0)),
        intent(9.0, &["Y"], Some(1)),
    ];
    assert_eq!(arrival_order(&items), vec![2, 3, 1, 0]);
    assert_eq!(profits(&fifo_select(&items)), vec![3.0, 9.0, 5.0]);
}

#[test]
fn the_most_profitable_go_first() {
    let items = vec![
        intent(5.0, &["X"], Some(0)),
        intent(9.0, &["X"], Some(1)),
        intent(8.0, &["Y"], Some(2)),
        intent(7.0, &["Y", "Z"], Some(3)),
        intent(6.0, &["Z"], Some(4)),
    ];
    assert_eq!(profits(&greedy_select(&items)), vec![9.0, 8.0, 6.0]);
}

#[test]
fn equal_profits_keep_their_order() {
    let items = vec![
        intent(4.0, &["A"], Some(7)),
        intent(4.0, &["B"], Some(3)),
        intent(4.0, &["A"], Some(1)),
    ];
    let selected = greedy_select(&items);
    let indices: Vec<Option<u64>> = selected.iter().map(|i| i.arrival_index).collect();
    assert_eq!(indices, vec![Some(7), Some(3)]);
}

#[test]
fn nothing_to_select_from() {
    let none: Vec<Intent> = Vec::new();
    assert!(fifo_select(&none).is_empty());
    assert!(greedy_select(&none).is_empty());
    assert_eq!(value(total_profit(&none)), 0.0);
}

#[test]
fn an_intent_may_name_a_resource_twice() {
    let items = vec![intent(4.0, &["A", "A"], Some(0)), intent(3.0, &[], Some(1))];
    assert_eq!(greedy_select(&items).len(), 2);
}

#[test]
fn losses_do_not_count() {
    let items = vec![
        intent(1.25, &["A"], None),
        intent(-3.0, &["B"], None),
        intent(f64::NAN, &["C"], None),
        intent(2.5, &["D"], None),
    ];
    assert_eq!(value(total_profit(&items)), 3.75);
}

#[test]
fn selecting_again_changes_nothing_here() {
    let items = vec![
        intent(5.0, &["X"], Some(0)),
        intent(9.0, &["X", "Y"], Some(1)),
        intent(8.0, &["Y"], Some(2)),
        intent(1.0, &["Z"], Some(3)),
    ];
    let once = greedy_select(&items);
    let twice = greedy_select(&once);
    assert_eq!(profits(&once), vec![9.0, 1.0]);
    assert_eq!(profits(&twice), profits(&once));
}

#[test]
fn selected_intents_share_no_resource() {
    let names = ["a", "b", "c", "d", "e"];
    let mut items = Vec::new();
    let mut seed: u64 = 88172645463325252;
    for i in 0..200u64 {
        seed ^= seed << 13;
        seed ^= seed >> 7;
        seed ^= seed << 17;
        let first = names[(seed % 5) as usize];
        let second = names[(seed / 5 % 5) as usize];
        items.push(intent((seed % 1000) as f64 / 10.0 + 0.1, &[first, second], Some(i)));
    }
    for selected in [greedy_select(&items), fifo_select(&items)] {
        assert!(!selected.is_empty());
        for i in 0..selected.len() {
            for j in 0..i {
                assert!(!selected[i].resources.iter().any(|r| selected[j].resources.contains(r)));
            }
        }
        for it in &items {
            let kept = selected.iter().any(|s| s.arrival_index == it.arrival_index);
            let blocked = selected
                .iter()
                .any(|s| s.resources.iter().any(|r| it.resources.contains(r)));
            assert!(kept || blocked);
        }
    }
    let best = greedy_select(&items);
    let top = items.iter().map(|i| value(i.profit)).fold(0.0, f64::max);
    assert_eq!(value(best[0].profit), top);
}

#[test]
fn greedy_wins_where_all_conflict() {
    let items = vec![
        intent(5.0, &["X"], Some(0)),
        intent(9.0, &["X"], Some(1)),
        intent(8.0, &["X"], Some(2)),
    ];
    assert_eq!(value(total_profit(&fifo_select(&items))), 5.0);
    assert_eq!(value(total_profit(&greedy_select(&items))), 9.0);
}

#[test]
fn greedy_can_earn_less_than_fifo() {
    let items = vec![
        intent(9.0, &["X"], Some(0)),
        intent(9.0, &["Y"], Some(1)),
        intent(10.0, &["X", "Y"], Some(2)),
    ];
    assert_eq!(value(total_profit(&fifo_select(&items))), 18.0);
    assert_eq!(value(total_profit(&greedy_select(&items))), 10.0);
}

#[test]
fn sorting_is_stable_and_lexicographic() {
    let keys: Vec<(u64, i64)> = vec![(2, 0), (1, 5), (1, -5), (2, 0), (0, i64::MAX), (1, -5)];
    assert_eq!(sorted_order(&keys), vec![4, 2, 5, 1, 0, 3]);
}

#[test]
fn sorting_agrees_with_the_standard_library() {
    let mut seed: u64 = 1442695040888963407;
    for n in 0..60usize {
        let mut keys: Vec<(u64, i64)> = Vec::new();
        for _ in 0..n {
            seed = seed.wrapping_mul(6364136223846793005).wrapping_add(1442695040888963407);
            keys.push((seed >> 60, (seed >> 40) as i64 % 5 - 2));
        }
        let mut expected: Vec<usize> = (0..n).collect();
        expected.sort_by_key(|i| keys[*i]);
        assert_eq!(sorted_order(&keys), expected);
    }
}

#[test]
fn copies_are_equal() {
    let items = vec![intent(5.0, &["X", "Y"], Some(3)), intent(1.0, &[], None)];
    let copies = copy_intents(&items);
    assert_eq!(profits(&copies), vec![5.0, 1.0]);
    assert_eq!(copies[0].resources, vec!["X".to_string(), "Y".to_string()]);
    assert_eq!(copies[0].arrival_index, Some(3));
    assert_eq!(copies[1].arrival_index, None);
}

#[test]
fn greedy_is_near_the_best_choice() {
    // One intent with three resources blocks three that earn almost as much.
    let items = vec![
        intent(10.0, &["X", "Y", "Z"], Some(0)),
        intent(9.0, &["X"], Some(1)),
        intent(9.0, &["Y"], Some(2)),
        intent(9.0, &["Z"], Some(3)),
    ];
    let greedy = value(total_profit(&greedy_select(&items)));
    let best = 27.0;
    assert_eq!(greedy, 10.0);
    assert!(best <= 3.0 * greedy);
}
