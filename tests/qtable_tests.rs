use blackjack_rl::blackjack_agent::{BlackjackAction, BlackjackState};
use blackjack_rl::qtable::{step_toward, QTable, StateAction, VALUE_SCALE};

fn pair(player: u8, dealer: u8, action: BlackjackAction) -> StateAction<BlackjackState, BlackjackAction> {
    StateAction { agent_state: BlackjackState { player, dealer, ace: false }, action }
}

#[test]
fn unseen_pairs_have_the_default_and_no_count() {
    let table: QTable<BlackjackState, BlackjackAction> = QTable::new(7);
    let sa = pair(15, 4, BlackjackAction::Hit);
    assert_eq!(table.get_value(&sa), 7);
    assert_eq!(table.get_count(&sa), 0);
    assert!(table.get_all_values().is_empty());
}

#[test]
fn repeated_updates_count_each_call_and_keep_the_last_value() {
    let mut table: QTable<BlackjackState, BlackjackAction> = QTable::new(0);
    let sa = pair(15, 4, BlackjackAction::Hit);
    let other = pair(15, 4, BlackjackAction::Stand);
    let values = [5, -3, 12, 40, -7];
    for (n, v) in values.iter().enumerate() {
        table.update_value(&sa, *v);
        assert_eq!(table.get_count(&sa), n + 1);
        assert_eq!(table.get_value(&sa), *v);
    }
    assert_eq!(table.get_count(&other), 0);
    assert_eq!(table.get_value(&other), 0);
}

#[test]
fn greedy_action_is_the_one_with_the_largest_value() {
    let mut table: QTable<BlackjackState, BlackjackAction> = QTable::new(0);
    let state = BlackjackState { player: 16, dealer: 10, ace: false };
    assert_eq!(table.select_greedy_action(&state), None);
    table.update_value(&pair(16, 10, BlackjackAction::Hit), -200);
    assert_eq!(table.select_greedy_action(&state), Some(BlackjackAction::Hit));
    table.update_value(&pair(16, 10, BlackjackAction::Stand), -100);
    assert_eq!(table.select_greedy_action(&state), Some(BlackjackAction::Stand));
    table.update_value(&pair(16, 10, BlackjackAction::Hit), 300);
    assert_eq!(table.select_greedy_action(&state), Some(BlackjackAction::Hit));
    let other = BlackjackState { player: 16, dealer: 9, ace: false };
    assert_eq!(table.select_greedy_action(&other), None);
}

#[test]
fn all_values_are_listed_from_the_largest_down() {
    let mut table: QTable<BlackjackState, BlackjackAction> = QTable::new(0);
    table.update_value(&pair(12, 2, BlackjackAction::Hit), 10);
    table.update_value(&pair(13, 2, BlackjackAction::Hit), 30);
    table.update_value(&pair(14, 2, BlackjackAction::Stand), -5);
    table.update_value(&pair(12, 2, BlackjackAction::Hit), 20);
    let all = table.get_all_values();
    let values: Vec<i64> = all.iter().map(|(_, v)| *v).collect();
    assert_eq!(values, vec![30, 20, -5]);
    assert_eq!(all[0].0, pair(13, 2, BlackjackAction::Hit));
    assert_eq!(all[1].0, pair(12, 2, BlackjackAction::Hit));
}

#[test]
fn sample_average_step_values() {
    assert_eq!(step_toward(0, VALUE_SCALE, 0), VALUE_SCALE);
    assert_eq!(step_toward(0, VALUE_SCALE, 1), 500_000);
    assert_eq!(step_toward(0, -VALUE_SCALE, 2), -333_333);
    assert_eq!(step_toward(500_000, 0, 3), 375_000);
    assert_eq!(step_toward(-1, 0, 1), -1);
}

#[test]
fn interleaved_updates_count_only_their_own_pair() {
    let mut table: QTable<BlackjackState, BlackjackAction> = QTable::new(0);
    let sa = pair(13, 7, BlackjackAction::Stand);
    let other = pair(13, 7, BlackjackAction::Hit);
    let values = [9, -2, 4];
    for (n, v) in values.iter().enumerate() {
        table.update_value(&other, 100 + *v);
        table.update_value(&sa, *v);
        table.update_value(&other, -100);
        assert_eq!(table.get_count(&sa), n + 1);
        assert_eq!(table.get_value(&sa), *v);
    }
    assert_eq!(table.get_count(&other), 6);
    assert_eq!(table.get_value(&other), -100);
}
