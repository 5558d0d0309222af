use blackjack_rl::blackjack_agent::{BlackjackAction, BlackjackState};
use blackjack_rl::blackjack_policy::{
    choose_action, e_greedy_policy, epsilon, greedy_policy, random_policy, EpsilonSchedule,
};
use blackjack_rl::qtable::{QTable, StateAction};

fn state(player: u8, dealer: u8) -> BlackjackState {
    BlackjackState { player, dealer, ace: false }
}

#[test]
fn forced_actions_below_twelve_and_on_twenty_one() {
    let table: QTable<BlackjackState, BlackjackAction> = QTable::new(0);
    let always = EpsilonSchedule::Constant { numerator: 1, denominator: 1 };
    for _ in 0..20 {
        assert_eq!(e_greedy_policy(&state(11, 5), &table, 0, &always), BlackjackAction::Hit);
        assert_eq!(e_greedy_policy(&state(21, 5), &table, 0, &always), BlackjackAction::Stand);
        assert_eq!(greedy_policy(&state(4, 5), &table, 0), BlackjackAction::Hit);
        assert_eq!(greedy_policy(&state(21, 10), &table, 0), BlackjackAction::Stand);
        assert_eq!(random_policy(&state(9, 5), &table, 0), BlackjackAction::Hit);
        assert_eq!(random_policy(&state(21, 2), &table, 0), BlackjackAction::Stand);
    }
}

#[test]
fn choice_follows_exploration_and_the_table() {
    let s = state(15, 10);
    assert_eq!(choose_action(&s, true, BlackjackAction::Stand, Some(BlackjackAction::Hit)), BlackjackAction::Stand);
    assert_eq!(choose_action(&s, false, BlackjackAction::Stand, Some(BlackjackAction::Hit)), BlackjackAction::Hit);
    assert_eq!(choose_action(&s, false, BlackjackAction::Stand, None), BlackjackAction::Stand);
    assert_eq!(choose_action(&state(10, 10), true, BlackjackAction::Stand, None), BlackjackAction::Hit);
    assert_eq!(choose_action(&state(21, 10), false, BlackjackAction::Hit, Some(BlackjackAction::Hit)), BlackjackAction::Stand);
}

#[test]
fn greedy_policies_follow_the_table_without_exploration() {
    let mut table: QTable<BlackjackState, BlackjackAction> = QTable::new(0);
    let s = state(14, 6);
    table.update_value(&StateAction { agent_state: s, action: BlackjackAction::Stand }, 40);
    table.update_value(&StateAction { agent_state: s, action: BlackjackAction::Hit }, -40);
    let never = EpsilonSchedule::Constant { numerator: 0, denominator: 1 };
    for episode in 0..20 {
        assert_eq!(e_greedy_policy(&s, &table, episode, &never), BlackjackAction::Stand);
        assert_eq!(greedy_policy(&s, &table, episode), BlackjackAction::Stand);
    }
}

#[test]
fn epsilon_schedules() {
    assert_eq!(epsilon(&EpsilonSchedule::InverseEpisode, 0), (1, 1));
    assert_eq!(epsilon(&EpsilonSchedule::InverseEpisode, 9), (1, 10));
    assert_eq!(epsilon(&EpsilonSchedule::InverseEpisode, usize::MAX), (1, usize::MAX));
    assert_eq!(epsilon(&EpsilonSchedule::Constant { numerator: 1, denominator: 10 }, 12345), (1, 10));
}

#[test]
fn random_policy_draws_both_actions() {
    let table: QTable<BlackjackState, BlackjackAction> = QTable::new(0);
    let mut hits = 0;
    for _ in 0..400 {
        if random_policy(&state(16, 10), &table, 0) == BlackjackAction::Hit {
            hits += 1;
        }
    }
    assert!(hits > 100 && hits < 300);
}
