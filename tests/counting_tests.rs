use blackjack_rl::blackjack_agent::BlackjackAction;
use blackjack_rl::deck::Deck;
use blackjack_rl::blackjack_policy::EpsilonSchedule;
use blackjack_rl::monte_carlo_with_counting::{
    counting_schedule, e_greedy_policy, episode, evaluate_episode, monte_carlo_cardcounting, BlackjackCountingState,
};
use blackjack_rl::qtable::{QTable, StateAction};

fn counting_pair(player: u8, dealer: u8, action: BlackjackAction) -> StateAction<BlackjackCountingState, BlackjackAction> {
    StateAction { agent_state: BlackjackCountingState { player, dealer, ace: false }, action }
}

#[test]
fn counting_episode_carries_the_running_count() {
    let mut deck = Deck::new_rigged(&[5, 3, 7, 3, 10, 10, 2]);
    let table: QTable<BlackjackCountingState, BlackjackAction> = QTable::new(0);
    let result = episode(&mut deck, &table, 0, 2).unwrap();
    assert_eq!(result.reward, 1);
    assert_eq!(result.hilo, 3);
    let trace: Vec<_> = result.state_actions.iter().copied().collect();
    assert_eq!(
        trace,
        vec![
            counting_pair(21, 7, BlackjackAction::Stand),
            counting_pair(11, 7, BlackjackAction::Hit),
            counting_pair(8, 7, BlackjackAction::Hit),
        ]
    );
    assert_eq!(deck.len(), 1);
}

#[test]
fn counting_evaluation_returns_reward_and_count() {
    let mut deck = Deck::new_rigged(&[5, 3, 7, 3, 10, 10, 2]);
    let mut table: QTable<BlackjackCountingState, BlackjackAction> = QTable::new(0);
    assert_eq!(evaluate_episode(&mut table, 0, &mut deck, -4).unwrap(), (1, -3));
    assert!(table.get_all_values().is_empty());
}

#[test]
fn counting_policy_forces_the_obvious_moves() {
    let table: QTable<BlackjackCountingState, BlackjackAction> = QTable::new(0);
    let low = BlackjackCountingState { player: 9, dealer: 4, ace: false };
    let top = BlackjackCountingState { player: 21, dealer: 4, ace: true };
    for episode in [0, 2_000_000] {
        assert_eq!(e_greedy_policy(&low, &table, episode), BlackjackAction::Hit);
        assert_eq!(e_greedy_policy(&top, &table, episode), BlackjackAction::Stand);
    }
}

#[test]
fn card_counting_session_snapshots() {
    let (snaps, table) = monte_carlo_cardcounting(2500).unwrap();
    let episodes: Vec<usize> = snaps.iter().map(|s| s.episode).collect();
    assert_eq!(episodes, vec![0, 1000, 2000, 2500]);
    let played: Vec<usize> = snaps.iter().map(|s| s.wins + s.losses + s.draws).collect();
    assert_eq!(played, vec![0, 1000, 1000, 500]);
    for s in &snaps {
        let n = (s.wins + s.losses + s.draws) as i64;
        assert!(s.money >= -52 * n && s.money <= 52 * n);
    }
    assert!(!table.get_all_values().is_empty());
}

#[test]
fn counting_schedule_turns_greedier_after_a_million_episodes() {
    let steady = EpsilonSchedule::Constant { numerator: 1, denominator: 10 };
    assert_eq!(counting_schedule(0), steady);
    assert_eq!(counting_schedule(999_999), steady);
    assert_eq!(counting_schedule(1_000_000), EpsilonSchedule::InverseEpisode);
}
