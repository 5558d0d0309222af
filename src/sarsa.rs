use std::collections::VecDeque;
use vstd::prelude::*;

use crate::blackjack_agent::{
    lemma_step_outcome, step_spec,
    chronological, eligible, final_reward, mean_error_spec, observe, played, plays_round, return_of,
    reward_spec,
    td_target,
    BlackjackAction, BlackjackState, BlackjackStateAction, EpisodeResult,
};
use crate::blackjack_policy::{e_greedy_policy, forced_action, greedy_policy, EpsilonSchedule};
use crate::deck::{all_valid, valid_card, ordered_deck, Deck};
use crate::qtable::{
    abs_diff, count_in, toward, updated, value_in, QTable, StateAction, VALUE_SCALE,
};
use crate::hand::{hard_total, hit_spec, lemma_hit_raises_hard_total, Hand};
use crate::round::{ROUND_CARDS, count_fits, start_spec, RoundError, RoundState};

verus! {

/// Which next action the bootstrap target uses.
#[derive(Debug, Copy, Clone, PartialEq, Eq, Structural)]
pub enum Mode {
    /// The action the epsilon-greedy policy takes next (on-policy).
    SARSA,
    /// The greedy action of the next state (off-policy, Q-learning).
    SARSAMAX,
}

/// `a` has the largest value among the actions of `s` in `m`.
pub open spec fn greedy_in(
    m: Map<BlackjackStateAction, (i64, nat)>,
    s: BlackjackState,
    a: BlackjackAction,
) -> bool {
    &&& m.contains_key(StateAction { agent_state: s, action: a })
    &&& forall|b: BlackjackAction|
        #[trigger] m.contains_key(StateAction { agent_state: s, action: b }) ==> m[StateAction {
            agent_state: s,
            action: b,
        }].0 <= m[StateAction { agent_state: s, action: a }].0
}

/// The value Q-learning bootstraps from in state `s`: that of the forced
/// action, else the largest value of an action of `s`, else the default.
pub open spec fn greedy_value(
    m: Map<BlackjackStateAction, (i64, nat)>,
    d: i64,
    s: BlackjackState,
) -> i64 {
    match forced_action(s) {
        Some(a) => value_in(m, d, StateAction { agent_state: s, action: a }),
        None => if exists|a: BlackjackAction| greedy_in(m, s, a) {
            value_in(
                m,
                d,
                StateAction { agent_state: s, action: choose|a: BlackjackAction| greedy_in(m, s, a) },
            )
        } else {
            d
        },
    }
}

/// The round after the first `n` steps of a trace.
pub open spec fn round_after(
    start: RoundState,
    cards: Seq<u8>,
    steps: Seq<BlackjackStateAction>,
    n: int,
) -> RoundState {
    played(start, cards, steps.take(n)).0->Ok_0
}

/// The bootstrap target of step `i`: the reward of the round after it plus,
/// unless that round is over, the value of the next pair, which `mode` picks.
pub open spec fn target_of(
    m: Map<BlackjackStateAction, (i64, nat)>,
    d: i64,
    start: RoundState,
    cards: Seq<u8>,
    steps: Seq<BlackjackStateAction>,
    i: int,
    mode: Mode,
) -> i64 {
    let next = round_after(start, cards, steps, i + 1);
    (return_of(reward_spec(next)) + if next.finished_spec() {
        0
    } else {
        match mode {
            Mode::SARSA => value_in(m, d, steps[i + 1]),
            Mode::SARSAMAX => greedy_value(m, d, observe(next)),
        }
    }) as i64
}

/// Temporal-difference updates of a table's contents `m` (default `d`) along
/// the first `n` steps of a trace, oldest first: each step from an eligible
/// state moves one sample-average step toward its target. Also the sum of the
/// distances from the targets and the number of updates.
pub open spec fn td_updates(
    m: Map<BlackjackStateAction, (i64, nat)>,
    d: i64,
    start: RoundState,
    cards: Seq<u8>,
    steps: Seq<BlackjackStateAction>,
    mode: Mode,
    n: nat,
) -> (Map<BlackjackStateAction, (i64, nat)>, int, nat)
    decreases n,
{
    if n == 0 {
        (m, 0, 0)
    } else {
        let (m1, e1, k1) = td_updates(m, d, start, cards, steps, mode, (n - 1) as nat);
        let i = n - 1;
        let sa = steps[i];
        if eligible(sa.agent_state) {
            let target = target_of(m1, d, start, cards, steps, i, mode);
            let old = value_in(m1, d, sa);
            (updated(m1, sa, toward(old, target, count_in(m1, sa))), e1 + abs_diff(target, old), k1 + 1)
        } else {
            (m1, e1, k1)
        }
    }
}

/// The updates along the first `n` steps read no step past `n`, and step `n`
/// only when the round after step `n - 1` goes on.
proof fn lemma_td_updates_prefix(
    m: Map<BlackjackStateAction, (i64, nat)>,
    d: i64,
    start: RoundState,
    cards: Seq<u8>,
    s1: Seq<BlackjackStateAction>,
    s2: Seq<BlackjackStateAction>,
    mode: Mode,
    n: nat,
)
    requires
        n <= s1.len(),
        n <= s2.len(),
        s1.take(n as int) == s2.take(n as int),
        n > 0 && !round_after(start, cards, s1, n as int).finished_spec() ==> n < s1.len() && n
            < s2.len() && s1[n as int] == s2[n as int],
    ensures
        td_updates(m, d, start, cards, s1, mode, n) == td_updates(m, d, start, cards, s2, mode, n),
    decreases n,
{
    if n > 0 {
        let k = (n - 1) as int;
        assert(s1.take(k) == s1.take(n as int).take(k));
        assert(s2.take(k) == s2.take(n as int).take(k));
        assert(s1[k] == s1.take(n as int)[k]);
        assert(s2[k] == s2.take(n as int)[k]);
        if k > 0 && !round_after(start, cards, s1, k).finished_spec() {
            assert(s1.take(k) =~= s1.take(n as int).take(k));
            assert(round_after(start, cards, s2, k) == round_after(start, cards, s1, k));
        }
        assert(s1.take(k).take(k) =~= s1.take(k));
        lemma_td_updates_prefix(m, d, start, cards, s1, s2, mode, (n - 1) as nat);
        assert(round_after(start, cards, s1, n as int) == round_after(start, cards, s2, n as int));
    }
}

/// Two greedy actions of a state have the same value.
proof fn lemma_greedy_values_agree(
    m: Map<BlackjackStateAction, (i64, nat)>,
    s: BlackjackState,
    a: BlackjackAction,
    b: BlackjackAction,
)
    requires
        greedy_in(m, s, a),
        greedy_in(m, s, b),
    ensures
        m[StateAction { agent_state: s, action: a }].0 == m[StateAction { agent_state: s, action: b }].0,
{
}

/// Plays one round with the epsilon-greedy policy and learns by temporal
/// differences as it goes: after each action from a state with a total of 12
/// to 20, the value of that pair moves one sample-average step toward the
/// reward plus the value of the next pair, which `mode` picks. Returns the
/// episode and the mean distance of the updated values from their targets.
pub fn episode(
    deck: &mut Deck,
    q_table: &mut QTable<BlackjackState, BlackjackAction>,
    episode_number: usize,
    schedule: &EpsilonSchedule,
    mode: Mode,
) -> (res: Result<(EpisodeResult, i64), RoundError>)
    requires
        all_valid(old(deck)@),
        old(deck)@.len() >= 3,
        count_fits(0, old(deck)@),
        old(q_table).wf(),
        old(q_table).bounded(),
        schedule.wf(),
    ensures
        all_valid(final(deck)@),
        final(q_table).wf(),
        final(q_table).bounded(),
        final(q_table).default_spec() == old(q_table).default_spec(),
        res matches Ok((e, mean_error)) ==> {
            let start = start_spec(old(deck)@, 0);
            let cards = old(deck)@.skip(3);
            let steps = chronological(e.state_actions@);
            let learned = td_updates(
                old(q_table)@,
                old(q_table).default_spec(),
                start,
                cards,
                steps,
                mode,
                steps.len(),
            );
            &&& plays_round(start, cards, steps, final(deck)@)
            &&& e.reward == final_reward(start, cards, steps)
            &&& final(q_table)@ == learned.0
            &&& mean_error == mean_error_spec(learned.1, learned.2)
            &&& 0 <= mean_error <= 2 * VALUE_SCALE
        },
        res matches Err(err) ==> err == RoundError::EmptyDeck && final(deck)@.len() == 0,
        old(deck)@.len() >= ROUND_CARDS ==> res is Ok,
{
    let ghost cards0 = old(deck)@;
    let ghost m0 = q_table@;
    let ghost d = q_table.default_spec();
    let mut state_actions: VecDeque<BlackjackStateAction> = VecDeque::new();
    let mut round_state = RoundState::new(deck);
    proof {
        let h0 = Hand { sum: 0, ace: false };
        assert(valid_card(cards0[0]) && valid_card(cards0[1]) && valid_card(cards0[2]));
        lemma_hit_raises_hard_total(h0, cards0[0]);
        lemma_hit_raises_hard_total(hit_spec(h0, cards0[0]), cards0[1]);
        lemma_hit_raises_hard_total(h0, cards0[2]);
    }
    let ghost start = round_state;
    let ghost cards = deck@;
    let mut agent_state = BlackjackState::from(&round_state);
    let mut action = e_greedy_policy(&agent_state, q_table, episode_number, schedule);
    let mut sum_error: u128 = 0;
    let mut updates: usize = 0;
    proof {
        assert(chronological(state_actions@) =~= Seq::<BlackjackStateAction>::empty());
    }
    while !round_state.finished()
        invariant
            q_table.wf(),
            q_table.bounded(),
            q_table.default_spec() == d,
            d == old(q_table).default_spec(),
            m0 == old(q_table)@,
            schedule.wf(),
            start == start_spec(cards0, 0),
            cards == cards0.skip(3),
            cards0 == old(deck)@,
            round_state.wf(),
            !round_state.finished_spec() ==> hard_total(round_state.dealer) >= 1
                && round_state.dealer.sum <= 11 && deck@.len() + hard_total(round_state.player)
                >= cards0.len() - 1,
            all_valid(deck@),
            count_fits(round_state.hilo, deck@),
            !round_state.finished_spec() ==> agent_state == observe(round_state),
            forced_action(agent_state) matches Some(a) ==> action == a,
            updates <= state_actions@.len(),
            sum_error <= 2_000_000 * (updates as int),
            (q_table@, sum_error as int, updates as nat) == td_updates(
                m0,
                d,
                start,
                cards,
                chronological(state_actions@).push(StateAction { agent_state, action }),
                mode,
                state_actions@.len(),
            ),
            played(start, cards, chronological(state_actions@)) == (
                Ok::<RoundState, RoundError>(round_state),
                deck@,
            ),
            forall|i: int|
                0 <= i < state_actions@.len() ==> {
                    &&& played(start, cards, chronological(state_actions@).take(i)).0 matches Ok(
                        r,
                    )
                    &&& !r.finished_spec()
                    &&& #[trigger] chronological(state_actions@)[i].agent_state == observe(r)
                    &&& forced_action(chronological(state_actions@)[i].agent_state) matches Some(
                        a,
                    ) ==> chronological(state_actions@)[i].action == a
                },
        decreases deck@.len() + if round_state.finished_spec() {
            0int
        } else {
            1int
        },
    {
        let ghost before = state_actions@;
        let sa = StateAction { agent_state, action };
        state_actions.push_front(sa);
        let trace_len = state_actions.len();
        let ghost steps = chronological(state_actions@);
        let ghost n = before.len() as int;
        proof {
            let old_steps = chronological(before);
            assert(steps =~= old_steps.push(sa));
            assert(steps.drop_last() =~= old_steps);
            assert(steps.take(n) =~= old_steps);
            assert forall|i: int| 0 <= i < n implies #[trigger] steps.take(i) == old_steps.take(i) by {
                assert(steps.take(i) =~= old_steps.take(i));
            }
            assert(steps.take(n + 1) =~= steps);
        }
        let ghost deck_before = deck@;
        proof {
            lemma_step_outcome(round_state, deck@, action);
        }
        let next = match action {
            BlackjackAction::Hit => round_state.hit(deck),
            BlackjackAction::Stand => round_state.stand(deck),
        };
        let new_round_state = match next {
            Ok(r) => r,
            Err(e) => {
                proof {
                    assert(next == step_spec(round_state, deck_before, action).0);
                    assert(deck@ == step_spec(round_state, deck_before, action).1);
                }
                return Err(e);
            },
        };
        let ghost m1 = q_table@;
        if agent_state.player >= 12 && agent_state.player <= 20 {
            let mut next_state = agent_state;
            let mut next_action = action;
            let q_next = if !new_round_state.finished() {
                next_state = BlackjackState::from(&new_round_state);
                next_action = e_greedy_policy(&next_state, q_table, episode_number, schedule);
                let target_action = match mode {
                    Mode::SARSA => next_action,
                    Mode::SARSAMAX => greedy_policy(&next_state, q_table, episode_number),
                };
                let target_pair = StateAction { agent_state: next_state, action: target_action };
                let v = q_table.get_value(&target_pair);
                proof {
                    let full = steps.push(StateAction { agent_state: next_state, action: next_action });
                    assert(full[n + 1] == StateAction { agent_state: next_state, action: next_action });
                    if mode == Mode::SARSAMAX && forced_action(next_state) is None {
                        if q_table.visited(next_state) {
                            assert(greedy_in(m1, next_state, target_action));
                            let c = choose|a: BlackjackAction| greedy_in(m1, next_state, a);
                            lemma_greedy_values_agree(m1, next_state, target_action, c);
                        } else {
                            assert(!m1.contains_key(target_pair));
                            assert forall|a: BlackjackAction| !greedy_in(m1, next_state, a) by {
                                assert(!m1.contains_key(StateAction { agent_state: next_state, action: a }));
                            }
                        }
                    }
                }
                v
            } else {
                0
            };
            let target = td_target(&new_round_state, q_next);
            proof {
                let full = steps.push(StateAction { agent_state: next_state, action: next_action });
                assert(full.take(n + 1) =~= steps);
                assert(round_after(start, cards, full, n + 1) == new_round_state);
                assert(target == target_of(m1, d, start, cards, full, n, mode));
                assert(chronological(before).push(sa).take(n) =~= full.take(n));
                lemma_td_updates_prefix(m0, d, start, cards, chronological(before).push(sa), full, mode, n as nat);
                assert(full[n] == sa);
            }
            let error = q_table.update_toward(&sa, target);
            proof {
                assert(updates < trace_len);
            }
            sum_error = sum_error + error as u128;
            updates = updates + 1;
            agent_state = next_state;
            action = next_action;
        } else {
            if !new_round_state.finished() {
                agent_state = BlackjackState::from(&new_round_state);
                action = e_greedy_policy(&agent_state, q_table, episode_number, schedule);
            }
            proof {
                let full = steps.push(StateAction { agent_state, action });
                assert(chronological(before).push(sa).take(n) =~= full.take(n));
                lemma_td_updates_prefix(m0, d, start, cards, chronological(before).push(sa), full, mode, n as nat);
                assert(full[n] == sa);
            }
        }
        round_state = new_round_state;
    }
    proof {
        let steps = chronological(state_actions@);
        let n = steps.len();
        assert(steps.take(n as int) =~= steps);
        let pending = steps.push(StateAction { agent_state, action });
        assert(pending.take(n as int) =~= steps.take(n as int));
        if n > 0 {
            assert(pending.take(n as int) =~= steps);
        }
        lemma_td_updates_prefix(m0, d, start, cards, pending, steps, mode, n);
    }
    let mean_error: i64 = if updates == 0 {
        0
    } else {
        proof {
            assert(sum_error as int / updates as int <= 2_000_000) by (nonlinear_arith)
                requires
                    sum_error <= 2_000_000 * (updates as int),
                    updates > 0,
            ;
        }
        (sum_error / updates as u128) as i64
    };
    Ok((EpisodeResult::from(&round_state, state_actions), mean_error))
}

/// Plays one episode on a freshly shuffled deck, learning by SARSA.
pub fn evaluate_episode_sarsa(
    q_table: &mut QTable<BlackjackState, BlackjackAction>,
    episode_number: usize,
    schedule: &EpsilonSchedule,
) -> (res: Result<(i32, i64), RoundError>)
    requires
        old(q_table).wf(),
        old(q_table).bounded(),
        schedule.wf(),
    ensures
        final(q_table).wf(),
        final(q_table).bounded(),
        final(q_table).default_spec() == old(q_table).default_spec(),
        res matches Ok((reward, error)) ==> evaluated(
            old(q_table)@,
            old(q_table).default_spec(),
            final(q_table)@,
            Mode::SARSA,
            reward,
            error,
        ),
        res is Ok,
{
    evaluate_with(q_table, episode_number, schedule, Mode::SARSA)
}

/// Plays one episode on a freshly shuffled deck, learning by Q-learning.
pub fn evaluate_episode_sarsamax(
    q_table: &mut QTable<BlackjackState, BlackjackAction>,
    episode_number: usize,
    schedule: &EpsilonSchedule,
) -> (res: Result<(i32, i64), RoundError>)
    requires
        old(q_table).wf(),
        old(q_table).bounded(),
        schedule.wf(),
    ensures
        final(q_table).wf(),
        final(q_table).bounded(),
        final(q_table).default_spec() == old(q_table).default_spec(),
        res matches Ok((reward, error)) ==> evaluated(
            old(q_table)@,
            old(q_table).default_spec(),
            final(q_table)@,
            Mode::SARSAMAX,
            reward,
            error,
        ),
        res is Ok,
{
    evaluate_with(q_table, episode_number, schedule, Mode::SARSAMAX)
}

/// What one episode on a shuffled deck gave: a whole round played from the
/// 52 cards, its reward, and the table after the temporal-difference updates
/// along it, with the mean distance from their targets.
pub open spec fn evaluated(
    before: Map<BlackjackStateAction, (i64, nat)>,
    d: i64,
    after: Map<BlackjackStateAction, (i64, nat)>,
    mode: Mode,
    reward: i32,
    error: i64,
) -> bool {
    &&& 0 <= error <= 2 * VALUE_SCALE
    &&& exists|cards: Seq<u8>, steps: Seq<BlackjackStateAction>, rest: Seq<u8>|
        {
            let learned = td_updates(
                before,
                d,
                start_spec(cards, 0),
                cards.skip(3),
                steps,
                mode,
                steps.len(),
            );
            &&& cards.to_multiset() == ordered_deck().to_multiset()
            &&& cards.len() == 52
            &&& #[trigger] plays_round(start_spec(cards, 0), cards.skip(3), steps, rest)
            &&& reward == final_reward(start_spec(cards, 0), cards.skip(3), steps)
            &&& after == learned.0
            &&& error == mean_error_spec(learned.1, learned.2)
        }
}

fn evaluate_with(
    q_table: &mut QTable<BlackjackState, BlackjackAction>,
    episode_number: usize,
    schedule: &EpsilonSchedule,
    mode: Mode,
) -> (res: Result<(i32, i64), RoundError>)
    requires
        old(q_table).wf(),
        old(q_table).bounded(),
        schedule.wf(),
    ensures
        final(q_table).wf(),
        final(q_table).bounded(),
        final(q_table).default_spec() == old(q_table).default_spec(),
        res matches Ok((reward, error)) ==> evaluated(
            old(q_table)@,
            old(q_table).default_spec(),
            final(q_table)@,
            mode,
            reward,
            error,
        ),
        res is Ok,
{
    let mut deck = Deck::new_shuffled();
    let ghost cards = deck@;
    match episode(&mut deck, q_table, episode_number, schedule, mode) {
        Ok((result, error)) => {
            proof {
                let steps = chronological(result.state_actions@);
                assert(plays_round(start_spec(cards, 0), cards.skip(3), steps, deck@));
            }
            Ok((result.reward, error))
        },
        Err(e) => Err(e),
    }
}

} // verus!
