use std::collections::VecDeque;
use vstd::prelude::*;

use crate::blackjack_agent::{
    lemma_step_outcome, step_spec,
    return_of, reward_spec,
    chronological, eligible, final_reward, mean_error_spec, observe, played, plays_round,
    BlackjackAction, BlackjackState,
    BlackjackStateAction, EpisodeResult,
};
use crate::blackjack_policy::forced_action;
use crate::blackjack_policy::{e_greedy_policy, EpsilonSchedule};
use crate::deck::{all_valid, valid_card, ordered_deck, Deck};
use crate::qtable::{
    abs_diff, count_in, in_range, toward, updated, value_in, QTable, StateAction, VALUE_SCALE,
};
use crate::hand::{hard_total, hit_spec, lemma_hit_raises_hard_total, Hand};
use crate::round::{ROUND_CARDS, count_fits, start_spec, RoundError, RoundState};

verus! {

/// Plays one round with the epsilon-greedy policy, recording each state and
/// the action taken in it, the latest first.
pub fn episode(
    deck: &mut Deck,
    q_table: &QTable<BlackjackState, BlackjackAction>,
    episode_number: usize,
    schedule: &EpsilonSchedule,
) -> (res: Result<EpisodeResult, RoundError>)
    requires
        all_valid(old(deck)@),
        old(deck)@.len() >= 3,
        count_fits(0, old(deck)@),
        q_table.wf(),
        schedule.wf(),
    ensures
        all_valid(final(deck)@),
        res matches Ok(e) ==> plays_round(
            start_spec(old(deck)@, 0),
            old(deck)@.skip(3),
            chronological(e.state_actions@),
            final(deck)@,
        ) && e.reward == final_reward(
            start_spec(old(deck)@, 0),
            old(deck)@.skip(3),
            chronological(e.state_actions@),
        ),
        res matches Err(err) ==> err == RoundError::EmptyDeck && final(deck)@.len() == 0,
        old(deck)@.len() >= ROUND_CARDS ==> res is Ok,
{
    let ghost cards0 = old(deck)@;
    let mut state_actions: VecDeque<BlackjackStateAction> = VecDeque::new();
    let mut round_state = RoundState::new(deck);
    proof {
        let h0 = Hand { sum: 0, ace: false };
        assert(valid_card(cards0[0]) && valid_card(cards0[1]) && valid_card(cards0[2]));
        lemma_hit_raises_hard_total(h0, cards0[0]);
        lemma_hit_raises_hard_total(hit_spec(h0, cards0[0]), cards0[1]);
        lemma_hit_raises_hard_total(h0, cards0[2]);
    }
    let ghost start = round_state;
    let ghost cards = deck@;
    proof {
        assert(chronological(state_actions@) =~= Seq::<BlackjackStateAction>::empty());
    }
    while !round_state.finished()
        invariant
            q_table.wf(),
            schedule.wf(),
            start == start_spec(cards0, 0),
            cards == cards0.skip(3),
            cards0 == old(deck)@,
            round_state.wf(),
            !round_state.finished_spec() ==> hard_total(round_state.dealer) >= 1
                && round_state.dealer.sum <= 11 && deck@.len() + hard_total(round_state.player)
                >= cards0.len() - 1,
            all_valid(deck@),
            count_fits(round_state.hilo, deck@),
            played(start, cards, chronological(state_actions@)) == (
                Ok::<RoundState, RoundError>(round_state),
                deck@,
            ),
            forall|i: int|
                0 <= i < state_actions@.len() ==> {
                    &&& played(start, cards, chronological(state_actions@).take(i)).0 matches Ok(
                        r,
                    )
                    &&& !r.finished_spec()
                    &&& #[trigger] chronological(state_actions@)[i].agent_state == observe(r)
                    &&& forced_action(chronological(state_actions@)[i].agent_state) matches Some(
                        a,
                    ) ==> chronological(state_actions@)[i].action == a
                },
        decreases deck@.len() + if round_state.finished_spec() {
            0int
        } else {
            1int
        },
    {
        let agent_state = BlackjackState::from(&round_state);
        let action = e_greedy_policy(&agent_state, q_table, episode_number, schedule);
        let ghost before = state_actions@;
        let sa = StateAction { agent_state, action };
        state_actions.push_front(sa);
        proof {
            let steps = chronological(before);
            let steps2 = chronological(state_actions@);
            assert(steps2 =~= steps.push(sa));
            assert(steps2.drop_last() =~= steps);
            assert(steps2.take(steps.len() as int) =~= steps);
            assert forall|i: int| 0 <= i < steps.len() implies #[trigger] steps2.take(i)
                == steps.take(i) by {
                assert(steps2.take(i) =~= steps.take(i));
            }
        }
        let ghost deck_before = deck@;
        proof {
            lemma_step_outcome(round_state, deck@, action);
        }
        let next = match action {
            BlackjackAction::Hit => round_state.hit(deck),
            BlackjackAction::Stand => round_state.stand(deck),
        };
        round_state = match next {
            Ok(r) => r,
            Err(e) => {
                proof {
                    assert(next == step_spec(round_state, deck_before, action).0);
                    assert(deck@ == step_spec(round_state, deck_before, action).1);
                }
                return Err(e);
            },
        };
    }
    proof {
        let steps = chronological(state_actions@);
        assert(steps.take(steps.len() as int) =~= steps);
    }
    Ok(EpisodeResult::from(&round_state, state_actions))
}

/// Monte Carlo updates of a table's contents `m` (default `d`): each eligible
/// pair of `trace`, in order, moves one sample-average step toward the return
/// `g`. Also the sum of the distances from `g` and the number of updates.
pub open spec fn mc_updates(
    m: Map<BlackjackStateAction, (i64, nat)>,
    d: i64,
    trace: Seq<BlackjackStateAction>,
    g: i64,
) -> (Map<BlackjackStateAction, (i64, nat)>, int, nat)
    decreases trace.len(),
{
    if trace.len() == 0 {
        (m, 0, 0)
    } else {
        let (m1, e1, n1) = mc_updates(m, d, trace.drop_last(), g);
        let sa = trace.last();
        if eligible(sa.agent_state) {
            (
                updated(m1, sa, toward(value_in(m1, d, sa), g, count_in(m1, sa))),
                e1 + abs_diff(g, value_in(m1, d, sa)),
                n1 + 1,
            )
        } else {
            (m1, e1, n1)
        }
    }
}

/// Moves the value of every eligible pair of an episode toward its return,
/// the latest pair first; returns the mean distance of those values from the
/// return.
pub fn monte_carlo_update(
    q_table: &mut QTable<BlackjackState, BlackjackAction>,
    result: &EpisodeResult,
) -> (mean_error: i64)
    requires
        old(q_table).wf(),
        old(q_table).bounded(),
        -1 <= result.reward <= 1,
    ensures
        final(q_table).wf(),
        final(q_table).bounded(),
        final(q_table).default_spec() == old(q_table).default_spec(),
        final(q_table)@ == mc_updates(
            old(q_table)@,
            old(q_table).default_spec(),
            result.state_actions@,
            return_of(result.reward),
        ).0,
        0 <= mean_error <= 2 * VALUE_SCALE,
        mean_error == mean_error_spec(
            mc_updates(
                old(q_table)@,
                old(q_table).default_spec(),
                result.state_actions@,
                return_of(result.reward),
            ).1,
            mc_updates(
                old(q_table)@,
                old(q_table).default_spec(),
                result.state_actions@,
                return_of(result.reward),
            ).2,
        ),
{
    let g: i64 = result.reward as i64 * VALUE_SCALE;
    let ghost m0 = q_table@;
    let ghost d = q_table.default_spec();
    let ghost trace = result.state_actions@;
    let mut sum_error: u128 = 0;
    let mut updates: usize = 0;
    let mut i: usize = 0;
    while i < result.state_actions.len()
        invariant
            q_table.wf(),
            q_table.bounded(),
            q_table.default_spec() == d,
            in_range(g),
            trace == result.state_actions@,
            i <= trace.len(),
            updates <= i,
            sum_error <= 2_000_000 * (updates as int),
            (q_table@, sum_error as int, updates as nat) == mc_updates(m0, d, trace.take(i as int), g),
        decreases trace.len() - i,
    {
        let sa = result.state_actions[i];
        proof {
            assert(trace.take(i + 1).drop_last() =~= trace.take(i as int));
        }
        if sa.agent_state.player > 11 && sa.agent_state.player < 21 {
            let error = q_table.update_toward(&sa, g);
            proof {
                assert(updates < usize::MAX);
                assert(error <= 2_000_000);
            }
            sum_error = sum_error + error as u128;
            updates = updates + 1;
        }
        i = i + 1;
    }
    proof {
        assert(trace.take(trace.len() as int) =~= trace);
    }
    if updates == 0 {
        0
    } else {
        proof {
            assert(sum_error as int / updates as int <= 2 * VALUE_SCALE) by (nonlinear_arith)
                requires
                    sum_error <= 2_000_000 * (updates as int),
                    updates > 0,
            ;
        }
        (sum_error / updates as u128) as i64
    }
}

/// What one Monte Carlo episode on a shuffled deck gave: a whole round played
/// from the 52 cards, its reward, and the table after the updates toward its
/// return, with the mean distance of the updated values from the return.
pub open spec fn mc_evaluated(
    before: Map<BlackjackStateAction, (i64, nat)>,
    d: i64,
    after: Map<BlackjackStateAction, (i64, nat)>,
    reward: i32,
    error: i64,
) -> bool {
    &&& 0 <= error <= 2 * VALUE_SCALE
    &&& exists|cards: Seq<u8>, trace: Seq<BlackjackStateAction>, rest: Seq<u8>|
        {
            let learned = mc_updates(before, d, trace, return_of(reward));
            &&& cards.to_multiset() == ordered_deck().to_multiset()
            &&& cards.len() == 52
            &&& #[trigger] plays_round(start_spec(cards, 0), cards.skip(3), chronological(trace), rest)
            &&& reward == final_reward(start_spec(cards, 0), cards.skip(3), chronological(trace))
            &&& after == learned.0
            &&& error == mean_error_spec(learned.1, learned.2)
        }
}

/// Plays one episode on a freshly shuffled deck and learns from it by Monte
/// Carlo; returns the reward and the mean error of the updates.
pub fn evaluate_episode(
    q_table: &mut QTable<BlackjackState, BlackjackAction>,
    episode_number: usize,
    schedule: &EpsilonSchedule,
) -> (res: Result<(i32, i64), RoundError>)
    requires
        old(q_table).wf(),
        old(q_table).bounded(),
        schedule.wf(),
    ensures
        final(q_table).wf(),
        final(q_table).bounded(),
        final(q_table).default_spec() == old(q_table).default_spec(),
        res matches Ok((reward, error)) ==> mc_evaluated(
            old(q_table)@,
            old(q_table).default_spec(),
            final(q_table)@,
            reward,
            error,
        ),
        res is Ok,
{
    let mut deck = Deck::new_shuffled();
    let ghost cards = deck@;
    let result = match episode(&mut deck, q_table, episode_number, schedule) {
        Ok(r) => r,
        Err(e) => {
            return Err(e);
        },
    };
    proof {
        let steps = chronological(result.state_actions@);
        if played(start_spec(cards, 0), cards.skip(3), steps).0 is Ok {
            let end = played(start_spec(cards, 0), cards.skip(3), steps).0->Ok_0;
            assert(-1 <= reward_spec(end) <= 1);
        }
    }
    let mean_error = monte_carlo_update(q_table, &result);
    proof {
        assert(plays_round(
            start_spec(cards, 0),
            cards.skip(3),
            chronological(result.state_actions@),
            deck@,
        ));
    }
    Ok((result.reward, mean_error))
}

} // verus!
