use std::collections::VecDeque;
use vstd::prelude::*;

pub use crate::blackjack_agent::BlackjackAction;

use crate::blackjack_agent::{
    lemma_step_outcome, step_spec,
    chronological, eligible, final_reward, observe, played, plays_round, return_of, reward,
    BlackjackState,
    BlackjackStateAction,
};
use crate::blackjack_policy::{
    choose_action, epsilon_explore, forced_action, random_action, EpsilonSchedule,
};
use crate::deck::{all_valid, valid_card, Deck};
use crate::qtable::{
    count_in, in_range, toward, updated, value_in, QTable, State, StateAction, VALUE_SCALE,
};
use crate::hand::{hard_total, hit_spec, lemma_hit_raises_hard_total, Hand};
use crate::trainer::{count_sign, lemma_count_sign_push};
use crate::round::{ROUND_CARDS, 
    count_fits, hilo_sum, lemma_hilo_sum_bound, lemma_running_count_accumulates, start_spec,
    RoundError, RoundState,
};

verus! {

/// The state the card-counting environment learns on.
#[derive(Debug, Copy, Clone, Hash, PartialEq, Eq, Structural)]
pub struct BlackjackCountingState {
    pub player: u8,
    pub dealer: u8,
    pub ace: bool,
}

impl State for BlackjackCountingState {
    fn same_state(&self, other: &Self) -> (r: bool) {
        self.ace == other.ace && self.player == other.player && self.dealer == other.dealer
    }
}

pub type CountingStateAction = StateAction<BlackjackCountingState, BlackjackAction>;

/// The same observation as a state of the plain environment.
pub open spec fn plain(s: BlackjackCountingState) -> BlackjackState {
    BlackjackState { player: s.player, dealer: s.dealer, ace: s.ace }
}

/// A trace of this environment as a trace of the plain one.
pub open spec fn plain_trace(t: Seq<CountingStateAction>) -> Seq<BlackjackStateAction> {
    t.map_values(
        |sa: CountingStateAction| StateAction { agent_state: plain(sa.agent_state), action: sa.action },
    )
}

/// The episodes this environment explores at the constant rate of one in ten
/// before it turns to the rate `1 / (episode + 1)`.
pub const STEADY_EXPLORATION_EPISODES: usize = 1_000_000;

/// The cards under which the deck is replaced by a freshly shuffled one.
pub const RESHUFFLE_BELOW: usize = 15;

impl BlackjackCountingState {
    /// The state the player sees in `round_state`.
    pub fn from(round_state: &RoundState) -> (r: BlackjackCountingState)
        ensures
            plain(r) == observe(*round_state),
    {
        BlackjackCountingState {
            player: round_state.player.sum,
            ace: round_state.player.ace,
            dealer: round_state.dealer.sum,
        }
    }
}

/// One episode of this environment: its pairs, the latest first, its reward
/// and the running count when it ended.
pub struct EpisodeResult {
    pub state_actions: VecDeque<CountingStateAction>,
    pub reward: i32,
    pub hilo: i32,
}

/// The exploration schedule of an episode: one in ten for the first
/// episodes, then `1 / (episode + 1)`.
pub fn counting_schedule(episode: usize) -> (r: EpsilonSchedule)
    ensures
        r.wf(),
        episode < STEADY_EXPLORATION_EPISODES ==> r == (EpsilonSchedule::Constant {
            numerator: 1,
            denominator: 10,
        }),
        episode >= STEADY_EXPLORATION_EPISODES ==> r == EpsilonSchedule::InverseEpisode,
{
    if episode < STEADY_EXPLORATION_EPISODES {
        EpsilonSchedule::Constant { numerator: 1, denominator: 10 }
    } else {
        EpsilonSchedule::InverseEpisode
    }
}

/// Epsilon-greedy on this environment's table, with its own schedule.
pub fn e_greedy_policy(
    agent_state: &BlackjackCountingState,
    q_table: &QTable<BlackjackCountingState, BlackjackAction>,
    episode_number: usize,
) -> (r: BlackjackAction)
    requires
        q_table.wf(),
    ensures
        forced_action(plain(*agent_state)) matches Some(a) ==> r == a,
{
    let seen = BlackjackState {
        player: agent_state.player,
        dealer: agent_state.dealer,
        ace: agent_state.ace,
    };
    if agent_state.player < 12 {
        return BlackjackAction::Hit;
    } else if agent_state.player == 21 {
        return BlackjackAction::Stand;
    }
    let schedule = counting_schedule(episode_number);
    let explore = epsilon_explore(&schedule, episode_number);
    let drawn = random_action();
    let greedy = if explore {
        None
    } else {
        q_table.select_greedy_action(agent_state)
    };
    choose_action(&seen, explore, drawn, greedy)
}

/// Plays one round from `deck` with the running count starting at
/// `init_hilo`, recording each state and action, the latest first.
pub fn episode(
    deck: &mut Deck,
    q_table: &QTable<BlackjackCountingState, BlackjackAction>,
    episode_number: usize,
    init_hilo: i32,
) -> (res: Result<EpisodeResult, RoundError>)
    requires
        all_valid(old(deck)@),
        old(deck)@.len() >= 3,
        count_fits(init_hilo, old(deck)@),
        q_table.wf(),
    ensures
        all_valid(final(deck)@),
        final(deck)@.len() <= old(deck)@.len(),
        final(deck)@ == old(deck)@.skip(old(deck)@.len() - final(deck)@.len()),
        res matches Ok(e) ==> {
            &&& plays_round(
                start_spec(old(deck)@, init_hilo),
                old(deck)@.skip(3),
                chronological(plain_trace(e.state_actions@)),
                final(deck)@,
            )
            &&& e.reward == final_reward(
                start_spec(old(deck)@, init_hilo),
                old(deck)@.skip(3),
                chronological(plain_trace(e.state_actions@)),
            )
            &&& e.hilo == init_hilo + hilo_sum(
                old(deck)@.take(old(deck)@.len() - final(deck)@.len()),
            )
        },
        res matches Err(err) ==> err == RoundError::EmptyDeck && final(deck)@.len() == 0,
        old(deck)@.len() >= ROUND_CARDS ==> res is Ok,
{
    let ghost cards0 = old(deck)@;
    let mut state_actions: VecDeque<CountingStateAction> = VecDeque::new();
    let mut round_state = RoundState::new_with_hilo(deck, init_hilo);
    proof {
        let h0 = Hand { sum: 0, ace: false };
        assert(valid_card(cards0[0]) && valid_card(cards0[1]) && valid_card(cards0[2]));
        lemma_hit_raises_hard_total(h0, cards0[0]);
        lemma_hit_raises_hard_total(hit_spec(h0, cards0[0]), cards0[1]);
        lemma_hit_raises_hard_total(h0, cards0[2]);
    }
    let ghost start = round_state;
    let ghost cards = deck@;
    let ghost mut steps: Seq<BlackjackStateAction> = Seq::empty();
    proof {
        assert(chronological(plain_trace(state_actions@)) =~= steps);
    }
    while !round_state.finished()
        invariant
            q_table.wf(),
            start == start_spec(cards0, init_hilo),
            cards == cards0.skip(3),
            cards0 == old(deck)@,
            round_state.wf(),
            !round_state.finished_spec() ==> hard_total(round_state.dealer) >= 1
                && round_state.dealer.sum <= 11 && deck@.len() + hard_total(round_state.player)
                >= cards0.len() - 1,
            all_valid(deck@),
            count_fits(round_state.hilo, deck@),
            deck@.len() <= cards0.len(),
            deck@ == cards0.skip(cards0.len() - deck@.len()),
            round_state.hilo == init_hilo + hilo_sum(cards0.take(cards0.len() - deck@.len())),
            steps == chronological(plain_trace(state_actions@)),
            played(start, cards, steps) == (Ok::<RoundState, RoundError>(round_state), deck@),
            forall|i: int|
                0 <= i < steps.len() ==> {
                    &&& played(start, cards, steps.take(i)).0 matches Ok(r)
                    &&& !r.finished_spec()
                    &&& #[trigger] steps[i].agent_state == observe(r)
                    &&& forced_action(steps[i].agent_state) matches Some(a) ==> steps[i].action
                        == a
                },
        decreases deck@.len() + if round_state.finished_spec() {
            0int
        } else {
            1int
        },
    {
        let agent_state = BlackjackCountingState::from(&round_state);
        let action = e_greedy_policy(&agent_state, q_table, episode_number);
        let ghost before = state_actions@;
        let ghost deck_before = deck@;
        let sa = StateAction { agent_state, action };
        state_actions.push_front(sa);
        proof {
            let psa = StateAction { agent_state: plain(agent_state), action };
            let old_steps = steps;
            steps = steps.push(psa);
            assert(chronological(plain_trace(state_actions@)) =~= steps);
            assert(steps.drop_last() =~= old_steps);
            assert(steps.take(old_steps.len() as int) =~= old_steps);
            assert forall|i: int| 0 <= i < old_steps.len() implies #[trigger] steps.take(i)
                == old_steps.take(i) by {
                assert(steps.take(i) =~= old_steps.take(i));
            }
        }
        proof {
            lemma_step_outcome(round_state, deck@, action);
        }
        let next = match action {
            BlackjackAction::Hit => round_state.hit(deck),
            BlackjackAction::Stand => round_state.stand(deck),
        };
        round_state = match next {
            Ok(r) => r,
            Err(e) => {
                proof {
                    assert(next == step_spec(round_state, deck_before, action).0);
                    assert(deck@ == step_spec(round_state, deck_before, action).1);
                    if deck@.len() > 0 {
                        lemma_running_count_accumulates(
                            cards0,
                            cards0.len() - deck_before.len(),
                            deck_before.len() - deck@.len(),
                        );
                    }
                }
                return Err(e);
            },
        };
        proof {
            let a = cards0.len() - deck_before.len();
            let k = deck_before.len() - deck@.len();
            lemma_running_count_accumulates(cards0, a, k);
            if action == BlackjackAction::Hit {
                assert(deck@ == deck_before.skip(1));
            }
        }
    }
    proof {
        assert(steps.take(steps.len() as int) =~= steps);
    }
    let reward = reward(&round_state);
    Ok(EpisodeResult { state_actions, reward, hilo: round_state.hilo })
}

/// Monte Carlo updates of a table's contents `m` (default `d`): each pair of
/// `trace` whose state has a total of 12 to 20, in order, moves one
/// sample-average step toward the return `g`.
pub open spec fn counting_updates(
    m: Map<CountingStateAction, (i64, nat)>,
    d: i64,
    trace: Seq<CountingStateAction>,
    g: i64,
) -> Map<CountingStateAction, (i64, nat)>
    decreases trace.len(),
{
    if trace.len() == 0 {
        m
    } else {
        let m1 = counting_updates(m, d, trace.drop_last(), g);
        let sa = trace.last();
        if eligible(plain(sa.agent_state)) {
            updated(m1, sa, toward(value_in(m1, d, sa), g, count_in(m1, sa)))
        } else {
            m1
        }
    }
}

/// Moves each eligible pair of an episode one sample-average step toward the
/// episode's reward, the latest pair first.
fn counting_update(
    q_table: &mut QTable<BlackjackCountingState, BlackjackAction>,
    result: &EpisodeResult,
)
    requires
        old(q_table).wf(),
        old(q_table).bounded(),
        -1 <= result.reward <= 1,
    ensures
        final(q_table).wf(),
        final(q_table).bounded(),
        final(q_table).default_spec() == old(q_table).default_spec(),
        final(q_table)@ == counting_updates(
            old(q_table)@,
            old(q_table).default_spec(),
            result.state_actions@,
            return_of(result.reward),
        ),
{
    let g: i64 = result.reward as i64 * VALUE_SCALE;
    let ghost m0 = q_table@;
    let ghost d = q_table.default_spec();
    let ghost trace = result.state_actions@;
    let mut i: usize = 0;
    while i < result.state_actions.len()
        invariant
            q_table.wf(),
            q_table.bounded(),
            q_table.default_spec() == d,
            in_range(g),
            trace == result.state_actions@,
            i <= trace.len(),
            q_table@ == counting_updates(m0, d, trace.take(i as int), g),
        decreases trace.len() - i,
    {
        let sa = result.state_actions[i];
        proof {
            assert(trace.take(i + 1).drop_last() =~= trace.take(i as int));
        }
        if sa.agent_state.player > 11 && sa.agent_state.player < 21 {
            q_table.update_toward(&sa, g);
        }
        i = i + 1;
    }
    proof {
        assert(trace.take(trace.len() as int) =~= trace);
    }
}

/// Plays one round from `deck`, whose running count so far is `init_hilo`,
/// and learns from it by Monte Carlo; returns the reward and the running
/// count at the end of the round.
pub fn evaluate_episode(
    q_table: &mut QTable<BlackjackCountingState, BlackjackAction>,
    episode_number: usize,
    deck: &mut Deck,
    init_hilo: i32,
) -> (res: Result<(i32, i32), RoundError>)
    requires
        old(q_table).wf(),
        old(q_table).bounded(),
        all_valid(old(deck)@),
        old(deck)@.len() >= 3,
        count_fits(init_hilo, old(deck)@),
    ensures
        final(q_table).wf(),
        final(q_table).bounded(),
        final(q_table).default_spec() == old(q_table).default_spec(),
        all_valid(final(deck)@),
        final(deck)@.len() <= old(deck)@.len(),
        final(deck)@ == old(deck)@.skip(old(deck)@.len() - final(deck)@.len()),
        res matches Ok((reward, hilo)) ==> {
            &&& -1 <= reward <= 1
            &&& hilo == init_hilo + hilo_sum(old(deck)@.take(old(deck)@.len() - final(deck)@.len()))
            &&& exists|trace: Seq<CountingStateAction>|
                {
                    &&& #[trigger] plays_round(
                        start_spec(old(deck)@, init_hilo),
                        old(deck)@.skip(3),
                        chronological(plain_trace(trace)),
                        final(deck)@,
                    )
                    &&& reward == final_reward(
                        start_spec(old(deck)@, init_hilo),
                        old(deck)@.skip(3),
                        chronological(plain_trace(trace)),
                    )
                    &&& final(q_table)@ == counting_updates(
                        old(q_table)@,
                        old(q_table).default_spec(),
                        trace,
                        return_of(reward),
                    )
                }
        },
        res matches Err(e) ==> e == RoundError::EmptyDeck && final(q_table)@ == old(q_table)@
            && final(deck)@.len() == 0,
        old(deck)@.len() >= ROUND_CARDS ==> res is Ok,
{
    let result = match episode(deck, q_table, episode_number, init_hilo) {
        Ok(r) => r,
        Err(e) => {
            return Err(e);
        },
    };
    counting_update(q_table, &result);
    proof {
        assert(plays_round(
            start_spec(old(deck)@, init_hilo),
            old(deck)@.skip(3),
            chronological(plain_trace(result.state_actions@)),
            deck@,
        ));
    }
    Ok((result.reward, result.hilo))
}

/// Statistics of one stretch of a card-counting session: the episode at
/// which it was taken, the wins, losses and draws since the previous
/// snapshot, and the money won with bets sized by the running count.
#[derive(Debug, Copy, Clone, PartialEq, Eq, Structural)]
pub struct CountingSnapshot {
    pub episode: usize,
    pub wins: usize,
    pub losses: usize,
    pub draws: usize,
    pub money: i64,
}

/// What a round wins with a bet sized by the running count before it: the
/// reward times the count when the count is above one, else the reward.
pub open spec fn stake_spec(reward: i32, hilo: i32) -> int {
    if hilo > 1 {
        reward * hilo
    } else {
        reward as int
    }
}

fn stake(reward: i32, hilo: i32) -> (r: i64)
    requires
        -1 <= reward <= 1,
        -52 <= hilo <= 52,
    ensures
        r == stake_spec(reward, hilo),
        -52 <= r <= 52,
{
    if hilo > 1 {
        proof {
            assert(-52 <= reward * hilo <= 52) by (nonlinear_arith)
                requires
                    -1 <= reward <= 1,
                    -52 <= hilo <= 52,
            ;
        }
        reward as i64 * hilo as i64
    } else {
        reward as i64
    }
}

/// The money of rounds `lo` to `hi - 1`, each staked by the running count
/// before it.
pub open spec fn stakes_in(rewards: Seq<i32>, hilos: Seq<i32>, lo: int, hi: int) -> int
    decreases hi - lo,
{
    if hi <= lo {
        0
    } else {
        stakes_in(rewards, hilos, lo, hi - 1) + stake_spec(rewards[hi - 1], hilos[hi - 1])
    }
}

/// A snapshot taken before round `at`, covering the rounds from `from`: the
/// wins, losses and draws among their rewards and the money they won.
pub open spec fn counting_snapshot_of(
    s: CountingSnapshot,
    rewards: Seq<i32>,
    hilos: Seq<i32>,
    from: int,
    at: int,
) -> bool {
    &&& s.wins == count_sign(rewards, from, at, 1)
    &&& s.losses == count_sign(rewards, from, at, -1)
    &&& s.draws == count_sign(rewards, from, at, 0)
    &&& s.money == stakes_in(rewards, hilos, from, at)
}

/// The `k`-th of the snapshots taken every thousand rounds: taken at round
/// `1000 * k` and covering the thousand rounds before it (none for the first).
pub open spec fn snapshot_ok(s: CountingSnapshot, k: int, rewards: Seq<i32>, hilos: Seq<i32>) -> bool {
    &&& s.episode == 1000 * k
    &&& counting_snapshot_of(
        s,
        rewards,
        hilos,
        if k == 0 {
            0
        } else {
            1000 * (k - 1)
        },
        1000 * k,
    )
}

/// Each snapshot is the one expected at its position.
pub open spec fn snapshots_ok(snaps: Seq<CountingSnapshot>, rewards: Seq<i32>, hilos: Seq<i32>) -> bool {
    forall|k: int| 0 <= k < snaps.len() ==> snapshot_ok(#[trigger] snaps[k], k, rewards, hilos)
}

/// One round with a running count of `init_hilo` before it: played from some
/// deck, with this reward, and the table moved from `before` to `after` by
/// the Monte Carlo updates along it.
#[verifier::opaque]
pub open spec fn round_effect(
    before: Map<CountingStateAction, (i64, nat)>,
    after: Map<CountingStateAction, (i64, nat)>,
    init_hilo: i32,
    reward: i32,
) -> bool {
    exists|cards: Seq<u8>, trace: Seq<CountingStateAction>, rest: Seq<u8>|
        {
            &&& #[trigger] plays_round(
                start_spec(cards, init_hilo),
                cards.skip(3),
                chronological(plain_trace(trace)),
                rest,
            )
            &&& reward == final_reward(
                start_spec(cards, init_hilo),
                cards.skip(3),
                chronological(plain_trace(trace)),
            )
            &&& after == counting_updates(before, 0, trace, return_of(reward))
        }
}

/// `n` rounds one after another, the `k`-th from the table the one before
/// left, with the running counts before them and their rewards.
pub open spec fn session_ok(
    tables: Seq<Map<CountingStateAction, (i64, nat)>>,
    rewards: Seq<i32>,
    hilos: Seq<i32>,
    n: nat,
) -> bool {
    &&& rewards.len() == n
    &&& hilos.len() == n
    &&& tables.len() == n + 1
    &&& forall|k: int|
        0 <= k < n ==> round_effect(#[trigger] tables[k], tables[k + 1], hilos[k], rewards[k])
}

proof fn lemma_stakes_push(rewards: Seq<i32>, hilos: Seq<i32>, r: i32, h: i32, lo: int, hi: int)
    requires
        0 <= lo,
        hi <= rewards.len(),
        hi <= hilos.len(),
    ensures
        stakes_in(rewards.push(r), hilos.push(h), lo, hi) == stakes_in(rewards, hilos, lo, hi),
    decreases hi - lo,
{
    if hi > lo {
        assert(rewards.push(r)[hi - 1] == rewards[hi - 1]);
        assert(hilos.push(h)[hi - 1] == hilos[hi - 1]);
        lemma_stakes_push(rewards, hilos, r, h, lo, hi - 1);
    }
}

proof fn lemma_counting_snapshots_push(
    snaps: Seq<CountingSnapshot>,
    rewards: Seq<i32>,
    hilos: Seq<i32>,
    r: i32,
    h: i32,
)
    requires
        snapshots_ok(snaps, rewards, hilos),
        snaps.len() > 0 ==> 1000 * (snaps.len() - 1) <= rewards.len(),
        rewards.len() == hilos.len(),
    ensures
        snapshots_ok(snaps, rewards.push(r), hilos.push(h)),
{
    assert forall|k: int| 0 <= k < snaps.len() implies snapshot_ok(
        #[trigger] snaps[k],
        k,
        rewards.push(r),
        hilos.push(h),
    ) by {
        assert(snapshot_ok(snaps[k], k, rewards, hilos));
        assert(1000 * k <= 1000 * (snaps.len() - 1));
        let from = if k == 0 {
            0
        } else {
            1000 * (k - 1)
        };
        lemma_count_sign_push(rewards, r, from, 1000 * k, 1);
        lemma_count_sign_push(rewards, r, from, 1000 * k, -1);
        lemma_count_sign_push(rewards, r, from, 1000 * k, 0);
        lemma_stakes_push(rewards, hilos, r, h, from, 1000 * k);
    }
}

/// One round of a session: plays and learns from a round dealt from `deck`,
/// whose count so far is `hilo`; returns the reward and the count after it.
fn session_round(
    q_table: &mut QTable<BlackjackCountingState, BlackjackAction>,
    episode: usize,
    deck: &mut Deck,
    hilo: i32,
) -> (r: Result<(i32, i32), RoundError>)
    requires
        old(q_table).wf(),
        old(q_table).bounded(),
        old(q_table).default_spec() == 0,
        all_valid(old(deck)@),
        RESHUFFLE_BELOW <= old(deck)@.len() <= 52,
        -(52 - old(deck)@.len()) <= hilo <= 52 - old(deck)@.len(),
    ensures
        final(q_table).wf(),
        final(q_table).bounded(),
        final(q_table).default_spec() == 0,
        all_valid(final(deck)@),
        final(deck)@.len() <= 52,
        r matches Ok((reward, new_hilo)) ==> {
            &&& round_effect(old(q_table)@, final(q_table)@, hilo, reward)
            &&& -1 <= reward <= 1
            &&& -(52 - final(deck)@.len()) <= new_hilo <= 52 - final(deck)@.len()
        },
{
    let ghost cards = deck@;
    let r = evaluate_episode(q_table, episode, deck, hilo);
    proof {
        let k = cards.len() - deck@.len();
        lemma_hilo_sum_bound(cards.take(k));
        reveal(round_effect);
    }
    r
}

/// A card-counting session of `episodes` rounds dealt one after another from
/// a shuffled deck, replaced by a freshly shuffled one (and the count reset)
/// when fewer than fifteen cards are left. Before every round whose number
/// is a multiple of a thousand, and once at the end, it takes a snapshot of
/// the wins, losses, draws and money since the previous one. Returns the
/// snapshots and the table, which the rounds built one after another from an
/// empty one.
#[verifier::spinoff_prover]
pub fn monte_carlo_cardcounting(episodes: usize) -> (res: Result<
    (Vec<CountingSnapshot>, QTable<BlackjackCountingState, BlackjackAction>),
    RoundError,
>)
    ensures
        episodes == 0 ==> res is Ok,
        res matches Ok((snaps, table)) ==> {
            &&& table.wf()
            &&& table.bounded()
            &&& table.default_spec() == 0
            &&& snaps@.len() == (episodes + 999) / 1000 + 1
            &&& snaps@.last().episode == episodes
            &&& exists|
                tables: Seq<Map<CountingStateAction, (i64, nat)>>,
                rewards: Seq<i32>,
                hilos: Seq<i32>,
            |
                {
                    &&& #[trigger] session_ok(tables, rewards, hilos, episodes as nat)
                    &&& tables[0] == Map::<CountingStateAction, (i64, nat)>::empty()
                    &&& tables[episodes as int] == table@
                    &&& snapshots_ok(snaps@.drop_last(), rewards, hilos)
                    &&& counting_snapshot_of(
                        snaps@.last(),
                        rewards,
                        hilos,
                        if episodes == 0 {
                            0
                        } else {
                            1000 * ((episodes + 999) / 1000 - 1)
                        },
                        episodes as int,
                    )
                }
        },
{
    let mut q_table: QTable<BlackjackCountingState, BlackjackAction> = QTable::new(0);
    let ghost mut tables: Seq<Map<CountingStateAction, (i64, nat)>> = seq![q_table@];
    let ghost mut rewards: Seq<i32> = Seq::empty();
    let ghost mut hilos: Seq<i32> = Seq::empty();
    let mut snaps: Vec<CountingSnapshot> = Vec::new();
    let mut wins: usize = 0;
    let mut losses: usize = 0;
    let mut draws: usize = 0;
    let mut money: i64 = 0;
    let mut deck = Deck::new_shuffled();
    let mut current_hilo: i32 = 0;
    let mut i: usize = 0;
    while i < episodes
        invariant
            q_table.wf(),
            q_table.bounded(),
            q_table.default_spec() == 0,
            i <= episodes,
            all_valid(deck@),
            deck@.len() <= 52,
            -(52 - deck@.len()) <= current_hilo <= 52 - deck@.len(),
            session_ok(tables, rewards, hilos, i as nat),
            tables[0] == Map::<CountingStateAction, (i64, nat)>::empty(),
            tables[i as int] == q_table@,
            snaps@.len() == (i + 999) / 1000,
            snapshots_ok(snaps@, rewards, hilos),
            i > 0 ==> wins + losses + draws == i - 1000 * (snaps@.len() - 1),
            i == 0 ==> wins + losses + draws == 0,
            -52 * (wins + losses + draws) <= money <= 52 * (wins + losses + draws),
            counting_snapshot_of(
                CountingSnapshot { episode: i, wins, losses, draws, money },
                rewards,
                hilos,
                if i == 0 {
                    0
                } else {
                    1000 * (snaps@.len() - 1)
                },
                i as int,
            ),
        decreases episodes - i,
    {
        if i % 1000 == 0 {
            let ghost old_snaps = snaps@;
            snaps.push(CountingSnapshot { episode: i, wins, losses, draws, money });
            proof {
                assert(old_snaps.len() * 1000 == i);
                assert forall|k: int| 0 <= k < snaps@.len() implies snapshot_ok(
                    #[trigger] snaps@[k],
                    k,
                    rewards,
                    hilos,
                ) by {
                    if k < old_snaps.len() {
                        assert(snaps@[k] == old_snaps[k]);
                        assert(snapshot_ok(old_snaps[k], k, rewards, hilos));
                    }
                }
            }
            wins = 0;
            losses = 0;
            draws = 0;
            money = 0;
        }
        if deck.len() < RESHUFFLE_BELOW {
            deck = Deck::new_shuffled();
            current_hilo = 0;
        }
        let ghost lo: int = if snaps@.len() == 0 {
            0
        } else {
            1000 * (snaps@.len() - 1)
        };
        let (reward, new_hilo) = match session_round(&mut q_table, i, &mut deck, current_hilo) {
            Ok(p) => p,
            Err(e) => {
                return Err(e);
            },
        };
        proof {
            let rewards2 = rewards.push(reward);
            let hilos2 = hilos.push(current_hilo);
            let tables2 = tables.push(q_table@);
            lemma_counting_snapshots_push(snaps@, rewards, hilos, reward, current_hilo);
            lemma_count_sign_push(rewards, reward, lo, i as int, 1);
            lemma_count_sign_push(rewards, reward, lo, i as int, -1);
            lemma_count_sign_push(rewards, reward, lo, i as int, 0);
            lemma_stakes_push(rewards, hilos, reward, current_hilo, lo, i as int);
            assert forall|k: int| 0 <= k < i + 1 implies round_effect(
                #[trigger] tables2[k],
                tables2[k + 1],
                hilos2[k],
                rewards2[k],
            ) by {
                if k < i {
                    assert(tables2[k] == tables[k]);
                    assert(round_effect(tables[k], tables[k + 1], hilos[k], rewards[k]));
                }
            }
            assert(rewards2[i as int] == reward);
            assert(hilos2[i as int] == current_hilo);
            tables = tables2;
            rewards = rewards2;
            hilos = hilos2;
        }
        money = money + stake(reward, current_hilo);
        current_hilo = new_hilo;
        if reward > 0 {
            wins = wins + 1;
        } else if reward < 0 {
            losses = losses + 1;
        } else {
            draws = draws + 1;
        }
        i = i + 1;
    }
    let ghost body = snaps@;
    snaps.push(CountingSnapshot { episode: episodes, wins, losses, draws, money });
    proof {
        assert(snaps@.drop_last() =~= body);
        assert(session_ok(tables, rewards, hilos, episodes as nat));
    }
    Ok((snaps, q_table))
}

} // verus!
