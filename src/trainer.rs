use vstd::prelude::*;

use crate::blackjack_agent::{BlackjackAction, BlackjackState, BlackjackStateAction};
use crate::blackjack_policy::EpsilonSchedule;
use crate::monte_carlo::{evaluate_episode, mc_evaluated};
use crate::qtable::{lemma_toward_between, toward, QTable, StateAction, VALUE_SCALE};
use crate::round::RoundError;
use crate::sarsa::{evaluate_episode_sarsa, evaluate_episode_sarsamax, evaluated, Mode};

verus! {

/// How many episodes each snapshot covers.
pub const REPORT_INTERVAL: usize = 1000;

/// The episode budget of a training run unless told otherwise.
pub const DEFAULT_EPISODES: usize = 500_000;

/// The learning algorithm a trainer runs.
#[derive(Debug, Copy, Clone, PartialEq, Eq, Structural)]
pub enum Algorithm {
    MonteCarlo,
    Sarsa,
    SarsaMax,
}

/// Statistics of one stretch of training: the episode at which it was taken,
/// the wins, losses and draws since the previous snapshot, and the running
/// mean of the episodes' errors.
#[derive(Debug, Copy, Clone, PartialEq, Eq, Structural)]
pub struct Snapshot {
    pub episode: usize,
    pub wins: usize,
    pub losses: usize,
    pub draws: usize,
    pub mean_error: i64,
}

#[verifier::opaque]
/// What one episode of `algorithm` did: the table went from `before` to
/// `after`, with this reward and mean error.
pub open spec fn episode_effect(
    algorithm: Algorithm,
    before: Map<BlackjackStateAction, (i64, nat)>,
    d: i64,
    after: Map<BlackjackStateAction, (i64, nat)>,
    reward: i32,
    error: i64,
) -> bool {
    match algorithm {
        Algorithm::MonteCarlo => mc_evaluated(before, d, after, reward, error),
        Algorithm::Sarsa => evaluated(before, d, after, Mode::SARSA, reward, error),
        Algorithm::SarsaMax => evaluated(before, d, after, Mode::SARSAMAX, reward, error),
    }
}

/// The sign of a reward: 1 for a win, -1 for a loss, 0 for a draw.
pub open spec fn sign_of(reward: i32) -> int {
    if reward > 0 {
        1
    } else if reward < 0 {
        -1
    } else {
        0
    }
}

/// How many of the rewards of episodes `lo` to `hi - 1` have the sign `sign`.
pub open spec fn count_sign(rewards: Seq<i32>, lo: int, hi: int, sign: int) -> int
    decreases hi - lo,
{
    if hi <= lo {
        0
    } else {
        count_sign(rewards, lo, hi - 1, sign) + if sign_of(rewards[hi - 1]) == sign {
            1int
        } else {
            0int
        }
    }
}

/// The running mean of the first `n` errors: `avg += (error - avg) / count`.
pub open spec fn running_mean_spec(errors: Seq<i64>, n: nat) -> i64
    decreases n,
{
    if n == 0 {
        0
    } else {
        toward(running_mean_spec(errors, (n - 1) as nat), errors[n - 1], (n - 1) as nat)
    }
}

/// A snapshot taken before episode `at`, covering the episodes from `from`:
/// the wins, losses and draws among their rewards, and the running mean of
/// all errors so far.
pub open spec fn snapshot_of(
    s: Snapshot,
    rewards: Seq<i32>,
    errors: Seq<i64>,
    from: int,
    at: int,
) -> bool {
    &&& s.wins == count_sign(rewards, from, at, 1)
    &&& s.losses == count_sign(rewards, from, at, -1)
    &&& s.draws == count_sign(rewards, from, at, 0)
    &&& s.mean_error == running_mean_spec(errors, at as nat)
}

/// The `k`-th of the snapshots taken every thousand episodes: taken at
/// episode `1000 * k` and covering the thousand episodes before it (none for
/// the first).
pub open spec fn snapshot_ok(s: Snapshot, k: int, rewards: Seq<i32>, errors: Seq<i64>) -> bool {
    &&& s.episode == 1000 * k
    &&& snapshot_of(
        s,
        rewards,
        errors,
        if k == 0 {
            0
        } else {
            1000 * (k - 1)
        },
        1000 * k,
    )
}

/// Each snapshot is the one expected at its position.
pub open spec fn snapshots_ok(snaps: Seq<Snapshot>, rewards: Seq<i32>, errors: Seq<i64>) -> bool {
    forall|k: int| 0 <= k < snaps.len() ==> snapshot_ok(#[trigger] snaps[k], k, rewards, errors)
}

/// `n` episodes of `algorithm`, one after another: the `k`-th starts from
/// the table the one before left, with the rewards and errors given.
pub open spec fn history_ok(
    algorithm: Algorithm,
    d: i64,
    tables: Seq<Map<BlackjackStateAction, (i64, nat)>>,
    rewards: Seq<i32>,
    errors: Seq<i64>,
    n: nat,
) -> bool {
    &&& rewards.len() == n
    &&& errors.len() == n
    &&& tables.len() == n + 1
    &&& forall|k: int|
        0 <= k < n ==> episode_effect(
            algorithm,
            #[trigger] tables[k],
            d,
            tables[k + 1],
            rewards[k],
            errors[k],
        )
}

/// Counting over episodes already played is unchanged by one more.
pub proof fn lemma_count_sign_push(rewards: Seq<i32>, x: i32, lo: int, hi: int, sign: int)
    requires
        0 <= lo,
        hi <= rewards.len(),
    ensures
        count_sign(rewards.push(x), lo, hi, sign) == count_sign(rewards, lo, hi, sign),
    decreases hi - lo,
{
    if hi > lo {
        assert(rewards.push(x)[hi - 1] == rewards[hi - 1]);
        lemma_count_sign_push(rewards, x, lo, hi - 1, sign);
    }
}

proof fn lemma_snapshots_push(
    snaps: Seq<Snapshot>,
    rewards: Seq<i32>,
    errors: Seq<i64>,
    reward: i32,
    error: i64,
)
    requires
        snapshots_ok(snaps, rewards, errors),
        snaps.len() > 0 ==> 1000 * (snaps.len() - 1) <= rewards.len(),
        rewards.len() == errors.len(),
    ensures
        snapshots_ok(snaps, rewards.push(reward), errors.push(error)),
{
    assert forall|k: int| 0 <= k < snaps.len() implies snapshot_ok(
        #[trigger] snaps[k],
        k,
        rewards.push(reward),
        errors.push(error),
    ) by {
        assert(snapshot_ok(snaps[k], k, rewards, errors));
        assert(1000 * k <= 1000 * (snaps.len() - 1));
        let from = if k == 0 {
            0
        } else {
            1000 * (k - 1)
        };
        lemma_count_sign_push(rewards, reward, from, 1000 * k, 1);
        lemma_count_sign_push(rewards, reward, from, 1000 * k, -1);
        lemma_count_sign_push(rewards, reward, from, 1000 * k, 0);
        lemma_running_mean_push(errors, error, (1000 * k) as nat);
    }
}

proof fn lemma_running_mean_push(errors: Seq<i64>, x: i64, n: nat)
    requires
        n <= errors.len(),
    ensures
        running_mean_spec(errors.push(x), n) == running_mean_spec(errors, n),
    decreases n,
{
    if n > 0 {
        lemma_running_mean_push(errors, x, (n - 1) as nat);
    }
}

proof fn lemma_running_mean_range(errors: Seq<i64>, n: nat)
    requires
        n <= errors.len(),
        forall|k: int| 0 <= k < errors.len() ==> 0 <= #[trigger] errors[k] <= 2 * VALUE_SCALE,
    ensures
        0 <= running_mean_spec(errors, n) <= 2 * VALUE_SCALE,
    decreases n,
{
    if n > 0 {
        lemma_running_mean_range(errors, (n - 1) as nat);
        lemma_toward_between(
            running_mean_spec(errors, (n - 1) as nat),
            errors[n - 1],
            (n - 1) as nat,
        );
    }
}

/// Runs episodes of one algorithm against a table that it owns.
pub struct Trainer {
    q_table: QTable<BlackjackState, BlackjackAction>,
}

impl Trainer {
    /// The table the trainer owns.
    pub closed spec fn table(&self) -> QTable<BlackjackState, BlackjackAction> {
        self.q_table
    }

    /// The table is well formed and its values lie within one reward of zero.
    pub open spec fn wf(&self) -> bool {
        self.table().wf() && self.table().bounded()
    }

    /// A trainer with an empty table whose unseen pairs are worth zero.
    pub fn new() -> (r: Trainer)
        ensures
            r.wf(),
            r.table()@ == Map::<StateAction<BlackjackState, BlackjackAction>, (i64, nat)>::empty(),
            r.table().default_spec() == 0,
    {
        Trainer { q_table: QTable::new(0) }
    }

    /// The table learned so far.
    pub fn q_table(&self) -> (r: &QTable<BlackjackState, BlackjackAction>)
        ensures
            *r == self.table(),
    {
        &self.q_table
    }

    fn run_episode(&mut self, algorithm: Algorithm, episode: usize, schedule: &EpsilonSchedule) -> (r:
        Result<(i32, i64), RoundError>)
        requires
            old(self).wf(),
            schedule.wf(),
        ensures
            final(self).wf(),
            final(self).table().default_spec() == old(self).table().default_spec(),
            r matches Ok((reward, error)) ==> episode_effect(
                algorithm,
                old(self).table()@,
                old(self).table().default_spec(),
                final(self).table()@,
                reward,
                error,
            ) && 0 <= error <= 2 * VALUE_SCALE,
            r is Ok,
    {
        proof {
            reveal(episode_effect);
        }
        match algorithm {
            Algorithm::MonteCarlo => evaluate_episode(&mut self.q_table, episode, schedule),
            Algorithm::Sarsa => evaluate_episode_sarsa(&mut self.q_table, episode, schedule),
            Algorithm::SarsaMax => evaluate_episode_sarsamax(&mut self.q_table, episode, schedule),
        }
    }

    /// Runs `episodes` episodes of `algorithm`, numbered from 0, each on the
    /// table the one before left. Before every episode whose number is a
    /// multiple of the report interval, and once at the end, it takes a
    /// snapshot of the wins, losses and draws since the previous one and of
    /// the running mean error, `avg += (error - avg) / count`.
    #[verifier::spinoff_prover]
    pub fn train(&mut self, algorithm: Algorithm, schedule: &EpsilonSchedule, episodes: usize) -> (r:
        Result<Vec<Snapshot>, RoundError>)
        requires
            old(self).wf(),
            schedule.wf(),
            episodes > 0,
        ensures
            final(self).wf(),
            final(self).table().default_spec() == old(self).table().default_spec(),
            r is Ok,
            r matches Ok(snaps) ==> exists|
                tables: Seq<Map<BlackjackStateAction, (i64, nat)>>,
                rewards: Seq<i32>,
                errors: Seq<i64>,
            |
                {
                    &&& #[trigger] history_ok(
                        algorithm,
                        old(self).table().default_spec(),
                        tables,
                        rewards,
                        errors,
                        episodes as nat,
                    )
                    &&& tables[0] == old(self).table()@
                    &&& tables[episodes as int] == final(self).table()@
                    &&& snaps@.len() == (episodes + 999) / 1000 + 1
                    &&& snapshots_ok(snaps@.drop_last(), rewards, errors)
                    &&& snaps@.last().episode == episodes - 1
                    &&& snapshot_of(
                        snaps@.last(),
                        rewards,
                        errors,
                        1000 * ((episodes + 999) / 1000 - 1),
                        episodes as int,
                    )
                    &&& forall|k: int|
                        0 <= k < snaps@.len() ==> 0 <= #[trigger] snaps@[k].mean_error <= 2
                            * VALUE_SCALE
                },
    {
        let ghost d = self.table().default_spec();
        let ghost mut tables: Seq<Map<BlackjackStateAction, (i64, nat)>> = seq![self.table()@];
        let ghost mut rewards: Seq<i32> = Seq::empty();
        let ghost mut errors: Seq<i64> = Seq::empty();
        let mut snaps: Vec<Snapshot> = Vec::new();
        let mut wins: usize = 0;
        let mut losses: usize = 0;
        let mut draws: usize = 0;
        let mut avg_error: i64 = 0;
        let mut i: usize = 0;
        while i < episodes
            invariant
                self.wf(),
                schedule.wf(),
                self.table().default_spec() == d,
                d == old(self).table().default_spec(),
                i <= episodes,
                history_ok(algorithm, d, tables, rewards, errors, i as nat),
                tables[0] == old(self).table()@,
                tables[i as int] == self.table()@,
                forall|k: int| 0 <= k < errors.len() ==> 0 <= #[trigger] errors[k] <= 2 * VALUE_SCALE,
                snaps@.len() == (i + 999) / 1000,
                snapshots_ok(snaps@, rewards, errors),
                forall|k: int|
                    0 <= k < snaps@.len() ==> 0 <= #[trigger] snaps@[k].mean_error <= 2
                        * VALUE_SCALE,
                wins == count_sign(
                    rewards,
                    if i == 0 {
                        0
                    } else {
                        1000 * (snaps@.len() - 1)
                    },
                    i as int,
                    1,
                ),
                losses == count_sign(
                    rewards,
                    if i == 0 {
                        0
                    } else {
                        1000 * (snaps@.len() - 1)
                    },
                    i as int,
                    -1,
                ),
                draws == count_sign(
                    rewards,
                    if i == 0 {
                        0
                    } else {
                        1000 * (snaps@.len() - 1)
                    },
                    i as int,
                    0,
                ),
                i > 0 ==> wins + losses + draws == i - 1000 * (snaps@.len() - 1),
                i == 0 ==> wins + losses + draws == 0,
                avg_error == running_mean_spec(errors, i as nat),
            decreases episodes - i,
        {
            if i % REPORT_INTERVAL == 0 {
                let ghost old_snaps = snaps@;
                snaps.push(Snapshot { episode: i, wins, losses, draws, mean_error: avg_error });
                proof {
                    assert(old_snaps.len() * 1000 == i);
                    lemma_running_mean_range(errors, i as nat);
                    assert forall|k: int| 0 <= k < snaps@.len() implies snapshot_ok(
                        #[trigger] snaps@[k],
                        k,
                        rewards,
                        errors,
                    ) by {
                        if k < old_snaps.len() {
                            assert(snaps@[k] == old_snaps[k]);
                            assert(snapshot_ok(old_snaps[k], k, rewards, errors));
                        }
                    }
                }
                wins = 0;
                losses = 0;
                draws = 0;
            }
            let ghost before = self.table()@;
            let (reward, error) = match self.run_episode(algorithm, i, schedule) {
                Ok(p) => p,
                Err(e) => {
                    return Err(e);
                },
            };
            let ghost lo: int = if snaps@.len() == 0 {
                0
            } else {
                1000 * (snaps@.len() - 1)
            };
            proof {
                let rewards2 = rewards.push(reward);
                let errors2 = errors.push(error);
                let tables2 = tables.push(self.table()@);
                lemma_count_sign_push(rewards, reward, lo, i as int, 1);
                lemma_count_sign_push(rewards, reward, lo, i as int, -1);
                lemma_count_sign_push(rewards, reward, lo, i as int, 0);
                lemma_running_mean_push(errors, error, i as nat);
                lemma_snapshots_push(snaps@, rewards, errors, reward, error);
                assert forall|k: int| 0 <= k < i + 1 implies episode_effect(
                    algorithm,
                    #[trigger] tables2[k],
                    d,
                    tables2[k + 1],
                    rewards2[k],
                    errors2[k],
                ) by {
                    if k < i {
                        assert(tables2[k] == tables[k]);
                        assert(episode_effect(
                            algorithm,
                            tables[k],
                            d,
                            tables[k + 1],
                            rewards[k],
                            errors[k],
                        ));
                    }
                }
                assert(rewards2[i as int] == reward);
                tables = tables2;
                rewards = rewards2;
                errors = errors2;
            }
            if reward > 0 {
                wins = wins + 1;
            } else if reward < 0 {
                losses = losses + 1;
            } else {
                draws = draws + 1;
            }
            proof {
                lemma_running_mean_range(errors, i as nat);
            }
            avg_error = Trainer::running_mean(avg_error, error, i);
            i = i + 1;
        }
        let ghost body = snaps@;
        proof {
            lemma_running_mean_range(errors, episodes as nat);
        }
        snaps.push(
            Snapshot { episode: episodes - 1, wins, losses, draws, mean_error: avg_error },
        );
        proof {
            assert(snaps@.drop_last() =~= body);
            assert(history_ok(algorithm, d, tables, rewards, errors, episodes as nat));
        }
        Ok(snaps)
    }

    /// The running mean after its `(done + 1)`-th value `x`.
    fn running_mean(avg: i64, x: i64, done: usize) -> (r: i64)
        requires
            0 <= avg <= 2 * VALUE_SCALE,
            0 <= x <= 2 * VALUE_SCALE,
        ensures
            r == toward(avg, x, done as nat),
            0 <= r <= 2 * VALUE_SCALE,
    {
        proof {
            lemma_toward_between(avg, x, done as nat);
        }
        let n: u128 = done as u128 + 1;
        if x >= avg {
            avg + ((x - avg) as u128 / n) as i64
        } else {
            avg - ((avg - x) as u128 / n) as i64
        }
    }
}

} // verus!
