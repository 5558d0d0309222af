use vstd::prelude::*;

use crate::blackjack_agent::{BlackjackAction, BlackjackState};
use crate::qtable::QTable;
use crate::random::random_below;

verus! {

/// How the exploration rate changes with the episode number, as an exact
/// fraction.
#[derive(Debug, Copy, Clone, PartialEq, Eq, Structural)]
pub enum EpsilonSchedule {
    /// The same rate `numerator / denominator` in every episode.
    Constant { numerator: usize, denominator: usize },
    /// The rate `1 / (episode + 1)`.
    InverseEpisode,
}

impl EpsilonSchedule {
    /// A constant rate is a fraction between zero and one.
    pub open spec fn wf(&self) -> bool {
        match *self {
            EpsilonSchedule::Constant { numerator, denominator } => 0 < denominator
                && numerator <= denominator,
            EpsilonSchedule::InverseEpisode => true,
        }
    }
}

/// The exploration rate of an episode, as numerator and denominator.
pub open spec fn epsilon_spec(schedule: EpsilonSchedule, episode: usize) -> (usize, usize) {
    match schedule {
        EpsilonSchedule::Constant { numerator, denominator } => (numerator, denominator),
        EpsilonSchedule::InverseEpisode => (
            1,
            if episode == usize::MAX {
                usize::MAX
            } else {
                (episode + 1) as usize
            },
        ),
    }
}

/// The action that needs no learning: hit under 12, stand on 21.
pub open spec fn forced_action(s: BlackjackState) -> Option<BlackjackAction> {
    if s.player < 12 {
        Some(BlackjackAction::Hit)
    } else if s.player == 21 {
        Some(BlackjackAction::Stand)
    } else {
        None
    }
}

/// The choice of a policy, given whether it explores, a uniformly drawn
/// action and the table's greedy action if the state was visited.
pub open spec fn choice_spec(
    s: BlackjackState,
    explore: bool,
    drawn: BlackjackAction,
    greedy: Option<BlackjackAction>,
) -> BlackjackAction {
    match forced_action(s) {
        Some(a) => a,
        None => if explore {
            drawn
        } else {
            match greedy {
                Some(a) => a,
                None => drawn,
            }
        },
    }
}

/// Chooses an action from the values that the random draws and the table
/// gave: forced actions first, then the drawn action when exploring or when
/// the state is unvisited, else the greedy action.
pub fn choose_action(
    agent_state: &BlackjackState,
    explore: bool,
    drawn: BlackjackAction,
    greedy: Option<BlackjackAction>,
) -> (r: BlackjackAction)
    ensures
        r == choice_spec(*agent_state, explore, drawn, greedy),
{
    if agent_state.player < 12 {
        BlackjackAction::Hit
    } else if agent_state.player == 21 {
        BlackjackAction::Stand
    } else if explore {
        drawn
    } else {
        match greedy {
            Some(a) => a,
            None => drawn,
        }
    }
}

/// The exploration rate of an episode.
pub fn epsilon(schedule: &EpsilonSchedule, episode: usize) -> (r: (usize, usize))
    requires
        schedule.wf(),
    ensures
        r == epsilon_spec(*schedule, episode),
        0 < r.1,
        r.0 <= r.1,
{
    match *schedule {
        EpsilonSchedule::Constant { numerator, denominator } => (numerator, denominator),
        EpsilonSchedule::InverseEpisode => (
            1,
            if episode == usize::MAX {
                usize::MAX
            } else {
                episode + 1
            },
        ),
    }
}

/// Draws whether to explore: true with probability epsilon of the episode.
pub(crate) fn epsilon_explore(schedule: &EpsilonSchedule, episode: usize) -> (r: bool)
    requires
        schedule.wf(),
    ensures
        epsilon_spec(*schedule, episode).0 == 0 ==> !r,
        epsilon_spec(*schedule, episode).0 == epsilon_spec(*schedule, episode).1 ==> r,
{
    let (numerator, denominator) = epsilon(schedule, episode);
    random_below(denominator) < numerator
}

/// Draws Hit or Stand with equal chance.
pub(crate) fn random_action() -> (r: BlackjackAction) {
    if random_below(2) == 0 {
        BlackjackAction::Hit
    } else {
        BlackjackAction::Stand
    }
}

/// Epsilon-greedy: explores with the schedule's rate, else acts greedily on
/// the table, drawing an action for a state never visited.
pub fn e_greedy_policy(
    agent_state: &BlackjackState,
    q_table: &QTable<BlackjackState, BlackjackAction>,
    episode_number: usize,
    schedule: &EpsilonSchedule,
) -> (r: BlackjackAction)
    requires
        q_table.wf(),
        schedule.wf(),
    ensures
        forced_action(*agent_state) matches Some(a) ==> r == a,
        forced_action(*agent_state) is None && epsilon_spec(*schedule, episode_number).0 == 0
            && q_table.visited(*agent_state) ==> q_table.is_greedy(*agent_state, r),
{
    if agent_state.player < 12 {
        return BlackjackAction::Hit;
    } else if agent_state.player == 21 {
        return BlackjackAction::Stand;
    }
    let explore = epsilon_explore(schedule, episode_number);
    let drawn = random_action();
    let greedy = if explore {
        None
    } else {
        q_table.select_greedy_action(agent_state)
    };
    choose_action(agent_state, explore, drawn, greedy)
}

/// Greedy: the table's best action, drawing one for a state never visited.
pub fn greedy_policy(
    agent_state: &BlackjackState,
    q_table: &QTable<BlackjackState, BlackjackAction>,
    _episode_number: usize,
) -> (r: BlackjackAction)
    requires
        q_table.wf(),
    ensures
        forced_action(*agent_state) matches Some(a) ==> r == a,
        forced_action(*agent_state) is None && q_table.visited(*agent_state) ==> q_table.is_greedy(
            *agent_state,
            r,
        ),
{
    if agent_state.player < 12 {
        return BlackjackAction::Hit;
    } else if agent_state.player == 21 {
        return BlackjackAction::Stand;
    }
    let drawn = random_action();
    let greedy = q_table.select_greedy_action(agent_state);
    choose_action(agent_state, false, drawn, greedy)
}

/// Random: a drawn action wherever the action is not forced.
pub fn random_policy(
    agent_state: &BlackjackState,
    _q_table: &QTable<BlackjackState, BlackjackAction>,
    _episode_number: usize,
) -> (r: BlackjackAction)
    ensures
        forced_action(*agent_state) matches Some(a) ==> r == a,
{
    let drawn = random_action();
    choose_action(agent_state, true, drawn, None)
}

} // verus!
