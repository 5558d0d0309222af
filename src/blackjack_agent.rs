use std::collections::VecDeque;
use vstd::prelude::*;

use crate::blackjack_policy::forced_action;
use crate::qtable::{in_range, Action, State, StateAction, VALUE_SCALE};
use crate::deck::{all_valid, valid_card};
use crate::hand::{hard_total, lemma_hit_raises_hard_total};
use crate::round::{
    dealer_draws, hit_step, lemma_dealer_finishes, stand_step, Outcome, RoundError, RoundState,
};

verus! {

/// What the player sees of a round: its own total, the dealer's visible
/// total and whether its ace counts as eleven.
#[derive(Debug, Copy, Clone, Hash, PartialEq, Eq, Structural)]
pub struct BlackjackState {
    pub player: u8,
    pub dealer: u8,
    pub ace: bool,
}

impl State for BlackjackState {
    fn same_state(&self, other: &Self) -> (r: bool) {
        self.ace == other.ace && self.player == other.player && self.dealer == other.dealer
    }
}

/// The two moves of the player.
#[derive(Debug, Copy, Clone, Hash, PartialEq, Eq, Structural)]
pub enum BlackjackAction {
    Hit,
    Stand,
}

impl Action for BlackjackAction {
    fn same_action(&self, other: &Self) -> (r: bool) {
        match (self, other) {
            (BlackjackAction::Hit, BlackjackAction::Hit) => true,
            (BlackjackAction::Stand, BlackjackAction::Stand) => true,
            _ => false,
        }
    }
}

pub type BlackjackStateAction = StateAction<BlackjackState, BlackjackAction>;

/// The state the player sees in a round.
pub open spec fn observe(r: RoundState) -> BlackjackState {
    BlackjackState { player: r.player.sum, dealer: r.dealer.sum, ace: r.player.ace }
}

/// The reward of a round: +1 won, -1 lost, 0 drawn or still playing.
pub open spec fn reward_spec(r: RoundState) -> i32 {
    match r.outcome {
        Outcome::Won => 1i32,
        Outcome::Lost => -1i32,
        Outcome::Draw => 0i32,
        Outcome::Playing => 0i32,
    }
}

/// The return of an episode as a value: its reward in fixed point.
pub open spec fn return_of(reward: i32) -> i64 {
    (reward * VALUE_SCALE) as i64
}

/// A state whose action is learned: a player total from 12 to 20.
pub open spec fn eligible(s: BlackjackState) -> bool {
    12 <= s.player <= 20
}

/// A mean of non-negative errors, zero when there are none.
pub open spec fn mean_error_spec(sum: int, n: nat) -> int {
    if n == 0 {
        0
    } else {
        sum / (n as int)
    }
}

/// One move of the player: the result and the cards left.
pub open spec fn step_spec(r: RoundState, cards: Seq<u8>, a: BlackjackAction) -> (
    Result<RoundState, RoundError>,
    Seq<u8>,
) {
    match a {
        BlackjackAction::Hit => hit_step(r, cards),
        BlackjackAction::Stand => stand_step(r, cards),
    }
}

/// A move in a round still being played fails only on an empty deck, and
/// leaves it empty; it succeeds while the deck holds a card, and for a stand
/// enough cards to take the dealer to 17. A hit raises the player's hard
/// total and keeps the dealer.
pub proof fn lemma_step_outcome(r: RoundState, cards: Seq<u8>, a: BlackjackAction)
    requires
        r.wf(),
        r.outcome is Playing,
        all_valid(cards),
        r.dealer.sum <= 26,
    ensures
        step_spec(r, cards, a).0 is Err ==> step_spec(r, cards, a).0 == Err::<
            RoundState,
            RoundError,
        >(RoundError::EmptyDeck) && step_spec(r, cards, a).1.len() == 0,
        cards.len() >= 1 && cards.len() >= 17 - hard_total(r.dealer) ==> step_spec(
            r,
            cards,
            a,
        ).0 is Ok,
        a == BlackjackAction::Hit && cards.len() >= 1 ==> {
            &&& step_spec(r, cards, a).0 matches Ok(n) && hard_total(n.player) >= hard_total(
                r.player,
            ) + 1 && n.dealer == r.dealer
            &&& step_spec(r, cards, a).1.len() == cards.len() - 1
        },
{
    if cards.len() >= 1 {
        assert(valid_card(cards[0]));
        lemma_hit_raises_hard_total(r.player, cards[0]);
    }
    if cards.len() >= 17 - hard_total(r.dealer) {
        lemma_dealer_finishes(r.dealer, cards);
    }
}

/// The round after the actions of `steps`, oldest first, starting from
/// `start` with `cards` still to deal.
pub open spec fn played(start: RoundState, cards: Seq<u8>, steps: Seq<BlackjackStateAction>) -> (
    Result<RoundState, RoundError>,
    Seq<u8>,
)
    decreases steps.len(),
{
    if steps.len() == 0 {
        (Ok(start), cards)
    } else {
        let (prev, rest) = played(start, cards, steps.drop_last());
        match prev {
            Ok(r) => step_spec(r, rest, steps.last().action),
            Err(e) => (Err(e), rest),
        }
    }
}

/// A trace that holds the latest pair first, turned oldest first.
pub open spec fn chronological(trace: Seq<BlackjackStateAction>) -> Seq<BlackjackStateAction> {
    Seq::new(trace.len(), |i: int| trace[trace.len() - 1 - i])
}

/// `steps` plays a whole round from `start`: each pair holds the state seen
/// before its action in a round still being played, forced actions are taken,
/// and after the last one the round is over with `rest` left to deal.
pub open spec fn plays_round(
    start: RoundState,
    cards: Seq<u8>,
    steps: Seq<BlackjackStateAction>,
    rest: Seq<u8>,
) -> bool {
    &&& played(start, cards, steps).1 == rest
    &&& played(start, cards, steps).0 matches Ok(end) && end.finished_spec()
    &&& forall|i: int|
        0 <= i < steps.len() ==> {
            &&& played(start, cards, steps.take(i)).0 matches Ok(r)
            &&& !r.finished_spec()
            &&& #[trigger] steps[i].agent_state == observe(r)
            &&& forced_action(steps[i].agent_state) matches Some(a) ==> steps[i].action == a
        }
}

/// The reward at the end of `steps`.
pub open spec fn final_reward(
    start: RoundState,
    cards: Seq<u8>,
    steps: Seq<BlackjackStateAction>,
) -> i32 {
    match played(start, cards, steps).0 {
        Ok(end) => reward_spec(end),
        Err(_) => 0,
    }
}

impl BlackjackState {
    /// The state the player sees in `round_state`.
    pub fn from(round_state: &RoundState) -> (r: BlackjackState)
        ensures
            r == observe(*round_state),
    {
        BlackjackState {
            player: round_state.player.sum,
            ace: round_state.player.ace,
            dealer: round_state.dealer.sum,
        }
    }
}

/// One episode: the pairs played, the latest first, and the final reward.
pub struct EpisodeResult {
    pub state_actions: VecDeque<BlackjackStateAction>,
    pub reward: i32,
}

impl EpisodeResult {
    /// The result of an episode that ended in `round_state` after `state_actions`.
    pub fn from(round_state: &RoundState, state_actions: VecDeque<BlackjackStateAction>) -> (r:
        EpisodeResult)
        ensures
            r.state_actions@ == state_actions@,
            r.reward == reward_spec(*round_state),
    {
        EpisodeResult { state_actions, reward: reward(round_state) }
    }
}

/// The bootstrap target of a transition into `next`: its reward, plus the
/// value `next_value` of the next pair unless the round is over (a final
/// state is worth nothing).
pub fn td_target(next: &RoundState, next_value: i64) -> (r: i64)
    requires
        in_range(next_value),
    ensures
        r == return_of(reward_spec(*next)) + if next.finished_spec() {
            0
        } else {
            next_value
        },
        in_range(r),
{
    let reward_value: i64 = reward(next) as i64 * VALUE_SCALE;
    if next.finished() {
        reward_value
    } else {
        reward_value + next_value
    }
}

/// The reward of a round.
pub fn reward(round_state: &RoundState) -> (r: i32)
    ensures
        r == reward_spec(*round_state),
{
    match round_state.outcome {
        Outcome::Won => 1,
        Outcome::Lost => -1,
        Outcome::Draw => 0,
        Outcome::Playing => 0,
    }
}

} // verus!
