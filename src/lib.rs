//! Tabular reinforcement learning of a blackjack playing strategy.
//!
//! The crate holds the card source, the hand evaluator, the round state
//! machine, a generic action-value table, the exploration policies and
//! the three episode generators (Monte Carlo, SARSA and Q-learning),
//! each with a contract proved by Verus.

pub mod hand;
pub mod deck;
mod random;
pub mod round;
pub mod qtable;
pub mod blackjack_agent;
pub mod blackjack_policy;
pub mod monte_carlo;
pub mod sarsa;
pub mod trainer;
pub mod monte_carlo_with_counting;
