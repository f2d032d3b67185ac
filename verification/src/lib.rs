//! Online bipartite matching, verified: indexed bipartite graphs, an
//! adversarial online view, pluggable dispatch strategies (Random,
//! Ranking, greedy budgeted dispatch, stochastic rewards, reusable
//! capacities), and a maximum-matching solver used as ground truth.
//!
//! Contracts pin the graph construction completely, prove that the
//! solver returns a matching of size at most `min(|left|, |right|)`,
//! and bound every strategy's realized value through the capability
//! traits that drive it.

pub mod adwords;
pub mod bigraph;
pub mod matching;
pub mod online;
pub mod randomness;
pub mod reuseable;
pub mod stochastic;
pub mod util;
pub mod weightedbigraph;
