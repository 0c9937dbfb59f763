//! Composable abstractions for concurrent task multiplexing: an
//! unordered multiplexing engine, an ordered variant that releases
//! results in submission order, and a two-way race combinator.

pub mod laws;
pub mod mux;
pub mod ordered;
pub mod race;

pub use mux::Multiplexer;
pub use mux::PollOutcome;
pub use mux::SlotPhase;
pub use mux::Step;
pub use ordered::OrderedMultiplexer;
pub use ordered::OrderedOutcome;
pub use ordered::OrderedStep;
pub use race::Bias;
pub use race::RaceCombinator;
pub use race::RaceStep;
pub use race::Side;
