//! Arbitrage search over automated-market-maker liquidity pools.
//!
//! - [`graph`] builds the token graph of a set of two-token pools and
//!   enumerates the cycles through a token, with the pools that each
//!   crosses. [`cycles`] holds the search as a function of the edge list,
//!   with the proofs that it finds simple cycles only and misses none, and
//!   [`graph_laws`] carries them over to tokens and pools.
//! - [`pool`] has the constant-product swap formula in integers and trades
//!   an amount through a chain of pools.
//! - [`constraints`] states a pool's trading invariant as rows and cone
//!   blocks over trade variables, [`assemble`] stitches the pools of a cycle
//!   into one system, [`flow`] states arbitrage over a whole set of pools
//!   as a flow problem and reads its solutions, and [`system`] says what a
//!   system means for a vector of real amounts.
//!   [`constraint_laws`] and [`assemble_laws`] prove what the constraints
//!   say about a trade; [`reals`] has the arithmetic that they rest on.
//! - [`select`] states the rows of the selection programme, reads its
//!   answer and picks among cycles within a budget, and [`solver`] decides
//!   what happens to a cycle whose solve failed.
//! - [`digraph`] is the one place that calls into petgraph.
//!
//! All quantities are integers or exact ratios of integers. Turning a system
//! into the floating-point matrices of a numerical solver, and running the
//! solver, is left to the caller.

pub mod assemble;
pub mod assemble_laws;
pub mod constraint_laws;
pub mod constraints;
pub mod cycles;
pub mod digraph;
pub mod flow;
pub mod graph;
pub mod graph_laws;
pub mod pool;
pub mod reals;
pub mod select;
pub mod solver;
pub mod system;
pub mod token;
