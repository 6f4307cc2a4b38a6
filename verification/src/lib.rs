//! Symbolic regression by genetic programming.
//!
//! An expression over one variable is a binary tree of bounded depth, held
//! level by level in an array. The library builds such trees at random,
//! evaluates them, mutates them, crosses them, and evolves a population of
//! them towards the expression that fits a set of points best. Every tree
//! it makes is a valid expression.
//!
//! The numbers of the expressions are of a type that the caller chooses and
//! brings the arithmetic for, as a `Numerics`. The random choices are drawn
//! from a generator that the caller seeds.

pub mod census;
pub mod crossover;
pub mod evaluate;
pub mod exchange;
pub mod grow;
pub mod heap;
pub mod helper;
pub mod index;
pub mod individual;
pub mod leaf;
pub mod mutation;
pub mod node;
pub mod numerics;
pub mod parse;
pub mod population;
pub mod prune;
pub mod random;
pub mod score;
pub mod simulation;

pub use heap::SymbolicBinaryHeap;
pub use index::{MAX_DEPTH, MAX_IDX};
pub use individual::Individual;
pub use leaf::{get_val, MAX_NUMBER_NODE, MIN_NUMBER_NODE};
pub use node::Node;
pub use numerics::{Numerics, Point};
pub use parse::string_to_points;
pub use population::{find_fittest, get_cumulative_weights, random_population, select_parents};
pub use random::get_op;
pub use simulation::{Probability, Simulation};
