//! A steady-state genetic algorithm for the Euclidean travelling salesman
//! problem: points, tours with order crossover and swap mutation, and a
//! population that evolves round by round.

pub mod genome;
pub mod node;
pub mod population;
mod random;
mod sampling;
