//! Verified core of the TIG innovator algorithms: the quadratic-knapsack
//! local search `ironclad_swap` and the integer decisions of the
//! `optigrid` energy-arbitrage policies.

pub mod knapsack_model;
pub mod ironclad_swap;
pub mod knapsack_laws;
pub mod optigrid;
