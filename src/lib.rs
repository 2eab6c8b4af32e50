//! Mortgage scenarios: reading the numeric inputs, resolving defaults and derived
//! amounts, and expanding loan terms and prices into concrete scenarios.
pub mod text;
pub mod scenario;
