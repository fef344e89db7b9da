//! Exhaustive draw-poker strategy search: card model, hand evaluation,
//! expected-value optimisation and the coordinator that hands out work.

pub mod card;
pub mod rank;
pub mod combine;
pub mod paytable;
pub mod block;
pub mod strategy;
pub mod coordinator;
pub mod lease;
pub mod protocol;
