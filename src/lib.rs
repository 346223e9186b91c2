//! Rules-resolution core of an extensible "Mao"-style card game: an
//! interaction automaton that turns typed player input into actions, and
//! the pipeline that merges the verdicts of independently loaded rule
//! modules into one outcome.
pub mod card;
pub mod action;
pub mod error;
pub mod stack;
pub mod automaton;
pub mod turn;
pub mod config;
pub mod event;
pub mod verdict;
pub mod player;
pub mod rule;
pub mod mao_core;
