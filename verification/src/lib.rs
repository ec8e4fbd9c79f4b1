//! Othello (Reversi) rules engine and heuristic move predictor.
//!
//! The board engine enforces legal placement and piece flipping; the
//! predictor runs a depth- and breadth-limited adversarial search over
//! board engine operations. Every executable function is verified
//! against its contract.

pub mod ai;
pub mod codec;
pub mod laws;
pub mod othello;
