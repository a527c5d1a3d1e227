//! A Reversi engine: a board in two 64-bit masks with the moves of the
//! game, evaluators of positions, and searches that choose a move.
//!
//! The rules are stated over rows and columns in [`rules`]; [`movegen`] and
//! [`flips`] compute with the masks and are proved against the rules.
//! [`board`] holds the board itself and [`text`] its forms as text. The
//! searches in [`search`] are proved against the value of a position under
//! best play, as far as a deadline or chance does not decide.

pub mod bits;
pub mod board;
pub mod chance;
pub mod flips;
pub mod movegen;
pub mod protocol;
pub mod referee;
pub mod rules;
pub mod search;
pub mod text;
pub mod utils;
