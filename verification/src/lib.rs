//! The aiming policy of a two-archer artillery duel: the flight of an arrow,
//! the boxes it can hit, a small network that picks a shot, and the
//! evolutionary search that trains the network against the shot evaluator.
//!
//! Every quantity is a fixed-point number: an `i64` that counts millionths of
//! a unit (see [`fixed::ONE`]). Angles are millionths of a radian, times are
//! millionths of a second. Products are scaled back by a division that
//! rounds towards minus infinity, and the contracts say so.
//!
//! The modules, from the leaves up:
//! - [`fixed`]: the scale, rounding division, clamping and the integer
//!   square root;
//! - [`series`]: cosine, sine and the logistic curve as truncated series;
//! - [`vector`] and [`collision`]: points, boxes and the overlap test;
//! - [`arrow`]: the flight of an arrow;
//! - [`shot`]: what a shot is worth;
//! - [`random`]: the draw of a number from a seedable generator;
//! - [`network`]: the policy network, its crossover and its mutation;
//! - [`genetic`]: the evolutionary search;
//! - [`persist`]: a network as text;
//! - [`ai_controls`]: the aiming that a game asks for the next shot.
pub mod fixed;
pub mod series;
pub mod vector;
pub mod collision;
pub mod arrow;
pub mod shot;
pub mod random;
pub mod network;
pub mod genetic;
pub mod persist;
pub mod ai_controls;
