//! Expression search for the generalized 24-point game: given a deck of
//! rational numbers and a target value, find expressions that combine every
//! deck element exactly once with `+ - * /` to reach the target.

pub mod rational;
pub mod expr;
pub mod exhaustive;
pub mod backward;
pub mod sharing;
