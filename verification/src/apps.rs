//! Logic of the user programs.

pub mod ls;
pub mod sleep;
