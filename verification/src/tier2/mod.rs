//! Tier-2 coding: packet headers and packet iteration.
pub mod pi;
pub mod t2;
