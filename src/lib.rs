//! Egyptian-fraction decomposition of positive rationals with small
//! denominators and few terms, by a symbolic modular-inverse recurrence.

pub mod bignat;
pub mod fraction;
pub mod terms;
pub mod decompose;
pub mod bisect;
pub mod expand;
pub mod repair;
pub mod merge;
pub mod engine;
