//! Spindle core.
pub mod intern;
pub mod bitset;
pub mod rule;
pub mod counts;
pub mod engine;
pub mod text;
pub mod mode;
pub mod temporal;
pub mod predicate;
pub mod literal;
pub mod conclusion;
pub mod theory;
pub mod index;
pub mod error;
pub mod reason;
pub mod pipeline;
pub mod query;
pub mod why_not;
pub mod what_if;
pub mod laws;
pub mod stages;
pub mod wildcard;
pub mod mining;
pub mod projection;
pub mod bridge;
pub mod abduce;
pub mod requirement;
pub mod agree;
