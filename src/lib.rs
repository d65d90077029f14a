//! Searches for arithmetic expressions over a fixed multiset of numbers that
//! reach a target value. Expressions are kept flat (operands and operators side
//! by side, with at most one parenthesised span) and are reduced by precedence
//! tiers, leftmost first, over exact rational numbers.

pub mod rational;
pub mod equations;
pub mod search;
pub mod text;
