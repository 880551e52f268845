//! Matching of gift-givers in a fandom exchange: free-text survey answers are
//! normalised into canonical names, and a gift-giving order is searched for.

pub mod exchange;
pub mod fields;
pub mod first;
pub mod laws;
pub mod names;
pub mod order;
pub mod parens;
pub mod participant;
pub mod report;
pub mod rules;
pub mod ships;
pub mod solver;
pub mod table;
pub mod text;
