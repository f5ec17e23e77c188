//! A store of facts with patterns to query it: terms and facts and their
//! text form, matching of patterns against facts, queries of several
//! clauses, and subscriptions that are told of a query's solutions.

pub mod database;
pub mod fact;
pub mod illumination;
pub mod laws;
pub mod matching;
pub mod source_code;
pub mod text;
