//! Word-frequency reports: text is cut into word tokens, the tokens of each
//! file are tallied, each tally is ordered by ascending count, and the
//! results of concurrent per-file work are put back into file order.

pub mod strings;
pub mod tokenizer;
pub mod counts;
pub mod order;
pub mod dispatch;
pub mod files;
pub mod report;
pub mod driver;
