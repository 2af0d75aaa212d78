//! Order tracking for a restaurant kitchen: items placed for numbered tables,
//! a time wheel that finalizes them when their preparation time has elapsed,
//! and the status rules of the durable order record.

pub mod item;
pub mod seqs;
pub mod model;
pub mod kitchen;
pub mod laws;
pub mod durable;
pub mod util;
