//! What the operations are for, stated of their results in plain arithmetic.

pub mod answers;
pub mod cascades;
pub mod formats;
pub mod framing;
pub mod grouping;
pub mod options;
pub mod reading;
pub mod requests;
pub mod search;
pub mod steps;
