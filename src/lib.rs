//! Splits one large JSON object into newline-delimited JSON, one line per
//! member, working token by token so that only one record is held at a time.
pub mod token;
pub mod machine;
pub mod writer;
pub mod record_writer;
pub mod lines;
pub mod laws;
pub mod source;
