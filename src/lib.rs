//! Streaming aggregation of `name;value` records: per-name minimum, maximum,
//! sum and count, with chunk-boundary reassembly and an associative merge of
//! partial tables.
pub mod record;
pub mod report;
pub mod scan;
pub mod table;
