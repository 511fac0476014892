//! A log monitoring engine: lines of log files are timestamped with configurable date
//! formats, grouped by minute and file, classified as errors or not, and streamed with
//! system metrics to a dashboard that counts them per minute.
pub mod chart;
pub mod etl;
pub mod helper;
pub mod socket;
pub mod text;
pub mod web;
