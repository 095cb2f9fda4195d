//! Streaming shape inference for JSON-like documents, a byte-level format
//! sniffer, and the feedstock to exercise both.
#![allow(unused_imports)]
pub mod analyze;
pub mod assertions;
pub mod batch;
pub mod double;
pub mod exceptions;
pub mod ingest;
pub mod json;
pub mod node;
pub mod path;
pub mod report;
pub mod session;
pub mod sketch;
pub mod sniff;
pub mod stats;
pub mod synth;
pub mod tally;
pub mod text;
pub mod value;

pub use analyze::engine::StreamingAnalyzer;
pub use analyze::machine::AnalyzerPolicy;
pub use batch::time::{NaiveZonePolicy, TimeInterpreter, TimePredicate, TimeRaw};
pub use batch::{analyze, AnalysisOutcome, BatchError, DocumentSource, Driven};
pub use ingest::{Analyzer, JsonEventSink};
pub use report::{analyzer_to_proto, shape_node_to_proto};
