//! Core of the payload pulverizer service: a stateless format sniffer that
//! classifies a byte payload against three structural grammars (JSON, XML,
//! Markdown), and an append-only telemetry log with an on-demand grouped
//! aggregator. The HTTP shell around these lives outside the library.
pub mod sniffer;
pub mod telemetry;
