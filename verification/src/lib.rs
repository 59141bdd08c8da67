//! Semantic analysis of text chunks: sentiment, emotion and theme scores,
//! their ranking and aggregation, and the splitting of a text into chunks.
pub mod analyzer;
pub mod anchors;
pub mod chunking;
pub mod one_hot;
pub mod ranking;
pub mod scores;
pub mod session;
pub mod text;
