//! The verified core of Audiobook Studio.

pub mod agent;
pub mod boundaries;
pub mod bundle;
pub mod chars;
pub mod cleaning;
pub mod cli;
pub mod environment;
pub mod error;
pub mod g2p;
pub mod headings;
pub mod job;
pub mod model;
pub mod ocr;
pub mod outline;
pub mod patterns;
pub mod pipeline;
pub mod polish;
pub mod running_heads;
pub mod sentences;
pub mod sidecar;
pub mod speech;
pub mod split;
pub mod studio;
pub mod text;
pub mod webview;
