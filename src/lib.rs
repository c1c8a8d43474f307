//! Markdown translation support: boundary-preserving chunking of long text,
//! retry and rate-limit decisions around a remote translation call, and the
//! ordered reassembly of translated chunks.
use vstd::prelude::*;

pub mod text;
pub mod types;
pub mod chunker;
pub mod retry;
pub mod error;
pub mod limiter;
pub mod endpoint;
pub mod orchestrate;
pub mod service;

pub use error::TranslationError;
pub use limiter::RateLimiter;
pub use service::TranslationService;
pub use types::{DeepLXRequest, DeepLXResponse, DpTransRequest, RetryConfig, TextSegment, TranslationConfig};
