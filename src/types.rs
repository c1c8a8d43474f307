//! The library's plain data: configuration values, request and response
//! shapes of the remote endpoint, and text segments.
use vstd::prelude::*;

verus! {

/// Settings of a translation service.
///
/// The request rate is given in thousandths of a request per second
/// (`500` is one request every two seconds).
#[derive(Debug, Clone)]
pub struct TranslationConfig {
    /// Whether translation happens at all; when off, text passes through unchanged.
    pub enabled: bool,
    /// Source language code; `"auto"` asks the endpoint to detect it.
    pub source_lang: String,
    /// Target language code.
    pub target_lang: String,
    /// Address of the translation endpoint.
    pub deeplx_api_url: String,
    /// Request rate, in thousandths of a request per second; must be positive.
    pub max_requests_per_second_milli: u64,
    /// Largest number of characters sent in one request.
    pub max_text_length: usize,
    /// Largest number of paragraphs sent in one request.
    pub max_paragraphs_per_request: usize,
}

impl Default for TranslationConfig {
    fn default() -> (r: Self)
        ensures
            !r.enabled,
            r.source_lang@ == seq!['a', 'u', 't', 'o'],
            r.target_lang@ == seq!['z', 'h'],
            r.deeplx_api_url@ == "http://localhost:1188/translate"@,
            r.max_requests_per_second_milli == 500,
            r.max_text_length == 3000,
            r.max_paragraphs_per_request == 10,
    {
        proof {
            reveal_strlit("auto");
            reveal_strlit("zh");
            reveal_strlit("http://localhost:1188/translate");
        }
        TranslationConfig {
            enabled: false,
            source_lang: String::from_str("auto"),
            target_lang: String::from_str("zh"),
            deeplx_api_url: String::from_str("http://localhost:1188/translate"),
            max_requests_per_second_milli: 500,
            max_text_length: 3000,
            max_paragraphs_per_request: 10,
        }
    }
}

/// How often and how patiently a failing remote call is retried.
///
/// The delay grows by `backoff_multiplier_percent / 100` after each failure
/// (`120` multiplies it by 1.2).
#[derive(Debug, Clone, Copy, PartialEq, Eq, Structural)]
pub struct RetryConfig {
    /// Retries after the first attempt.
    pub max_retries: usize,
    /// Delay before the first retry, in milliseconds.
    pub initial_delay_ms: u64,
    /// Cap on the delay, in milliseconds.
    pub max_delay_ms: u64,
    /// Growth factor of the delay, in percent.
    pub backoff_multiplier_percent: u64,
}

impl Default for RetryConfig {
    fn default() -> (r: Self)
        ensures
            r == (RetryConfig {
                max_retries: 1,
                initial_delay_ms: 100,
                max_delay_ms: 1000,
                backoff_multiplier_percent: 120,
            }),
    {
        RetryConfig {
            max_retries: 1,
            initial_delay_ms: 100,
            max_delay_ms: 1000,
            backoff_multiplier_percent: 120,
        }
    }
}

/// Request body of a DeepLX endpoint.
#[derive(Debug, Clone)]
pub struct DeepLXRequest {
    pub text: String,
    pub source_lang: String,
    pub target_lang: String,
}

/// Request body of a dptrans endpoint.
#[derive(Debug, Clone)]
pub struct DpTransRequest {
    pub text: String,
    pub source_lang: String,
    pub target_lang: String,
}

/// Structured response of a DeepLX endpoint: a status code and the translation.
#[derive(Debug, Clone)]
pub struct DeepLXResponse {
    pub code: i32,
    pub data: String,
}

/// A run of text, marked when it is a fenced code block.
#[derive(Debug, Clone)]
pub struct TextSegment {
    pub content: String,
    pub is_code_block: bool,
}

} // verus!
