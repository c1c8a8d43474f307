//! The translation service: its settings, its rate limiter, and the verified
//! decisions that a translation run is made of.
use vstd::prelude::*;
use crate::chunker::{chunk_segments, chunks_of, fence, seg_views, starts_with_fence};
use crate::endpoint::{build_request, dptrans_marker, TranslationRequest};
use crate::limiter::{delay_for, permits_for, RateLimiter};
use crate::orchestrate::{plan_ok, plan_translation, TranslationPlan};
use crate::text::{chars_of, contains, occurs_here, starts_with, string_of, trim};
use crate::types::{RetryConfig, TextSegment, TranslationConfig};

verus! {

/// The tag that marks a code chunk in the list of chunk texts.
pub open spec fn code_tag() -> Seq<char> {
    seq!['_', '_', 'C', 'O', 'D', 'E', '_', 'B', 'L', 'O', 'C', 'K', '_', '_']
}

/// The text of a chunk in the list of chunk texts: code chunks tagged.
pub open spec fn tagged(c: (Seq<char>, bool)) -> Seq<char> {
    if c.1 {
        code_tag() + c.0
    } else {
        c.0
    }
}

fn code_tag_chars() -> (r: Vec<char>)
    ensures
        r@ == code_tag(),
{
    let r: Vec<char> = vec!['_', '_', 'C', 'O', 'D', 'E', '_', 'B', 'L', 'O', 'C', 'K', '_', '_'];
    assert(r@ =~= code_tag());
    r
}

/// Whether `v` begins with `p`.
fn starts_with_chars(v: &Vec<char>, lo: usize, p: &Vec<char>) -> (r: bool)
    requires
        lo <= v.len(),
    ensures
        r == starts_with(v@.subrange(lo as int, v@.len() as int), p@),
{
    let ghost t = v@.subrange(lo as int, v@.len() as int);
    if v.len() - lo < p.len() {
        return false;
    }
    let r = occurs_here(v, p, lo);
    assert(t.subrange(0, p@.len() as int) =~= v@.subrange(lo as int, lo + p@.len()));
    r
}

/// Translates text through a remote endpoint under a rate limit.
#[derive(Clone)]
pub struct TranslationService {
    rate_limiter: RateLimiter,
    config: TranslationConfig,
}

impl TranslationService {
    /// The service's settings.
    pub closed spec fn spec_config(&self) -> TranslationConfig {
        self.config
    }

    /// A service with these settings and a rate limiter for their request rate.
    pub fn new(config: TranslationConfig) -> (r: TranslationService)
        requires
            config.max_requests_per_second_milli > 0,
            permits_for(config.max_requests_per_second_milli) <= usize::MAX / 8,
        ensures
            r.spec_config() == config,
            r.spec_rate_limiter().spec_permits() == permits_for(config.max_requests_per_second_milli),
            r.spec_rate_limiter().spec_delay_ms() == delay_for(config.max_requests_per_second_milli),
    {
        let rate_limiter = RateLimiter::new(config.max_requests_per_second_milli);
        TranslationService { rate_limiter, config }
    }

    /// The service's settings.
    pub fn config(&self) -> (r: &TranslationConfig)
        ensures
            *r == self.spec_config(),
    {
        &self.config
    }

    /// The limiter that every request of this service passes.
    pub closed spec fn spec_rate_limiter(&self) -> RateLimiter {
        self.rate_limiter
    }

    /// The limiter that every request of this service passes.
    pub fn rate_limiter(&self) -> (r: &RateLimiter)
        ensures
            *r == self.spec_rate_limiter(),
    {
        &self.rate_limiter
    }

    /// The retry policy of each remote call.
    pub fn retry_policy(&self) -> (r: RetryConfig)
        ensures
            r.max_retries == 1,
            r.initial_delay_ms == 100,
            r.max_delay_ms == 1000,
            r.backoff_multiplier_percent == 120,
    {
        RetryConfig::default()
    }

    /// How `text` is translated; see [`plan_translation`].
    pub fn plan(&self, text: &str) -> (r: TranslationPlan)
        requires
            self.spec_config().enabled ==> self.spec_config().max_text_length > 0,
        ensures
            plan_ok(self.spec_config(), text@, r),
    {
        plan_translation(&self.config, text)
    }

    /// The request body that translates `text`; see [`build_request`].
    pub fn request_for(&self, text: &str) -> (r: TranslationRequest)
        ensures
            contains(self.spec_config().deeplx_api_url@, dptrans_marker()) ==> (r matches TranslationRequest::DpTrans(q)
                && q.text@ == text@ && q.source_lang@ == self.spec_config().source_lang@
                && q.target_lang@ == self.spec_config().target_lang@),
            !contains(self.spec_config().deeplx_api_url@, dptrans_marker()) ==> (r matches TranslationRequest::DeepLX(q)
                && q.text@ == text@ && q.source_lang@ == self.spec_config().source_lang@
                && q.target_lang@ == self.spec_config().target_lang@),
    {
        build_request(&self.config, text)
    }

    /// The chunks of `text` under this service's length limit, as texts, code
    /// chunks tagged with [`code_tag`]; see [`chunk_segments`].
    pub fn split_text_into_chunks(&self, text: &str) -> (r: Vec<String>)
        requires
            self.spec_config().max_text_length > 0,
        ensures
            r@.len() == chunks_of(text@, self.spec_config().max_text_length as int).len(),
            forall|k: int| 0 <= k < r@.len() ==> (#[trigger] r@[k])@ == tagged(
                chunks_of(text@, self.spec_config().max_text_length as int)[k],
            ),
    {
        let chunks = chunk_segments(text, self.config.max_text_length);
        let ghost cs = seg_views(chunks@);
        let tag = code_tag_chars();
        let mut out: Vec<String> = Vec::new();
        let mut i: usize = 0;
        while i < chunks.len()
            invariant
                i <= chunks@.len(),
                cs == seg_views(chunks@),
                tag@ == code_tag(),
                out@.len() == i,
                forall|k: int| 0 <= k < i ==> (#[trigger] out@[k])@ == tagged(cs[k]),
            decreases chunks@.len() - i,
        {
            let c: &TextSegment = &chunks[i];
            assert(cs[i as int] == (c.content@, c.is_code_block));
            if c.is_code_block {
                let mut s = string_of(tag.as_slice());
                s.append(c.content.as_str());
                out.push(s);
            } else {
                out.push(c.content.clone());
            }
            i = i + 1;
        }
        out
    }

    /// Whether a chunk text is a code chunk: it carries the [`code_tag`], or
    /// begins, after leading whitespace, with a fence.
    pub fn is_code_block_chunk(&self, chunk: &str) -> (r: bool)
        ensures
            r == (starts_with(chunk@, code_tag()) || starts_with(trim(chunk@), fence())),
    {
        let cs = chars_of(chunk);
        let tag = code_tag_chars();
        assert(cs@.subrange(0, cs@.len() as int) =~= chunk@);
        if starts_with_chars(&cs, 0, &tag) {
            return true;
        }
        starts_with_fence(chunk)
    }
}

} // verus!
