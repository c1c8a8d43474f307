//! The protocol of the remote translation endpoint: which request shape to
//! send, and how a response decides the outcome of one attempt.
use vstd::prelude::*;
use crate::error::TranslationError;
use crate::text::{chars_of, contains, occurs_at, occurs_here, trim, trim_bounds};
use crate::types::{DeepLXRequest, DeepLXResponse, DpTransRequest, TranslationConfig};

verus! {

/// The marker in an endpoint address that selects the dptrans request shape.
pub open spec fn dptrans_marker() -> Seq<char> {
    seq!['d', 'p', 't', 'r', 'a', 'n', 's']
}

/// Whether `p` occurs anywhere in `s`.
fn contains_chars(s: &Vec<char>, p: &Vec<char>) -> (r: bool)
    ensures
        r == contains(s@, p@),
{
    if p.len() > s.len() {
        return false;
    }
    let last = s.len() - p.len();
    let mut at: usize = 0;
    loop
        invariant
            p.len() <= s.len(),
            last == s.len() - p.len(),
            at <= last,
            forall|k: int| 0 <= k < at ==> !occurs_at(s@, p@, k),
        decreases last - at,
    {
        if occurs_here(s, p, at) {
            return true;
        }
        if at == last {
            return false;
        }
        at = at + 1;
    }
}

/// Whether the endpoint at `url` takes the dptrans request shape.
pub fn uses_dptrans(url: &str) -> (r: bool)
    ensures
        r == contains(url@, dptrans_marker()),
{
    let s = chars_of(url);
    let marker: Vec<char> = vec!['d', 'p', 't', 'r', 'a', 'n', 's'];
    assert(marker@ =~= dptrans_marker());
    contains_chars(&s, &marker)
}

/// The body of one translation request, in the shape its endpoint takes.
#[derive(Debug, Clone)]
pub enum TranslationRequest {
    DeepLX(DeepLXRequest),
    DpTrans(DpTransRequest),
}

/// The request that asks the endpoint of `config` to translate `text`: the
/// dptrans shape where the address names dptrans, else the DeepLX shape, with
/// the configured languages.
pub fn build_request(config: &TranslationConfig, text: &str) -> (r: TranslationRequest)
    ensures
        contains(config.deeplx_api_url@, dptrans_marker()) ==> (r matches TranslationRequest::DpTrans(q)
            && q.text@ == text@ && q.source_lang@ == config.source_lang@ && q.target_lang@
            == config.target_lang@),
        !contains(config.deeplx_api_url@, dptrans_marker()) ==> (r matches TranslationRequest::DeepLX(q)
            && q.text@ == text@ && q.source_lang@ == config.source_lang@ && q.target_lang@
            == config.target_lang@),
{
    let text = String::from_str(text);
    let source_lang = config.source_lang.clone();
    let target_lang = config.target_lang.clone();
    if uses_dptrans(config.deeplx_api_url.as_str()) {
        TranslationRequest::DpTrans(DpTransRequest { text, source_lang, target_lang })
    } else {
        TranslationRequest::DeepLX(DeepLXRequest { text, source_lang, target_lang })
    }
}

/// What a generic JSON reading of a response body found.
#[derive(Debug, Clone)]
pub enum JsonProbe {
    /// The body is not a JSON value.
    NotJson,
    /// A JSON value without a string under any known result field.
    NoField,
    /// The string under the first known result field that holds one.
    Field(String),
}

/// The structured reply's success code.
pub const STRUCTURED_OK: i32 = 200;

/// The outcome of one attempt, from the HTTP status and the response body.
///
/// The decoders are tried in order. A status other than success is an API
/// error with that status. A body in the structured shape succeeds with its
/// `data` when its `code` is [`STRUCTURED_OK`] and `data` is non-empty, fails
/// with a custom error on empty `data`, and with an API error carrying its
/// code otherwise. Any other body: blank is a custom error; one that starts
/// with `{` gives the probed result field, or a parse error; anything else is
/// the translation as plain text.
pub fn interpret_response(
    success: bool,
    status: u16,
    body: &str,
    structured: Option<DeepLXResponse>,
    probe: JsonProbe,
) -> (r: Result<String, TranslationError>)
    ensures
        !success ==> (r matches Err(TranslationError::ApiError { code, .. }) && code == status as i32),
        success ==> match structured {
            Some(s) => if s.code == STRUCTURED_OK {
                if s.data@.len() > 0 {
                    r matches Ok(t) && t@ == s.data@
                } else {
                    r matches Err(TranslationError::Custom(_))
                }
            } else {
                r matches Err(TranslationError::ApiError { code, .. }) && code == s.code
            },
            None => if trim(body@).len() == 0 {
                r matches Err(TranslationError::Custom(_))
            } else if body@[0] == '{' {
                match probe {
                    JsonProbe::Field(f) => r matches Ok(t) && t@ == f@,
                    _ => r matches Err(TranslationError::ParseError(_)),
                }
            } else {
                r matches Ok(t) && t@ == body@
            },
        },
{
    if !success {
        let mut message = String::from_str("translation request failed: ");
        message.append(body);
        return Err(TranslationError::ApiError { code: status as i32, message });
    }
    match structured {
        Some(s) => {
            if s.code == STRUCTURED_OK {
                if s.data.as_str().unicode_len() > 0 {
                    Ok(s.data)
                } else {
                    Err(TranslationError::Custom(String::from_str("the endpoint returned an empty translation")))
                }
            } else {
                Err(TranslationError::ApiError {
                    code: s.code,
                    message: String::from_str("the endpoint reported a failed translation"),
                })
            }
        },
        None => {
            let cs = chars_of(body);
            let (a, b) = trim_bounds(&cs, 0, cs.len());
            assert(cs@.subrange(0, cs@.len() as int) =~= body@);
            if a == b {
                Err(TranslationError::Custom(String::from_str("the endpoint returned an empty body")))
            } else if cs[0] == '{' {
                match probe {
                    JsonProbe::Field(f) => Ok(f),
                    _ => Err(TranslationError::ParseError(String::from_str("no translation field in the JSON response"))),
                }
            } else {
                Ok(String::from_str(body))
            }
        },
    }
}

} // verus!
