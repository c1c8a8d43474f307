//! What a translation does with its text: pass it through, send it whole, or
//! send it in chunks whose translations are put back in chunk order.
use vstd::prelude::*;
use crate::chunker::{chunk_segments, chunks_of, chunks_ok, fence, seg_views, starts_with_fence};
use crate::text::{starts_with, trim};
use crate::types::{TextSegment, TranslationConfig};

verus! {

/// How one call of `translate` proceeds.
#[derive(Debug, Clone)]
pub enum TranslationPlan {
    /// Translation is off: the text is the result, with no request.
    Passthrough(String),
    /// The text is within the limit: one request for all of it.
    Single(String),
    /// The text is beyond the limit: one request per prose chunk; code chunks
    /// are their own result.
    Chunked(Vec<TextSegment>),
}

/// Whether a chunk passes through untranslated: a code chunk, or one whose
/// text begins, after leading whitespace, with a fence.
pub open spec fn is_verbatim(c: (Seq<char>, bool)) -> bool {
    c.1 || starts_with(trim(c.0), fence())
}

/// Number of chunks in `v` that are sent for translation.
pub open spec fn prose_count(v: Seq<(Seq<char>, bool)>) -> nat
    decreases v.len(),
{
    if v.len() == 0 {
        0
    } else {
        prose_count(v.drop_last()) + if is_verbatim(v.last()) { 0nat } else { 1nat }
    }
}

/// Number of remote calls a plan makes, before any retry.
pub open spec fn remote_calls(p: TranslationPlan) -> nat {
    match p {
        TranslationPlan::Passthrough(_) => 0,
        TranslationPlan::Single(_) => 1,
        TranslationPlan::Chunked(cs) => prose_count(seg_views(cs@)),
    }
}

/// The plan for translating `text` under `config`.
pub open spec fn plan_ok(config: TranslationConfig, text: Seq<char>, r: TranslationPlan) -> bool {
    &&& !config.enabled ==> (r matches TranslationPlan::Passthrough(t) && t@ == text)
    &&& config.enabled && text.len() <= config.max_text_length ==> (r matches TranslationPlan::Single(t)
        && t@ == text)
    &&& config.enabled && text.len() > config.max_text_length ==> (r matches TranslationPlan::Chunked(cs)
        && seg_views(cs@) == chunks_of(text, config.max_text_length as int)
        && chunks_ok(text, config.max_text_length as int, seg_views(cs@)))
}

/// Decides how `text` is translated under `config`: unchanged when translation
/// is off; as one request when it is within `max_text_length`; else in the
/// chunks of [`chunk_segments`].
pub fn plan_translation(config: &TranslationConfig, text: &str) -> (r: TranslationPlan)
    requires
        config.enabled ==> config.max_text_length > 0,
    ensures
        plan_ok(*config, text@, r),
        !config.enabled ==> remote_calls(r) == 0,
        config.enabled && text@.len() <= config.max_text_length ==> remote_calls(r) == 1,
{
    if !config.enabled {
        return TranslationPlan::Passthrough(String::from_str(text));
    }
    if text.unicode_len() <= config.max_text_length {
        return TranslationPlan::Single(String::from_str(text));
    }
    TranslationPlan::Chunked(chunk_segments(text, config.max_text_length))
}

/// The result of a chunk that needs no request: a chunk that
/// [`is_verbatim`] is its own translation; any other has none.
pub fn verbatim_result(chunk: &TextSegment) -> (r: Option<String>)
    ensures
        is_verbatim((chunk.content@, chunk.is_code_block)) ==> (r matches Some(s) && s@ == chunk.content@),
        !is_verbatim((chunk.content@, chunk.is_code_block)) ==> r.is_none(),
{
    if chunk.is_code_block || starts_with_fence(chunk.content.as_str()) {
        Some(chunk.content.clone())
    } else {
        None
    }
}

/// Completions as values: chunk index and translated text.
pub open spec fn completion_views(c: Seq<(usize, String)>) -> Seq<(usize, Seq<char>)> {
    c.map_values(|x: (usize, String)| (x.0, x.1@))
}

/// Some completion names chunk index `i`.
pub open spec fn names_index(c: Seq<(usize, Seq<char>)>, i: int) -> bool {
    exists|k: int| 0 <= k < c.len() && (#[trigger] c[k]).0 == i
}

/// The completions name each chunk index below `n` exactly once.
pub open spec fn covers(c: Seq<(usize, Seq<char>)>, n: int) -> bool {
    &&& forall|k: int| 0 <= k < c.len() ==> (#[trigger] c[k]).0 < n
    &&& forall|k1: int, k2: int| 0 <= k1 < c.len() && 0 <= k2 < c.len() && k1 != k2 ==> (#[trigger] c[k1]).0
        != (#[trigger] c[k2]).0
    &&& forall|i: int| 0 <= i < n ==> #[trigger] names_index(c, i)
}

/// `v` lists, in chunk order, the texts of completions that cover `0..n`.
pub open spec fn placed(n: int, c: Seq<(usize, Seq<char>)>, v: Seq<Seq<char>>) -> bool {
    &&& covers(c, n)
    &&& v.len() == n
    &&& forall|k: int| 0 <= k < c.len() ==> v[(#[trigger] c[k]).0 as int] == c[k].1
}

/// The texts of `v`.
pub open spec fn string_views(v: Seq<String>) -> Seq<Seq<char>> {
    v.map_values(|x: String| x@)
}

/// Puts completed translations, which arrive in any order as (chunk index,
/// text), back in chunk order. Fails unless every index below `n` arrives
/// exactly once and no other.
pub fn collect_in_order(n: usize, completions: &Vec<(usize, String)>) -> (r: Option<Vec<String>>)
    ensures
        r.is_some() <==> covers(completion_views(completions@), n as int),
        r matches Some(v) ==> placed(n as int, completion_views(completions@), string_views(v@)),
{
    let ghost cv = completion_views(completions@);
    let mut slots: Vec<Option<String>> = Vec::new();
    let mut i: usize = 0;
    while i < n
        invariant
            i <= n,
            slots@.len() == i,
            forall|j: int| 0 <= j < i ==> (#[trigger] slots@[j]).is_none(),
        decreases n - i,
    {
        slots.push(None);
        i = i + 1;
    }
    let mut k: usize = 0;
    while k < completions.len()
        invariant
            k <= completions@.len(),
            cv == completion_views(completions@),
            slots@.len() == n,
            forall|j: int| 0 <= j < k ==> (#[trigger] cv[j]).0 < n,
            forall|j1: int, j2: int| 0 <= j1 < k && 0 <= j2 < k && j1 != j2 ==> (#[trigger] cv[j1]).0
                != (#[trigger] cv[j2]).0,
            forall|j: int| 0 <= j < k ==> (slots@[(#[trigger] cv[j]).0 as int] matches Some(x) && x@ == cv[j].1),
            forall|s: int| 0 <= s < n && (#[trigger] slots@[s]).is_some() ==> exists|j: int| 0 <= j < k && (#[trigger] cv[j]).0 == s,
        decreases completions@.len() - k,
    {
        let idx = completions[k].0;
        assert(cv[k as int] == (idx, completions@[k as int].1@));
        if idx >= n {
            return None;
        }
        if slots[idx].is_some() {
            let ghost j = choose|j: int| 0 <= j < k && (#[trigger] cv[j]).0 == idx;
            assert(cv[j].0 == cv[k as int].0);
            return None;
        }
        let text = completions[k].1.clone();
        slots.set(idx, Some(text));
        k = k + 1;
    }
    let mut out: Vec<String> = Vec::new();
    let mut i: usize = 0;
    while i < n
        invariant
            i <= n,
            slots@.len() == n,
            out@.len() == i,
            cv == completion_views(completions@),
            forall|j: int| 0 <= j < cv.len() ==> (slots@[(#[trigger] cv[j]).0 as int] matches Some(x) && x@ == cv[j].1),
            forall|j: int| 0 <= j < cv.len() ==> (#[trigger] cv[j]).0 < n,
            forall|j: int| 0 <= j < i ==> (#[trigger] slots@[j]).is_some(),
            forall|j: int| 0 <= j < i ==> (#[trigger] out@[j])@ == slots@[j]->0@,
        decreases n - i,
    {
        match &slots[i] {
            Some(x) => {
                assert(slots@[i as int] == Some(*x));
                let ghost o = out@;
                out.push(x.clone());
                assert(out@[i as int]@ == slots@[i as int]->0@);
                assert(forall|j: int| 0 <= j < i ==> out@[j] == o[j]);
            },
            None => {
                assert(!names_index(cv, i as int));
                return None;
            },
        }
        i = i + 1;
    }
    proof {
        assert forall|s: int| 0 <= s < n implies #[trigger] names_index(cv, s) by {
            assert(slots@[s].is_some() && out@[s]@ == slots@[s]->0@);
        }
        assert forall|j: int| 0 <= j < cv.len() implies string_views(out@)[(#[trigger] cv[j]).0 as int] == cv[j].1 by {
            assert(out@[cv[j].0 as int]@ == string_views(out@)[cv[j].0 as int]);
        }
    }
    Some(out)
}

/// Order preservation: two runs whose chunks complete in different orders,
/// but with the same (index, translation) completions, put the same
/// translations in the same chunk order, so the joined output is the same.
pub proof fn lemma_order_independent(
    n: int,
    c1: Seq<(usize, Seq<char>)>,
    c2: Seq<(usize, Seq<char>)>,
    v1: Seq<Seq<char>>,
    v2: Seq<Seq<char>>,
)
    requires
        placed(n, c1, v1),
        placed(n, c2, v2),
        forall|k1: int| 0 <= k1 < c1.len() ==> exists|k2: int| 0 <= k2 < c2.len() && c2[k2] == #[trigger] c1[k1],
    ensures
        v1 == v2,
        join_blank(v1) == join_blank(v2),
{
    assert forall|i: int| 0 <= i < n implies v1[i] == v2[i] by {
        assert(names_index(c1, i));
        let k1 = choose|k: int| 0 <= k < c1.len() && (#[trigger] c1[k]).0 == i;
        let k2 = choose|k: int| 0 <= k < c2.len() && c2[k] == #[trigger] c1[k1];
        assert(c2[k2].0 == i);
    }
    assert(v1 =~= v2);
}

/// The separator between translated chunks: a blank line.
pub open spec fn blank_line() -> Seq<char> {
    seq!['\n', '\n']
}

/// The texts of `v` joined by blank lines.
pub open spec fn join_blank(v: Seq<Seq<char>>) -> Seq<char>
    decreases v.len(),
{
    if v.len() == 0 {
        seq![]
    } else if v.len() == 1 {
        v[0]
    } else {
        join_blank(v.drop_last()) + blank_line() + v.last()
    }
}

/// Joins translated chunks, in order, with a blank line between each two.
pub fn join_translations(parts: &Vec<String>) -> (r: String)
    ensures
        r@ == join_blank(string_views(parts@)),
{
    let ghost sv = string_views(parts@);
    let mut out = String::new();
    let mut i: usize = 0;
    while i < parts.len()
        invariant
            i <= parts@.len(),
            sv == string_views(parts@),
            out@ == join_blank(sv.subrange(0, i as int)),
        decreases parts@.len() - i,
    {
        assert(sv.subrange(0, i + 1).drop_last() =~= sv.subrange(0, i as int));
        assert(sv[i as int] == parts@[i as int]@);
        if i > 0 {
            proof { reveal_strlit("\n\n"); }
            out.append("\n\n");
        }
        out.append(parts[i].as_str());
        proof {
            if i == 0 {
                assert(out@ =~= sv.subrange(0, 1)[0]);
            }
        }
        i = i + 1;
    }
    assert(sv.subrange(0, sv.len() as int) =~= sv);
    out
}

} // verus!
