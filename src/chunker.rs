//! Splitting text into segments (fenced code blocks apart from prose) and
//! into chunks of bounded length.
use vstd::prelude::*;
use vstd::slice::slice_subrange;
use crate::text::{is_ws, is_blank, is_whitespace, trim, occurs_at, occurs_here, starts_with, chars_of, string_of, trim_bounds, lemma_trim_not_blank, lemma_trim_empty_blank, lemma_trim_keeps_ends};
use crate::types::TextSegment;

verus! {

/// The fence that opens and closes a code block: three backticks.
pub open spec fn fence() -> Seq<char> {
    seq!['`', '`', '`']
}

/// Index of the line break that ends the line starting at `pos`, or the
/// text's length when that line is the last.
pub open spec fn line_end(t: Seq<char>, pos: int) -> int
    decreases t.len() - pos,
{
    if pos < 0 || pos >= t.len() || t[pos] == '\n' {
        pos
    } else {
        line_end(t, pos + 1)
    }
}

/// End of the content of the line starting at `pos`: before its line break,
/// and before a carriage return that directly precedes that break.
pub open spec fn content_end(t: Seq<char>, pos: int) -> int {
    let e = line_end(t, pos);
    if e < t.len() && e > pos && t[e - 1] == '\r' {
        e - 1
    } else {
        e
    }
}

/// The code blocks found by scanning the lines of `t` from `pos`, where `open`
/// holds the start of a block opened by an earlier fence line. A line that
/// begins with a fence opens a block, or closes the open one (the block ends
/// at that line's [`content_end`]); a block still open at the end of text
/// runs to it.
pub open spec fn fence_spans(t: Seq<char>, pos: int, open: Option<int>) -> Seq<(int, int)>
    decreases t.len() + 1 - pos,
{
    if pos < 0 || pos >= t.len() {
        match open {
            Some(s) => seq![(s, t.len() as int)],
            None => seq![],
        }
    } else {
        let e = line_end(t, pos);
        if e < pos || e > t.len() {
            seq![]
        } else if occurs_at(t, fence(), pos) {
            match open {
                Some(s) => seq![(s, content_end(t, pos))] + fence_spans(t, e + 1, None),
                None => fence_spans(t, e + 1, Some(pos)),
            }
        } else {
            fence_spans(t, e + 1, open)
        }
    }
}

/// The code blocks of `t`, as half-open ranges of character positions.
pub open spec fn code_spans(t: Seq<char>) -> Seq<(int, int)> {
    fence_spans(t, 0, None)
}

/// Ranges that are non-empty, in order, non-overlapping and within `0..n`.
pub open spec fn spans_wf(sp: Seq<(int, int)>, n: int) -> bool {
    &&& forall|k: int| 0 <= k < sp.len() ==> 0 <= (#[trigger] sp[k]).0 < sp[k].1 <= n
    &&& forall|k: int, j: int| 0 <= k < j < sp.len() ==> (#[trigger] sp[k]).1 <= (#[trigger] sp[j]).0
}

/// The ranges of `v` with integer bounds.
pub open spec fn int_spans(v: Seq<(usize, usize)>) -> Seq<(int, int)> {
    v.map_values(|p: (usize, usize)| (p.0 as int, p.1 as int))
}

proof fn lemma_line_end(t: Seq<char>, pos: int)
    requires
        0 <= pos <= t.len(),
    ensures
        pos <= line_end(t, pos) <= t.len(),
        line_end(t, pos) < t.len() ==> t[line_end(t, pos)] == '\n',
        forall|i: int| pos <= i < line_end(t, pos) ==> t[i] != '\n',
    decreases t.len() - pos,
{
    if pos < t.len() && t[pos] != '\n' {
        lemma_line_end(t, pos + 1);
    }
}

/// Finds the fenced code blocks of `text`: ranges that begin at a line
/// starting with three backticks and end at the end of the next such line, or
/// at the end of text when no line closes them.
pub fn identify_code_blocks(text: &Vec<char>) -> (r: Vec<(usize, usize)>)
    ensures
        int_spans(r@) == code_spans(text@),
        spans_wf(int_spans(r@), text@.len() as int),
{
    let ghost t = text@;
    let n = text.len();
    let mut res: Vec<(usize, usize)> = Vec::new();
    let mut open: Option<usize> = None;
    let mut pos: usize = 0;
    while pos < n
        invariant
            n == t.len(),
            t == text@,
            pos <= n,
            int_spans(res@) + fence_spans(t, pos as int, match open { Some(s) => Some(s as int), None => None }) == code_spans(t),
            spans_wf(int_spans(res@), pos as int),
            open matches Some(s) ==> s < pos && (forall|k: int| 0 <= k < res@.len() ==> (#[trigger] res@[k]).1 <= s),
            open matches Some(s) ==> s + 3 <= pos,
        decreases n + 1 - pos,
    {
        proof { lemma_line_end(t, pos as int); }
        let mut e: usize = pos;
        while e < n && text[e] != '\n'
            invariant
                pos <= e <= n,
                n == t.len(),
                t == text@,
                line_end(t, pos as int) == line_end(t, e as int),
            decreases n - e,
        {
            e = e + 1;
        }
        let is_fence = n - pos >= 3 && text[pos] == '`' && text[pos + 1] == '`' && text[pos + 2] == '`';
        assert(is_fence == occurs_at(t, fence(), pos as int)) by {
            if pos + 3 <= n {
                if is_fence {
                    assert(t.subrange(pos as int, pos + 3) =~= fence());
                } else if t.subrange(pos as int, pos + 3) == fence() {
                    assert(t.subrange(pos as int, pos + 3)[0] == t[pos as int]);
                    assert(t.subrange(pos as int, pos + 3)[1] == t[pos + 1]);
                    assert(t.subrange(pos as int, pos + 3)[2] == t[pos + 2]);
                }
            }
        }
        if is_fence {
            match open {
                Some(s) => {
                    assert(e >= pos + 3) by {
                        assert(t.subrange(pos as int, pos + 3)[0] == t[pos as int]);
                        assert(t.subrange(pos as int, pos + 3)[1] == t[pos + 1]);
                        assert(t.subrange(pos as int, pos + 3)[2] == t[pos + 2]);
                    }
                    let ce: usize = if e < n && e > pos && text[e - 1] == '\r' { e - 1 } else { e };
                    assert(ce == content_end(t, pos as int));
                    assert(ce > pos + 2);
                    let ghost old_res = res@;
                    res.push((s, ce));
                    assert(int_spans(res@) =~= int_spans(old_res) + seq![(s as int, ce as int)]);
                    open = None;
                },
                None => {
                    assert forall|k: int| 0 <= k < res@.len() implies (#[trigger] res@[k]).1 <= pos by {
                        assert(int_spans(res@)[k].1 == res@[k].1);
                    }
                    open = Some(pos);
                },
            }
        }
        if e < n {
            pos = e + 1;
        } else {
            assert(fence_spans(t, e + 1, match open { Some(s) => Some(s as int), None => None })
                == fence_spans(t, n as int, match open { Some(s) => Some(s as int), None => None }));
            pos = n;
        }
    }
    match open {
        Some(s) => {
            let ghost old_res = res@;
            res.push((s, n));
            assert(int_spans(res@) =~= int_spans(old_res) + seq![(s as int, n as int)]);
        },
        None => {
            assert(int_spans(res@) =~= int_spans(res@) + Seq::<(int, int)>::empty());
        },
    }
    res
}

/// A segment as a value: its characters and whether it is a code block.
pub open spec fn seg_views(s: Seq<TextSegment>) -> Seq<(Seq<char>, bool)> {
    s.map_values(|x: TextSegment| (x.content@, x.is_code_block))
}

/// The characters of all segments, in order.
pub open spec fn joined(v: Seq<(Seq<char>, bool)>) -> Seq<char>
    decreases v.len(),
{
    if v.len() == 0 {
        Seq::empty()
    } else {
        joined(v.drop_last()) + v.last().0
    }
}

/// Segments of `t` from position `last` on, cut at the ranges `sp` from index
/// `i` on: each range is a code segment, and each non-empty gap before a range
/// or after the last one is a prose segment.
pub open spec fn segs_from(t: Seq<char>, sp: Seq<(int, int)>, i: int, last: int) -> Seq<(Seq<char>, bool)>
    decreases sp.len() - i,
{
    if i < 0 || i >= sp.len() {
        if last < t.len() {
            seq![(t.subrange(last, t.len() as int), false)]
        } else {
            seq![]
        }
    } else {
        let (s, e) = sp[i];
        (if s > last {
            seq![(t.subrange(last, s), false)]
        } else {
            seq![]
        }) + seq![(t.subrange(s, e), true)] + segs_from(t, sp, i + 1, e)
    }
}

/// The segments of `t` cut at the code blocks `sp`; an empty text is one
/// empty prose segment.
pub open spec fn segments_by_spans(t: Seq<char>, sp: Seq<(int, int)>) -> Seq<(Seq<char>, bool)> {
    if t.len() == 0 {
        seq![(t, false)]
    } else {
        segs_from(t, sp, 0, 0)
    }
}

proof fn lemma_joined_push(v: Seq<(Seq<char>, bool)>, x: (Seq<char>, bool))
    ensures
        joined(v.push(x)) == joined(v) + x.0,
{
    assert(v.push(x).drop_last() =~= v);
}

proof fn lemma_views_push(v: Seq<TextSegment>, x: TextSegment)
    ensures
        seg_views(v.push(x)) == seg_views(v).push((x.content@, x.is_code_block)),
{
    assert(seg_views(v.push(x)) =~= seg_views(v).push((x.content@, x.is_code_block)));
}

fn push_segment(res: &mut Vec<TextSegment>, text: &Vec<char>, lo: usize, hi: usize, code: bool)
    requires
        lo <= hi <= text.len(),
    ensures
        final(res)@.len() == old(res)@.len() + 1,
        seg_views(final(res)@) == seg_views(old(res)@).push((text@.subrange(lo as int, hi as int), code)),
{
    let content = string_of(slice_subrange(text.as_slice(), lo, hi));
    let seg = TextSegment { content, is_code_block: code };
    proof { lemma_views_push(res@, seg); }
    res.push(seg);
}

/// Cuts `text` at the code blocks `spans`: each block becomes a code segment
/// and each non-empty stretch between, before or after them a prose segment,
/// in order of position. An empty text gives one empty prose segment.
pub fn split_by_code_blocks(text: &Vec<char>, spans: &Vec<(usize, usize)>) -> (r: Vec<TextSegment>)
    requires
        spans_wf(int_spans(spans@), text@.len() as int),
    ensures
        seg_views(r@) == segments_by_spans(text@, int_spans(spans@)),
        joined(seg_views(r@)) == text@,
        r@.len() >= 1,
        text@.len() > 0 ==> forall|k: int| 0 <= k < r@.len() ==> (#[trigger] seg_views(r@)[k]).0.len() > 0,
{
    let ghost t = text@;
    let ghost sp = int_spans(spans@);
    let n = text.len();
    let mut res: Vec<TextSegment> = Vec::new();
    let mut last: usize = 0;
    let mut i: usize = 0;
    assert(t.subrange(0, 0) =~= Seq::<char>::empty());
    assert(seg_views(res@) =~= Seq::<(Seq<char>, bool)>::empty());
    while i < spans.len()
        invariant
            t == text@,
            n == t.len(),
            sp == int_spans(spans@),
            spans_wf(sp, n as int),
            i <= spans@.len(),
            last <= n,
            i < spans@.len() ==> last <= spans@[i as int].0,
            seg_views(res@) + segs_from(t, sp, i as int, last as int) == segs_from(t, sp, 0, 0),
            joined(seg_views(res@)) == t.subrange(0, last as int),
            forall|k: int| 0 <= k < res@.len() ==> (#[trigger] seg_views(res@)[k]).0.len() > 0,
        decreases spans@.len() - i,
    {
        let (s, e) = spans[i];
        assert(sp[i as int] == (s as int, e as int));
        assert(0 <= s < e <= n);
        let ghost before = seg_views(res@);
        if s > last {
            push_segment(&mut res, text, last, s, false);
            proof { lemma_joined_push(before, (t.subrange(last as int, s as int), false)); }
            assert(t.subrange(0, last as int) + t.subrange(last as int, s as int) =~= t.subrange(0, s as int));
        }
        let ghost mid = seg_views(res@);
        push_segment(&mut res, text, s, e, true);
        proof {
            lemma_joined_push(mid, (t.subrange(s as int, e as int), true));
            if i + 1 < spans@.len() {
                assert(sp[i as int].1 <= sp[i + 1].0);
                assert(sp[i + 1] == (spans@[i + 1].0 as int, spans@[i + 1].1 as int));
            }
        }
        assert(t.subrange(0, s as int) + t.subrange(s as int, e as int) =~= t.subrange(0, e as int));
        assert(seg_views(res@) + segs_from(t, sp, i + 1, e as int) =~= before + segs_from(t, sp, i as int, last as int));
        last = e;
        i = i + 1;
    }
    let ghost before = seg_views(res@);
    if last < n {
        push_segment(&mut res, text, last, n, false);
        proof { lemma_joined_push(before, (t.subrange(last as int, n as int), false)); }
        assert(t.subrange(0, last as int) + t.subrange(last as int, n as int) =~= t);
        assert(seg_views(res@) =~= before + segs_from(t, sp, i as int, last as int));
    } else {
        assert(seg_views(res@) =~= before + segs_from(t, sp, i as int, last as int));
        assert(t.subrange(0, last as int) =~= t);
    }
    if n == 0 {
        proof {
            if spans@.len() > 0 {
                assert(sp[0] == (spans@[0].0 as int, spans@[0].1 as int));
            }
        }
        assert(seg_views(res@) =~= Seq::<(Seq<char>, bool)>::empty());
        push_segment(&mut res, text, 0, 0, false);
        assert(t.subrange(0, 0) =~= t);
        assert(seg_views(res@) =~= seq![(t, false)]);
        proof { lemma_joined_push(Seq::empty(), (t, false)); }
        assert(Seq::<(Seq<char>, bool)>::empty().push((t, false)) =~= seq![(t, false)]);
    }
    res
}

/// The segments of `text` under a length limit: the whole text as one prose
/// segment when it is within the limit, else cut at its code blocks.
pub fn split_into_segments(text: &str, max_length: usize) -> (r: Vec<TextSegment>)
    ensures
        text@.len() <= max_length ==> seg_views(r@) == seq![(text@, false)],
        text@.len() > max_length ==> seg_views(r@) == segments_by_spans(text@, code_spans(text@)),
        text@.len() > 0 ==> r@.len() >= 1,
        joined(seg_views(r@)) == text@,
{
    let cs = chars_of(text);
    if cs.len() <= max_length {
        let mut res: Vec<TextSegment> = Vec::new();
        push_segment(&mut res, &cs, 0, cs.len(), false);
        proof {
            assert(cs@.subrange(0, cs@.len() as int) =~= text@);
            assert(seg_views(res@) =~= seq![(text@, false)]);
            lemma_joined_push(Seq::empty(), (text@, false));
            assert(Seq::<(Seq<char>, bool)>::empty().push((text@, false)) =~= seq![(text@, false)]);
        }
        return res;
    }
    let spans = identify_code_blocks(&cs);
    let res = split_by_code_blocks(&cs, &spans);
    proof {
        if res@.len() == 0 {
            assert(seg_views(res@) =~= Seq::<(Seq<char>, bool)>::empty());
        }
    }
    res
}

/// Sentence-ending punctuation, where a long paragraph is cut first.
pub open spec fn is_stop(c: char) -> bool {
    c == '.' || c == '!' || c == '?' || c == '\u{3002}' || c == '\u{ff01}' || c == '\u{ff1f}'
}

/// Position of the last sentence end in `p[lo..hi]`.
pub open spec fn last_stop(p: Seq<char>, lo: int, hi: int) -> Option<int>
    decreases hi - lo,
{
    if hi <= lo {
        None
    } else if is_stop(p[hi - 1]) {
        Some(hi - 1)
    } else {
        last_stop(p, lo, hi - 1)
    }
}

/// Position of the last whitespace character in `p[lo..hi]`.
pub open spec fn last_space(p: Seq<char>, lo: int, hi: int) -> Option<int>
    decreases hi - lo,
{
    if hi <= lo {
        None
    } else if is_ws(p[hi - 1]) {
        Some(hi - 1)
    } else {
        last_space(p, lo, hi - 1)
    }
}

/// Where the piece of `p` that begins at `start` ends: the whole rest when it
/// fits in `max`; else just after the last sentence end in the window of
/// `max` characters, else just after its last whitespace, else at the
/// window's end.
pub open spec fn cut_point(p: Seq<char>, start: int, max: int) -> int {
    let end = if start + max < p.len() { start + max } else { p.len() as int };
    if end >= p.len() {
        end
    } else {
        match last_stop(p, start, end) {
            Some(i) => i + 1,
            None => match last_space(p, start, end) {
                Some(i) => i + 1,
                None => end,
            },
        }
    }
}

/// The pieces of `p` from `start` on, each cut by [`cut_point`] and trimmed,
/// blank ones left out.
pub open spec fn pieces_from(p: Seq<char>, start: int, max: int) -> Seq<Seq<char>>
    decreases p.len() - start,
{
    if max <= 0 || start < 0 || start >= p.len() {
        seq![]
    } else {
        let c = cut_point(p, start, max);
        if c <= start || c > p.len() {
            seq![]
        } else {
            let piece = trim(p.subrange(start, c));
            (if piece.len() > 0 {
                seq![piece]
            } else {
                seq![]
            }) + pieces_from(p, c, max)
        }
    }
}

/// The character sequences of `v`.
pub open spec fn char_views(v: Seq<Vec<char>>) -> Seq<Seq<char>> {
    v.map_values(|x: Vec<char>| x@)
}

proof fn lemma_char_views_push(v: Seq<Vec<char>>, x: Vec<char>)
    ensures
        char_views(v.push(x)) == char_views(v).push(x@),
{
    assert(char_views(v.push(x)) =~= char_views(v).push(x@));
}

fn exec_is_stop(c: char) -> (r: bool)
    ensures
        r == is_stop(c),
{
    c == '.' || c == '!' || c == '?' || c == '\u{3002}' || c == '\u{ff01}' || c == '\u{ff1f}'
}

fn find_last_stop(p: &Vec<char>, lo: usize, hi: usize) -> (r: Option<usize>)
    requires
        lo <= hi <= p.len(),
    ensures
        r matches Some(i) ==> lo <= i < hi,
        last_stop(p@, lo as int, hi as int) == match r { Some(i) => Some(i as int), None => None },
{
    let mut i: usize = hi;
    while i > lo
        invariant
            lo <= i <= hi <= p.len(),
            last_stop(p@, lo as int, hi as int) == last_stop(p@, lo as int, i as int),
        decreases i - lo,
    {
        if exec_is_stop(p[i - 1]) {
            return Some(i - 1);
        }
        i = i - 1;
    }
    None
}

fn find_last_space(p: &Vec<char>, lo: usize, hi: usize) -> (r: Option<usize>)
    requires
        lo <= hi <= p.len(),
    ensures
        r matches Some(i) ==> lo <= i < hi,
        last_space(p@, lo as int, hi as int) == match r { Some(i) => Some(i as int), None => None },
{
    let mut i: usize = hi;
    while i > lo
        invariant
            lo <= i <= hi <= p.len(),
            last_space(p@, lo as int, hi as int) == last_space(p@, lo as int, i as int),
        decreases i - lo,
    {
        if is_whitespace(p[i - 1]) {
            return Some(i - 1);
        }
        i = i - 1;
    }
    None
}

/// A copy of `v[lo..hi]`.
fn copy_range(v: &Vec<char>, lo: usize, hi: usize) -> (r: Vec<char>)
    requires
        lo <= hi <= v.len(),
    ensures
        r@ == v@.subrange(lo as int, hi as int),
{
    let mut r: Vec<char> = Vec::new();
    let mut i: usize = lo;
    while i < hi
        invariant
            lo <= i <= hi <= v.len(),
            r@ == v@.subrange(lo as int, i as int),
        decreases hi - i,
    {
        r.push(v[i]);
        assert(r@ =~= v@.subrange(lo as int, i + 1));
        i = i + 1;
    }
    r
}

/// Force-splits an oversized paragraph into trimmed, non-blank pieces of at
/// most `max_length` characters, cutting after the last sentence end that
/// fits, else after the last whitespace, else at the limit.
pub fn split_long_paragraph(p: &Vec<char>, max_length: usize) -> (r: Vec<Vec<char>>)
    requires
        max_length > 0,
    ensures
        char_views(r@) == pieces_from(p@, 0, max_length as int),
        forall|k: int| 0 <= k < r@.len() ==> 0 < (#[trigger] r@[k])@.len() <= max_length,
        forall|k: int| 0 <= k < r@.len() ==> !is_blank((#[trigger] r@[k])@),
{
    let ghost t = p@;
    let ghost m = max_length as int;
    let n = p.len();
    let mut res: Vec<Vec<char>> = Vec::new();
    let mut start: usize = 0;
    assert(char_views(res@) =~= Seq::<Seq<char>>::empty());
    while start < n
        invariant
            t == p@,
            n == t.len(),
            m == max_length,
            max_length > 0,
            start <= n,
            char_views(res@) + pieces_from(t, start as int, m) == pieces_from(t, 0, m),
            forall|k: int| 0 <= k < res@.len() ==> 0 < (#[trigger] res@[k])@.len() <= max_length,
            forall|k: int| 0 <= k < res@.len() ==> !is_blank((#[trigger] res@[k])@),
        decreases n - start,
    {
        let end: usize = if n - start > max_length { start + max_length } else { n };
        let mut cut: usize = end;
        if end < n {
            match find_last_stop(p, start, end) {
                Some(i) => {
                    cut = i + 1;
                },
                None => {
                    match find_last_space(p, start, end) {
                        Some(i) => {
                            cut = i + 1;
                        },
                        None => {},
                    }
                },
            }
        }
        assert(cut == cut_point(t, start as int, m));
        let (a, b) = trim_bounds(p, start, cut);
        let ghost before = res@;
        if a < b {
            let piece = copy_range(p, a, b);
            proof {
                lemma_char_views_push(res@, piece);
                let tp = t.subrange(a as int, b as int);
                if is_blank(tp) {
                    lemma_trim_not_blank(t.subrange(start as int, cut as int));
                }
            }
            res.push(piece);
            assert(res@[res@.len() - 1] == piece);
        }
        assert(char_views(res@) + pieces_from(t, cut as int, m) =~= char_views(before) + pieces_from(t, start as int, m));
        start = cut;
    }
    res
}

/// A prose chunk: non-blank and within the length limit.
pub open spec fn prose_ok(c: Seq<char>, max: int) -> bool {
    0 < c.len() <= max && !is_blank(c)
}

/// Every element of `v` is a well-formed prose chunk.
pub open spec fn all_prose_ok(v: Seq<Vec<char>>, max: int) -> bool {
    forall|k: int| 0 <= k < v.len() ==> prose_ok((#[trigger] v[k])@, max)
}

proof fn lemma_not_blank_concat(a: Seq<char>, b: Seq<char>)
    ensures
        !is_blank(a) ==> !is_blank(a + b),
        !is_blank(b) ==> !is_blank(a + b),
{
    if is_blank(a + b) {
        assert forall|i: int| 0 <= i < a.len() implies is_ws(#[trigger] a[i]) by {
            assert((a + b)[i] == a[i]);
        }
        assert forall|i: int| 0 <= i < b.len() implies is_ws(#[trigger] b[i]) by {
            assert((a + b)[a.len() + i] == b[i]);
        }
    }
}

/// Whether every character of `v[lo..hi]` is whitespace.
fn is_blank_range(v: &Vec<char>, lo: usize, hi: usize) -> (r: bool)
    requires
        lo <= hi <= v.len(),
    ensures
        r == is_blank(v@.subrange(lo as int, hi as int)),
{
    let ghost t = v@.subrange(lo as int, hi as int);
    let mut i: usize = lo;
    while i < hi
        invariant
            lo <= i <= hi <= v.len(),
            t == v@.subrange(lo as int, hi as int),
            forall|k: int| 0 <= k < i - lo ==> is_ws(#[trigger] t[k]),
        decreases hi - i,
    {
        if !is_whitespace(v[i]) {
            assert(t[i - lo] == v@[i as int]);
            return false;
        }
        assert(t[i - lo] == v@[i as int]);
        i = i + 1;
    }
    true
}

/// Appends `v[lo..hi]` to `dst`.
fn append_range(dst: &mut Vec<char>, v: &Vec<char>, lo: usize, hi: usize)
    requires
        lo <= hi <= v.len(),
    ensures
        final(dst)@ == old(dst)@ + v@.subrange(lo as int, hi as int),
{
    let ghost d0 = dst@;
    let mut i: usize = lo;
    while i < hi
        invariant
            lo <= i <= hi <= v.len(),
            dst@ == d0 + v@.subrange(lo as int, i as int),
        decreases hi - i,
    {
        dst.push(v[i]);
        assert(dst@ =~= d0 + v@.subrange(lo as int, i + 1));
        i = i + 1;
    }
}

/// The blank line that joins paragraphs of a group.
pub open spec fn para_break() -> Seq<char> {
    seq!['\n', '\n']
}

/// Adding the paragraph `para` to the group `cur` under the limit `max`: the
/// chunks this closes, and the group after. The paragraph joins the group,
/// after a blank line, when the result fits; else the group is closed, and the
/// paragraph starts the next group, or is force-split into closed chunks when
/// it alone exceeds the limit.
pub open spec fn add_para(cur: Seq<char>, para: Seq<char>, max: int) -> (Seq<Seq<char>>, Seq<char>) {
    if cur.len() == 0 && para.len() <= max {
        (seq![], para)
    } else if cur.len() > 0 && cur.len() + 2 + para.len() <= max {
        (seq![], cur + para_break() + para)
    } else {
        let flushed = if cur.len() > 0 { seq![cur] } else { seq![] };
        if para.len() > max {
            (flushed + pieces_from(para, 0, max), seq![])
        } else {
            (flushed, para)
        }
    }
}

/// Start of the first blank-line separator (two line breaks) at or after `pos`,
/// or the text's length.
pub open spec fn next_break(t: Seq<char>, pos: int) -> int
    decreases t.len() - pos,
{
    if pos < 0 || pos >= t.len() {
        t.len() as int
    } else if pos + 1 < t.len() && t[pos] == '\n' && t[pos + 1] == '\n' {
        pos
    } else {
        next_break(t, pos + 1)
    }
}

/// The groups of `t` from `start` on, given the closed chunks `out` and the
/// open group `cur`: each paragraph up to the next separator is trimmed and,
/// when not empty, added by [`add_para`]; the last group is closed at the end.
pub open spec fn group_from(t: Seq<char>, start: int, max: int, out: Seq<Seq<char>>, cur: Seq<char>) -> Seq<Seq<char>>
    decreases t.len() + 1 - start,
{
    let j = next_break(t, start);
    if start < 0 || start > t.len() || j < start || j > t.len() {
        out
    } else {
        let para = trim(t.subrange(start, j));
        let step = if para.len() > 0 { add_para(cur, para, max) } else { (seq![], cur) };
        let out2 = out + step.0;
        if j >= t.len() {
            if step.1.len() > 0 { out2.push(step.1) } else { out2 }
        } else {
            group_from(t, j + 2, max, out2, step.1)
        }
    }
}

/// The paragraph groups of a prose segment `t` under the limit `max`: `t`
/// itself within the limit, else [`group_from`] the start.
pub open spec fn groups(t: Seq<char>, max: int) -> Seq<Seq<char>> {
    if t.len() <= max {
        seq![t]
    } else {
        group_from(t, 0, max, seq![], seq![])
    }
}

proof fn lemma_next_break(t: Seq<char>, pos: int)
    requires
        0 <= pos <= t.len(),
    ensures
        pos <= next_break(t, pos) <= t.len(),
        next_break(t, pos) < t.len() ==> next_break(t, pos) + 1 < t.len(),
        next_break(t, pos) < t.len() ==> t[next_break(t, pos)] == '\n' && t[next_break(t, pos) + 1] == '\n',
    decreases t.len() - pos,
{
    if pos < t.len() && !(pos + 1 < t.len() && t[pos] == '\n' && t[pos + 1] == '\n') {
        lemma_next_break(t, pos + 1);
    }
}

/// Adds the non-blank paragraph `p[lo..hi]` to the group `cur` as [`add_para`]
/// says, appending the chunks it closes to `out`.
fn add_paragraph(out: &mut Vec<Vec<char>>, cur: &mut Vec<char>, p: &Vec<char>, lo: usize, hi: usize, max: usize)
    requires
        max > 0,
        lo < hi <= p.len(),
        !is_blank(p@.subrange(lo as int, hi as int)),
        old(cur)@.len() <= max,
        old(cur)@.len() > 0 ==> !is_blank(old(cur)@),
        all_prose_ok(old(out)@, max as int),
    ensures
        char_views(final(out)@) == char_views(old(out)@) + add_para(old(cur)@, p@.subrange(lo as int, hi as int), max as int).0,
        final(cur)@ == add_para(old(cur)@, p@.subrange(lo as int, hi as int), max as int).1,
        final(cur)@.len() <= max,
        final(cur)@.len() > 0 ==> !is_blank(final(cur)@),
        all_prose_ok(final(out)@, max as int),
{
    let ghost para = p@.subrange(lo as int, hi as int);
    let ghost out0 = char_views(out@);
    let plen = hi - lo;
    let fits = if cur.len() == 0 {
        plen <= max
    } else {
        max - cur.len() >= 2 && max - cur.len() - 2 >= plen
    };
    if fits {
        let ghost c0 = cur@;
        if cur.len() > 0 {
            cur.push('\n');
            cur.push('\n');
        }
        append_range(cur, p, lo, hi);
        proof {
            if c0.len() > 0 {
                lemma_not_blank_concat(c0.push('\n').push('\n'), para);
                lemma_not_blank_concat(c0, seq!['\n', '\n']);
                assert(c0.push('\n').push('\n') =~= c0 + seq!['\n', '\n']);
            } else {
                assert(cur@ =~= para);
            }
        }
        assert(char_views(out@) =~= out0 + Seq::<Seq<char>>::empty());
    } else {
        let ghost c0 = cur@;
        if cur.len() > 0 {
            let done = copy_range(cur, 0, cur.len());
            assert(done@ =~= cur@);
            proof { lemma_char_views_push(out@, done); }
            out.push(done);
            *cur = Vec::new();
        }
        let ghost flushed: Seq<Seq<char>> = if c0.len() > 0 { seq![c0] } else { seq![] };
        assert(char_views(out@) =~= out0 + flushed);
        if plen > max {
            let whole = copy_range(p, lo, hi);
            let pieces = split_long_paragraph(&whole, max);
            let ghost out1 = char_views(out@);
            let mut k: usize = 0;
            while k < pieces.len()
                invariant
                    k <= pieces@.len(),
                    all_prose_ok(out@, max as int),
                    char_views(out@) == out1 + char_views(pieces@).subrange(0, k as int),
                    forall|j: int| 0 <= j < pieces@.len() ==> 0 < (#[trigger] pieces@[j])@.len() <= max,
                    forall|j: int| 0 <= j < pieces@.len() ==> !is_blank((#[trigger] pieces@[j])@),
                decreases pieces@.len() - k,
            {
                let piece = copy_range(&pieces[k], 0, pieces[k].len());
                assert(piece@ =~= pieces@[k as int]@);
                proof { lemma_char_views_push(out@, piece); }
                out.push(piece);
                assert(char_views(pieces@).subrange(0, k + 1) =~= char_views(pieces@).subrange(0, k as int).push(piece@));
                k = k + 1;
            }
            assert(char_views(pieces@).subrange(0, pieces@.len() as int) =~= char_views(pieces@));
            assert(out1 + char_views(pieces@) =~= out0 + (flushed + pieces_from(para, 0, max as int)));
        } else {
            *cur = copy_range(p, lo, hi);
        }
    }
}

/// Groups the paragraphs of a prose segment (separated by blank lines) under
/// the limit `max_length`: the segment itself when it is within the limit;
/// else its trimmed, non-blank paragraphs packed greedily, consecutive ones
/// joined by a blank line, oversized ones force-split.
pub fn split_text_by_empty_lines(text: &Vec<char>, max_length: usize) -> (r: Vec<Vec<char>>)
    requires
        max_length > 0,
    ensures
        char_views(r@) == groups(text@, max_length as int),
        text@.len() > max_length ==> all_prose_ok(r@, max_length as int),
{
    let ghost t = text@;
    let ghost m = max_length as int;
    let n = text.len();
    let mut res: Vec<Vec<char>> = Vec::new();
    if n <= max_length {
        let whole = copy_range(text, 0, n);
        assert(whole@ =~= text@);
        assert(char_views(res@) =~= Seq::<Seq<char>>::empty());
        proof { lemma_char_views_push(res@, whole); }
        res.push(whole);
        assert(char_views(res@) =~= seq![text@]);
        return res;
    }
    let mut cur: Vec<char> = Vec::new();
    let mut start: usize = 0;
    let mut done = false;
    assert(char_views(res@) =~= Seq::<Seq<char>>::empty());
    assert(cur@ =~= Seq::<char>::empty());
    while !done
        invariant
            t == text@,
            m == max_length,
            n == t.len(),
            n > max_length,
            max_length > 0,
            start <= n,
            cur@.len() <= max_length,
            cur@.len() > 0 ==> !is_blank(cur@),
            all_prose_ok(res@, max_length as int),
            !done ==> group_from(t, start as int, m, char_views(res@), cur@) == group_from(t, 0, m, seq![], seq![]),
            done ==> char_views(res@) + (if cur@.len() > 0 { seq![cur@] } else { Seq::<Seq<char>>::empty() })
                == group_from(t, 0, m, seq![], seq![]),
        decreases n - start + (if done { 0int } else { 1int }),
    {
        proof { lemma_next_break(t, start as int); }
        let mut j: usize = start;
        while j < n && !(text[j] == '\n' && j + 1 < n && text[j + 1] == '\n')
            invariant
                start <= j <= n,
                n == text@.len(),
                t == text@,
                next_break(t, start as int) == next_break(t, j as int),
            decreases n - j,
        {
            j = j + 1;
        }
        let ghost out0 = char_views(res@);
        let ghost cur0 = cur@;
        let (a, b) = trim_bounds(text, start, j);
        if a < b {
            proof { lemma_trim_not_blank(t.subrange(start as int, j as int)); }
            add_paragraph(&mut res, &mut cur, text, a, b, max_length);
        } else {
            assert(char_views(res@) =~= out0 + Seq::<Seq<char>>::empty());
        }
        if j >= n {
            proof {
                if cur@.len() > 0 {
                    assert(char_views(res@).push(cur@) =~= char_views(res@) + seq![cur@]);
                } else {
                    assert(char_views(res@) =~= char_views(res@) + Seq::<Seq<char>>::empty());
                }
            }
            done = true;
        } else {
            start = j + 2;
        }
    }
    let ghost before = res@;
    if cur.len() > 0 {
        proof { lemma_char_views_push(res@, cur); }
        res.push(cur);
    } else {
        assert(char_views(res@) =~= char_views(before) + Seq::<Seq<char>>::empty());
    }
    res
}

/// The contents of the code segments of `v`, in order.
pub open spec fn code_contents(v: Seq<(Seq<char>, bool)>) -> Seq<Seq<char>>
    decreases v.len(),
{
    if v.len() == 0 {
        seq![]
    } else if v.last().1 {
        code_contents(v.drop_last()).push(v.last().0)
    } else {
        code_contents(v.drop_last())
    }
}

proof fn lemma_code_contents_push(v: Seq<(Seq<char>, bool)>, x: (Seq<char>, bool))
    ensures
        code_contents(v.push(x)) == if x.1 { code_contents(v).push(x.0) } else { code_contents(v) },
{
    assert(v.push(x).drop_last() =~= v);
}

/// Every prose chunk of `v` is non-blank and within the limit `max`.
pub open spec fn prose_within(v: Seq<(Seq<char>, bool)>, max: int) -> bool {
    forall|k: int| 0 <= k < v.len() && !(#[trigger] v[k]).1 ==> prose_ok(v[k].0, max)
}

fn push_chunk(res: &mut Vec<TextSegment>, c: &Vec<char>, code: bool)
    ensures
        seg_views(final(res)@) == seg_views(old(res)@).push((c@, code)),
        code_contents(seg_views(final(res)@)) == if code {
            code_contents(seg_views(old(res)@)).push(c@)
        } else {
            code_contents(seg_views(old(res)@))
        },
{
    proof {
        lemma_code_contents_push(seg_views(res@), (c@, code));
        assert(c@.subrange(0, c@.len() as int) =~= c@);
    }
    push_segment(res, c, 0, c.len(), code);
}

/// The chunks `cs` of `t` under the limit `max`: at least one; the text
/// itself within the limit; beyond it, the code blocks of `t` as code chunks
/// in order, and prose chunks that are non-blank and within the limit unless
/// `t` is blank and itself the one chunk.
pub open spec fn chunks_ok(t: Seq<char>, max: int, cs: Seq<(Seq<char>, bool)>) -> bool {
    &&& cs.len() >= 1
    &&& t.len() <= max ==> cs == seq![(t, false)]
    &&& t.len() > max ==> code_contents(cs) == code_contents(segments_by_spans(t, code_spans(t)))
    &&& t.len() > max ==> prose_within(cs, max) || (cs == seq![(t, false)] && is_blank(t))
}

/// Prose chunks with the given texts.
pub open spec fn as_prose(v: Seq<Seq<char>>) -> Seq<(Seq<char>, bool)> {
    v.map_values(|c: Seq<char>| (c, false))
}

/// Packing the paragraph groups `ps` from index `i` on into chunks, given the
/// chunks `out` so far and the open chunk `cur`: blank groups are skipped,
/// the others added by [`add_para`]. Gives the chunks and the open chunk after.
pub open spec fn pack_list(ps: Seq<Seq<char>>, i: int, max: int, out: Seq<(Seq<char>, bool)>, cur: Seq<char>) -> (Seq<(Seq<char>, bool)>, Seq<char>)
    decreases ps.len() - i,
{
    if i < 0 || i >= ps.len() {
        (out, cur)
    } else if is_blank(ps[i]) {
        pack_list(ps, i + 1, max, out, cur)
    } else {
        let step = add_para(cur, ps[i], max);
        pack_list(ps, i + 1, max, out + as_prose(step.0), step.1)
    }
}

/// The chunks made of the segments `sv` from index `si` on, given the chunks
/// `out` so far and the open chunk `cur`: a code segment closes the open
/// chunk and is a chunk of its own; a prose segment's [`groups`] are packed
/// by [`pack_list`]; the open chunk is closed at the end.
pub open spec fn chunk_from(sv: Seq<(Seq<char>, bool)>, si: int, max: int, out: Seq<(Seq<char>, bool)>, cur: Seq<char>) -> Seq<(Seq<char>, bool)>
    decreases sv.len() - si,
{
    if si < 0 || si >= sv.len() {
        if cur.len() > 0 { out.push((cur, false)) } else { out }
    } else if sv[si].1 {
        let out1 = if cur.len() > 0 { out.push((cur, false)) } else { out };
        chunk_from(sv, si + 1, max, out1.push((sv[si].0, true)), seq![])
    } else {
        let st = pack_list(groups(sv[si].0, max), 0, max, out, cur);
        chunk_from(sv, si + 1, max, st.0, st.1)
    }
}

/// The chunks of `t` under the limit `max`: `t` itself within the limit;
/// else the chunks of its segments, or `t` itself where they are none.
pub open spec fn chunks_of(t: Seq<char>, max: int) -> Seq<(Seq<char>, bool)> {
    if t.len() <= max {
        seq![(t, false)]
    } else {
        let r = chunk_from(segments_by_spans(t, code_spans(t)), 0, max, seq![], seq![]);
        if r.len() == 0 { seq![(t, false)] } else { r }
    }
}

/// Splits `text` into the chunks that are translated one request each.
///
/// Within the limit the text is one prose chunk. Beyond it, each fenced code
/// block becomes a chunk of its own, unchanged, in order; the prose between is
/// grouped by paragraphs into non-blank chunks of at most `max_length`
/// characters, long paragraphs force-split. Where that yields nothing (a
/// blank text), the text itself is the one chunk.
pub fn chunk_segments(text: &str, max_length: usize) -> (r: Vec<TextSegment>)
    requires
        max_length > 0,
    ensures
        seg_views(r@) == chunks_of(text@, max_length as int),
        chunks_ok(text@, max_length as int, seg_views(r@)),
{
    let ghost m = max_length as int;
    let cs = chars_of(text);
    let mut res: Vec<TextSegment> = Vec::new();
    assert(seg_views(res@) =~= Seq::<(Seq<char>, bool)>::empty());
    if cs.len() <= max_length {
        push_chunk(&mut res, &cs, false);
        assert(seg_views(res@) =~= seq![(text@, false)]);
        return res;
    }
    let spans = identify_code_blocks(&cs);
    let segs = split_by_code_blocks(&cs, &spans);
    let ghost sv = seg_views(segs@);
    let mut cur: Vec<char> = Vec::new();
    let mut si: usize = 0;
    assert(sv.subrange(0, 0) =~= Seq::<(Seq<char>, bool)>::empty());
    assert(cur@ =~= Seq::<char>::empty());
    while si < segs.len()
        invariant
            max_length > 0,
            m == max_length,
            sv == seg_views(segs@),
            sv == segments_by_spans(text@, code_spans(text@)),
            si <= segs@.len(),
            cur@.len() <= max_length,
            cur@.len() > 0 ==> !is_blank(cur@),
            prose_within(seg_views(res@), max_length as int),
            code_contents(seg_views(res@)) == code_contents(sv.subrange(0, si as int)),
            chunk_from(sv, si as int, m, seg_views(res@), cur@) == chunk_from(sv, 0, m, seq![], seq![]),
            res@.len() == 0 && cur@.len() == 0 ==> is_blank(joined(sv.subrange(0, si as int))),
        decreases segs@.len() - si,
    {
        let seg = &segs[si];
        assert(sv[si as int] == (seg.content@, seg.is_code_block));
        assert(sv.subrange(0, si + 1).drop_last() =~= sv.subrange(0, si as int));
        let content = chars_of(seg.content.as_str());
        if seg.is_code_block {
            if cur.len() > 0 {
                push_chunk(&mut res, &cur, false);
                cur = Vec::new();
            }
            push_chunk(&mut res, &content, true);
            assert(cur@ =~= Seq::<char>::empty());
        } else {
            let paras = split_text_by_empty_lines(&content, max_length);
            let ghost pv = char_views(paras@);
            let ghost res0 = seg_views(res@);
            let ghost cur0 = cur@;
            let ghost rlen0 = res@.len();
            let mut pi: usize = 0;
            while pi < paras.len()
                invariant
                    max_length > 0,
                    m == max_length,
                    pi <= paras@.len(),
                    pv == char_views(paras@),
                    pv == groups(content@, m),
                    content@.len() <= max_length ==> pv == seq![content@],
                    content@.len() > max_length ==> all_prose_ok(paras@, max_length as int),
                    cur@.len() <= max_length,
                    cur@.len() > 0 ==> !is_blank(cur@),
                    prose_within(seg_views(res@), max_length as int),
                    code_contents(seg_views(res@)) == code_contents(sv.subrange(0, si as int)),
                    pack_list(pv, pi as int, m, seg_views(res@), cur@) == pack_list(pv, 0, m, res0, cur0),
                    res@.len() >= rlen0,
                    res@.len() == 0 && cur@.len() == 0 ==> rlen0 == 0 && cur0.len() == 0
                        && forall|q: int| 0 <= q < pi ==> is_blank(#[trigger] pv[q]),
                decreases paras@.len() - pi,
            {
                let para = &paras[pi];
                assert(pv[pi as int] == para@);
                let ghost views_before = seg_views(res@);
                let ghost cur_before = cur@;
                assert(para@.subrange(0, para@.len() as int) =~= para@);
                if !is_blank_range(para, 0, para.len()) {
                    assert(para@.subrange(0, para@.len() as int) =~= para@);
                    let mut out: Vec<Vec<char>> = Vec::new();
                    assert(char_views(out@) =~= Seq::<Seq<char>>::empty());
                    let ghost step = add_para(cur@, para@, m);
                    add_paragraph(&mut out, &mut cur, para, 0, para.len(), max_length);
                    assert(char_views(out@) =~= step.0);
                    let ghost base = seg_views(res@);
                    proof { lemma_add_para_progress(cur_before, para@, m); }
                    let mut k: usize = 0;
                    while k < out.len()
                        invariant
                            k <= out@.len(),
                            all_prose_ok(out@, max_length as int),
                            prose_within(seg_views(res@), max_length as int),
                            code_contents(seg_views(res@)) == code_contents(sv.subrange(0, si as int)),
                            seg_views(res@) == base + as_prose(char_views(out@).subrange(0, k as int)),
                            res@.len() == base.len() + k,
                        decreases out@.len() - k,
                    {
                        push_chunk(&mut res, &out[k], false);
                        assert(out@[k as int]@ == out[k as int]@);
                        assert(char_views(out@)[k as int] == out@[k as int]@);
                        assert(as_prose(char_views(out@).subrange(0, k + 1)) =~= as_prose(char_views(out@).subrange(0, k as int)).push((out@[k as int]@, false)));
                        k = k + 1;
                    }
                    assert(char_views(out@).subrange(0, out@.len() as int) =~= char_views(out@));
                    assert(pack_list(pv, pi as int, m, views_before, cur_before)
                        == pack_list(pv, pi + 1, m, views_before + as_prose(step.0), step.1));
                    assert(seg_views(res@) == views_before + as_prose(step.0));
                    assert(cur@ == step.1);
                } else {
                    assert(pack_list(pv, pi as int, m, views_before, cur_before)
                        == pack_list(pv, pi + 1, m, views_before, cur_before));
                }
                pi = pi + 1;
            }
            proof {
                if res@.len() == 0 && cur@.len() == 0 {
                    if content@.len() > max_length {
                        if pv.len() > 0 {
                            assert(is_blank(pv[0]));
                            assert(pv[0] == paras@[0]@);
                        }
                        lemma_group_from_blank(content@, 0, m, seq![], seq![]);
                        assert(content@.subrange(0, content@.len() as int) =~= content@);
                    } else {
                        assert(is_blank(pv[0]));
                    }
                    lemma_blank_concat(joined(sv.subrange(0, si as int)), content@);
                }
            }
        }
        si = si + 1;
    }
    if cur.len() > 0 {
        push_chunk(&mut res, &cur, false);
    }
    if res.len() == 0 {
        assert(joined(sv) == text@);
        push_chunk(&mut res, &cs, false);
        assert(seg_views(res@) =~= seq![(text@, false)]);
    }
    assert(sv.subrange(0, sv.len() as int) =~= sv);
    res
}

/// Whether `s`, after leading and trailing whitespace, begins with a fence.
pub fn starts_with_fence(s: &str) -> (r: bool)
    ensures
        r == starts_with(trim(s@), fence()),
{
    let cs = chars_of(s);
    assert(cs@.subrange(0, cs@.len() as int) =~= s@);
    let (a, b) = trim_bounds(&cs, 0, cs.len());
    let ghost tr = cs@.subrange(a as int, b as int);
    if b - a < 3 {
        return false;
    }
    let fence_chars: Vec<char> = vec!['`', '`', '`'];
    assert(fence_chars@ =~= fence());
    let r = occurs_here(&cs, &fence_chars, a);
    assert(tr.subrange(0, 3) =~= cs@.subrange(a as int, a + 3));
    r
}

proof fn lemma_last_stop_range(p: Seq<char>, lo: int, hi: int)
    ensures
        last_stop(p, lo, hi) matches Some(i) ==> lo <= i < hi,
    decreases hi - lo,
{
    if hi > lo && !is_stop(p[hi - 1]) {
        lemma_last_stop_range(p, lo, hi - 1);
    }
}

proof fn lemma_last_space_range(p: Seq<char>, lo: int, hi: int)
    ensures
        last_space(p, lo, hi) matches Some(i) ==> lo <= i < hi,
    decreases hi - lo,
{
    if hi > lo && !is_ws(p[hi - 1]) {
        lemma_last_space_range(p, lo, hi - 1);
    }
}

proof fn lemma_cut_point(p: Seq<char>, start: int, max: int)
    requires
        0 <= start < p.len(),
        max > 0,
    ensures
        start < cut_point(p, start, max) <= p.len(),
        cut_point(p, start, max) <= start + max,
{
    let end = if start + max < p.len() { start + max } else { p.len() as int };
    lemma_last_stop_range(p, start, end);
    lemma_last_space_range(p, start, end);
}

/// The pieces of `p` from `start` on are not none when `p[start..]` is not blank.
proof fn lemma_pieces_nonempty(p: Seq<char>, start: int, max: int)
    requires
        0 <= start < p.len(),
        max > 0,
        !is_blank(p.subrange(start, p.len() as int)),
    ensures
        pieces_from(p, start, max).len() >= 1,
    decreases p.len() - start,
{
    lemma_cut_point(p, start, max);
    let c = cut_point(p, start, max);
    let piece = trim(p.subrange(start, c));
    if piece.len() == 0 {
        lemma_trim_empty_blank(p.subrange(start, c));
        if c >= p.len() {
            assert(p.subrange(start, c) =~= p.subrange(start, p.len() as int));
        } else {
            if is_blank(p.subrange(c, p.len() as int)) {
                assert forall|i: int| 0 <= i < p.len() - start implies is_ws(#[trigger] p.subrange(start, p.len() as int)[i]) by {
                    if i < c - start {
                        assert(p.subrange(start, c)[i] == p[start + i]);
                    } else {
                        assert(p.subrange(c, p.len() as int)[i - (c - start)] == p[start + i]);
                    }
                }
            }
            lemma_pieces_nonempty(p, c, max);
        }
    }
}

/// A paragraph longer than the limit that begins and ends with non-whitespace
/// is force-split into at least two pieces.
pub proof fn lemma_force_split_yields_two(p: Seq<char>, max: int)
    requires
        max > 0,
        p.len() > max,
        !is_ws(p[0]),
        !is_ws(p[p.len() - 1]),
    ensures
        pieces_from(p, 0, max).len() >= 2,
{
    lemma_cut_point(p, 0, max);
    let c = cut_point(p, 0, max);
    assert(p.subrange(0, c)[0] == p[0]);
    lemma_trim_keeps_ends(p.subrange(0, c));
    let tail = p.subrange(c, p.len() as int);
    assert(tail[tail.len() - 1] == p[p.len() - 1]);
    lemma_pieces_nonempty(p, c, max);
}

proof fn lemma_blank_concat(a: Seq<char>, b: Seq<char>)
    requires
        is_blank(a),
        is_blank(b),
    ensures
        is_blank(a + b),
{
    assert forall|i: int| 0 <= i < (a + b).len() implies is_ws(#[trigger] (a + b)[i]) by {
        if i < a.len() {
            assert((a + b)[i] == a[i]);
        } else {
            assert((a + b)[i] == b[i - a.len()]);
        }
    }
}

/// Adding a non-blank paragraph leaves something behind: a closed chunk or
/// an open group, and an open group before is not lost.
proof fn lemma_add_para_progress(cur: Seq<char>, para: Seq<char>, max: int)
    requires
        max > 0,
        para.len() > 0,
        !is_blank(para),
    ensures
        add_para(cur, para, max).0.len() + (if add_para(cur, para, max).1.len() > 0 { 1int } else { 0int }) >= 1,
        add_para(cur, para, max).0.len() + (if add_para(cur, para, max).1.len() > 0 { 1int } else { 0int })
            >= (if cur.len() > 0 { 1int } else { 0int }),
{
    if cur.len() == 0 && para.len() > max {
        assert(para.subrange(0, para.len() as int) =~= para);
        lemma_pieces_nonempty(para, 0, max);
    }
}

/// Grouping keeps what it is given, and yields nothing only for blank text.
proof fn lemma_group_from_blank(t: Seq<char>, start: int, max: int, out: Seq<Seq<char>>, cur: Seq<char>)
    requires
        0 <= start <= t.len(),
        max > 0,
    ensures
        group_from(t, start, max, out, cur).len() >= out.len() + (if cur.len() > 0 { 1int } else { 0int }),
        group_from(t, start, max, out, cur).len() == 0 ==> is_blank(t.subrange(start, t.len() as int)),
    decreases t.len() + 1 - start,
{
    lemma_next_break(t, start);
    let j = next_break(t, start);
    let sub = t.subrange(start, j);
    let para = trim(sub);
    lemma_trim_not_blank(sub);
    lemma_trim_empty_blank(sub);
    if para.len() > 0 {
        lemma_add_para_progress(cur, para, max);
    }
    let step = if para.len() > 0 { add_para(cur, para, max) } else { (seq![], cur) };
    let out2 = out + step.0;
    if j < t.len() {
        lemma_group_from_blank(t, j + 2, max, out2, step.1);
        if group_from(t, start, max, out, cur).len() == 0 {
            let brk = t.subrange(j, j + 2);
            assert(is_blank(brk)) by {
                assert(brk[0] == t[j]);
                assert(brk[1] == t[j + 1]);
            }
            lemma_blank_concat(sub, brk);
            lemma_blank_concat(sub + brk, t.subrange(j + 2, t.len() as int));
            assert(sub + brk + t.subrange(j + 2, t.len() as int) =~= t.subrange(start, t.len() as int));
        }
    } else {
        assert(sub =~= t.subrange(start, t.len() as int));
    }
}

/// The texts of the ranges `sp` of `t`, in order.
pub open spec fn span_texts(t: Seq<char>, sp: Seq<(int, int)>) -> Seq<Seq<char>> {
    sp.map_values(|p: (int, int)| t.subrange(p.0, p.1))
}

proof fn lemma_code_contents_concat(a: Seq<(Seq<char>, bool)>, b: Seq<(Seq<char>, bool)>)
    ensures
        code_contents(a + b) == code_contents(a) + code_contents(b),
    decreases b.len(),
{
    if b.len() == 0 {
        assert(a + b =~= a);
        assert(code_contents(a) + code_contents(b) =~= code_contents(a));
    } else {
        assert((a + b).drop_last() =~= a + b.drop_last());
        lemma_code_contents_concat(a, b.drop_last());
        if b.last().1 {
            assert(code_contents(a) + code_contents(b.drop_last()).push(b.last().0)
                =~= (code_contents(a) + code_contents(b.drop_last())).push(b.last().0));
        }
    }
}

proof fn lemma_code_contents_one(x: (Seq<char>, bool))
    ensures
        code_contents(seq![x]) == if x.1 { seq![x.0] } else { Seq::<Seq<char>>::empty() },
{
    lemma_code_contents_push(Seq::empty(), x);
    assert(Seq::<(Seq<char>, bool)>::empty().push(x) =~= seq![x]);
    assert(code_contents(Seq::<(Seq<char>, bool)>::empty()) =~= Seq::<Seq<char>>::empty());
    assert(Seq::<Seq<char>>::empty().push(x.0) =~= seq![x.0]);
}

proof fn lemma_segs_from_code(t: Seq<char>, sp: Seq<(int, int)>, i: int, last: int)
    requires
        0 <= i <= sp.len(),
    ensures
        code_contents(segs_from(t, sp, i, last)) == span_texts(t, sp).subrange(i, sp.len() as int),
    decreases sp.len() - i,
{
    if i >= sp.len() {
        assert(span_texts(t, sp).subrange(i, sp.len() as int) =~= Seq::<Seq<char>>::empty());
        if last < t.len() {
            lemma_code_contents_one((t.subrange(last, t.len() as int), false));
        } else {
            assert(code_contents(Seq::<(Seq<char>, bool)>::empty()) =~= Seq::<Seq<char>>::empty());
        }
    } else {
        let (s, e) = sp[i];
        let gap: Seq<(Seq<char>, bool)> = if s > last { seq![(t.subrange(last, s), false)] } else { seq![] };
        let code: Seq<(Seq<char>, bool)> = seq![(t.subrange(s, e), true)];
        lemma_segs_from_code(t, sp, i + 1, e);
        lemma_code_contents_concat(gap, code);
        lemma_code_contents_concat(gap + code, segs_from(t, sp, i + 1, e));
        lemma_code_contents_one((t.subrange(s, e), true));
        if s > last {
            lemma_code_contents_one((t.subrange(last, s), false));
        } else {
            assert(code_contents(gap) =~= Seq::<Seq<char>>::empty());
        }
        assert(code_contents(gap) + code_contents(code) =~= seq![t.subrange(s, e)]);
        assert(span_texts(t, sp)[i] == t.subrange(s, e));
        assert(span_texts(t, sp).subrange(i, sp.len() as int)
            =~= seq![t.subrange(s, e)] + span_texts(t, sp).subrange(i + 1, sp.len() as int));
    }
}

/// Code blocks stay whole: the code segments of a non-empty text are exactly
/// its code blocks' texts, one per block, in order.
pub proof fn lemma_code_segments_are_blocks(t: Seq<char>, sp: Seq<(int, int)>)
    requires
        t.len() > 0,
    ensures
        code_contents(segments_by_spans(t, sp)) == span_texts(t, sp),
{
    lemma_segs_from_code(t, sp, 0, 0);
    assert(span_texts(t, sp).subrange(0, sp.len() as int) =~= span_texts(t, sp));
}

} // verus!
