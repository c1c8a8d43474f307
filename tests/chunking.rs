use markdown_translator::chunker::{
    chunk_segments, identify_code_blocks, split_long_paragraph, split_by_code_blocks,
    split_into_segments, split_text_by_empty_lines,
};
use markdown_translator::orchestrate::{collect_in_order, join_translations, verbatim_result};
use markdown_translator::TextSegment;

fn chars(s: &str) -> Vec<char> {
    s.chars().collect()
}

fn text_of(v: &[char]) -> String {
    v.iter().collect()
}

fn views(segs: &[TextSegment]) -> Vec<(String, bool)> {
    segs.iter().map(|s| (s.content.clone(), s.is_code_block)).collect()
}

#[test]
fn finds_closed_code_block() {
    assert_eq!(identify_code_blocks(&chars("a\n```\nx\n```\nb")), vec![(2, 11)]);
}

#[test]
fn unterminated_fence_runs_to_end() {
    assert_eq!(identify_code_blocks(&chars("a\n```\nx")), vec![(2, 7)]);
}

#[test]
fn text_without_fences_has_no_code_blocks() {
    assert!(identify_code_blocks(&chars("plain\ntext")).is_empty());
}

#[test]
fn split_by_code_blocks_keeps_every_character() {
    let t = chars("a\n```\nx\n```\nb");
    let spans = identify_code_blocks(&t);
    let segs = split_by_code_blocks(&t, &spans);
    assert_eq!(
        views(&segs),
        vec![("a\n".to_string(), false), ("```\nx\n```".to_string(), true), ("\nb".to_string(), false)]
    );
}

#[test]
fn segments_reconstruct_text() {
    let text = "intro\n```\ncode\n```\noutro";
    let segs = split_into_segments(text, 5);
    assert_eq!(
        views(&segs),
        vec![
            ("intro\n".to_string(), false),
            ("```\ncode\n```".to_string(), true),
            ("\noutro".to_string(), false)
        ]
    );
    let joined: String = segs.iter().map(|s| s.content.as_str()).collect();
    assert_eq!(joined, text);
}

#[test]
fn short_text_is_one_segment() {
    let segs = split_into_segments("Hello", 3000);
    assert_eq!(views(&segs), vec![("Hello".to_string(), false)]);
}

#[test]
fn inline_fence_chunk_passes_through() {
    let text = "text ```code``` more text";
    let chunks = chunk_segments(text, 10);
    assert_eq!(
        views(&chunks),
        vec![
            ("text".to_string(), false),
            ("```code```".to_string(), false),
            ("more text".to_string(), false)
        ]
    );
    let sent: Vec<usize> = (0..chunks.len()).filter(|&i| verbatim_result(&chunks[i]).is_none()).collect();
    assert_eq!(sent, vec![0, 2]);
    let mut done: Vec<(usize, String)> = sent.iter().map(|&i| (i, "T".to_string())).collect();
    done.push((1, verbatim_result(&chunks[1]).unwrap()));
    let ordered = collect_in_order(chunks.len(), &done).unwrap();
    assert_eq!(join_translations(&ordered), "T\n\n```code```\n\nT");
}

#[test]
fn crlf_fence_line_ends_before_carriage_return() {
    assert_eq!(identify_code_blocks(&chars("```\r\n```\r\n")), vec![(0, 8)]);
    assert_eq!(identify_code_blocks(&chars("a\r\n```\r\nx\r\n```")), vec![(3, 14)]);
}

#[test]
fn empty_text_is_one_empty_segment() {
    let t: Vec<char> = Vec::new();
    let segs = split_by_code_blocks(&t, &identify_code_blocks(&t));
    assert_eq!(views(&segs), vec![(String::new(), false)]);
    assert_eq!(views(&split_into_segments("", 5)), vec![(String::new(), false)]);
}

#[test]
fn code_block_on_its_own_lines_gives_three_segments() {
    let text = "text\n```\ncode\n```\nmore text";
    let chunks = chunk_segments(text, 10);
    assert_eq!(
        views(&chunks),
        vec![
            ("text\n".to_string(), false),
            ("```\ncode\n```".to_string(), true),
            ("\nmore text".to_string(), false)
        ]
    );
}

#[test]
fn long_code_block_stays_whole() {
    let code = format!("```\n{}\n```", "x".repeat(50));
    let text = format!("a\n{}\nb", code);
    let chunks = chunk_segments(&text, 10);
    let code_chunks: Vec<&TextSegment> = chunks.iter().filter(|c| c.is_code_block).collect();
    assert_eq!(code_chunks.len(), 1);
    assert_eq!(code_chunks[0].content, code);
}

#[test]
fn oversized_paragraph_is_force_split() {
    let text = "abcd ".repeat(1000);
    assert_eq!(text.chars().count(), 5000);
    let chunks = chunk_segments(&text, 3000);
    assert!(chunks.len() >= 2);
    for c in &chunks {
        assert!(!c.is_code_block);
        assert!(c.content.chars().count() <= 3000);
        assert!(!c.content.trim().is_empty());
    }
    assert_eq!(chunks[0].content.chars().count(), 2999);
    assert_eq!(chunks[1].content.chars().count(), 1999);
}

#[test]
fn prose_chunks_stay_within_limit() {
    let text = "one two three.\n\nfour five six seven eight.\n\nnine ten.\n\n".repeat(20);
    let chunks = chunk_segments(&text, 40);
    for c in &chunks {
        assert!(c.content.chars().count() <= 40);
        assert!(!c.content.trim().is_empty());
    }
}

#[test]
fn paragraphs_are_packed_greedily() {
    let groups = split_text_by_empty_lines(&chars("aa\n\nbb\n\ncc"), 7);
    let texts: Vec<String> = groups.iter().map(|g| text_of(g)).collect();
    assert_eq!(texts, vec!["aa\n\nbb".to_string(), "cc".to_string()]);
}

#[test]
fn short_segment_is_one_group() {
    let groups = split_text_by_empty_lines(&chars(" a\n\nb "), 10);
    let texts: Vec<String> = groups.iter().map(|g| text_of(g)).collect();
    assert_eq!(texts, vec![" a\n\nb ".to_string()]);
}

#[test]
fn force_split_cuts_after_sentence_end() {
    let pieces = split_long_paragraph(&chars("Hello world. Bye now"), 15);
    let texts: Vec<String> = pieces.iter().map(|p| text_of(p)).collect();
    assert_eq!(texts, vec!["Hello world.".to_string(), "Bye now".to_string()]);
}

#[test]
fn force_split_cuts_after_whitespace() {
    let pieces = split_long_paragraph(&chars("aaaa bbbb cccc"), 7);
    let texts: Vec<String> = pieces.iter().map(|p| text_of(p)).collect();
    assert_eq!(texts, vec!["aaaa".to_string(), "bbbb".to_string(), "cccc".to_string()]);
}

#[test]
fn force_split_cuts_at_limit_without_break() {
    let pieces = split_long_paragraph(&chars("abcdefghij"), 4);
    let texts: Vec<String> = pieces.iter().map(|p| text_of(p)).collect();
    assert_eq!(texts, vec!["abcd".to_string(), "efgh".to_string(), "ij".to_string()]);
}

#[test]
fn force_split_knows_full_width_stops() {
    let pieces = split_long_paragraph(&chars("你好。再见"), 3);
    let texts: Vec<String> = pieces.iter().map(|p| text_of(p)).collect();
    assert_eq!(texts, vec!["你好。".to_string(), "再见".to_string()]);
}

#[test]
fn blank_text_is_its_own_chunk() {
    let text = "   \n\n   ";
    let chunks = chunk_segments(text, 2);
    assert_eq!(views(&chunks), vec![(text.to_string(), false)]);
}

#[test]
fn empty_text_is_one_chunk() {
    let chunks = chunk_segments("", 10);
    assert_eq!(views(&chunks), vec![(String::new(), false)]);
}
