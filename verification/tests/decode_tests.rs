use hinata_core::decode::{find_sse_terminator, FrameDecoder};
use hinata_core::msg::LlmStreamEvent;

fn kinds_and_texts(events: &[LlmStreamEvent]) -> Vec<(&'static str, String)> {
    events
        .iter()
        .map(|e| match e {
            LlmStreamEvent::Content(t) => ("content", t.clone()),
            LlmStreamEvent::Reasoning(t) => ("reasoning", t.clone()),
        })
        .collect()
}

fn decode_all(chunks: &[&[u8]]) -> (Vec<(&'static str, String)>, bool) {
    let mut decoder = FrameDecoder::new();
    let mut events = Vec::new();
    for chunk in chunks {
        events.extend(decoder.feed(chunk));
        if decoder.is_done() {
            break;
        }
    }
    (kinds_and_texts(&events), decoder.is_done())
}

#[test]
fn terminator_finds_earliest_variant() {
    assert_eq!(find_sse_terminator(b"abc\n\ndef"), Some((3, 2)));
    assert_eq!(find_sse_terminator(b"ab\r\n\r\nc\n\n"), Some((2, 4)));
    assert_eq!(find_sse_terminator(b"a\n\nb\r\n\r\n"), Some((1, 2)));
    assert_eq!(find_sse_terminator(b"no terminator"), None);
}

#[test]
fn one_content_frame_decodes() {
    let frame = b"data: {\"choices\":[{\"delta\":{\"content\":\"hi\"}}]}\n\n";
    let (events, done) = decode_all(&[frame]);
    assert_eq!(events, vec![("content", "hi".to_string())]);
    assert!(!done);
}

#[test]
fn crlf_terminated_frame_decodes() {
    let frame = b"data: {\"choices\":[{\"delta\":{\"content\":\"ok\"}}]}\r\n\r\n";
    let (events, _) = decode_all(&[frame]);
    assert_eq!(events, vec![("content", "ok".to_string())]);
}

#[test]
fn reasoning_comes_before_content_within_one_delta() {
    let frame =
        b"data: {\"choices\":[{\"delta\":{\"content\":\"c\",\"reasoning\":\"r\"}}]}\n\n";
    let (events, _) = decode_all(&[frame]);
    assert_eq!(
        events,
        vec![("reasoning", "r".to_string()), ("content", "c".to_string())]
    );
}

#[test]
fn reasoning_content_is_preferred_over_reasoning() {
    let frame = b"data: {\"choices\":[{\"delta\":{\"reasoning\":\"b\",\"reasoning_content\":\"a\"}}]}\n\n";
    let (events, _) = decode_all(&[frame]);
    assert_eq!(events, vec![("reasoning", "a".to_string())]);
}

#[test]
fn empty_fields_yield_no_events() {
    let frame = b"data: {\"choices\":[{\"delta\":{\"content\":\"\",\"reasoning\":\"\"}}]}\n\n";
    let (events, done) = decode_all(&[frame]);
    assert!(events.is_empty());
    assert!(!done);
}

#[test]
fn split_chunks_yield_identical_events() {
    let whole: &[u8] = b"data: {\"choices\":[{\"delta\":{\"content\":\"hello\"}}]}\n\ndata: {\"choices\":[{\"delta\":{\"content\":\" world\"}}]}\n\n";
    let expect = decode_all(&[whole]);

    let (a, b) = whole.split_at(10);
    assert_eq!(decode_all(&[a, b]), expect);

    // split inside the terminator itself
    let term_pos = whole.len() - 1;
    let (a, b) = whole.split_at(term_pos);
    assert_eq!(decode_all(&[a, b]), expect);

    let (a, rest) = whole.split_at(7);
    let (b, c) = rest.split_at(40);
    assert_eq!(decode_all(&[a, b, c]), expect);

    // one byte at a time
    let singles: Vec<&[u8]> = whole.chunks(1).collect();
    assert_eq!(decode_all(&singles), expect);
}

#[test]
fn empty_chunks_change_nothing() {
    let whole: &[u8] = b"data: {\"choices\":[{\"delta\":{\"content\":\"x\"}}]}\n\n";
    let expect = decode_all(&[whole]);
    assert_eq!(decode_all(&[b"", whole, b""]), expect);
}

#[test]
fn done_sentinel_stops_decoding_before_buffered_frames() {
    let chunk: &[u8] =
        b"data: [DONE]\n\ndata: {\"choices\":[{\"delta\":{\"content\":\"late\"}}]}\n\n";
    let (events, done) = decode_all(&[chunk]);
    assert!(events.is_empty());
    assert!(done);
}

#[test]
fn feeding_after_done_yields_nothing() {
    let mut decoder = FrameDecoder::new();
    let first = decoder.feed(b"data: [DONE]\n\n");
    assert!(first.is_empty());
    assert!(decoder.is_done());
    let late = decoder.feed(b"data: {\"choices\":[{\"delta\":{\"content\":\"x\"}}]}\n\n");
    assert!(late.is_empty());
}

#[test]
fn done_sentinel_tolerates_surrounding_whitespace() {
    let (events, done) = decode_all(&[b"data:  [DONE] \r\n\r\n".as_slice()]);
    assert!(events.is_empty());
    assert!(done);
}

#[test]
fn invalid_json_line_does_not_abort_the_stream() {
    let chunk: &[u8] = b"data: {not json\n\ndata: {\"choices\":[{\"delta\":{\"content\":\"good\"}}]}\n\n";
    let (events, done) = decode_all(&[chunk]);
    assert_eq!(events, vec![("content", "good".to_string())]);
    assert!(!done);
}

#[test]
fn invalid_line_and_valid_line_in_one_frame() {
    let chunk: &[u8] =
        b"data: oops\ndata: {\"choices\":[{\"delta\":{\"content\":\"kept\"}}]}\n\n";
    let (events, _) = decode_all(&[chunk]);
    assert_eq!(events, vec![("content", "kept".to_string())]);
}

#[test]
fn non_data_lines_are_ignored() {
    let chunk: &[u8] = b"event: ping\ndata: {\"choices\":[{\"delta\":{\"content\":\"v\"}}]}\n\n";
    let (events, _) = decode_all(&[chunk]);
    assert_eq!(events, vec![("content", "v".to_string())]);
}

#[test]
fn later_choices_are_ignored() {
    let chunk: &[u8] = b"data: {\"choices\":[{\"delta\":{\"content\":\"first\"}},{\"delta\":{\"content\":\"second\"}}]}\n\n";
    let (events, _) = decode_all(&[chunk]);
    assert_eq!(events, vec![("content", "first".to_string())]);
}

#[test]
fn incomplete_frame_waits_for_more_bytes() {
    let mut decoder = FrameDecoder::new();
    let events = decoder.feed(b"data: {\"choices\":[{\"delta\":{\"content\":\"x\"}}]}");
    assert!(events.is_empty());
    assert!(!decoder.is_done());
    let events = decoder.feed(b"\n\n");
    assert_eq!(kinds_and_texts(&events), vec![("content", "x".to_string())]);
}
