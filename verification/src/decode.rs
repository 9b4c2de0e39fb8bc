//! Incremental frame decoder: reassembles a byte stream arriving in arbitrary
//! chunk boundaries into blank-line-delimited frames and decodes each frame's
//! `data:` lines into stream events, stopping at the `[DONE]` sentinel.

use vstd::prelude::*;
use vstd::slice::slice_subrange;

use crate::msg::ApiResponseChunk;
use crate::msg::Choice;
use crate::msg::Delta;
use crate::msg::DeltaView;
use crate::msg::EventView;
use crate::msg::LlmStreamEvent;
use crate::msg::events_view;

verus! {

/// A two-byte LF LF frame terminator stands at `i`.
pub open spec fn is_lf_term_at(b: Seq<u8>, i: int) -> bool {
    &&& 0 <= i
    &&& i + 2 <= b.len()
    &&& b[i] == 10u8
    &&& b[i + 1] == 10u8
}

/// A four-byte CR LF CR LF frame terminator stands at `i`.
pub open spec fn is_crlf_term_at(b: Seq<u8>, i: int) -> bool {
    &&& 0 <= i
    &&& i + 4 <= b.len()
    &&& b[i] == 13u8
    &&& b[i + 1] == 10u8
    &&& b[i + 2] == 13u8
    &&& b[i + 3] == 10u8
}

/// Either frame terminator, of length `l`, stands at `i`.
pub open spec fn is_term_at(b: Seq<u8>, i: int, l: int) -> bool {
    ||| (l == 2 && is_lf_term_at(b, i))
    ||| (l == 4 && is_crlf_term_at(b, i))
}

/// The position and length of the earliest frame terminator at or after `i`.
pub open spec fn first_term_from(b: Seq<u8>, i: nat) -> Option<(nat, nat)>
    decreases b.len() - i,
{
    if i + 2 > b.len() {
        None
    } else if is_lf_term_at(b, i as int) {
        Some((i, 2nat))
    } else if is_crlf_term_at(b, i as int) {
        Some((i, 4nat))
    } else {
        first_term_from(b, i + 1)
    }
}

/// What `first_term_from` finds is a terminator, and the earliest one.
pub proof fn lemma_first_term_from(b: Seq<u8>, i: nat)
    ensures
        match first_term_from(b, i) {
            Some(pl) => {
                &&& i <= pl.0
                &&& pl.0 + pl.1 <= b.len()
                &&& is_term_at(b, pl.0 as int, pl.1 as int)
                &&& forall|j: int, l: int| i <= j < pl.0 ==> !(#[trigger] is_term_at(b, j, l))
            },
            None => forall|j: int, l: int| i <= j ==> !(#[trigger] is_term_at(b, j, l)),
        },
    decreases b.len() - i,
{
    if i + 2 > b.len() {
    } else if is_lf_term_at(b, i as int) {
    } else if is_crlf_term_at(b, i as int) {
    } else {
        lemma_first_term_from(b, i + 1);
    }
}

/// Appending bytes neither moves nor changes an already-found terminator.
pub proof fn lemma_first_term_append(b: Seq<u8>, t: Seq<u8>, i: nat)
    requires
        first_term_from(b, i) is Some,
    ensures
        first_term_from(b + t, i) == first_term_from(b, i),
    decreases b.len() - i,
{
    let bt = b + t;
    assert(i + 2 <= b.len());
    if is_lf_term_at(b, i as int) {
        assert(is_lf_term_at(bt, i as int));
    } else {
        assert(!is_lf_term_at(bt, i as int));
        if is_crlf_term_at(b, i as int) {
            assert(is_crlf_term_at(bt, i as int));
        } else {
            if i + 4 <= b.len() {
                assert(!is_crlf_term_at(bt, i as int));
            } else {
                // A partial CR LF CR LF at the very end of `b` cannot complete in
                // `b + t`: the terminator found after `i` leaves no room for it.
                lemma_first_term_from(b, i + 1);
                let pl = first_term_from(b, i + 1).unwrap();
                assert(pl.0 + pl.1 <= b.len());
                assert(b.len() < i + 4);
                if is_crlf_term_at(bt, i as int) {
                    assert(pl.0 == i + 1 && pl.1 == 2);
                    assert(b[i as int + 2] == 10u8);
                    assert(bt[i as int + 2] == 10u8);
                    assert(false);
                }
            }
            lemma_first_term_append(b, t, i + 1);
        }
    }
}

/// The index of the first occurrence of `x` at or after `i`.
pub open spec fn find_from<A>(s: Seq<A>, x: A, i: nat) -> Option<nat>
    decreases s.len() - i,
{
    if i >= s.len() {
        None
    } else if s[i as int] == x {
        Some(i)
    } else {
        find_from(s, x, i + 1)
    }
}

/// What `find_from` finds is an occurrence, and the earliest one.
pub proof fn lemma_find_from<A>(s: Seq<A>, x: A, i: nat)
    ensures
        match find_from(s, x, i) {
            Some(j) => i <= j < s.len() && s[j as int] == x && (forall|k: int| i <= k < j ==> s[k] != x),
            None => forall|k: int| i <= k < s.len() ==> s[k] != x,
        },
    decreases s.len() - i,
{
    if i >= s.len() {
    } else if s[i as int] == x {
    } else {
        lemma_find_from(s, x, i + 1);
    }
}

/// `find_from` on a suffix is `find_from` on the whole, shifted.
pub proof fn lemma_find_from_skip<A>(s: Seq<A>, x: A, p: nat, i: nat)
    requires
        p <= s.len(),
    ensures
        find_from(s.skip(p as int), x, i) == match find_from(s, x, p + i) {
            Some(j) => Some((j - p) as nat),
            None => None::<nat>,
        },
    decreases s.len() - p - i,
{
    let suf = s.skip(p as int);
    if i >= suf.len() {
    } else {
        assert(suf[i as int] == s[p as int + i as int]);
        if suf[i as int] == x {
        } else {
            lemma_find_from_skip(s, x, p, i + 1);
        }
    }
}

/// A known first occurrence determines `find_from`.
pub proof fn lemma_find_from_unique<A>(s: Seq<A>, x: A, i: nat, j: nat)
    requires
        i <= j < s.len(),
        s[j as int] == x,
        forall|k: int| i <= k < j ==> s[k] != x,
    ensures
        find_from(s, x, i) == Some(j),
    decreases j - i,
{
    if i == j {
    } else {
        lemma_find_from_unique(s, x, i + 1, j);
    }
}

/// The line prefix that marks a payload-bearing record.
pub open spec fn data_prefix() -> Seq<u8> {
    seq![100u8, 97u8, 116u8, 97u8, 58u8, 32u8]
}

/// The end-of-stream sentinel payload.
pub open spec fn done_sentinel() -> Seq<u8> {
    seq![91u8, 68u8, 79u8, 78u8, 69u8, 93u8]
}

/// ASCII whitespace, as trimmed around the sentinel.
pub open spec fn is_ws_byte(c: u8) -> bool {
    c == 9 || c == 10 || c == 11 || c == 12 || c == 13 || c == 32
}

/// The payload equals the sentinel once surrounding whitespace is trimmed.
pub open spec fn is_done_payload(s: Seq<u8>) -> bool
    decreases s.len(),
{
    if s.len() > 0 && is_ws_byte(s.first()) {
        is_done_payload(s.drop_first())
    } else if s.len() > 0 && is_ws_byte(s.last()) {
        is_done_payload(s.drop_last())
    } else {
        s == done_sentinel()
    }
}

/// The deltas of the response-chunk record a payload decodes to, or `None`
/// where the payload is not such a record. Named for the outside decoder; the
/// result is a function of the payload bytes alone.
pub uninterp spec fn parsed_chunk_of(data: Seq<u8>) -> Option<Seq<DeltaView>>;

/// The view of an optionally parsed record.
pub open spec fn opt_chunk_view(r: Option<ApiResponseChunk>) -> Option<Seq<DeltaView>> {
    match r {
        Some(c) => Some(c@),
        None => None,
    }
}

/// Relies on `serde_json::from_str` and `serde_json::Value`'s accessors: reads
/// one `data:` payload (decoded lossily as UTF-8) as a response-chunk record
/// and moves each choice's delta fields out as plain optional strings. A
/// payload with no such record gives `None`.
#[verifier::external_body]
fn parse_chunk(data: &[u8]) -> (r: Option<ApiResponseChunk>)
    ensures
        opt_chunk_view(r) == parsed_chunk_of(data@),
{
    let text = String::from_utf8_lossy(data);
    let value: serde_json::Value = serde_json::from_str(&text).ok()?;
    let choices = value.get("choices")?.as_array()?;
    let choices = choices.iter().map(|c| Choice { delta: Delta {
        content: c.pointer("/delta/content").and_then(|v| v.as_str()).map(String::from),
        reasoning: c.pointer("/delta/reasoning").and_then(|v| v.as_str()).map(String::from),
        reasoning_content: c.pointer("/delta/reasoning_content").and_then(|v| v.as_str()).map(String::from),
    } }).collect();
    Some(ApiResponseChunk { choices })
}

/// A present, non-empty text field.
pub open spec fn nonempty_text(o: Option<Seq<char>>) -> Option<Seq<char>> {
    match o {
        Some(t) => if t.len() > 0 {
            Some(t)
        } else {
            None
        },
        None => None,
    }
}

/// The effective reasoning text of a delta: `reasoning_content` when present
/// and non-empty, else `reasoning` when present and non-empty, else absent.
pub open spec fn delta_reasoning(d: DeltaView) -> Option<Seq<char>> {
    match nonempty_text(d.reasoning_content) {
        Some(t) => Some(t),
        None => nonempty_text(d.reasoning),
    }
}

/// The events one delta yields: reasoning first, then content, each only when
/// present and non-empty.
pub open spec fn delta_events(d: DeltaView) -> Seq<EventView> {
    (match delta_reasoning(d) {
        Some(t) => seq![EventView::Reasoning(t)],
        None => Seq::<EventView>::empty(),
    }) + (match nonempty_text(d.content) {
        Some(t) => seq![EventView::Content(t)],
        None => Seq::<EventView>::empty(),
    })
}

/// The events of a record: those of its first choice; further choices are
/// ignored in this protocol.
pub open spec fn chunk_events(deltas: Seq<DeltaView>) -> Seq<EventView> {
    if deltas.len() == 0 {
        Seq::<EventView>::empty()
    } else {
        delta_events(deltas[0])
    }
}

/// The events of one payload: none where it is not a well-formed record.
pub open spec fn payload_events(payload: Seq<u8>) -> Seq<EventView> {
    match parsed_chunk_of(payload) {
        Some(ds) => chunk_events(ds),
        None => Seq::<EventView>::empty(),
    }
}

/// A line with its terminating CR removed, as line splitting leaves it.
pub open spec fn strip_trailing_cr(line: Seq<u8>) -> Seq<u8> {
    if line.len() > 0 && line.last() == 13u8 {
        line.drop_last()
    } else {
        line
    }
}

/// What one line of a frame contributes.
pub enum LineOutcome {
    /// The end sentinel: decoding finishes here.
    Finish,
    /// The events of the line, empty for non-`data:` and undecodable lines.
    Yield(Seq<EventView>),
}

/// The outcome of one line: the sentinel finishes the stream, a payload yields
/// its events, anything else yields nothing.
pub open spec fn line_outcome(line: Seq<u8>) -> LineOutcome {
    if line.len() >= 6 && line.take(6) == data_prefix() {
        let payload = line.skip(6);
        if is_done_payload(payload) {
            LineOutcome::Finish
        } else {
            LineOutcome::Yield(payload_events(payload))
        }
    } else {
        LineOutcome::Yield(Seq::<EventView>::empty())
    }
}

/// The events of a frame's lines in order, and whether the sentinel was seen;
/// lines after the sentinel are not processed.
pub open spec fn frame_events_from(s: Seq<u8>) -> (Seq<EventView>, bool)
    decreases s.len(),
    via frame_events_from_dec
{
    if s.len() == 0 {
        (Seq::<EventView>::empty(), false)
    } else {
        match find_from(s, 10u8, 0) {
            None => match line_outcome(s) {
                LineOutcome::Finish => (Seq::<EventView>::empty(), true),
                LineOutcome::Yield(es) => (es, false),
            },
            Some(j) => {
                let line = strip_trailing_cr(s.take(j as int));
                let rest = s.skip(j as int + 1);
                match line_outcome(line) {
                    LineOutcome::Finish => (Seq::<EventView>::empty(), true),
                    LineOutcome::Yield(es) => {
                        let tail = frame_events_from(rest);
                        (es + tail.0, tail.1)
                    },
                }
            },
        }
    }
}

#[via_fn]
proof fn frame_events_from_dec(s: Seq<u8>) {
    if s.len() > 0 {
        lemma_find_from(s, 10u8, 0);
    }
}

/// All events of the complete frames a buffer holds, the unconsumed remainder,
/// and whether the sentinel was seen. Once the sentinel is seen, buffered
/// frames after it are left unprocessed.
pub open spec fn decode_step(buf: Seq<u8>) -> (Seq<EventView>, Seq<u8>, bool)
    decreases buf.len(),
    via decode_step_dec
{
    match first_term_from(buf, 0) {
        None => (Seq::<EventView>::empty(), buf, false),
        Some(pl) => {
            let end = pl.0 + pl.1;
            let fe = frame_events_from(buf.take(end as int));
            if fe.1 {
                (fe.0, buf.skip(end as int), true)
            } else {
                let tail = decode_step(buf.skip(end as int));
                (fe.0 + tail.0, tail.1, tail.2)
            }
        },
    }
}

#[via_fn]
proof fn decode_step_dec(buf: Seq<u8>) {
    lemma_first_term_from(buf, 0);
}

/// One feeding of the decoder: appends the chunk and drains complete frames,
/// unless decoding already finished.
pub open spec fn machine_feed(buf: Seq<u8>, done: bool, chunk: Seq<u8>) -> (
    Seq<EventView>,
    Seq<u8>,
    bool,
) {
    if done {
        (Seq::<EventView>::empty(), buf, true)
    } else {
        decode_step(buf + chunk)
    }
}

/// Draining frames commutes with appending bytes: what a buffer already
/// yields is unchanged by bytes that arrive later.
pub proof fn lemma_decode_append(b: Seq<u8>, t: Seq<u8>)
    ensures
        ({
            let d = decode_step(b);
            if d.2 {
                decode_step(b + t) == (d.0, d.1 + t, true)
            } else {
                let d2 = decode_step(d.1 + t);
                decode_step(b + t) == (d.0 + d2.0, d2.1, d2.2)
            }
        }),
    decreases b.len(),
{
    let bt = b + t;
    match first_term_from(b, 0) {
        None => {
            assert(b + t =~= decode_step(b).1 + t);
            let d2 = decode_step(bt);
            assert(Seq::<EventView>::empty() + d2.0 =~= d2.0);
        },
        Some(pl) => {
            lemma_first_term_append(b, t, 0);
            lemma_first_term_from(b, 0);
            let end = (pl.0 + pl.1) as int;
            assert(bt.take(end) =~= b.take(end));
            assert(bt.skip(end) =~= b.skip(end) + t);
            let fe = frame_events_from(b.take(end));
            if !fe.1 {
                lemma_decode_append(b.skip(end), t);
                let inner = decode_step(b.skip(end));
                if !inner.2 {
                    let d2 = decode_step(inner.1 + t);
                    assert((fe.0 + inner.0) + d2.0 =~= fe.0 + (inner.0 + d2.0));
                }
            }
        },
    }
}

/// Chunk boundaries are invisible: feeding a byte sequence in two pieces
/// yields the same events, in the same order, as feeding it whole.
pub proof fn lemma_feed_split(buf: Seq<u8>, done: bool, c1: Seq<u8>, c2: Seq<u8>)
    ensures
        ({
            let once = machine_feed(buf, done, c1 + c2);
            let first = machine_feed(buf, done, c1);
            let second = machine_feed(first.1, first.2, c2);
            &&& once.0 == first.0 + second.0
            &&& once.2 == second.2
            &&& !once.2 ==> once.1 == second.1
        }),
{
    if done {
        assert(Seq::<EventView>::empty() + Seq::<EventView>::empty()
            =~= Seq::<EventView>::empty());
    } else {
        assert(buf + (c1 + c2) =~= (buf + c1) + c2);
        lemma_decode_append(buf + c1, c2);
        let d = decode_step(buf + c1);
        if d.2 {
            assert(d.0 + Seq::<EventView>::empty() =~= d.0);
        }
    }
}

/// Draining is eager: while decoding goes on, the unconsumed remainder holds
/// no complete frame, so the decoder asks for more bytes only when nothing
/// else can be decoded.
pub proof fn lemma_decode_step_drains(buf: Seq<u8>)
    ensures
        !decode_step(buf).2 ==> first_term_from(decode_step(buf).1, 0) is None,
    decreases buf.len(),
{
    match first_term_from(buf, 0) {
        None => {},
        Some(pl) => {
            lemma_first_term_from(buf, 0);
            let end = (pl.0 + pl.1) as int;
            if !frame_events_from(buf.take(end)).1 {
                lemma_decode_step_drains(buf.skip(end));
            }
        },
    }
}

/// A chunk sequence reassembled into one byte sequence.
pub open spec fn concat_chunks(cs: Seq<Seq<u8>>) -> Seq<u8>
    decreases cs.len(),
{
    if cs.len() == 0 {
        Seq::<u8>::empty()
    } else {
        cs[0] + concat_chunks(cs.drop_first())
    }
}

/// The decoder fed one chunk after another: all events in order, and the
/// final buffer and finish flag.
pub open spec fn feed_all(buf: Seq<u8>, done: bool, cs: Seq<Seq<u8>>) -> (
    Seq<EventView>,
    Seq<u8>,
    bool,
)
    decreases cs.len(),
{
    if cs.len() == 0 {
        (Seq::<EventView>::empty(), buf, done)
    } else {
        let st = machine_feed(buf, done, cs[0]);
        let rest = feed_all(st.1, st.2, cs.drop_first());
        (st.0 + rest.0, rest.1, rest.2)
    }
}

/// However a byte sequence is cut into chunks, feeding the pieces yields the
/// same events, in the same order, as feeding it whole.
pub proof fn lemma_feed_all_split(buf: Seq<u8>, done: bool, cs: Seq<Seq<u8>>)
    requires
        cs.len() >= 1,
    ensures
        ({
            let once = machine_feed(buf, done, concat_chunks(cs));
            let many = feed_all(buf, done, cs);
            &&& once.0 == many.0
            &&& once.2 == many.2
            &&& !once.2 ==> once.1 == many.1
        }),
    decreases cs.len(),
{
    let st = machine_feed(buf, done, cs[0]);
    assert(concat_chunks(cs) == cs[0] + concat_chunks(cs.drop_first()));
    if cs.len() == 1 {
        assert(cs.drop_first().len() == 0);
        assert(cs[0] + concat_chunks(cs.drop_first()) =~= cs[0]);
        assert(feed_all(st.1, st.2, cs.drop_first()) == (Seq::<EventView>::empty(), st.1, st.2));
        assert(st.0 + Seq::<EventView>::empty() =~= st.0);
        assert(feed_all(buf, done, cs) == (st.0, st.1, st.2));
    } else {
        let tail_bytes = concat_chunks(cs.drop_first());
        lemma_feed_split(buf, done, cs[0], tail_bytes);
        lemma_feed_all_split(st.1, st.2, cs.drop_first());
        let second = machine_feed(st.1, st.2, tail_bytes);
        let many_rest = feed_all(st.1, st.2, cs.drop_first());
        assert(st.0 + second.0 =~= st.0 + many_rest.0);
    }
}

/// A sentinel frame stops the decode: complete frames already buffered after
/// it are left unprocessed and contribute no events.
pub proof fn lemma_sentinel_stops_decode(frame: Seq<u8>, rest: Seq<u8>)
    requires
        match first_term_from(frame, 0) {
            Some(pl) => pl.0 + pl.1 == frame.len(),
            None => false,
        },
        frame_events_from(frame).1,
    ensures
        decode_step(frame + rest) == (frame_events_from(frame).0, rest, true),
{
    lemma_first_term_append(frame, rest, 0);
    let bt = frame + rest;
    let pl = first_term_from(frame, 0).unwrap();
    let end = (pl.0 + pl.1) as int;
    assert(bt.take(end) =~= frame);
    assert(bt.skip(end) =~= rest);
}

/// A line whose payload does not decode as a record is skipped: the rest of
/// the frame decodes exactly as if the line were absent.
pub proof fn lemma_undecodable_line_skipped(line: Seq<u8>, rest: Seq<u8>)
    requires
        !line.contains(10u8),
        line.len() == 0 || line.last() != 13u8,
        line.len() >= 6 && line.take(6) == data_prefix(),
        !is_done_payload(line.skip(6)),
        parsed_chunk_of(line.skip(6)) is None,
    ensures
        frame_events_from(line + seq![10u8] + rest) == frame_events_from(rest),
{
    let s = line + seq![10u8] + rest;
    assert(s[line.len() as int] == 10u8);
    assert forall|k: int| 0 <= k < line.len() implies s[k] != 10u8 by {
        if s[k] == 10u8 {
            assert(line[k] == 10u8);
            assert(line.contains(10u8));
        }
    }
    lemma_find_from_unique(s, 10u8, 0, line.len() as nat);
    assert(s.take(line.len() as int) =~= line);
    assert(s.skip(line.len() as int + 1) =~= rest);
    assert(Seq::<EventView>::empty() + frame_events_from(rest).0 =~= frame_events_from(rest).0);
}

/// Finds the earliest frame terminator: the position and length of the first
/// LF LF or CR LF CR LF, whichever starts first.
pub fn find_sse_terminator(buffer: &[u8]) -> (r: Option<(usize, usize)>)
    ensures
        match r {
            Some(pl) => first_term_from(buffer@, 0) == Some((pl.0 as nat, pl.1 as nat)),
            None => first_term_from(buffer@, 0) is None,
        },
{
    let n: usize = buffer.len();
    if n < 2 {
        return None;
    }
    let mut i: usize = 0;
    while i <= n - 2
        invariant
            n >= 2,
            i <= n - 1,
            n == buffer@.len(),
            first_term_from(buffer@, 0) == first_term_from(buffer@, i as nat),
        decreases n - i,
    {
        if buffer[i] == 10u8 && buffer[i + 1] == 10u8 {
            return Some((i, 2));
        }
        if n >= 4 && i <= n - 4 && buffer[i] == 13u8 && buffer[i + 1] == 10u8 && buffer[i + 2]
            == 13u8 && buffer[i + 3] == 10u8 {
            return Some((i, 4));
        }
        i = i + 1;
    }
    None
}

/// Finds the first occurrence of a byte at or after `from`.
fn find_byte(s: &[u8], x: u8, from: usize) -> (r: Option<usize>)
    requires
        from <= s@.len(),
    ensures
        match find_from(s@, x, from as nat) {
            Some(j) => r == Some(j as usize),
            None => r is None,
        },
{
    let n: usize = s.len();
    let mut i: usize = from;
    while i < n
        invariant
            from <= i <= n,
            n == s@.len(),
            find_from(s@, x, from as nat) == find_from(s@, x, i as nat),
        decreases n - i,
    {
        if s[i] == x {
            return Some(i);
        }
        i = i + 1;
    }
    None
}

/// Decides whether a payload is the end sentinel, ignoring surrounding
/// whitespace.
fn payload_is_done(payload: &[u8]) -> (r: bool)
    ensures
        r == is_done_payload(payload@),
{
    let mut lo: usize = 0;
    let mut hi: usize = payload.len();
    proof {
        assert(payload@.subrange(0, payload@.len() as int) =~= payload@);
    }
    while lo < hi && (payload[lo] == 9 || payload[lo] == 10 || payload[lo] == 11 || payload[lo]
        == 12 || payload[lo] == 13 || payload[lo] == 32)
        invariant
            lo <= hi <= payload@.len(),
            is_done_payload(payload@) == is_done_payload(payload@.subrange(lo as int, hi as int)),
        decreases hi - lo,
    {
        proof {
            let sub = payload@.subrange(lo as int, hi as int);
            assert(sub.drop_first() =~= payload@.subrange(lo as int + 1, hi as int));
        }
        lo = lo + 1;
    }
    while lo < hi && (payload[hi - 1] == 9 || payload[hi - 1] == 10 || payload[hi - 1] == 11
        || payload[hi - 1] == 12 || payload[hi - 1] == 13 || payload[hi - 1] == 32)
        invariant
            lo <= hi <= payload@.len(),
            is_done_payload(payload@) == is_done_payload(payload@.subrange(lo as int, hi as int)),
            lo < hi ==> !is_ws_byte(payload@[lo as int]),
        decreases hi - lo,
    {
        proof {
            let sub = payload@.subrange(lo as int, hi as int);
            assert(sub.drop_last() =~= payload@.subrange(lo as int, hi as int - 1));
        }
        hi = hi - 1;
    }
    let ghost sub = payload@.subrange(lo as int, hi as int);
    if hi - lo == 6 && payload[lo] == 91 && payload[lo + 1] == 68 && payload[lo + 2] == 79
        && payload[lo + 3] == 78 && payload[lo + 4] == 69 && payload[lo + 5] == 93 {
        proof {
            assert(sub =~= done_sentinel());
        }
        true
    } else {
        proof {
            if sub == done_sentinel() {
                assert(sub.len() == 6);
                assert(payload@[lo as int] == sub[0]);
                assert(payload@[lo as int + 1] == sub[1]);
                assert(payload@[lo as int + 2] == sub[2]);
                assert(payload@[lo as int + 3] == sub[3]);
                assert(payload@[lo as int + 4] == sub[4]);
                assert(payload@[lo as int + 5] == sub[5]);
                assert(false);
            }
        }
        false
    }
}

/// The events one decoded record yields: its first choice's reasoning text,
/// then its content text, each only when present and non-empty.
pub fn events_of_chunk(chunk: &ApiResponseChunk) -> (events: Vec<LlmStreamEvent>)
    ensures
        events_view(events@) == chunk_events(chunk@),
{
    let mut events: Vec<LlmStreamEvent> = Vec::new();
    proof {
        assert(events_view(events@) =~= Seq::<EventView>::empty());
    }
    if chunk.choices.len() > 0 {
        let delta = &chunk.choices[0].delta;
        let mut reasoning: Option<String> = None;
        if let Some(t) = &delta.reasoning_content {
            if !t.as_str().is_empty() {
                reasoning = Some(t.clone());
            }
        }
        if reasoning.is_none() {
            if let Some(t) = &delta.reasoning {
                if !t.as_str().is_empty() {
                    reasoning = Some(t.clone());
                }
            }
        }
        let ghost before = events@;
        if let Some(t) = reasoning {
            events.push(LlmStreamEvent::Reasoning(t));
            proof {
                assert(events_view(events@) =~= events_view(before).push(
                    EventView::Reasoning(t@),
                ));
            }
        }
        let ghost mid = events@;
        if let Some(t) = &delta.content {
            if !t.as_str().is_empty() {
                events.push(LlmStreamEvent::Content(t.clone()));
                proof {
                    assert(events_view(events@) =~= events_view(mid).push(
                        EventView::Content(t@),
                    ));
                }
            }
        }
        proof {
            assert(events_view(events@) =~= chunk_events(chunk@));
        }
    }
    events
}

/// Processes one line of a frame: reports the sentinel, or yields the line's
/// events.
fn process_line(line: &[u8]) -> (r: (bool, Vec<LlmStreamEvent>))
    ensures
        match line_outcome(line@) {
            LineOutcome::Finish => r.0,
            LineOutcome::Yield(es) => !r.0 && events_view(r.1@) == es,
        },
{
    let n: usize = line.len();
    if n >= 6 && line[0] == 100 && line[1] == 97 && line[2] == 116 && line[3] == 97 && line[4]
        == 58 && line[5] == 32 {
        proof {
            assert(line@.take(6) =~= data_prefix());
        }
        let payload = slice_subrange(line, 6, n);
        proof {
            assert(payload@ =~= line@.skip(6));
        }
        if payload_is_done(payload) {
            let r: (bool, Vec<LlmStreamEvent>) = (true, Vec::new());
            r
        } else {
            match parse_chunk(payload) {
                Some(chunk) => {
                    let evs = events_of_chunk(&chunk);
                    (false, evs)
                },
                None => {
                    let evs: Vec<LlmStreamEvent> = Vec::new();
                    proof {
                        assert(events_view(evs@) =~= Seq::<EventView>::empty());
                    }
                    (false, evs)
                },
            }
        }
    } else {
        proof {
            if line@.len() >= 6 && line@.take(6) == data_prefix() {
                assert(line@[0] == line@.take(6)[0]);
                assert(line@[1] == line@.take(6)[1]);
                assert(line@[2] == line@.take(6)[2]);
                assert(line@[3] == line@.take(6)[3]);
                assert(line@[4] == line@.take(6)[4]);
                assert(line@[5] == line@.take(6)[5]);
                assert(false);
            }
        }
        let evs: Vec<LlmStreamEvent> = Vec::new();
        proof {
            assert(events_view(evs@) =~= Seq::<EventView>::empty());
        }
        (false, evs)
    }
}

/// Processes the lines of one drained frame in order, stopping at the
/// sentinel.
fn process_frame(frame: &[u8]) -> (r: (Vec<LlmStreamEvent>, bool))
    ensures
        ({
            let fe = frame_events_from(frame@);
            events_view(r.0@) == fe.0 && r.1 == fe.1
        }),
{
    let mut events: Vec<LlmStreamEvent> = Vec::new();
    let mut pos: usize = 0;
    let n: usize = frame.len();
    proof {
        assert(events_view(events@) =~= Seq::<EventView>::empty());
        assert(frame@.skip(0) =~= frame@);
    }
    while pos < n
        invariant
            pos <= n,
            n == frame@.len(),
            ({
                let whole = frame_events_from(frame@);
                let tail = frame_events_from(frame@.skip(pos as int));
                whole.0 == events_view(events@) + tail.0 && whole.1 == tail.1
            }),
        decreases n - pos,
    {
        let ghost suffix = frame@.skip(pos as int);
        proof {
            lemma_find_from_skip(frame@, 10u8, pos as nat, 0);
        }
        let j_opt = find_byte(frame, 10u8, pos);
        match j_opt {
            Some(j) => {
                proof {
                    lemma_find_from(frame@, 10u8, pos as nat);
                }
                let mut line_end: usize = j;
                if line_end > pos && frame[line_end - 1] == 13 {
                    line_end = line_end - 1;
                }
                let line = slice_subrange(frame, pos, line_end);
                proof {
                    assert(suffix.take(j - pos) =~= frame@.subrange(pos as int, j as int));
                    if j > pos && frame@[j as int - 1] == 13u8 {
                        assert(suffix.take(j - pos).drop_last() =~= frame@.subrange(
                            pos as int,
                            j as int - 1,
                        ));
                    }
                    assert(line@ =~= strip_trailing_cr(suffix.take(j - pos)));
                    assert(suffix.skip(j - pos + 1) =~= frame@.skip(j as int + 1));
                }
                let lr = process_line(line);
                if lr.0 {
                    proof {
                        let whole = frame_events_from(frame@);
                        assert(whole.0 =~= events_view(events@));
                    }
                    return (events, true);
                }
                let mut evs = lr.1;
                let ghost es = events_view(evs@);
                let ghost before = events@;
                events.append(&mut evs);
                proof {
                    assert(events_view(events@) =~= events_view(before) + es);
                    let tail2 = frame_events_from(frame@.skip(j as int + 1));
                    assert((events_view(before) + es) + tail2.0 =~= events_view(before) + (es
                        + tail2.0));
                }
                pos = j + 1;
            },
            None => {
                let line = slice_subrange(frame, pos, n);
                proof {
                    assert(line@ =~= suffix);
                }
                let lr = process_line(line);
                if lr.0 {
                    proof {
                        let whole = frame_events_from(frame@);
                        assert(whole.0 =~= events_view(events@));
                    }
                    return (events, true);
                }
                let mut evs = lr.1;
                let ghost es = events_view(evs@);
                let ghost before = events@;
                events.append(&mut evs);
                proof {
                    assert(events_view(events@) =~= events_view(before) + es);
                }
                return (events, false);
            },
        }
    }
    proof {
        assert(frame@.skip(pos as int) =~= Seq::<u8>::empty());
        let whole = frame_events_from(frame@);
        assert(whole.0 =~= events_view(events@));
    }
    (events, false)
}

/// The growable accumulation buffer and finish flag of one streaming response.
///
/// Bytes are fed in arbitrary chunk boundaries; complete frames are drained
/// eagerly and their events handed back in arrival order.
pub struct FrameDecoder {
    buffer: Vec<u8>,
    done: bool,
}

impl FrameDecoder {
    /// The bytes buffered and not yet consumed as a complete frame.
    pub closed spec fn spec_buffer(&self) -> Seq<u8> {
        self.buffer@
    }

    /// Whether the end sentinel has been seen.
    pub closed spec fn spec_done(&self) -> bool {
        self.done
    }

    /// A fresh decoder for one streaming response.
    pub fn new() -> (d: FrameDecoder)
        ensures
            d.spec_buffer() == Seq::<u8>::empty(),
            !d.spec_done(),
    {
        FrameDecoder { buffer: Vec::new(), done: false }
    }

    /// Whether decoding has finished; later chunks are ignored.
    pub fn is_done(&self) -> (r: bool)
        ensures
            r == self.spec_done(),
    {
        self.done
    }

    /// Appends one transport chunk and drains every complete frame, handing
    /// back the decoded events in order. Feeding after the sentinel changes
    /// nothing.
    pub fn feed(&mut self, chunk: &[u8]) -> (events: Vec<LlmStreamEvent>)
        ensures
            ({
                let step = machine_feed(old(self).spec_buffer(), old(self).spec_done(), chunk@);
                &&& events_view(events@) == step.0
                &&& final(self).spec_buffer() == step.1
                &&& final(self).spec_done() == step.2
            }),
    {
        let mut events: Vec<LlmStreamEvent> = Vec::new();
        proof {
            assert(events_view(events@) =~= Seq::<EventView>::empty());
        }
        if self.done {
            return events;
        }
        self.buffer.extend_from_slice(chunk);
        let ghost full = old(self).spec_buffer() + chunk@;
        proof {
            assert(self.buffer@ =~= full);
            assert(events_view(events@) + decode_step(full).0 =~= decode_step(full).0);
        }
        let mut more = true;
        while more
            invariant
                more ==> !self.done,
                !self.done ==> ({
                    let whole = decode_step(full);
                    let cur = decode_step(self.buffer@);
                    &&& whole.0 == events_view(events@) + cur.0
                    &&& whole.1 == cur.1
                    &&& whole.2 == cur.2
                }),
                self.done ==> decode_step(full) == (events_view(events@), self.buffer@, true),
                !more ==> (self.done || first_term_from(self.buffer@, 0) is None),
            decreases self.buffer@.len() + (if more { 1nat } else { 0nat }),
    {
            let term = find_sse_terminator(self.buffer.as_slice());
            match term {
                None => {
                    more = false;
                },
                Some(pl) => {
                    let blen: usize = self.buffer.len();
                    proof {
                        lemma_first_term_from(self.buffer@, 0);
                        assert(first_term_from(self.buffer@, 0) == Some(
                            (pl.0 as nat, pl.1 as nat),
                        ));
                        assert(pl.0 as int + pl.1 as int <= blen as int);
                    }
                    let end: usize = pl.0 + pl.1;
                    let ghost buf_before = self.buffer@;
                    let rest = self.buffer.split_off(end);
                    proof {
                        assert(self.buffer@ =~= buf_before.take(end as int));
                        assert(rest@ =~= buf_before.skip(end as int));
                    }
                    let fr = process_frame(self.buffer.as_slice());
                    let mut evs = fr.0;
                    let ghost es = events_view(evs@);
                    let ghost before = events@;
                    events.append(&mut evs);
                    proof {
                        assert(events_view(events@) =~= events_view(before) + es);
                    }
                    self.buffer = rest;
                    if fr.1 {
                        self.done = true;
                        more = false;
                    } else {
                        proof {
                            let tail2 = decode_step(self.buffer@);
                            assert((events_view(before) + es) + tail2.0 =~= events_view(before)
                                + (es + tail2.0));
                        }
                    }
                },
            }
        }
        events
    }
}

} // verus!
