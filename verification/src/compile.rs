//! Prompt compiler: scans raw text left to right for `<hnt-...>` role tags
//! and produces the ordered conversation, with plain text gathered into one
//! trailing user message.

use vstd::prelude::*;

use crate::escaping::find_char;
use crate::escaping::find_char_from;
use crate::escaping::lemma_find_char_from;
use crate::escaping::str_equal;
use crate::escaping::unescape;
use crate::escaping::unescape_text;
use crate::msg::Message;
use crate::msg::MessageView;
use crate::msg::Role;
use crate::msg::messages_view;
use crate::msg::opt_text_view;

verus! {

/// A whitespace character, as trimmed from the gathered plain text.
pub open spec fn is_ws_char(c: char) -> bool {
    ||| c == '\u{9}'
    ||| c == '\u{A}'
    ||| c == '\u{B}'
    ||| c == '\u{C}'
    ||| c == '\u{D}'
    ||| c == ' '
    ||| c == '\u{85}'
    ||| c == '\u{A0}'
    ||| c == '\u{1680}'
    ||| c == '\u{2000}'
    ||| c == '\u{2001}'
    ||| c == '\u{2002}'
    ||| c == '\u{2003}'
    ||| c == '\u{2004}'
    ||| c == '\u{2005}'
    ||| c == '\u{2006}'
    ||| c == '\u{2007}'
    ||| c == '\u{2008}'
    ||| c == '\u{2009}'
    ||| c == '\u{200A}'
    ||| c == '\u{2028}'
    ||| c == '\u{2029}'
    ||| c == '\u{202F}'
    ||| c == '\u{205F}'
    ||| c == '\u{3000}'
}

/// The text with leading and trailing whitespace removed.
pub open spec fn trim_chars(s: Seq<char>) -> Seq<char>
    decreases s.len(),
{
    if s.len() > 0 && is_ws_char(s.first()) {
        trim_chars(s.drop_first())
    } else if s.len() > 0 && is_ws_char(s.last()) {
        trim_chars(s.drop_last())
    } else {
        s
    }
}

/// Whether `c` is whitespace.
fn is_ws_char_exec(c: char) -> (r: bool)
    ensures
        r == is_ws_char(c),
{
    c == '\u{9}' || c == '\u{A}' || c == '\u{B}' || c == '\u{C}' || c == '\u{D}' || c == ' '
        || c == '\u{85}' || c == '\u{A0}' || c == '\u{1680}' || c == '\u{2000}' || c == '\u{2001}'
        || c == '\u{2002}' || c == '\u{2003}' || c == '\u{2004}' || c == '\u{2005}' || c
        == '\u{2006}' || c == '\u{2007}' || c == '\u{2008}' || c == '\u{2009}' || c == '\u{200A}'
        || c == '\u{2028}' || c == '\u{2029}' || c == '\u{202F}' || c == '\u{205F}' || c
        == '\u{3000}'
}

/// Trims whitespace from both ends.
#[verifier::rlimit(50)]
fn trimmed(s: &str) -> (r: String)
    ensures
        r@ == trim_chars(s@),
{
    let n: usize = s.unicode_len();
    let mut lo: usize = 0;
    let mut hi: usize = n;
    proof {
        assert(s@.subrange(0, n as int) =~= s@);
    }
    while lo < hi && is_ws_char_exec(s.get_char(lo))
        invariant
            lo <= hi <= n,
            n == s@.len(),
            trim_chars(s@) == trim_chars(s@.subrange(lo as int, hi as int)),
        decreases hi - lo,
    {
        proof {
            assert(s@.subrange(lo as int, hi as int).drop_first() =~= s@.subrange(
                lo as int + 1,
                hi as int,
            ));
        }
        lo = lo + 1;
    }
    while lo < hi && is_ws_char_exec(s.get_char(hi - 1))
        invariant
            lo <= hi <= n,
            n == s@.len(),
            trim_chars(s@) == trim_chars(s@.subrange(lo as int, hi as int)),
            lo < hi ==> !is_ws_char(s@[lo as int]),
        decreases hi - lo,
    {
        proof {
            assert(s@.subrange(lo as int, hi as int).drop_last() =~= s@.subrange(
                lo as int,
                hi as int - 1,
            ));
        }
        hi = hi - 1;
    }
    let r = s.substring_char(lo, hi);
    proof {
        assert(r@ =~= s@.subrange(lo as int, hi as int));
    }
    String::from_str(r)
}

/// The opening marker every role tag starts with.
pub open spec fn marker() -> Seq<char> {
    "<hnt-"@
}

/// The index of the first occurrence of `pat` as a subsequence at or after
/// `i`.
pub open spec fn find_seq_from(s: Seq<char>, pat: Seq<char>, i: nat) -> Option<nat>
    decreases s.len() - i,
{
    if pat.len() == 0 {
        Some(i)
    } else if i + pat.len() > s.len() {
        None
    } else if s.subrange(i as int, i as int + pat.len() as int) == pat {
        Some(i)
    } else {
        find_seq_from(s, pat, i + 1)
    }
}

/// What `find_seq_from` finds is an occurrence, and the earliest one.
pub proof fn lemma_find_seq_from(s: Seq<char>, pat: Seq<char>, i: nat)
    requires
        i <= s.len(),
    ensures
        match find_seq_from(s, pat, i) {
            Some(j) => {
                &&& i <= j
                &&& j + pat.len() <= s.len()
                &&& s.subrange(j as int, j as int + pat.len() as int) == pat
                &&& forall|k: int|
                    i <= k < j ==> #[trigger] s.subrange(k, k + pat.len() as int) != pat
            },
            None => forall|k: int|
                i <= k && k + pat.len() <= s.len() ==> #[trigger] s.subrange(
                    k,
                    k + pat.len() as int,
                ) != pat,
        },
    decreases s.len() - i,
{
    if pat.len() == 0 {
        assert(s.subrange(i as int, i as int) =~= pat);
    } else if i + pat.len() > s.len() {
    } else if s.subrange(i as int, i as int + pat.len() as int) == pat {
    } else {
        lemma_find_seq_from(s, pat, i + 1);
    }
}

/// The shift of `find_seq_from` onto a suffix.
pub proof fn lemma_find_seq_shift(s: Seq<char>, pat: Seq<char>, p: nat, i: nat)
    requires
        p <= s.len(),
    ensures
        find_seq_from(s.skip(p as int), pat, i) == match find_seq_from(s, pat, p + i) {
            Some(j) => Some((j - p) as nat),
            None => None::<nat>,
        },
    decreases s.len() - p - i,
{
    let suf = s.skip(p as int);
    if pat.len() == 0 {
    } else if i + pat.len() > suf.len() {
    } else {
        assert(suf.subrange(i as int, i as int + pat.len() as int) =~= s.subrange(
            p as int + i as int,
            p as int + i as int + pat.len() as int,
        ));
        if suf.subrange(i as int, i as int + pat.len() as int) == pat {
        } else {
            lemma_find_seq_shift(s, pat, p, i + 1);
        }
    }
}

/// How many messages of a conversation are spoken as `System`.
pub open spec fn count_system(ms: Seq<MessageView>) -> nat
    decreases ms.len(),
{
    if ms.len() == 0 {
        0
    } else {
        count_system(ms.drop_last()) + if ms.last().role == Role::System {
            1nat
        } else {
            0nat
        }
    }
}

/// A message known to be `System` makes the count positive.
proof fn lemma_count_system_witness(ms: Seq<MessageView>, i: int)
    requires
        0 <= i < ms.len(),
        ms[i].role == Role::System,
    ensures
        count_system(ms) > 0,
    decreases ms.len(),
{
    if i < ms.len() - 1 {
        lemma_count_system_witness(ms.drop_last(), i);
    }
}

/// A compilation failure: the offending tag is named.
#[derive(Debug, Clone)]
pub enum ParseError {
    /// An opening `<` with no closing `>`; holds the tag's offset.
    UnclosedTag(usize),
    /// An opening tag with no closing counterpart; holds the opening tag.
    MissingClosingTag(String),
}

/// Mathematical image of a `ParseError`.
pub enum ParseErrorView {
    UnclosedTag(int),
    MissingClosingTag(Seq<char>),
}

impl View for ParseError {
    type V = ParseErrorView;

    open spec fn view(&self) -> ParseErrorView {
        match self {
            ParseError::UnclosedTag(p) => ParseErrorView::UnclosedTag(*p as int),
            ParseError::MissingClosingTag(t) => ParseErrorView::MissingClosingTag(t@),
        }
    }
}

/// One left-to-right scan of the remaining text `s` standing at absolute
/// offset `base`, with the messages built so far and the plain text gathered
/// so far. Unknown tags and surplus system tags are skipped; the trailing
/// plain text, trimmed and unescaped, becomes a final user message.
pub open spec fn scan_text(
    s: Seq<char>,
    base: nat,
    msgs: Seq<MessageView>,
    plain: Seq<char>,
) -> Result<Seq<MessageView>, ParseErrorView>
    decreases s.len(),
    via scan_text_dec
{
    match find_seq_from(s, marker(), 0) {
        None => {
            let t = trim_chars(plain + s);
            if t.len() == 0 {
                Ok(msgs)
            } else {
                Ok(msgs.push(MessageView { role: Role::User, content: unescape_text(t) }))
            }
        },
        Some(i) => {
            let plain2 = plain + s.take(i as int);
            let rest = s.skip(i as int);
            match find_char_from(rest, '>', 0) {
                None => Err(ParseErrorView::UnclosedTag((base + i) as int)),
                Some(j) => {
                    let tag_name = rest.subrange(1, j as int);
                    let open_tag = rest.take(j as int + 1);
                    let closing = seq!['<', '/'] + tag_name + seq!['>'];
                    let after_open = rest.skip(j as int + 1);
                    match find_seq_from(after_open, closing, 0) {
                        None => Err(ParseErrorView::MissingClosingTag(open_tag)),
                        Some(k) => {
                            let body = after_open.take(k as int);
                            let rest2 = after_open.skip(k as int + closing.len() as int);
                            let base2 = base + i + j + 1 + k + closing.len();
                            if tag_name == "hnt-system"@ {
                                if count_system(msgs) > 0 {
                                    scan_text(rest2, base2, msgs, plain2)
                                } else {
                                    scan_text(
                                        rest2,
                                        base2,
                                        msgs.push(
                                            MessageView {
                                                role: Role::System,
                                                content: unescape_text(body),
                                            },
                                        ),
                                        plain2,
                                    )
                                }
                            } else if tag_name == "hnt-user"@ {
                                scan_text(
                                    rest2,
                                    base2,
                                    msgs.push(
                                        MessageView {
                                            role: Role::User,
                                            content: unescape_text(body),
                                        },
                                    ),
                                    plain2,
                                )
                            } else if tag_name == "hnt-assistant"@ {
                                scan_text(
                                    rest2,
                                    base2,
                                    msgs.push(
                                        MessageView {
                                            role: Role::Assistant,
                                            content: unescape_text(body),
                                        },
                                    ),
                                    plain2,
                                )
                            } else {
                                scan_text(rest2, base2, msgs, plain2)
                            }
                        },
                    }
                },
            }
        },
    }
}

#[via_fn]
proof fn scan_text_dec(s: Seq<char>, base: nat, msgs: Seq<MessageView>, plain: Seq<char>) {
    lemma_find_seq_from(s, marker(), 0);
    if let Some(i) = find_seq_from(s, marker(), 0) {
        let rest = s.skip(i as int);
        lemma_find_char_from(rest, '>', 0);
        if let Some(j) = find_char_from(rest, '>', 0) {
            let tag_name = rest.subrange(1, j as int);
            let closing = seq!['<', '/'] + tag_name + seq!['>'];
            let after_open = rest.skip(j as int + 1);
            lemma_find_seq_from(after_open, closing, 0);
        }
    }
}

/// The injected system prompt, if any, as the opening message.
pub open spec fn initial_messages(injected: Option<Seq<char>>) -> Seq<MessageView> {
    match injected {
        Some(p) => seq![MessageView { role: Role::System, content: p }],
        None => Seq::<MessageView>::empty(),
    }
}

/// The compiled conversation of a raw text and an optional injected system
/// prompt.
pub open spec fn spec_compile(s: Seq<char>, injected: Option<Seq<char>>) -> Result<
    Seq<MessageView>,
    ParseErrorView,
> {
    scan_text(s, 0, initial_messages(injected), Seq::<char>::empty())
}

/// Text without any role marker compiles, with no injected prompt, to one
/// user message holding the trimmed, unescaped input — or to no message at
/// all where the input is all whitespace.
pub proof fn lemma_plain_text_compiles(s: Seq<char>)
    requires
        find_seq_from(s, marker(), 0) is None,
    ensures
        spec_compile(s, None) == if trim_chars(s).len() == 0 {
            Ok::<Seq<MessageView>, ParseErrorView>(Seq::<MessageView>::empty())
        } else {
            Ok::<Seq<MessageView>, ParseErrorView>(
                seq![MessageView { role: Role::User, content: unescape_text(trim_chars(s)) }],
            )
        },
{
    assert(Seq::<char>::empty() + s =~= s);
    if trim_chars(s).len() != 0 {
        assert(Seq::<MessageView>::empty().push(
            MessageView { role: Role::User, content: unescape_text(trim_chars(s)) },
        ) =~= seq![MessageView { role: Role::User, content: unescape_text(trim_chars(s)) }]);
    }
}

/// A role marker whose opening tag is never closed by `>` fails compilation
/// with the marker's offset, whatever else the text holds.
pub proof fn lemma_unclosed_tag_fails(s: Seq<char>, injected: Option<Seq<char>>, i: nat)
    requires
        find_seq_from(s, marker(), 0) == Some(i),
        find_char_from(s.skip(i as int), '>', 0) is None,
    ensures
        spec_compile(s, injected) == Err::<Seq<MessageView>, ParseErrorView>(
            ParseErrorView::UnclosedTag(i as int),
        ),
{
}

/// An opening tag with no closing counterpart fails compilation naming the
/// opening tag, whatever else the text holds.
pub proof fn lemma_missing_closing_tag_fails(
    s: Seq<char>,
    injected: Option<Seq<char>>,
    i: nat,
    j: nat,
)
    requires
        find_seq_from(s, marker(), 0) == Some(i),
        find_char_from(s.skip(i as int), '>', 0) == Some(j),
        ({
            let rest = s.skip(i as int);
            let closing = seq!['<', '/'] + rest.subrange(1, j as int) + seq!['>'];
            find_seq_from(rest.skip(j as int + 1), closing, 0) is None
        }),
    ensures
        spec_compile(s, injected) == Err::<Seq<MessageView>, ParseErrorView>(
            ParseErrorView::MissingClosingTag(s.skip(i as int).take(j as int + 1)),
        ),
{
}

/// How many system messages one push adds.
proof fn lemma_count_system_push(ms: Seq<MessageView>, m: MessageView)
    ensures
        count_system(ms.push(m)) == count_system(ms) + if m.role == Role::System {
            1nat
        } else {
            0nat
        },
{
    assert(ms.push(m).drop_last() =~= ms);
}

/// The scan keeps the messages already built, and adds at most one system
/// message where none stands yet.
proof fn lemma_scan_system(s: Seq<char>, base: nat, msgs: Seq<MessageView>, plain: Seq<char>)
    ensures
        scan_text(s, base, msgs, plain) matches Ok(ms) ==> {
            &&& msgs.len() <= ms.len()
            &&& forall|q: int| 0 <= q < msgs.len() ==> ms[q] == msgs[q]
            &&& count_system(ms) >= count_system(msgs)
            &&& count_system(ms) <= (if count_system(msgs) > 0 {
                count_system(msgs)
            } else {
                1nat
            })
        },
    decreases s.len(),
{
    match find_seq_from(s, marker(), 0) {
        None => {
            let t = trim_chars(plain + s);
            if t.len() != 0 {
                lemma_count_system_push(
                    msgs,
                    MessageView { role: Role::User, content: unescape_text(t) },
                );
            }
        },
        Some(i) => {
            lemma_find_seq_from(s, marker(), 0);
            let plain2 = plain + s.take(i as int);
            let rest = s.skip(i as int);
            lemma_find_char_from(rest, '>', 0);
            match find_char_from(rest, '>', 0) {
                None => {},
                Some(j) => {
                    let tag_name = rest.subrange(1, j as int);
                    let closing = seq!['<', '/'] + tag_name + seq!['>'];
                    let after_open = rest.skip(j as int + 1);
                    lemma_find_seq_from(after_open, closing, 0);
                    match find_seq_from(after_open, closing, 0) {
                        None => {},
                        Some(k) => {
                            let body = after_open.take(k as int);
                            let rest2 = after_open.skip(k as int + closing.len() as int);
                            let base2 = base + i + j + 1 + k + closing.len();
                            if tag_name == "hnt-system"@ {
                                if count_system(msgs) > 0 {
                                    lemma_scan_system(rest2, base2, msgs, plain2);
                                } else {
                                    let m = MessageView {
                                        role: Role::System,
                                        content: unescape_text(body),
                                    };
                                    lemma_count_system_push(msgs, m);
                                    lemma_scan_system(rest2, base2, msgs.push(m), plain2);
                                }
                            } else if tag_name == "hnt-user"@ {
                                let m = MessageView {
                                    role: Role::User,
                                    content: unescape_text(body),
                                };
                                lemma_count_system_push(msgs, m);
                                lemma_scan_system(rest2, base2, msgs.push(m), plain2);
                            } else if tag_name == "hnt-assistant"@ {
                                let m = MessageView {
                                    role: Role::Assistant,
                                    content: unescape_text(body),
                                };
                                lemma_count_system_push(msgs, m);
                                lemma_scan_system(rest2, base2, msgs.push(m), plain2);
                            } else {
                                lemma_scan_system(rest2, base2, msgs, plain2);
                            }
                        },
                    }
                },
            }
        },
    }
}

/// A compiled conversation holds at most one system message. With an injected
/// system prompt it holds exactly one: the injected prompt, opening the
/// conversation; any system tag in the text is discarded.
pub proof fn lemma_single_system(s: Seq<char>, injected: Option<Seq<char>>)
    ensures
        spec_compile(s, injected) matches Ok(ms) ==> count_system(ms) <= 1,
        match (injected, spec_compile(s, injected)) {
            (Some(p), Ok(ms)) => ms.len() > 0 && ms[0] == (MessageView {
                role: Role::System,
                content: p,
            }) && count_system(ms) == 1,
            _ => true,
        },
{
    let init = initial_messages(injected);
    match injected {
        Some(p) => {
            let m = MessageView { role: Role::System, content: p };
            let single = seq![m];
            assert(single.len() == 1);
            assert(single.last() == m);
            assert(single.drop_last() =~= Seq::<MessageView>::empty());
            assert(count_system(Seq::<MessageView>::empty()) == 0);
            assert(count_system(single) == count_system(single.drop_last()) + 1nat);
            assert(count_system(init) == 1);
            assert(init.len() == 1);
            assert(init[0] == m);
        },
        None => {
            assert(count_system(init) == 0);
        },
    }
    lemma_scan_system(s, 0, init, Seq::<char>::empty());
}

/// Finds the first occurrence of `pat` as a substring at or after `from`.
pub fn find_str(s: &str, pat: &str, from: usize) -> (r: Option<usize>)
    requires
        from <= s@.len(),
    ensures
        match find_seq_from(s@, pat@, from as nat) {
            Some(j) => r == Some(j as usize),
            None => r is None,
        },
{
    let n: usize = s.unicode_len();
    let m: usize = pat.unicode_len();
    if m == 0 {
        return Some(from);
    }
    if m > n {
        return None;
    }
    let mut i: usize = from;
    while i <= n - m
        invariant
            1 <= m <= n,
            from <= i,
            i <= n,
            n == s@.len(),
            m == pat@.len(),
            find_seq_from(s@, pat@, from as nat) == find_seq_from(s@, pat@, i as nat),
        decreases n - i,
    {
        let mut j: usize = 0;
        let mut matches_here = true;
        while j < m && matches_here
            invariant
                j <= m,
                i + m <= n,
                n == s@.len(),
                m == pat@.len(),
                matches_here ==> forall|q: int| 0 <= q < j ==> s@[i + q] == pat@[q],
                !matches_here ==> s@.subrange(i as int, i as int + m as int) != pat@,
            decreases m - j + (if matches_here {
                1nat
            } else {
                0nat
            }),
        {
            if s.get_char(i + j) != pat.get_char(j) {
                proof {
                    assert(s@.subrange(i as int, i as int + m as int)[j as int] != pat@[j as int]);
                }
                matches_here = false;
            } else {
                j = j + 1;
            }
        }
        if matches_here {
            proof {
                assert(s@.subrange(i as int, i as int + m as int) =~= pat@);
            }
            return Some(i);
        }
        i = i + 1;
    }
    None
}

/// Whether a `System` message is already present.
fn has_system(messages: &Vec<Message>) -> (r: bool)
    ensures
        r == (count_system(messages_view(messages@)) > 0),
{
    let n: usize = messages.len();
    let mut i: usize = 0;
    while i < n
        invariant
            i <= n,
            n == messages@.len(),
            count_system(messages_view(messages@).take(i as int)) == 0,
        decreases n - i,
    {
        let is_sys = match messages[i].role {
            Role::System => true,
            _ => false,
        };
        if is_sys {
            proof {
                lemma_count_system_witness(messages_view(messages@), i as int);
            }
            return true;
        }
        proof {
            let mv = messages_view(messages@);
            assert(mv.take(i as int + 1).drop_last() =~= mv.take(i as int));
            assert(mv.take(i as int + 1).last() == mv[i as int]);
        }
        i = i + 1;
    }
    proof {
        assert(messages_view(messages@).take(n as int) =~= messages_view(messages@));
    }
    false
}

/// Compiles raw text into the ordered conversation: role tags become their
/// messages in order, a surplus system tag or an unknown tag is skipped, and
/// the remaining plain text, trimmed and unescaped, closes the conversation
/// as one user message. An injected system prompt opens the conversation and
/// counts as the system message.
#[verifier::rlimit(100)]
pub fn build_messages(content: &str, system_prompt: Option<String>) -> (r: Result<
    Vec<Message>,
    ParseError,
>)
    ensures
        match r {
            Ok(v) => spec_compile(content@, opt_text_view(system_prompt)) == Ok::<
                _,
                ParseErrorView,
            >(messages_view(v@)),
            Err(e) => spec_compile(content@, opt_text_view(system_prompt)) == Err::<
                Seq<MessageView>,
                _,
            >(e@),
        },
{
    let ghost injected = opt_text_view(system_prompt);
    let mut messages: Vec<Message> = Vec::new();
    match system_prompt {
        Some(prompt) => {
            messages.push(Message { role: Role::System, content: prompt });
        },
        None => {},
    }
    proof {
        assert(messages_view(messages@) =~= initial_messages(injected));
    }
    let n: usize = content.unicode_len();
    let mut pos: usize = 0;
    let mut plain = String::new();
    proof {
        assert(content@.skip(0) =~= content@);
    }
    loop
        invariant
            injected == opt_text_view(system_prompt),
            pos <= n,
            n == content@.len(),
            spec_compile(content@, injected) == scan_text(
                content@.skip(pos as int),
                pos as nat,
                messages_view(messages@),
                plain@,
            ),
        decreases n - pos,
    {
        let ghost suffix = content@.skip(pos as int);
        let ghost plain0 = plain@;
        let ghost msgs0 = messages_view(messages@);
        proof {
            lemma_find_seq_shift(content@, "<hnt-"@, pos as nat, 0);
        }
        match find_str(content, "<hnt-", pos) {
            None => {
                proof {
                    assert(find_seq_from(suffix, marker(), 0) is None);
                    assert(content@.subrange(pos as int, n as int) =~= suffix);
                }
                let tail = content.substring_char(pos, n);
                plain.append(tail);
                proof {
                    assert(plain@ == plain0 + suffix);
                }
                let t = trimmed(plain.as_str());
                if t.as_str().is_empty() {
                    proof {
                        assert(scan_text(suffix, pos as nat, msgs0, plain0) == Ok::<
                            _,
                            ParseErrorView,
                        >(msgs0));
                    }
                    return Ok(messages);
                }
                let body = unescape(t.as_str());
                let ghost target = msgs0.push(
                    MessageView {
                        role: Role::User,
                        content: unescape_text(trim_chars(plain0 + suffix)),
                    },
                );
                let ghost before = messages_view(messages@);
                messages.push(Message { role: Role::User, content: body });
                proof {
                    assert(messages_view(messages@) =~= target);
                    assert(scan_text(suffix, pos as nat, msgs0, plain0) == Ok::<
                        _,
                        ParseErrorView,
                    >(target));
                }
                return Ok(messages);
            },
            Some(i_abs) => {
                proof {
                    lemma_find_seq_from(content@, "<hnt-"@, pos as nat);
                    assert(find_seq_from(suffix, marker(), 0) == Some((i_abs - pos) as nat));
                    assert(suffix.take(i_abs - pos) =~= content@.subrange(pos as int, i_abs as int));
                    assert(suffix.skip(i_abs - pos) =~= content@.skip(i_abs as int));
                    crate::escaping::lemma_find_char_shift(content@, '>', i_abs as nat);
                    reveal_strlit("<hnt-");
                    assert(content@.subrange(i_abs as int, i_abs as int + 5) == "<hnt-"@);
                    assert(content@[i_abs as int] == '<');
                }
                let piece = content.substring_char(pos, i_abs);
                plain.append(piece);
                proof {
                    assert(plain@ == plain0 + suffix.take(i_abs - pos));
                }
                let ghost rest = content@.skip(i_abs as int);
                match find_char(content, '>', i_abs) {
                    None => {
                        proof {
                            assert(find_char_from(rest, '>', 0) is None);
                            assert(scan_text(suffix, pos as nat, msgs0, plain0) == Err::<
                                Seq<MessageView>,
                                _,
                            >(ParseErrorView::UnclosedTag(i_abs as int)));
                        }
                        return Err(ParseError::UnclosedTag(i_abs));
                    },
                    Some(j_abs) => {
                        proof {
                            lemma_find_char_from(content@, '>', i_abs as nat);
                            assert(content@[j_abs as int] == '>');
                            assert(j_abs > i_abs);
                            assert(find_char_from(rest, '>', 0) == Some((j_abs - i_abs) as nat));
                            assert(rest.subrange(1, j_abs - i_abs) =~= content@.subrange(
                                i_abs as int + 1,
                                j_abs as int,
                            ));
                            assert(rest.take(j_abs - i_abs + 1) =~= content@.subrange(
                                i_abs as int,
                                j_abs as int + 1,
                            ));
                            assert(rest.skip(j_abs - i_abs + 1) =~= content@.skip(j_abs as int + 1));
                        }
                        let tag_name = content.substring_char(i_abs + 1, j_abs);
                        let mut closing = String::new();
                        closing.append("</");
                        closing.append(tag_name);
                        closing.append(">");
                        proof {
                            reveal_strlit("</");
                            reveal_strlit(">");
                            assert(closing@ =~= seq!['<', '/'] + tag_name@ + seq!['>']);
                            lemma_find_seq_shift(content@, closing@, j_abs as nat + 1, 0);
                        }
                        let closing_len: usize = closing.as_str().unicode_len();
                        match find_str(content, closing.as_str(), j_abs + 1) {
                            None => {
                                let open_tag = content.substring_char(i_abs, j_abs + 1);
                                return Err(
                                    ParseError::MissingClosingTag(String::from_str(open_tag)),
                                );
                            },
                            Some(k_abs) => {
                                proof {
                                    lemma_find_seq_from(content@, closing@, j_abs as nat + 1);
                                    let after_open = content@.skip(j_abs as int + 1);
                                    assert(after_open.take(k_abs - (j_abs + 1)) =~= content@
                                        .subrange(j_abs as int + 1, k_abs as int));
                                    assert(after_open.skip(
                                        k_abs - (j_abs + 1) + closing@.len() as int,
                                    ) =~= content@.skip(k_abs as int + closing@.len() as int));
                                }
                                let body_str = content.substring_char(j_abs + 1, k_abs);
                                if str_equal(tag_name, "hnt-system") {
                                    if has_system(&messages) {
                                        // A system message is already present: the
                                        // surplus tag's content is discarded.
                                    } else {
                                        let body = unescape(body_str);
                                        let ghost before = messages_view(messages@);
                                        messages.push(
                                            Message { role: Role::System, content: body },
                                        );
                                        proof {
                                            assert(messages_view(messages@) =~= before.push(
                                                MessageView {
                                                    role: Role::System,
                                                    content: unescape_text(body_str@),
                                                },
                                            ));
                                        }
                                    }
                                } else if str_equal(tag_name, "hnt-user") {
                                    let body = unescape(body_str);
                                    let ghost before = messages_view(messages@);
                                    messages.push(Message { role: Role::User, content: body });
                                    proof {
                                        assert(messages_view(messages@) =~= before.push(
                                            MessageView {
                                                role: Role::User,
                                                content: unescape_text(body_str@),
                                            },
                                        ));
                                    }
                                } else if str_equal(tag_name, "hnt-assistant") {
                                    let body = unescape(body_str);
                                    let ghost before = messages_view(messages@);
                                    messages.push(Message { role: Role::Assistant, content: body });
                                    proof {
                                        assert(messages_view(messages@) =~= before.push(
                                            MessageView {
                                                role: Role::Assistant,
                                                content: unescape_text(body_str@),
                                            },
                                        ));
                                    }
                                } else {
                                    // An unknown tag: its content is discarded.
                                }
                                pos = k_abs + closing_len;
                            },
                        }
                    },
                }
            },
        }
    }
}

} // verus!
