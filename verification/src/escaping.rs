//! Escaping codec: a reversible, line-based transform that keeps literal
//! role-tag lines inside content from confusing the prompt compiler. A line
//! that reads as a role tag (under any number of leading backslashes) gains
//! one more backslash when escaped; unescaping removes it again.

use vstd::prelude::*;

verus! {

/// The line with its leading backslashes removed.
pub open spec fn strip_backslashes(l: Seq<char>) -> Seq<char>
    decreases l.len(),
{
    if l.len() > 0 && l.first() == '\\' {
        strip_backslashes(l.drop_first())
    } else {
        l
    }
}

/// The line is exactly one of the role-tag markers.
pub open spec fn is_tag_literal(l: Seq<char>) -> bool {
    ||| l == "<hnt-system>"@
    ||| l == "<hnt-user>"@
    ||| l == "<hnt-assistant>"@
    ||| l == "</hnt-system>"@
    ||| l == "</hnt-user>"@
    ||| l == "</hnt-assistant>"@
}

/// One escaped line: tag-like lines gain a leading backslash.
pub open spec fn escape_line(l: Seq<char>) -> Seq<char> {
    if is_tag_literal(strip_backslashes(l)) {
        seq!['\\'] + l
    } else {
        l
    }
}

/// One unescaped line: tag-like lines lose one leading backslash.
pub open spec fn unescape_line(l: Seq<char>) -> Seq<char> {
    if l.len() > 0 && l.first() == '\\' && is_tag_literal(strip_backslashes(l)) {
        l.drop_first()
    } else {
        l
    }
}

/// The index of the first occurrence of `x` at or after `i`.
pub open spec fn find_char_from(s: Seq<char>, x: char, i: nat) -> Option<nat>
    decreases s.len() - i,
{
    if i >= s.len() {
        None
    } else if s[i as int] == x {
        Some(i)
    } else {
        find_char_from(s, x, i + 1)
    }
}

/// What `find_char_from` finds is an occurrence, and the earliest one.
pub proof fn lemma_find_char_from(s: Seq<char>, x: char, i: nat)
    ensures
        match find_char_from(s, x, i) {
            Some(j) => i <= j < s.len() && s[j as int] == x && (forall|k: int|
                i <= k < j ==> s[k] != x),
            None => forall|k: int| i <= k < s.len() ==> s[k] != x,
        },
    decreases s.len() - i,
{
    if i >= s.len() {
    } else if s[i as int] == x {
    } else {
        lemma_find_char_from(s, x, i + 1);
    }
}

/// A known first occurrence determines `find_char_from`.
pub proof fn lemma_find_char_from_unique(s: Seq<char>, x: char, i: nat, j: nat)
    requires
        i <= j < s.len(),
        s[j as int] == x,
        forall|k: int| i <= k < j ==> s[k] != x,
    ensures
        find_char_from(s, x, i) == Some(j),
    decreases j - i,
{
    if i == j {
    } else {
        lemma_find_char_from_unique(s, x, i + 1, j);
    }
}

/// The whole text unescaped, line by line.
pub open spec fn unescape_text(s: Seq<char>) -> Seq<char>
    decreases s.len(),
    via unescape_text_dec
{
    match find_char_from(s, '\n', 0) {
        None => unescape_line(s),
        Some(j) => unescape_line(s.take(j as int)) + seq!['\n'] + unescape_text(
            s.skip(j as int + 1),
        ),
    }
}

#[via_fn]
proof fn unescape_text_dec(s: Seq<char>) {
    lemma_find_char_from(s, '\n', 0);
}

/// The whole text escaped, line by line.
pub open spec fn escape_text(s: Seq<char>) -> Seq<char>
    decreases s.len(),
    via escape_text_dec
{
    match find_char_from(s, '\n', 0) {
        None => escape_line(s),
        Some(j) => escape_line(s.take(j as int)) + seq!['\n'] + escape_text(s.skip(j as int + 1)),
    }
}

#[via_fn]
proof fn escape_text_dec(s: Seq<char>) {
    lemma_find_char_from(s, '\n', 0);
}

/// Unescaping undoes escaping on a single line.
pub proof fn lemma_line_round_trip(l: Seq<char>)
    ensures
        unescape_line(escape_line(l)) == l,
{
    if is_tag_literal(strip_backslashes(l)) {
        let el = seq!['\\'] + l;
        assert(el.drop_first() =~= l);
        assert(strip_backslashes(el) == strip_backslashes(l));
    }
}

/// Escaping adds no newline to a line that has none.
proof fn lemma_escape_line_no_newline(l: Seq<char>)
    requires
        forall|k: int| 0 <= k < l.len() ==> l[k] != '\n',
    ensures
        forall|k: int| 0 <= k < escape_line(l).len() ==> escape_line(l)[k] != '\n',
{
    if is_tag_literal(strip_backslashes(l)) {
        let el = seq!['\\'] + l;
        assert forall|k: int| 0 <= k < el.len() implies el[k] != '\n' by {
            if k > 0 {
                assert(el[k] == l[k - 1]);
            }
        }
    }
}

/// Unescaping undoes escaping: the codec is reversible on whole texts.
pub proof fn lemma_codec_round_trip(s: Seq<char>)
    ensures
        unescape_text(escape_text(s)) == s,
    decreases s.len(),
{
    lemma_find_char_from(s, '\n', 0);
    match find_char_from(s, '\n', 0) {
        None => {
            let el = escape_line(s);
            lemma_escape_line_no_newline(s);
            lemma_find_char_from(el, '\n', 0);
            lemma_line_round_trip(s);
        },
        Some(j) => {
            let line = s.take(j as int);
            let rest = s.skip(j as int + 1);
            let el = escape_line(line);
            lemma_escape_line_no_newline(line);
            let es = el + seq!['\n'] + escape_text(rest);
            assert(es[el.len() as int] == '\n');
            assert forall|k: int| 0 <= k < el.len() implies es[k] != '\n' by {
                assert(es[k] == el[k]);
            }
            lemma_find_char_from_unique(es, '\n', 0, el.len());
            assert(es.take(el.len() as int) =~= el);
            assert(es.skip(el.len() as int + 1) =~= escape_text(rest));
            lemma_line_round_trip(line);
            lemma_codec_round_trip(rest);
            assert(line + seq!['\n'] + rest =~= s);
        },
    }
}

/// Tests chars for equality over a whole string.
pub fn str_equal(a: &str, b: &str) -> (r: bool)
    ensures
        r == (a@ == b@),
{
    let na: usize = a.unicode_len();
    let nb: usize = b.unicode_len();
    if na != nb {
        proof {
            if a@ == b@ {
                assert(a@.len() == b@.len());
            }
        }
        return false;
    }
    let mut i: usize = 0;
    while i < na
        invariant
            i <= na,
            na == a@.len(),
            na == b@.len(),
            forall|k: int| 0 <= k < i ==> a@[k] == b@[k],
        decreases na - i,
    {
        if a.get_char(i) != b.get_char(i) {
            return false;
        }
        i = i + 1;
    }
    proof {
        assert(a@ =~= b@);
    }
    true
}

/// The line is one of the role-tag markers.
fn is_tag_line(l: &str) -> (r: bool)
    ensures
        r == is_tag_literal(l@),
{
    str_equal(l, "<hnt-system>") || str_equal(l, "<hnt-user>") || str_equal(l, "<hnt-assistant>")
        || str_equal(l, "</hnt-system>") || str_equal(l, "</hnt-user>") || str_equal(
        l,
        "</hnt-assistant>",
    )
}

/// The number of leading backslashes of `l`, tying `strip_backslashes` to an
/// index.
fn leading_backslashes(l: &str) -> (k: usize)
    ensures
        k <= l@.len(),
        strip_backslashes(l@) == l@.skip(k as int),
        forall|j: int| 0 <= j < k ==> l@[j] == '\\',
        k < l@.len() ==> l@[k as int] != '\\',
{
    let n: usize = l.unicode_len();
    let mut i: usize = 0;
    proof {
        assert(l@.skip(0) =~= l@);
    }
    while i < n && l.get_char(i) == '\\'
        invariant
            i <= n,
            n == l@.len(),
            strip_backslashes(l@) == strip_backslashes(l@.skip(i as int)),
            forall|j: int| 0 <= j < i ==> l@[j] == '\\',
        ensures
            i < n ==> l@[i as int] != '\\',
        decreases n - i,
    {
        proof {
            assert(l@.skip(i as int).drop_first() =~= l@.skip(i as int + 1));
        }
        i = i + 1;
    }
    i
}

/// One line unescaped.
fn unescape_line_exec(l: &str) -> (r: String)
    ensures
        r@ == unescape_line(l@),
{
    let n: usize = l.unicode_len();
    let k = leading_backslashes(l);
    if n > 0 && k > 0 {
        let stripped = l.substring_char(k, n);
        proof {
            assert(stripped@ =~= l@.skip(k as int));
        }
        if is_tag_line(stripped) {
            let r = l.substring_char(1, n);
            proof {
                assert(r@ =~= l@.drop_first());
            }
            return String::from_str(r);
        }
    }
    proof {
        if l@.len() > 0 && l@.first() == '\\' && is_tag_literal(strip_backslashes(l@)) {
            assert(k > 0);
        }
    }
    String::from_str(l)
}

/// One line escaped.
fn escape_line_exec(l: &str) -> (r: String)
    ensures
        r@ == escape_line(l@),
{
    let n: usize = l.unicode_len();
    let k = leading_backslashes(l);
    let stripped = l.substring_char(k, n);
    proof {
        assert(stripped@ =~= l@.skip(k as int));
    }
    let mut out = String::new();
    if is_tag_line(stripped) {
        out.append("\\");
        proof {
            reveal_strlit("\\");
            assert("\\"@ =~= seq!['\\']);
        }
    }
    out.append(l);
    proof {
        if is_tag_literal(strip_backslashes(l@)) {
            assert(out@ =~= seq!['\\'] + l@);
        } else {
            assert(out@ =~= l@);
        }
    }
    out
}

/// Finds the first occurrence of a char at or after `from`.
pub fn find_char(s: &str, x: char, from: usize) -> (r: Option<usize>)
    requires
        from <= s@.len(),
    ensures
        match find_char_from(s@, x, from as nat) {
            Some(j) => r == Some(j as usize),
            None => r is None,
        },
{
    let n: usize = s.unicode_len();
    let mut i: usize = from;
    while i < n
        invariant
            from <= i <= n,
            n == s@.len(),
            find_char_from(s@, x, from as nat) == find_char_from(s@, x, i as nat),
        decreases n - i,
    {
        if s.get_char(i) == x {
            return Some(i);
        }
        i = i + 1;
    }
    None
}

/// Applies a per-line transform over a whole text; `esc` picks escaping,
/// otherwise unescaping.
fn map_lines(text: &str, esc: bool) -> (r: String)
    ensures
        esc ==> r@ == escape_text(text@),
        !esc ==> r@ == unescape_text(text@),
{
    let n: usize = text.unicode_len();
    let mut out = String::new();
    let mut pos: usize = 0;
    proof {
        assert(text@.skip(0) =~= text@);
        reveal_strlit("\n");
        assert("\n"@ =~= seq!['\n']);
    }
    loop
        invariant
            pos <= n,
            n == text@.len(),
            esc ==> escape_text(text@) == out@ + escape_text(text@.skip(pos as int)),
            !esc ==> unescape_text(text@) == out@ + unescape_text(text@.skip(pos as int)),
        decreases n - pos + 1,
    {
        let ghost suffix = text@.skip(pos as int);
        proof {
            lemma_find_char_shift(text@, '\n', pos as nat);
            reveal_strlit("\n");
            assert("\n"@ =~= seq!['\n']);
        }
        let j_opt = find_char(text, '\n', pos);
        match j_opt {
            Some(j) => {
                proof {
                    lemma_find_char_from(text@, '\n', pos as nat);
                    assert(suffix.take(j - pos) =~= text@.subrange(pos as int, j as int));
                    assert(suffix.skip(j - pos + 1) =~= text@.skip(j as int + 1));
                }
                let line = text.substring_char(pos, j);
                let mapped = if esc {
                    escape_line_exec(line)
                } else {
                    unescape_line_exec(line)
                };
                let ghost out_before = out@;
                out.append(mapped.as_str());
                out.append("\n");
                proof {
                    assert(out@ =~= out_before + mapped@ + seq!['\n']);
                    if esc {
                        assert(out_before + (escape_line(line@) + seq!['\n'] + escape_text(
                            text@.skip(j as int + 1),
                        )) =~= out@ + escape_text(text@.skip(j as int + 1)));
                    } else {
                        assert(out_before + (unescape_line(line@) + seq!['\n'] + unescape_text(
                            text@.skip(j as int + 1),
                        )) =~= out@ + unescape_text(text@.skip(j as int + 1)));
                    }
                }
                pos = j + 1;
            },
            None => {
                let line = text.substring_char(pos, n);
                proof {
                    assert(line@ =~= suffix);
                }
                let mapped = if esc {
                    escape_line_exec(line)
                } else {
                    unescape_line_exec(line)
                };
                out.append(mapped.as_str());
                return out;
            },
        }
    }
}

/// The shift of `find_char_from` onto a suffix.
pub proof fn lemma_find_char_shift(s: Seq<char>, x: char, p: nat)
    requires
        p <= s.len(),
    ensures
        find_char_from(s.skip(p as int), x, 0) == match find_char_from(s, x, p) {
            Some(j) => Some((j - p) as nat),
            None => None::<nat>,
        },
{
    lemma_find_char_shift_from(s, x, p, 0);
}

proof fn lemma_find_char_shift_from(s: Seq<char>, x: char, p: nat, i: nat)
    requires
        p <= s.len(),
    ensures
        find_char_from(s.skip(p as int), x, i) == match find_char_from(s, x, p + i) {
            Some(j) => Some((j - p) as nat),
            None => None::<nat>,
        },
    decreases s.len() - p - i,
{
    let suf = s.skip(p as int);
    if i >= suf.len() {
    } else {
        assert(suf[i as int] == s[p as int + i as int]);
        if suf[i as int] == x {
        } else {
            lemma_find_char_shift_from(s, x, p, i + 1);
        }
    }
}

/// Unescapes a tag body or the trailing plain text: removes one backslash
/// from every line that reads as an escaped role-tag line.
pub fn unescape(text: &str) -> (r: String)
    ensures
        r@ == unescape_text(text@),
{
    map_lines(text, false)
}

/// Escapes content for embedding: adds one backslash to every line that
/// would otherwise read as a role-tag line.
pub fn escape(text: &str) -> (r: String)
    ensures
        r@ == escape_text(text@),
{
    map_lines(text, true)
}

} // verus!
