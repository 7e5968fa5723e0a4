//! Text that a remote chose: reading bytes as UTF-8, trimming, and reducing it to something safe to
//! draw in chrome the local side owns. The two std operations vstd gives no contract are held
//! here, each behind a wrapper that states what std's documentation says of it.
use vstd::prelude::*;
use vstd::utf8::{decode_utf8, encode_utf8, valid_utf8};

verus! {

/// The Unicode `White_Space` property, which `char::is_whitespace` and `str::trim` go by.
pub open spec fn is_white_space(c: char) -> bool {
    let v = c as u32;
    (0x09 <= v <= 0x0d) || v == 0x20 || v == 0x85 || v == 0xa0 || v == 0x1680 || (0x2000 <= v
        <= 0x200a) || v == 0x2028 || v == 0x2029 || v == 0x202f || v == 0x205f || v == 0x3000
}

/// The Unicode general category `Cc`, which `char::is_control` goes by.
pub open spec fn is_control(c: char) -> bool {
    let v = c as u32;
    v <= 0x1f || (0x7f <= v <= 0x9f)
}

/// `s` without its leading white space.
pub open spec fn trim_start(s: Seq<char>) -> Seq<char>
    decreases s.len(),
{
    if s.len() > 0 && is_white_space(s[0]) {
        trim_start(s.drop_first())
    } else {
        s
    }
}

/// `s` without its trailing white space.
pub open spec fn trim_end(s: Seq<char>) -> Seq<char>
    decreases s.len(),
{
    if s.len() > 0 && is_white_space(s.last()) {
        trim_end(s.drop_last())
    } else {
        s
    }
}

/// `s` without white space at either end, which is what `str::trim` returns.
pub open spec fn trimmed(s: Seq<char>) -> Seq<char> {
    trim_end(trim_start(s))
}

/// `std::str::from_utf8`: the bytes as a string when they are valid UTF-8, holding exactly those
/// bytes; `None` when they are not.
#[verifier::external_body]
pub(crate) fn utf8(bytes: &[u8]) -> (text: Option<&str>)
    ensures
        text is Some <==> valid_utf8(bytes@),
        text matches Some(t) ==> encode_utf8(t@) == bytes@,
{
    std::str::from_utf8(bytes).ok()
}

/// Whether a character has the Unicode `White_Space` property.
fn white_space(c: char) -> (white: bool)
    ensures
        white == is_white_space(c),
{
    let v = c as u32;
    (0x09 <= v && v <= 0x0d) || v == 0x20 || v == 0x85 || v == 0xa0 || v == 0x1680 || (0x2000 <= v
        && v <= 0x200a) || v == 0x2028 || v == 0x2029 || v == 0x202f || v == 0x205f || v == 0x3000
}

/// The string with leading and trailing white space removed, as `str::trim` does.
pub(crate) fn trim(text: &str) -> (rest: &str)
    ensures
        rest@ == trimmed(text@),
{
    broadcast use vstd::string::axiom_spec_iter;

    let mut chars: Vec<char> = Vec::new();
    for c in it: text.chars()
        invariant
            it.seq() == text@,
            chars@ == text@.take(it.index()),
    {
        chars.push(c);
        assert(chars@ =~= text@.take(it.index() + 1));
    }
    assert(text@.take(text@.len() as int) =~= text@);
    let ghost s = text@;
    let n = chars.len();
    let mut start: usize = 0;
    assert(s.skip(0) =~= s);
    while start < n && white_space(chars[start])
        invariant
            chars@ == s,
            n == s.len(),
            start <= n,
            trim_start(s) == trim_start(s.skip(start as int)),
        decreases n - start,
    {
        assert(s.skip(start as int).drop_first() =~= s.skip(start + 1));
        start = start + 1;
    }
    assert(trim_start(s) == s.skip(start as int)) by {
        if start == n {
            assert(s.skip(start as int).len() == 0);
        }
    }
    let ghost front = s.skip(start as int);
    let mut end: usize = n;
    assert(front.subrange(0, (n - start) as int) =~= front);
    while end > start && white_space(chars[end - 1])
        invariant
            chars@ == s,
            n == s.len(),
            start <= end <= n,
            front == s.skip(start as int),
            trim_end(front) == trim_end(front.subrange(0, end - start)),
        decreases end,
    {
        assert(front.subrange(0, end - start).drop_last() =~= front.subrange(0, end - 1 - start));
        end = end - 1;
    }
    assert(trim_end(front) == front.subrange(0, end - start)) by {
        if end == start {
            assert(front.subrange(0, 0).len() == 0);
        }
    }
    assert(front.subrange(0, end - start) =~= s.subrange(start as int, end as int));
    text.substring_char(start, end)
}

/// `String::push`: the string with one more character on the end.
#[verifier::external_body]
fn push_char(out: &mut String, c: char)
    ensures
        final(out)@ == old(out)@.push(c),
{
    out.push(c);
}

/// The printable characters of `s` — control characters dropped — in order.
pub open spec fn printable(s: Seq<char>) -> Seq<char>
    decreases s.len(),
{
    if s.len() == 0 {
        Seq::empty()
    } else if is_control(s.last()) {
        printable(s.drop_last())
    } else {
        printable(s.drop_last()).push(s.last())
    }
}

/// At most the first `n` of `s`.
pub open spec fn at_most(s: Seq<char>, n: int) -> Seq<char> {
    if s.len() <= n {
        s
    } else {
        s.take(n)
    }
}

/// Reduce remote-chosen text to something safe to draw: printable characters only, and no more
/// than `max_chars` of them, counted in characters so a multi-byte one is never cut in half.
pub fn sanitize(text: &str, max_chars: usize) -> (safe: String)
    ensures
        safe@ == at_most(printable(text@), max_chars as int),
{
    broadcast use vstd::string::axiom_spec_iter;

    let mut out = String::new();
    let mut kept: usize = 0;
    for c in it: text.chars()
        invariant
            it.seq() == text@,
            out@ == at_most(printable(text@.take(it.index())), max_chars as int),
            kept == out@.len(),
            kept <= max_chars,
    {
        if kept == max_chars {
            proof {
                lemma_at_most_full(text@.take(it.index()), text@.skip(it.index()), max_chars as int);
                assert(text@.take(it.index()) + text@.skip(it.index()) =~= text@);
            }
            return out;
        }
        assert(text@.take(it.index() + 1).drop_last() =~= text@.take(it.index()));
        if !((c as u32) <= 0x1f || (0x7f <= (c as u32) && (c as u32) <= 0x9f)) {
            push_char(&mut out, c);
            kept = kept + 1;
        }
    }
    assert(text@.take(text@.len() as int) =~= text@);
    out
}

/// A remote-set window title reduced to one line of printable text: every control character —
/// newlines, escapes, tabs — dropped.
pub fn sanitize_title(title: &str) -> (safe: String)
    ensures
        safe@ == printable(title@),
{
    broadcast use vstd::string::axiom_spec_iter;

    let mut out = String::new();
    for c in it: title.chars()
        invariant
            it.seq() == title@,
            out@ == printable(title@.take(it.index())),
    {
        assert(title@.take(it.index() + 1).drop_last() =~= title@.take(it.index()));
        if !((c as u32) <= 0x1f || (0x7f <= (c as u32) && (c as u32) <= 0x9f)) {
            push_char(&mut out, c);
        }
    }
    assert(title@.take(title@.len() as int) =~= title@);
    out
}

/// Once `n` printable characters are in hand, more text cannot change the first `n`.
proof fn lemma_at_most_full(seen: Seq<char>, rest: Seq<char>, n: int)
    requires
        at_most(printable(seen), n).len() == n,
        0 <= n,
    ensures
        at_most(printable(seen), n) == at_most(printable(seen + rest), n),
    decreases rest.len(),
{
    if rest.len() > 0 {
        let shorter = rest.drop_last();
        lemma_at_most_full(seen, shorter, n);
        assert((seen + rest).drop_last() =~= seen + shorter);
        lemma_printable_grows(seen, shorter);
        let p = printable(seen + shorter);
        assert(p.len() >= n);
        if !is_control(rest.last()) {
            assert(p.push(rest.last()).take(n) =~= p.take(n));
        }
    }
}

/// The printable part of a longer text extends the printable part of its prefix.
proof fn lemma_printable_grows(seen: Seq<char>, rest: Seq<char>)
    ensures
        printable(seen).len() <= printable(seen + rest).len(),
        printable(seen + rest).take(printable(seen).len() as int) == printable(seen),
    decreases rest.len(),
{
    if rest.len() == 0 {
        assert(seen + rest =~= seen);
        assert(printable(seen).take(printable(seen).len() as int) =~= printable(seen));
    } else {
        lemma_printable_grows(seen, rest.drop_last());
        assert((seen + rest).drop_last() =~= seen + rest.drop_last());
        let p = printable(seen + rest.drop_last());
        if !is_control(rest.last()) {
            assert(p.push(rest.last()).take(printable(seen).len() as int) =~= p.take(
                printable(seen).len() as int,
            ));
        }
    }
}

proof fn lemma_printable_has_no_controls(s: Seq<char>)
    ensures
        forall|i: int| 0 <= i < printable(s).len() ==> !is_control(#[trigger] printable(s)[i]),
        printable(s).len() <= s.len(),
    decreases s.len(),
{
    if s.len() > 0 {
        lemma_printable_has_no_controls(s.drop_last());
        let before = printable(s.drop_last());
        assert forall|i: int| 0 <= i < printable(s).len() implies !is_control(
            #[trigger] printable(s)[i],
        ) by {
            if i < before.len() {
                assert(printable(s)[i] == before[i]);
            }
        }
    }
}

/// Whatever a remote sends, the text kept for chrome holds no control character — nothing that
/// could break a line or start a sequence — and no more characters than the cap.
pub proof fn law_sanitized_text_is_safe(s: Seq<char>, max_chars: int)
    requires
        0 <= max_chars,
    ensures
        forall|i: int|
            0 <= i < at_most(printable(s), max_chars).len() ==> !is_control(
                #[trigger] at_most(printable(s), max_chars)[i],
            ),
        at_most(printable(s), max_chars).len() <= max_chars,
        forall|i: int| 0 <= i < printable(s).len() ==> !is_control(#[trigger] printable(s)[i]),
{
    lemma_printable_has_no_controls(s);
    let p = printable(s);
    assert forall|i: int| 0 <= i < at_most(p, max_chars).len() implies !is_control(
        #[trigger] at_most(p, max_chars)[i],
    ) by {
        assert(at_most(p, max_chars)[i] == p[i]);
    }
}

} // verus!
