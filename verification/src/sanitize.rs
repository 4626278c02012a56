//! What a text from outside may hold before it reaches the terminal. Every
//! character that could start a control sequence, or make text lie about its
//! reading order, is taken out; nothing else is.
use crate::layout::measure::{clusters_make_up_the_string, grapheme_clusters, graphemes};
use crate::text::{chars_of, concat_all, lemma_concat_push, views};
use std::borrow::Cow;
use vstd::prelude::*;

verus! {

/// How many characters one run of text may have.
pub const MAX_SPAN_CHARS: usize = 20_000;

/// A C0 control, escape among them, or delete.
pub open spec fn c0_or_del(c: char) -> bool {
    (c as int) < 0x20 || c == '\u{7F}'
}

/// A C1 control: the eight-bit forms of the sequence introducers.
pub open spec fn c1(c: char) -> bool {
    0x80 <= (c as int) <= 0x9F
}

/// A character that overrides or isolates the reading direction.
pub open spec fn bidi_override(c: char) -> bool {
    (0x202A <= (c as int) <= 0x202E) || (0x2066 <= (c as int) <= 0x2069)
}

/// A zero-width character without a use on a cell grid. The joiner, which
/// emoji need, is none of these.
pub open spec fn dead_zero_width(c: char) -> bool {
    c == '\u{200B}' || c == '\u{2060}' || c == '\u{FEFF}'
}

/// A line or paragraph separator.
pub open spec fn separator(c: char) -> bool {
    c == '\u{2028}' || c == '\u{2029}'
}

/// A newline or a tab, where those are kept.
pub open spec fn kept_break(c: char, keep: bool) -> bool {
    keep && (c == '\n' || c == '\t')
}

/// A character that is taken out.
pub open spec fn dropped(c: char, keep: bool) -> bool {
    !kept_break(c, keep) && (c0_or_del(c) || c1(c) || bidi_override(c) || dead_zero_width(c))
}

/// A character that is taken out or replaced.
pub open spec fn dirty(c: char, keep: bool) -> bool {
    dropped(c, keep) || separator(c)
}

/// A text without the characters that are taken out, and with a space for
/// each separator.
pub open spec fn sanitized(s: Seq<char>, keep: bool) -> Seq<char>
    decreases s.len(),
{
    if s.len() == 0 {
        Seq::empty()
    } else {
        let before = sanitized(s.drop_last(), keep);
        if separator(s.last()) {
            before.push(' ')
        } else if dropped(s.last(), keep) {
            before
        } else {
            before.push(s.last())
        }
    }
}

fn is_separator(c: char) -> (r: bool)
    ensures
        r == separator(c),
{
    c == '\u{2028}' || c == '\u{2029}'
}

fn is_dropped(c: char, keep: bool) -> (r: bool)
    ensures
        r == dropped(c, keep),
{
    let u: u32 = c as u32;
    !(keep && (c == '\n' || c == '\t')) && (u < 0x20 || c == '\u{7F}' || (0x80 <= u && u <= 0x9F)
        || (0x202A <= u && u <= 0x202E) || (0x2066 <= u && u <= 0x2069) || c == '\u{200B}' || c
        == '\u{2060}' || c == '\u{FEFF}')
}

/// A clean text is its own sanitized form.
proof fn lemma_clean_is_kept(s: Seq<char>, keep: bool)
    requires
        forall|i: int| 0 <= i < s.len() ==> !dirty(#[trigger] s[i], keep),
    ensures
        sanitized(s, keep) == s,
    decreases s.len(),
{
    if s.len() > 0 {
        lemma_clean_is_kept(s.drop_last(), keep);
        assert(!dirty(s[s.len() - 1], keep));
        assert(s.drop_last().push(s.last()) =~= s);
    } else {
        assert(sanitized(s, keep) =~= s);
    }
}

/// The text is clean.
pub open spec fn clean(s: Seq<char>, keep: bool) -> bool {
    forall|i: int| 0 <= i < s.len() ==> !dirty(#[trigger] s[i], keep)
}

fn sanitize_with<'a>(s: &'a str, keep: bool) -> (r: Cow<'a, str>)
    ensures
        r@ == sanitized(s@, keep),
        r is Borrowed <==> clean(s@, keep),
{
    let cs = chars_of(s);
    let n: usize = cs.len();
    let mut found = false;
    for i in 0..n
        invariant
            n == cs.len(),
            cs@ == s@,
            found ==> !clean(s@, keep),
            !found ==> forall|j: int| 0 <= j < i ==> !dirty(#[trigger] s@[j], keep),
    {
        if is_separator(cs[i]) || is_dropped(cs[i], keep) {
            found = true;
            proof { assert(dirty(s@[i as int], keep)); }
        }
    }
    if !found {
        proof { lemma_clean_is_kept(s@, keep); }
        return Cow::Borrowed(s);
    }
    let mut out = String::new();
    for i in 0..n
        invariant
            n == cs.len(),
            cs@ == s@,
            out@ == sanitized(s@.take(i as int), keep),
    {
        proof { assert(s@.take(i + 1).drop_last() =~= s@.take(i as int)); }
        if is_separator(cs[i]) {
            out.push(' ');
        } else if !is_dropped(cs[i], keep) {
            out.push(cs[i]);
        }
    }
    proof { assert(s@.take(n as int) =~= s@); }
    Cow::Owned(out)
}

/// A text that may have several lines, sanitized: newlines and tabs stay. A
/// clean text is handed back without a copy.
pub fn sanitize_text<'a>(s: &'a str) -> (r: Cow<'a, str>)
    ensures
        r@ == sanitized(s@, true),
        r is Borrowed <==> clean(s@, true),
{
    sanitize_with(s, true)
}

/// A text of one line, sanitized: newlines and tabs go like any other control.
pub fn sanitize_single_line<'a>(s: &'a str) -> (r: Cow<'a, str>)
    ensures
        r@ == sanitized(s@, false),
        r is Borrowed <==> clean(s@, false),
{
    sanitize_with(s, false)
}

/// How many leading clusters have no more than `room` characters together.
pub open spec fn clusters_within(parts: Seq<Seq<char>>, room: nat) -> nat
    decreases parts.len(),
{
    if parts.len() == 0 || parts[0].len() > room {
        0
    } else {
        1 + clusters_within(parts.drop_first(), (room - parts[0].len()) as nat)
    }
}

/// As many whole leading clusters as have no more than `room` characters.
pub open spec fn leading_clusters(s: Seq<char>, room: nat) -> Seq<char> {
    let parts = grapheme_clusters(s);
    concat_all(parts.take(clusters_within(parts, room) as int))
}

/// A text with no more than so many characters: a longer one is cut between
/// two clusters and says so at its end.
pub open spec fn length_capped(s: Seq<char>, max_chars: nat) -> Seq<char> {
    if s.len() <= max_chars {
        s
    } else {
        leading_clusters(s, max_chars) + "…[truncated]"@
    }
}

/// Cuts a text to no more than so many characters, never inside a cluster,
/// with a mark where it was cut. A text within the limit is handed back
/// without a copy.
pub fn cap_len<'a>(s: &'a str, max_chars: usize) -> (r: Cow<'a, str>)
    ensures
        r@ == length_capped(s@, max_chars as nat),
        r is Borrowed <==> s@.len() <= max_chars,
{
    let cs = chars_of(s);
    if cs.len() <= max_chars {
        return Cow::Borrowed(s);
    }
    let gs = graphemes(s);
    let ghost parts = views(gs@);
    let n: usize = gs.len();
    let mut out = String::new();
    let mut room: usize = max_chars;
    let mut i: usize = 0;
    let mut open = true;
    proof {
        assert(parts.skip(0) =~= parts);
        assert(parts.take(0) =~= Seq::empty());
    }
    while i < n && open
        invariant
            n == gs.len(),
            i <= n,
            parts == views(gs@),
            parts == grapheme_clusters(s@),
            out@ == concat_all(parts.take(i as int)),
            open ==> clusters_within(parts, max_chars as nat) == i + clusters_within(
                parts.skip(i as int),
                room as nat,
            ),
            !open ==> clusters_within(parts, max_chars as nat) == i,
        decreases
            n - i,
            if open {
                1int
            } else {
                0int
            },
    {
        let len: usize = chars_of(gs[i].as_str()).len();
        proof {
            assert(parts.skip(i as int)[0] == gs@[i as int]@);
            assert(parts.skip(i as int).drop_first() =~= parts.skip(i + 1));
        }
        if len > room {
            open = false;
        } else {
            room = room - len;
            proof {
                lemma_concat_push(parts.take(i as int), parts[i as int]);
                assert(parts.take(i as int).push(parts[i as int]) =~= parts.take(i + 1));
            }
            out.push_str(gs[i].as_str());
            i = i + 1;
        }
    }
    out.push_str("…[truncated]");
    Cow::Owned(out)
}

/// The clusters that are kept make up the start of the text, and have no more
/// characters than they may.
proof fn lemma_leading(parts: Seq<Seq<char>>, room: nat)
    ensures
        ({
            let k = clusters_within(parts, room) as int;
            &&& 0 <= k <= parts.len()
            &&& concat_all(parts.take(k)).len() <= room
            &&& concat_all(parts) == concat_all(parts.take(k)) + concat_all(parts.skip(k))
        }),
    decreases parts.len(),
{
    let k = clusters_within(parts, room) as int;
    if parts.len() > 0 && parts[0].len() <= room {
        let rest = parts.drop_first();
        lemma_leading(rest, (room - parts[0].len()) as nat);
        assert(parts.take(k).drop_first() =~= rest.take(k - 1));
        assert(parts.skip(k) =~= rest.skip(k - 1));
        lemma_concat_front(parts);
        lemma_concat_front(parts.take(k));
        assert(parts.take(k)[0] == parts[0]);
        assert(concat_all(parts) =~= concat_all(parts.take(k)) + concat_all(parts.skip(k)));
    } else {
        assert(parts.take(0) =~= Seq::empty());
        assert(parts.skip(0) =~= parts);
        assert(concat_all(parts) =~= concat_all(parts.take(0)) + concat_all(parts.skip(0)));
    }
}

proof fn lemma_concat_front(parts: Seq<Seq<char>>)
    requires
        parts.len() > 0,
    ensures
        concat_all(parts) == parts[0] + concat_all(parts.drop_first()),
    decreases parts.len(),
{
    if parts.len() == 1 {
        reveal_with_fuel(concat_all, 2);
        assert(parts.drop_last() =~= Seq::empty());
        assert(parts.drop_first() =~= Seq::empty());
        assert(concat_all(parts) =~= parts[0] + concat_all(parts.drop_first()));
    } else {
        lemma_concat_front(parts.drop_last());
        assert(parts.drop_last().drop_first() =~= parts.drop_first().drop_last());
        assert(concat_all(parts) =~= parts[0] + concat_all(parts.drop_first()));
    }
}

/// A cut text starts with whole clusters of the text, no more characters of it
/// than asked for.
pub proof fn a_cut_falls_between_clusters(s: Seq<char>, max_chars: nat)
    requires
        s.len() > max_chars,
    ensures
        ({
            let parts = grapheme_clusters(s);
            let k = clusters_within(parts, max_chars) as int;
            let kept = leading_clusters(s, max_chars);
            &&& 0 <= k <= parts.len()
            &&& kept == concat_all(parts.take(k))
            &&& kept.len() <= max_chars
            &&& kept == s.take(kept.len() as int)
            &&& length_capped(s, max_chars) == kept + "…[truncated]"@
        }),
{
    let parts = grapheme_clusters(s);
    clusters_make_up_the_string(s);
    lemma_leading(parts, max_chars);
    let kept = leading_clusters(s, max_chars);
    assert(kept =~= s.take(kept.len() as int));
}

fn into_text(c: Cow<'_, str>) -> (r: String)
    ensures
        r@ == c@,
{
    match c {
        Cow::Borrowed(s) => s.to_owned(),
        Cow::Owned(s) => s,
    }
}

/// A text that may have several lines, sanitized and then cut.
pub fn sanitize_and_cap_multiline(s: &str, max_chars: usize) -> (r: String)
    ensures
        r@ == length_capped(sanitized(s@, true), max_chars as nat),
{
    let clean_text = into_text(sanitize_text(s));
    into_text(cap_len(clean_text.as_str(), max_chars))
}

/// A text of one line, sanitized and then cut.
pub fn sanitize_and_cap_single_line(s: &str, max_chars: usize) -> (r: String)
    ensures
        r@ == length_capped(sanitized(s@, false), max_chars as nat),
{
    let clean_text = into_text(sanitize_single_line(s));
    into_text(cap_len(clean_text.as_str(), max_chars))
}

/// What comes out is clean: no character of it can start a control sequence.
pub proof fn sanitized_text_is_clean(s: Seq<char>, keep: bool)
    ensures
        clean(sanitized(s, keep), keep),
    decreases s.len(),
{
    if s.len() > 0 {
        sanitized_text_is_clean(s.drop_last(), keep);
        let before = sanitized(s.drop_last(), keep);
        let all = sanitized(s, keep);
        assert forall|i: int| 0 <= i < all.len() implies !dirty(#[trigger] all[i], keep) by {
            if i < before.len() {
                assert(all[i] == before[i]);
            }
        }
    }
}

/// Sanitizing twice is sanitizing once.
pub proof fn sanitizing_again_changes_nothing(s: Seq<char>, keep: bool)
    ensures
        sanitized(sanitized(s, keep), keep) == sanitized(s, keep),
{
    sanitized_text_is_clean(s, keep);
    lemma_clean_is_kept(sanitized(s, keep), keep);
}

/// A sanitized and cut text is clean too: the mark holds nothing that is taken
/// out.
pub proof fn cut_text_is_clean(s: Seq<char>, keep: bool, max_chars: nat)
    ensures
        clean(length_capped(sanitized(s, keep), max_chars), keep),
{
    sanitized_text_is_clean(s, keep);
    let t = sanitized(s, keep);
    let out = length_capped(t, max_chars);
    reveal_strlit("…[truncated]");
    if t.len() > max_chars {
        a_cut_falls_between_clusters(t, max_chars);
    }
    assert forall|i: int| 0 <= i < out.len() implies !dirty(#[trigger] out[i], keep) by {
        if t.len() > max_chars {
            let kept = leading_clusters(t, max_chars);
            if i < kept.len() {
                assert(out[i] == kept[i]);
                assert(kept[i] == t[i]);
            } else {
                assert(out[i] == "…[truncated]"@[i - kept.len()]);
            }
        } else {
            assert(out[i] == t[i]);
        }
    }
}

/// Text without any of these characters, such as accents, other scripts and
/// emoji with their joiners, comes through as it is.
pub proof fn clean_text_comes_through(s: Seq<char>, keep: bool)
    requires
        clean(s, keep),
    ensures
        sanitized(s, keep) == s,
{
    lemma_clean_is_kept(s, keep);
}

} // verus!
