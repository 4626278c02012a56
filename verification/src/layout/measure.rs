//! Measuring text: terminal cells, grapheme clusters, hyphenation points.
use hyphenation::Hyphenator;
use hyphenation::Load;
use unicode_segmentation::UnicodeSegmentation;
use unicode_width::UnicodeWidthStr;
use vstd::prelude::*;

use crate::text::concat_all;
use crate::text::spaces;
use crate::text::views;

verus! {

/// The cells that `unicode_width`'s tables give one character from U+00A0 on
/// where ambiguous-width characters are narrow.
pub uninterp spec fn narrow_cells(c: char) -> nat;

/// The cells that `unicode_width`'s tables give one character from U+00A0 on
/// where ambiguous-width characters are wide.
pub uninterp spec fn wide_cells(c: char) -> nat;

/// A table entry: none, one or two cells.
pub open spec fn entry(n: nat) -> nat {
    if n <= 2 {
        n
    } else {
        2
    }
}

/// The cells one character takes: printable ASCII takes one, a control
/// character none, a light or heavy box-drawing line is ambiguous, and any
/// other takes what the tables say, two at most.
pub open spec fn char_cells(c: char, ambiguous_wide: bool) -> nat {
    if 0x20 <= c as u32 && (c as u32) < 0x7F {
        1
    } else if (c as u32) < 0xA0 {
        0
    } else if 0x2500 <= c as u32 && c as u32 <= 0x254B {
        if ambiguous_wide {
            2
        } else {
            1
        }
    } else if ambiguous_wide {
        entry(wide_cells(c))
    } else {
        entry(narrow_cells(c))
    }
}

/// The cells a string takes: the sum over its characters.
pub open spec fn cells(s: Seq<char>, ambiguous_wide: bool) -> nat
    decreases s.len(),
{
    if s.len() == 0 {
        0
    } else {
        cells(s.drop_last(), ambiguous_wide) + char_cells(s.last(), ambiguous_wide)
    }
}

/// Calls `unicode_width::UnicodeWidthStr::width`: the sum of the characters'
/// widths, in which printable ASCII counts one, control characters nothing,
/// and any other character the table entry, which is at most two and is one
/// for the box-drawing lines.
#[verifier::external_body]
fn str_cells_narrow(s: &str) -> (r: usize)
    ensures
        r as nat == cells(s@, false),
        s@.len() == 1 && s@[0] as u32 >= 0xA0 ==> r as nat == narrow_cells(s@[0]),
{
    UnicodeWidthStr::width(s)
}

/// Calls `unicode_width::UnicodeWidthStr::width_cjk`: as
/// [`str_cells_narrow`], with ambiguous-width characters, the box-drawing lines
/// among them, counted two.
#[verifier::external_body]
fn str_cells_wide(s: &str) -> (r: usize)
    ensures
        r as nat == cells(s@, true),
        s@.len() == 1 && s@[0] as u32 >= 0xA0 ==> r as nat == wide_cells(s@[0]),
{
    UnicodeWidthStr::width_cjk(s)
}

/// Display width of a string in terminal cells: the sum of its characters'
/// widths, so it is exactly additive over concatenation.
pub fn display_width(s: &str, ambiguous_wide: bool) -> (r: usize)
    ensures
        r as nat == cells(s@, ambiguous_wide),
{
    if ambiguous_wide {
        str_cells_wide(s)
    } else {
        str_cells_narrow(s)
    }
}

/// Display width is additive over concatenation.
pub proof fn cells_additive(a: Seq<char>, b: Seq<char>, ambiguous_wide: bool)
    ensures
        cells(a + b, ambiguous_wide) == cells(a, ambiguous_wide) + cells(b, ambiguous_wide),
    decreases b.len(),
{
    if b.len() == 0 {
        assert(a + b =~= a);
    } else {
        assert((a + b).drop_last() =~= a + b.drop_last());
        cells_additive(a, b.drop_last(), ambiguous_wide);
    }
}

/// A run of `n` spaces is `n` cells wide.
pub proof fn lemma_cells_spaces(n: nat, ambiguous_wide: bool)
    ensures
        cells(spaces(n), ambiguous_wide) == n,
    decreases n,
{
    if n > 0 {
        assert(spaces(n).drop_last() =~= spaces((n - 1) as nat));
        lemma_cells_spaces((n - 1) as nat, ambiguous_wide);
    }
}

/// The extended grapheme clusters that `unicode_segmentation` cuts a string
/// into.
pub uninterp spec fn segmentation(s: Seq<char>) -> Seq<Seq<char>>;

/// Parts that are not empty and make up the string.
pub open spec fn cuts(parts: Seq<Seq<char>>, s: Seq<char>) -> bool {
    &&& concat_all(parts) == s
    &&& forall|i: int| 0 <= i < parts.len() ==> (#[trigger] parts[i]).len() > 0
}

/// A line break is a part by itself, or with the carriage return before it.
pub open spec fn breaks_stand_alone(parts: Seq<Seq<char>>) -> bool {
    forall|i: int|
        0 <= i < parts.len() && (#[trigger] parts[i]).contains('\n') ==> parts[i] == seq!['\n']
            || parts[i] == seq!['\r', '\n']
}

/// Every character by itself.
pub open spec fn singles(s: Seq<char>) -> Seq<Seq<char>> {
    Seq::new(s.len(), |i: int| seq![s[i]])
}

/// The grapheme clusters of a string, in order: none is empty, together they
/// are the string, and a line break joins no other character's cluster.
pub open spec fn grapheme_clusters(s: Seq<char>) -> Seq<Seq<char>> {
    if cuts(segmentation(s), s) && breaks_stand_alone(segmentation(s)) {
        segmentation(s)
    } else {
        singles(s)
    }
}

/// Grapheme clusters are never empty, together they are the string, and a line
/// break joins no other character's cluster.
pub proof fn clusters_make_up_the_string(s: Seq<char>)
    ensures
        cuts(grapheme_clusters(s), s),
        breaks_stand_alone(grapheme_clusters(s)),
{
    lemma_singles(s);
    let parts = singles(s);
    assert forall|i: int|
        0 <= i < parts.len() && (#[trigger] parts[i]).contains('\n') implies parts[i] == seq![
        '\n',
    ] by {
        let k = choose|k: int| 0 <= k < parts[i].len() && parts[i][k] == '\n';
        assert(parts[i] =~= seq!['\n']);
    }
}

proof fn lemma_singles(s: Seq<char>)
    ensures
        cuts(singles(s), s),
    decreases s.len(),
{
    if s.len() > 0 {
        lemma_singles(s.drop_last());
        assert(singles(s).drop_last() =~= singles(s.drop_last()));
        assert(concat_all(singles(s)) =~= s);
    } else {
        assert(concat_all(singles(s)) =~= s);
    }
}

/// Calls `unicode_segmentation`'s `graphemes(true)`, which cuts the string
/// into its extended grapheme clusters: none is empty, together they are the
/// string, and there is a boundary before and after every line break, but for
/// a carriage return before it.
#[verifier::external_body]
pub(crate) fn graphemes(s: &str) -> (r: Vec<String>)
    ensures
        views(r@) == segmentation(s@),
        views(r@) == grapheme_clusters(s@),
{
    s.graphemes(true).map(|g| g.to_string()).collect()
}

/// The byte offsets at which the American English patterns allow a word to be
/// broken.
pub uninterp spec fn hyphenation_points(word: Seq<char>) -> Seq<usize>;

/// Calls `hyphenation::Standard::hyphenate` with the embedded American English
/// patterns (`Standard::from_embedded`) and hands back the byte offsets of the
/// breaks; no break when the embedded patterns do not decode.
#[verifier::external_body]
pub(crate) fn hyphenation_breaks(word: &str) -> (r: Vec<usize>)
    ensures
        r@ == hyphenation_points(word@),
{
    match hyphenation::Standard::from_embedded(hyphenation::Language::EnglishUS) {
        Ok(dict) => dict.hyphenate(word).breaks,
        Err(_) => Vec::new(),
    }
}

} // verus!
