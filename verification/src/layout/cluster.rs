//! Grapheme clusters: the units that lines are filled with.
use vstd::prelude::*;

use crate::layout::measure::cells;
use crate::layout::measure::display_width;
use crate::layout::measure::grapheme_clusters;
use crate::layout::measure::graphemes;
use crate::layout::types::KindModel;
use crate::layout::types::SpanKind;
use crate::text::all_whitespace;
use crate::text::chars_of;
use crate::text::concat_all;
use crate::text::is_all_whitespace;
use crate::text::lemma_concat_push;
use crate::text::repeat_char;
use crate::text::spaces;
use crate::text::views;

verus! {

/// One grapheme cluster with everything the line breaker needs.
#[derive(Debug)]
pub struct Cluster {
    pub text: String,
    pub width: usize,
    pub kind: SpanKind,
    pub is_space: bool,
    pub is_newline: bool,
    pub cjk: bool,
    pub first_char: char,
    pub last_char: char,
}

/// A cluster, with its text as characters.
#[verifier::ext_equal]
pub struct ClusterModel {
    pub text: Seq<char>,
    pub width: nat,
    pub kind: KindModel,
    pub is_space: bool,
    pub is_newline: bool,
    pub cjk: bool,
    pub first_char: char,
    pub last_char: char,
}

impl View for Cluster {
    type V = ClusterModel;

    open spec fn view(&self) -> ClusterModel {
        ClusterModel {
            text: self.text@,
            width: self.width as nat,
            kind: self.kind@,
            is_space: self.is_space,
            is_newline: self.is_newline,
            cjk: self.cjk,
            first_char: self.first_char,
            last_char: self.last_char,
        }
    }
}

impl Cluster {
    /// A copy of the cluster.
    pub fn copy(&self) -> (r: Cluster)
        ensures
            r@ == self@,
    {
        Cluster {
            text: self.text.clone(),
            width: self.width,
            kind: self.kind.copy(),
            is_space: self.is_space,
            is_newline: self.is_newline,
            cjk: self.cjk,
            first_char: self.first_char,
            last_char: self.last_char,
        }
    }
}

/// Copies of `clusters[from..to]`.
pub fn copy_clusters(clusters: &Vec<Cluster>, from: usize, to: usize) -> (r: Vec<Cluster>)
    requires
        from <= to <= clusters.len(),
    ensures
        views(r@) == views(clusters@).subrange(from as int, to as int),
{
    let mut out: Vec<Cluster> = Vec::new();
    let mut i: usize = from;
    while i < to
        invariant
            from <= i <= to <= clusters.len(),
            views(out@) == views(clusters@).subrange(from as int, i as int),
        decreases to - i,
    {
        let ghost pre = out@;
        out.push(clusters[i].copy());
        proof {
            assert(views(out@) =~= views(pre).push(clusters@[i as int]@));
            assert(views(clusters@).subrange(from as int, i + 1) =~= views(clusters@).subrange(
                from as int,
                i as int,
            ).push(clusters@[i as int]@));
        }
        i = i + 1;
    }
    out
}

/// Moves all of `more` to the end of `out`.
pub fn append_clusters(out: &mut Vec<Cluster>, more: Vec<Cluster>)
    ensures
        views(final(out)@) == views(old(out)@) + views(more@),
{
    let mut rest = more;
    out.append(&mut rest);
    assert(views(out@) =~= views(old(out)@) + views(more@));
}

/// The total width of a run of clusters.
pub open spec fn width_of(clusters: Seq<ClusterModel>) -> nat
    decreases clusters.len(),
{
    if clusters.len() == 0 {
        0
    } else {
        width_of(clusters.drop_last()) + clusters.last().width
    }
}

/// Width is additive over runs.
pub proof fn lemma_width_add(a: Seq<ClusterModel>, b: Seq<ClusterModel>)
    ensures
        width_of(a + b) == width_of(a) + width_of(b),
    decreases b.len(),
{
    if b.len() == 0 {
        assert(a + b =~= a);
    } else {
        assert((a + b).drop_last() =~= a + b.drop_last());
        lemma_width_add(a, b.drop_last());
    }
}

/// One more cluster adds its own width.
pub proof fn lemma_width_push(a: Seq<ClusterModel>, c: ClusterModel)
    ensures
        width_of(a.push(c)) == width_of(a) + c.width,
{
    assert(a.push(c).drop_last() =~= a);
}

/// The total width of `clusters`, or `usize::MAX` past that.
pub fn clusters_width(clusters: &Vec<Cluster>) -> (r: usize)
    ensures
        r as nat == width_of(views(clusters@)) || (r == usize::MAX && width_of(views(clusters@))
            >= usize::MAX),
{
    let mut sum: usize = 0;
    let n: usize = clusters.len();
    for i in 0..n
        invariant
            n == clusters.len(),
            sum as nat == width_of(views(clusters@).take(i as int)) || (sum == usize::MAX
                && width_of(views(clusters@).take(i as int)) >= usize::MAX),
    {
        proof {
            assert(views(clusters@).take(i + 1).drop_last() =~= views(clusters@).take(i as int));
        }
        sum = sum.saturating_add(clusters[i].width);
    }
    proof { assert(views(clusters@).take(n as int) =~= views(clusters@)); }
    sum
}

/// Scripts that wrap between any two characters: Han, kana, Hangul and the
/// punctuation and width blocks that go with them.
pub open spec fn cjk_char(c: char) -> bool {
    let u = c as u32;
    ||| 0x3000 <= u <= 0x303F
    ||| 0x3040 <= u <= 0x309F
    ||| 0x30A0 <= u <= 0x30FF
    ||| 0x31F0 <= u <= 0x31FF
    ||| 0x3400 <= u <= 0x4DBF
    ||| 0x4E00 <= u <= 0x9FFF
    ||| 0xF900 <= u <= 0xFAFF
    ||| 0xAC00 <= u <= 0xD7A3
    ||| 0x1100 <= u <= 0x11FF
    ||| 0xFF00 <= u <= 0xFFEF
}

/// Whether `c` belongs to a script that wraps between any two characters.
pub fn is_cjk(c: char) -> (r: bool)
    ensures
        r == cjk_char(c),
{
    let u: u32 = c as u32;
    (0x3000 <= u && u <= 0x303F)  // CJK symbols and punctuation
     || (0x3040 <= u && u <= 0x309F)  // Hiragana
     || (0x30A0 <= u && u <= 0x30FF)  // Katakana
     || (0x31F0 <= u && u <= 0x31FF)  // Katakana phonetic extensions
     || (0x3400 <= u && u <= 0x4DBF)  // CJK Unified Ideographs Extension A
     || (0x4E00 <= u && u <= 0x9FFF)  // CJK Unified Ideographs
     || (0xF900 <= u && u <= 0xFAFF)  // CJK Compatibility Ideographs
     || (0xAC00 <= u && u <= 0xD7A3)  // Hangul syllables
     || (0x1100 <= u && u <= 0x11FF)  // Hangul Jamo
     || (0xFF00 <= u && u <= 0xFFEF)  // Halfwidth and Fullwidth forms
}

/// The characters that may not start a line: closing punctuation, small kana
/// and iteration marks.
pub open spec fn no_start_chars() -> Seq<char> {
    seq![
        '。', '、', '．', '，', '：', '；', '！', '？', '・', '）', '」', '』', '】', '｝', '〕', '〉',
        '》', '〙', '〗', '!', '?', ')', ']', '}', ',', '.', 'ぁ', 'ぃ', 'ぅ', 'ぇ', 'ぉ', 'っ', 'ゃ',
        'ゅ', 'ょ', 'ゎ', 'ァ', 'ィ', 'ゥ', 'ェ', 'ォ', 'ッ', 'ャ', 'ュ', 'ョ', 'ヮ', 'ー', '々', 'ゝ',
        'ゞ', 'ヽ', 'ヾ',
    ]
}

/// The characters that may not end a line: opening brackets.
pub open spec fn no_end_chars() -> Seq<char> {
    seq!['（', '「', '『', '【', '｛', '〔', '〈', '《', '〖', '〘', '｢', '(', '[', '{']
}

fn listed(c: char, list: &[char]) -> (r: bool)
    ensures
        r == list@.contains(c),
{
    let n: usize = list.len();
    for i in 0..n
        invariant
            n == list@.len(),
            forall|j: int| 0 <= j < i ==> list@[j] != c,
    {
        if list[i] == c {
            assert(list@[i as int] == c);
            return true;
        }
    }
    false
}

/// Whether `c` may not start a line.
pub fn is_no_start(c: char) -> (r: bool)
    ensures
        r == no_start_chars().contains(c),
{
    let list = [
        '。', '、', '．', '，', '：', '；', '！', '？', '・', '）', '」', '』', '】', '｝', '〕', '〉',
        '》', '〙', '〗', '!', '?', ')', ']', '}', ',', '.', 'ぁ', 'ぃ', 'ぅ', 'ぇ', 'ぉ', 'っ', 'ゃ',
        'ゅ', 'ょ', 'ゎ', 'ァ', 'ィ', 'ゥ', 'ェ', 'ォ', 'ッ', 'ャ', 'ュ', 'ョ', 'ヮ', 'ー', '々', 'ゝ',
        'ゞ', 'ヽ', 'ヾ',
    ];
    assert(list@ =~= no_start_chars());
    listed(c, &list)
}

/// Whether `c` may not end a line.
pub fn is_no_end(c: char) -> (r: bool)
    ensures
        r == no_end_chars().contains(c),
{
    let list = ['（', '「', '『', '【', '｛', '〔', '〈', '《', '〖', '〘', '｢', '(', '[', '{'];
    assert(list@ =~= no_end_chars());
    listed(c, &list)
}

/// A gap between words, at least one cell wide.
pub open spec fn space_model(kind: KindModel, width: nat) -> ClusterModel {
    let w = if width < 1 {
        1
    } else {
        width
    };
    ClusterModel {
        text: spaces(w),
        width: w,
        kind,
        is_space: true,
        is_newline: false,
        cjk: false,
        first_char: ' ',
        last_char: ' ',
    }
}

/// A gap between words `width` cells wide, one at least.
pub fn space_cluster(kind: SpanKind, width: usize) -> (r: Cluster)
    ensures
        r@ == space_model(kind@, width as nat),
{
    let w: usize = if width < 1 {
        1
    } else {
        width
    };
    Cluster {
        text: repeat_char(' ', w),
        width: w,
        kind,
        is_space: true,
        is_newline: false,
        cjk: false,
        first_char: ' ',
        last_char: ' ',
    }
}

/// One cluster of text: it counts what it displays as, and whitespace one cell
/// at least.
pub open spec fn cluster_model(
    text: Seq<char>,
    kind: KindModel,
    ambiguous_wide: bool,
) -> ClusterModel {
    let is_newline = text == seq!['\n'];
    let is_space = !is_newline && text.len() > 0 && all_whitespace(text);
    let first = if text.len() > 0 {
        text.first()
    } else {
        ' '
    };
    let last = if text.len() > 0 {
        text.last()
    } else {
        ' '
    };
    ClusterModel {
        text,
        width: if (is_newline || is_space) && cells(text, ambiguous_wide) < 1 {
            1
        } else {
            cells(text, ambiguous_wide)
        },
        kind,
        is_space,
        is_newline,
        cjk: cjk_char(first),
        first_char: first,
        last_char: last,
    }
}

/// One cluster of text.
pub fn make_cluster(text: &str, kind: SpanKind, ambiguous_wide: bool) -> (r: Cluster)
    ensures
        r@ == cluster_model(text@, kind@, ambiguous_wide),
{
    let cs = chars_of(text);
    let n: usize = cs.len();
    let is_newline = n == 1 && cs[0] == '\n';
    assert(is_newline == (text@ =~= seq!['\n']));
    let is_space = !is_newline && n > 0 && is_all_whitespace(text);
    let first_char = if n > 0 {
        cs[0]
    } else {
        ' '
    };
    let last_char = if n > 0 {
        cs[n - 1]
    } else {
        ' '
    };
    let shown: usize = display_width(text, ambiguous_wide);
    let width: usize = if (is_newline || is_space) && shown < 1 {
        1
    } else {
        shown
    };
    Cluster {
        text: text.to_owned(),
        width,
        kind,
        is_space,
        is_newline,
        cjk: is_cjk(first_char),
        first_char,
        last_char,
    }
}

/// Texts as clusters of one kind.
pub open spec fn clusters_of(
    texts: Seq<Seq<char>>,
    kind: KindModel,
    ambiguous_wide: bool,
) -> Seq<ClusterModel> {
    texts.map_values(|g: Seq<char>| cluster_model(g, kind, ambiguous_wide))
}

/// A string as clusters of one kind.
pub open spec fn clusters_in(
    s: Seq<char>,
    kind: KindModel,
    ambiguous_wide: bool,
) -> Seq<ClusterModel> {
    clusters_of(grapheme_clusters(s), kind, ambiguous_wide)
}

/// A string as clusters of one kind.
pub fn clusters_from_str(s: &str, kind: SpanKind, ambiguous_wide: bool) -> (r: Vec<Cluster>)
    ensures
        views(r@) == clusters_in(s@, kind@, ambiguous_wide),
{
    let gs = graphemes(s);
    let n: usize = gs.len();
    let mut out: Vec<Cluster> = Vec::new();
    for i in 0..n
        invariant
            n == gs.len(),
            views(out@) == clusters_of(views(gs@).take(i as int), kind@, ambiguous_wide),
    {
        let ghost pre = out@;
        out.push(make_cluster(gs[i].as_str(), kind.copy(), ambiguous_wide));
        proof {
            assert(views(out@) =~= views(pre).push(out@.last()@));
            assert(views(gs@).take(i + 1) =~= views(gs@).take(i as int).push(gs@[i as int]@));
            assert(clusters_of(views(gs@).take(i + 1), kind@, ambiguous_wide) =~= clusters_of(
                views(gs@).take(i as int),
                kind@,
                ambiguous_wide,
            ).push(cluster_model(gs@[i as int]@, kind@, ambiguous_wide)));
        }
    }
    proof { assert(views(gs@).take(n as int) =~= views(gs@)); }
    out
}

/// The texts of a run of clusters.
pub open spec fn cluster_texts(clusters: Seq<ClusterModel>) -> Seq<Seq<char>> {
    clusters.map_values(|c: ClusterModel| c.text)
}

/// The text of a run of clusters.
pub open spec fn clusters_text(clusters: Seq<ClusterModel>) -> Seq<char> {
    concat_all(cluster_texts(clusters))
}

/// The text of a run of clusters.
pub fn text_of(clusters: &Vec<Cluster>) -> (r: String)
    ensures
        r@ == clusters_text(views(clusters@)),
{
    let mut out = String::new();
    let n: usize = clusters.len();
    for i in 0..n
        invariant
            n == clusters.len(),
            out@ == concat_all(cluster_texts(views(clusters@)).take(i as int)),
    {
        proof {
            let t = cluster_texts(views(clusters@));
            lemma_concat_push(t.take(i as int), t[i as int]);
            assert(t.take(i as int).push(t[i as int]) =~= t.take(i + 1));
        }
        out.push_str(clusters[i].text.as_str());
    }
    proof {
        let t = cluster_texts(views(clusters@));
        assert(t.take(n as int) =~= t);
    }
    out
}

} // verus!
