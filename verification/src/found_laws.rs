//! What is under a cell of a line, and which box or picture belongs to a
//! source.
use vstd::prelude::*;

use crate::layout::measure::cells;
use crate::layout::types::link_under;
use crate::layout::types::lookup_box;
use crate::layout::types::KindModel;
use crate::layout::types::SpanModel;
use crate::saved::SavedThumb;
use crate::saved_export::picture;
use crate::saved_export::readable;

verus! {

/// The cell that span `k` of a line starts on.
pub open spec fn first_cell(spans: Seq<SpanModel>, k: int, ambiguous_wide: bool) -> int
    decreases k,
{
    if k <= 0 {
        0
    } else {
        first_cell(spans, k - 1, ambiguous_wide) + cells(spans[k - 1].text, ambiguous_wide)
    }
}

proof fn lemma_first_cell(spans: Seq<SpanModel>, k: int, ambiguous_wide: bool)
    requires
        0 < k <= spans.len(),
    ensures
        first_cell(spans, k, ambiguous_wide) == cells(spans[0].text, ambiguous_wide) + first_cell(
            spans.drop_first(),
            k - 1,
            ambiguous_wide,
        ),
        first_cell(spans, k, ambiguous_wide) >= cells(spans[0].text, ambiguous_wide),
    decreases k,
{
    if k == 1 {
        assert(first_cell(spans, 0, ambiguous_wide) == 0);
        assert(first_cell(spans.drop_first(), 0, ambiguous_wide) == 0);
    } else {
        lemma_first_cell(spans, k - 1, ambiguous_wide);
        assert(spans.drop_first()[k - 2] == spans[k - 1]);
    }
}

/// A cell within a span is on a link exactly where the span is one, and on
/// that one.
pub proof fn a_cell_is_on_the_span_that_covers_it(
    spans: Seq<SpanModel>,
    k: int,
    col: int,
    ambiguous_wide: bool,
)
    requires
        0 <= k < spans.len(),
        first_cell(spans, k, ambiguous_wide) <= col < first_cell(spans, k + 1, ambiguous_wide),
    ensures
        match spans[k].kind {
            KindModel::Link(occurrence) => link_under(spans, col, ambiguous_wide) == Some(
                occurrence,
            ),
            _ => link_under(spans, col, ambiguous_wide) is None,
        },
    decreases spans.len(),
{
    lemma_first_cell(spans, k + 1, ambiguous_wide);
    if k == 0 {
        assert(first_cell(spans.drop_first(), 0, ambiguous_wide) == 0);
    } else {
        lemma_first_cell(spans, k, ambiguous_wide);
        let rest = spans.drop_first();
        assert(rest[k - 1] == spans[k]);
        a_cell_is_on_the_span_that_covers_it(
            rest,
            k - 1,
            col - cells(spans[0].text, ambiguous_wide),
            ambiguous_wide,
        );
    }
}

/// A cell past the end of a line is on no link.
pub proof fn past_the_end_is_no_link(spans: Seq<SpanModel>, col: int, ambiguous_wide: bool)
    requires
        col >= first_cell(spans, spans.len() as int, ambiguous_wide),
    ensures
        link_under(spans, col, ambiguous_wide) is None,
    decreases spans.len(),
{
    if spans.len() > 0 {
        lemma_first_cell(spans, spans.len() as int, ambiguous_wide);
        past_the_end_is_no_link(
            spans.drop_first(),
            col - cells(spans[0].text, ambiguous_wide),
            ambiguous_wide,
        );
    }
}

/// The box of a source is that of its last entry, and there is none exactly
/// where no entry is for it.
pub proof fn the_last_box_counts(entries: Seq<(String, (u16, u16))>, src: Seq<char>) -> (i: int)
    ensures
        match lookup_box(entries, src) {
            Some(size) => {
                &&& 0 <= i < entries.len()
                &&& entries[i].0@ == src
                &&& entries[i].1 == size
                &&& forall|j: int| i < j < entries.len() ==> (#[trigger] entries[j]).0@ != src
            },
            None => forall|j: int| 0 <= j < entries.len() ==> (#[trigger] entries[j]).0@ != src,
        },
    decreases entries.len(),
{
    if entries.len() == 0 || entries.last().0@ == src {
        entries.len() - 1
    } else {
        let rest = entries.drop_last();
        let i = the_last_box_counts(rest, src);
        let low = if lookup_box(entries, src) is Some {
            i
        } else {
            -1
        };
        assert forall|j: int| low < j < entries.len() implies (#[trigger] entries[j]).0@
            != src by {
            if j < entries.len() - 1 {
                assert(entries[j] == rest[j]);
            }
        }
        i
    }
}

/// The picture of a source is the first that is from it, and there is none
/// exactly where none is.
pub proof fn the_first_picture_counts(
    thumbs: Seq<(Seq<char>, Seq<u8>)>,
    src: Seq<char>,
) -> (i: int)
    ensures
        match picture(thumbs, src) {
            Some(bytes) => {
                &&& 0 <= i < thumbs.len()
                &&& thumbs[i] == (src, bytes)
                &&& forall|j: int| 0 <= j < i ==> (#[trigger] thumbs[j]).0 != src
            },
            None => forall|j: int| 0 <= j < thumbs.len() ==> (#[trigger] thumbs[j]).0 != src,
        },
    decreases thumbs.len(),
{
    if thumbs.len() == 0 || thumbs[0].0 == src {
        0
    } else {
        let rest = thumbs.drop_first();
        let i = the_first_picture_counts(rest, src);
        let high = if picture(thumbs, src) is Some {
            i + 1
        } else {
            thumbs.len() as int
        };
        assert forall|j: int| 0 <= j < high implies (#[trigger] thumbs[j]).0 != src by {
            if j > 0 {
                assert(thumbs[j] == rest[j - 1]);
            }
        }
        i + 1
    }
}

/// Of the first `n` pictures, how many could be read.
pub open spec fn read_among(loaded: Seq<Option<Vec<u8>>>, n: int) -> int
    decreases n,
{
    if n <= 0 {
        0
    } else {
        read_among(loaded, n - 1) + if loaded[n - 1] is Some {
            1int
        } else {
            0
        }
    }
}

proof fn lemma_read_among(loaded: Seq<Option<Vec<u8>>>, n: int)
    requires
        0 < n <= loaded.len(),
    ensures
        read_among(loaded, n) == read_among(loaded.drop_first(), n - 1) + if loaded[0] is Some {
            1int
        } else {
            0
        },
        read_among(loaded.drop_first(), n - 1) >= 0,
    decreases n,
{
    if n == 1 {
        assert(read_among(loaded, 0) == 0);
    } else {
        lemma_read_among(loaded, n - 1);
        assert(loaded.drop_first()[n - 2] == loaded[n - 1]);
    }
}

/// Each picture that could be read is kept with its own source and bytes, in
/// its turn, and no more are kept than could be read.
pub proof fn what_was_read_is_kept(
    thumbs: Seq<SavedThumb>,
    loaded: Seq<Option<Vec<u8>>>,
    k: int,
)
    requires
        thumbs.len() == loaded.len(),
        0 <= k < thumbs.len(),
    ensures
        readable(thumbs, loaded).len() == read_among(loaded, loaded.len() as int),
        match loaded[k] {
            Some(bytes) => {
                &&& 0 <= read_among(loaded, k) < readable(thumbs, loaded).len()
                &&& readable(thumbs, loaded)[read_among(loaded, k)] == (thumbs[k].src@, bytes@)
            },
            None => true,
        },
    decreases thumbs.len(),
{
    let more = thumbs.drop_first();
    let left = loaded.drop_first();
    lemma_read_among(loaded, loaded.len() as int);
    if k > 0 {
        lemma_read_among(loaded, k);
        what_was_read_is_kept(more, left, k - 1);
        assert(more[k - 1] == thumbs[k] && left[k - 1] == loaded[k]);
    } else if more.len() > 0 {
        what_was_read_is_kept(more, left, 0);
    }
}

} // verus!
