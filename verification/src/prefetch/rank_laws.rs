//! Which links are chosen, said of the links themselves.
use crate::netqueue::LinkCandidate;
use crate::prefetch::rank::{
    lemma_cursor_is_outside, lemma_ranking, link_reason_text, qualities, views_text, Field,
    RankedModel,
};
use crate::text::joined_with;
use crate::text_laws::{decimal_reads_back, is_numeral, number_read};
use vstd::prelude::*;

verus! {

/// Of two links the first stands no later: it scored higher, or as high and
/// comes no later in the document.
pub open spec fn stands_ahead(f: Field, a: int, b: int) -> bool {
    f.ranks@[a] > f.ranks@[b] || (f.ranks@[a] == f.ranks@[b] && f.candidates@[a].lead_position
        <= f.candidates@[b].lead_position)
}

/// The other links that stand no later than link `c`.
pub open spec fn rivals(f: Field, c: int) -> Set<int> {
    Set::new(|i: int| 0 <= i < f.candidates@.len() && i != c && stands_ahead(f, i, c))
}

/// How many links are chosen by rank: as many as are asked for, or all.
pub open spec fn quota(f: Field, top_n: nat) -> nat {
    if top_n <= f.candidates@.len() {
        top_n
    } else {
        f.candidates@.len()
    }
}

/// Result `r` is made of the links `picked`: each its title and rank.
pub open spec fn made_of(f: Field, r: Seq<RankedModel>, picked: Seq<int>) -> bool {
    &&& picked.len() == r.len()
    &&& picked.no_duplicates()
    &&& forall|k: int| 0 <= k < picked.len() ==> 0 <= (#[trigger] picked[k]) < f.candidates@.len()
    &&& forall|k: int|
        0 <= k < r.len() ==> (#[trigger] r[k]).title == f.candidates@[picked[k]].title@ && r[k].rank
            == f.ranks@[picked[k]]
}

/// The first `m` of `picked` are the best `m` links, the best first.
pub open spec fn best_first(f: Field, picked: Seq<int>, m: nat) -> bool {
    &&& m <= picked.len()
    &&& forall|j: int, k: int|
        0 <= j < k < m ==> stands_ahead(f, #[trigger] picked[j], #[trigger] picked[k])
    &&& forall|k: int, c: int|
        0 <= k < m && 0 <= c < f.candidates@.len() && !#[trigger] picked.take(m as int).contains(c)
            ==> stands_ahead(f, #[trigger] picked[k], c)
}

/// As many links come back as were asked for, or all there are, the best first;
/// and one link more exactly where the link under the cursor is not among those.
pub proof fn the_best_come_back(article: Seq<char>, f: Field, top_n: nat, r: Seq<RankedModel>) -> (
    picked: Seq<int>)
    requires
        f.wf(),
        r == f.links(article, f.chosen(top_n)),
    ensures
        made_of(f, r, picked),
        best_first(f, picked, quota(f, top_n)),
        quota(f, top_n) <= r.len() <= quota(f, top_n) + 1,
        r.len() > quota(f, top_n) ==> {
            &&& f.candidates@[picked.last()].is_cursor
            &&& forall|k: int|
                0 <= k < quota(f, top_n) ==> (#[trigger] r[k]).title
                    != f.candidates@[picked.last()].title@
        },
        r.len() == quota(f, top_n) ==> forall|c: int|
            0 <= c < f.candidates@.len() && (#[trigger] f.candidates@[c]).is_cursor ==> exists|k: int|
                0 <= k < r.len() && (#[trigger] r[k]).title == f.candidates@[c].title@,
{
    let n = f.candidates@.len();
    let order = f.ranking(n);
    lemma_ranking(f, n);
    let m = quota(f, top_n);
    let top = f.top(top_n);
    assert(top =~= order.take(m as int));
    let picked = f.chosen(top_n);
    let titles = f.titles(top);
    lemma_cursor_is_outside(f, order, titles);
    lemma_distinct(order, n);
    assert forall|k: int| 0 <= k < order.len() implies 0 <= (#[trigger] order[k]) < n by {
        assert(order.contains(order[k]));
    }
    lemma_outside_of(f, order, titles);
    assert(picked.take(m as int) =~= top);
    assert(made_of(f, r, picked)) by {
        assert forall|k: int| 0 <= k < picked.len() implies 0 <= (#[trigger] picked[k]) < n by {
            if k < m {
                assert(picked[k] == order[k]);
            } else {
                assert(order.contains(picked[k]));
            }
        }
        assert forall|j: int, k: int| 0 <= j < k < picked.len() implies picked[j] != picked[k] by {
            if k < m {
                assert(picked[j] == order[j] && picked[k] == order[k]);
            } else {
                assert(titles[j] == f.candidates@[picked[j]].title@);
                assert(titles.contains(titles[j]));
            }
        }
    }
    assert(best_first(f, picked, m)) by {
        assert forall|j: int, k: int| 0 <= j < k < m implies stands_ahead(
            f,
            #[trigger] picked[j],
            #[trigger] picked[k],
        ) by {
            assert(picked[j] == order[j] && picked[k] == order[k]);
            assert(f.ahead(order[j], order[k]));
        }
        assert forall|k: int, c: int|
            0 <= k < m && 0 <= c < n && !#[trigger] picked.take(m as int).contains(
                c,
            ) implies stands_ahead(f, #[trigger] picked[k], c) by {
            assert(order.contains(c));
            let at = order.index_of(c);
            if at < m {
                assert(top[at] == c);
            }
            assert(picked[k] == order[k]);
            assert(f.ahead(order[k], order[at]));
        }
    }
    if r.len() > m {
        assert forall|k: int| 0 <= k < m implies (#[trigger] r[k]).title
            != f.candidates@[picked.last()].title@ by {
            assert(titles[k] == r[k].title);
            assert(titles.contains(titles[k]));
        }
    } else {
        assert forall|c: int|
            0 <= c < n && (#[trigger] f.candidates@[c]).is_cursor implies exists|k: int|
            0 <= k < r.len() && (#[trigger] r[k]).title == f.candidates@[c].title@ by {
            assert(order.contains(c));
            let at = order.index_of(c);
            assert(order[at] == c);
            assert(titles.contains(f.candidates@[c].title@));
            let k = titles.index_of(f.candidates@[c].title@);
            assert(r[k].title == titles[k]);
        }
    }
    picked
}

/// The link that is found outside some titles is one of the links; where none
/// is found, every link under the cursor has one of the titles.
proof fn lemma_outside_of(f: Field, order: Seq<int>, titles: Seq<Seq<char>>)
    ensures
        match f.cursor_outside(order, titles) {
            Some(i) => order.contains(i),
            None => forall|k: int|
                0 <= k < order.len() && f.candidates@[#[trigger] order[k]].is_cursor
                    ==> titles.contains(f.candidates@[order[k]].title@),
        },
    decreases order.len(),
{
    if order.len() > 0 {
        let rest = order.drop_first();
        lemma_outside_of(f, rest, titles);
        match f.cursor_outside(order, titles) {
            Some(i) => {
                if i == order[0] {
                    assert(order.contains(order[0]));
                } else {
                    let k = rest.index_of(i);
                    assert(order[k + 1] == i);
                }
            },
            None => {
                assert forall|k: int|
                    0 <= k < order.len() && f.candidates@[#[trigger] order[k]].is_cursor implies titles.contains(
                f.candidates@[order[k]].title@) by {
                    if k > 0 {
                        assert(rest[k - 1] == order[k]);
                    }
                }
            },
        }
    }
}

/// A list of `n` that holds each number below `n` holds none of them twice.
proof fn lemma_distinct(list: Seq<int>, n: nat)
    requires
        list.len() == n,
        forall|i: int| #[trigger] list.contains(i) <==> 0 <= i < n,
    ensures
        list.no_duplicates(),
{
    let all = vstd::set_lib::set_int_range(0, n as int);
    vstd::set_lib::lemma_int_range(0, n as int);
    assert(list.to_set() =~= all);
    list.lemma_no_dup_set_cardinality();
}

/// Every link that fewer than `top_n` others stand ahead of is chosen.
pub proof fn a_link_with_few_ahead_is_chosen(
    article: Seq<char>,
    f: Field,
    top_n: nat,
    r: Seq<RankedModel>,
    c: int,
)
    requires
        f.wf(),
        r == f.links(article, f.chosen(top_n)),
        0 <= c < f.candidates@.len(),
        rivals(f, c).len() < top_n,
    ensures
        exists|k: int|
            0 <= k < r.len() && (#[trigger] r[k]).title == f.candidates@[c].title@ && r[k].rank
                == f.ranks@[c],
{
    let picked = the_best_come_back(article, f, top_n, r);
    let m = quota(f, top_n);
    let top = picked.take(m as int);
    let n = f.candidates@.len();
    let all = vstd::set_lib::set_int_range(0, n as int);
    vstd::set_lib::lemma_int_range(0, n as int);
    vstd::set_lib::lemma_len_subset(rivals(f, c), all);
    if top.contains(c) {
        let k = top.index_of(c);
        assert(picked[k] == c);
        assert(r[k].title == f.candidates@[picked[k]].title@);
    } else {
        assert(top.no_duplicates());
        top.unique_seq_to_set();
        assert forall|i: int| top.to_set().contains(i) implies rivals(f, c).contains(i) by {
            let k = top.index_of(i);
            assert(picked[k] == i);
            assert(stands_ahead(f, picked[k], c));
        }
        if top_n <= n {
            vstd::set_lib::lemma_len_subset(top.to_set(), rivals(f, c));
            assert(false);
        } else {
            let with = top.to_set().insert(c);
            assert forall|i: int| with.contains(i) implies all.contains(i) by {
                if i != c {
                    let k = top.index_of(i);
                    assert(picked[k] == i);
                }
            }
            vstd::set_lib::lemma_len_subset(with, all);
            assert(false);
        }
    }
}

/// A count of views in short says the count itself below a thousand, whole
/// thousands below a million.
pub proof fn short_counts_read_back(v: nat) -> (digits: Seq<char>)
    requires
        v < 1_000_000,
    ensures
        is_numeral(digits),
        v < 1000 ==> views_text(v) == digits && number_read(digits) == v,
        v >= 1000 ==> views_text(v) == digits.push('k') && number_read(digits) * 1000 <= v
            < number_read(digits) * 1000 + 1000,
{
    if v < 1000 {
        decimal_reads_back(v);
        views_text(v)
    } else {
        decimal_reads_back(v / 1000);
        reveal_strlit("k");
        let digits = views_text(v).drop_last();
        assert(digits =~= crate::text::decimal(v / 1000));
        assert(views_text(v) =~= digits.push('k'));
        digits
    }
}

/// The reason for a link names the page it is on, and says behind that, and
/// nothing else, that the link is under the cursor, that it is one of the first
/// five, and how often its target is viewed: each exactly where it is so.
pub proof fn reasons_say_what_is_so(article: Seq<char>, c: LinkCandidate, views: u64)
    ensures
        ({
            let head = "linked from "@ + article;
            let r = link_reason_text(article, c, views);
            let lead = c.lead_position < 5;
            if views == 0 {
                match (c.is_cursor, lead) {
                    (false, false) => r == head,
                    (true, false) => r == head + " (under cursor)"@,
                    (false, true) => r == head + " (lead)"@,
                    (true, true) => r == head + " (under cursor, lead)"@,
                }
            } else {
                let seen = views_text(views as nat) + " views/day)"@;
                match (c.is_cursor, lead) {
                    (false, false) => r == head + " ("@ + seen,
                    (true, false) => r == head + " (under cursor, "@ + seen,
                    (false, true) => r == head + " (lead, "@ + seen,
                    (true, true) => r == head + " (under cursor, lead, "@ + seen,
                }
            }
        }),
{
    let head = "linked from "@ + article;
    let r = link_reason_text(article, c, views);
    let said = qualities(c, views);
    let seen = views_text(views as nat) + " views/day)"@;
    reveal_with_fuel(joined_with, 4);
    reveal_strlit(" (");
    reveal_strlit(")");
    reveal_strlit(", ");
    reveal_strlit("under cursor");
    reveal_strlit("lead");
    reveal_strlit(" views/day");
    reveal_strlit(" views/day)");
    reveal_strlit(" (under cursor)");
    reveal_strlit(" (lead)");
    reveal_strlit(" (under cursor, lead)");
    reveal_strlit(" (under cursor, ");
    reveal_strlit(" (lead, ");
    reveal_strlit(" (under cursor, lead, ");
    let lead = c.lead_position < 5;
    let cursor = seq!["under cursor"@];
    let viewed = seq![views_text(views as nat) + " views/day"@];
    if views == 0 {
        if c.is_cursor && lead {
            assert(said =~= seq!["under cursor"@, "lead"@]);
            assert(said.drop_last() =~= cursor);
            assert(r =~= head + " (under cursor, lead)"@);
        } else if c.is_cursor {
            assert(said =~= cursor);
            assert(r =~= head + " (under cursor)"@);
        } else if lead {
            assert(said =~= seq!["lead"@]);
            assert(r =~= head + " (lead)"@);
        } else {
            assert(said =~= Seq::empty());
        }
    } else {
        let v = views_text(views as nat) + " views/day"@;
        if c.is_cursor && lead {
            assert(said =~= seq!["under cursor"@, "lead"@, v]);
            assert(said.drop_last() =~= seq!["under cursor"@, "lead"@]);
            assert(seq!["under cursor"@, "lead"@].drop_last() =~= cursor);
            assert(r =~= head + " (under cursor, lead, "@ + seen);
        } else if c.is_cursor {
            assert(said =~= seq!["under cursor"@, v]);
            assert(said.drop_last() =~= cursor);
            assert(r =~= head + " (under cursor, "@ + seen);
        } else if lead {
            assert(said =~= seq!["lead"@, v]);
            assert(said.drop_last() =~= seq!["lead"@]);
            assert(r =~= head + " (lead, "@ + seen);
        } else {
            assert(said =~= seq![v]);
            assert(r =~= head + " ("@ + seen);
        }
    }
}

} // verus!
