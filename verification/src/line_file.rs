//! Files of one record a line: changing one record and keeping every other
//! line as it stands, also those that hold no record.
use crate::text::views;
use vstd::prelude::*;

verus! {

/// The first place where `hits` is true, or its length.
pub open spec fn first_hit(hits: Seq<bool>) -> int
    decreases hits.len(),
{
    if hits.len() == 0 || hits[0] {
        0
    } else {
        1 + first_hit(hits.drop_first())
    }
}

/// The first hit is a hit, and nothing before it is.
pub proof fn lemma_first_hit(hits: Seq<bool>)
    ensures
        0 <= first_hit(hits) <= hits.len(),
        first_hit(hits) < hits.len() ==> hits[first_hit(hits)],
        forall|i: int| 0 <= i < first_hit(hits) ==> !(#[trigger] hits[i]),
    decreases hits.len(),
{
    if hits.len() > 0 && !hits[0] {
        let rest = hits.drop_first();
        lemma_first_hit(rest);
        assert forall|i: int| 0 <= i < first_hit(hits) implies !(#[trigger] hits[i]) by {
            if i > 0 {
                assert(!rest[i - 1]);
            }
        }
    }
}

/// The lines with the first that matches replaced, or taken out where there
/// is nothing to put in its place. Where none matches nothing is to be
/// written.
pub open spec fn rewritten(lines: Seq<Seq<char>>, hits: Seq<bool>, by: Option<Seq<char>>) -> Option<
    Seq<Seq<char>>,
> {
    let i = first_hit(hits);
    if i < lines.len() && i < hits.len() {
        match by {
            Some(line) => Some(lines.update(i, line)),
            None => Some(lines.remove(i)),
        }
    } else {
        None
    }
}

/// The lines with the first that matches replaced or taken out; `hits` says of
/// each line whether it matches.
pub fn rewrite_first(lines: &Vec<String>, hits: &Vec<bool>, by: Option<String>) -> (r: Option<
    Vec<String>,
>)
    ensures
        match r {
            Some(out) => rewritten(
                views(lines@),
                hits@,
                match by {
                    Some(line) => Some(line@),
                    None => None,
                },
            ) == Some(views(out@)),
            None => rewritten(
                views(lines@),
                hits@,
                match by {
                    Some(line) => Some(line@),
                    None => None,
                },
            ) is None,
        },
{
    let mut at: usize = 0;
    proof { assert(hits@.skip(0) =~= hits@); }
    while at < hits.len() && !hits[at]
        invariant
            at <= hits.len(),
            first_hit(hits@) == at + first_hit(hits@.skip(at as int)),
        decreases hits.len() - at,
    {
        proof { assert(hits@.skip(at as int).drop_first() =~= hits@.skip(at + 1)); }
        at = at + 1;
    }
    if at >= hits.len() || at >= lines.len() {
        return None;
    }
    let mut out: Vec<String> = Vec::new();
    let n: usize = lines.len();
    let ghost all = views(lines@);
    for i in 0..n
        invariant
            n == lines.len(),
            all == views(lines@),
            at < n,
            i <= at ==> views(out@) == all.take(i as int),
            i > at ==> views(out@) == all.take(i as int).remove(at as int),
    {
        if i != at {
            let ghost pre = out@;
            out.push(lines[i].clone());
            proof {
                assert(views(out@) =~= views(pre).push(all[i as int]));
                if i < at {
                    assert(views(out@) =~= all.take(i + 1));
                } else {
                    assert(views(out@) =~= all.take(i + 1).remove(at as int));
                }
            }
        } else {
            proof { assert(views(out@) =~= all.take(i + 1).remove(at as int)); }
        }
    }
    proof { assert(all.take(n as int) =~= all); }
    if let Some(line) = by {
        let ghost pre = out@;
        out.insert(at, line);
        proof {
            assert(views(pre) == all.remove(at as int));
            assert(out@ =~= pre.insert(at as int, line));
            assert forall|j: int| 0 <= j < n implies views(out@)[j] == all.update(
                at as int,
                line@,
            )[j] by {
                if j < at {
                    assert(out@[j] == pre[j] && views(pre)[j] == all[j]);
                } else if j > at {
                    assert(out@[j] == pre[j - 1] && views(pre)[j - 1] == all[j]);
                }
            }
            assert(views(out@) =~= all.update(at as int, line@));
        }
    }
    Some(out)
}

/// Changing a record keeps every other line as it stands.
pub proof fn other_lines_survive(
    lines: Seq<Seq<char>>,
    hits: Seq<bool>,
    by: Option<Seq<char>>,
    i: int,
)
    requires
        hits.len() == lines.len(),
        0 <= i < lines.len(),
        !hits[i],
        rewritten(lines, hits, by) is Some,
    ensures
        rewritten(lines, hits, by)->0.contains(lines[i]),
{
    lemma_first_hit(hits);
    let at = first_hit(hits);
    let out = rewritten(lines, hits, by)->0;
    match by {
        Some(line) => {
            assert(out[i] == lines[i]);
        },
        None => {
            if i < at {
                assert(out[i] == lines[i]);
            } else {
                assert(out[i - 1] == lines[i]);
            }
        },
    }
}

} // verus!
