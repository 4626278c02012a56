//! Picking a random article that is worth reading.
use crate::text::{same_str, views};
use vstd::prelude::*;

verus! {

/// How many titles are drawn at once.
pub const GOOD_BATCH: u32 = 10;

/// How an article is assessed.
#[derive(Debug, Clone, Copy, PartialEq, Eq, Structural)]
pub enum QualityClass {
    Fa,
    Fl,
    A,
    Ga,
    B,
    C,
    Start,
    Stub,
}

/// A good article or better.
pub open spec fn good_or_better(class: QualityClass) -> bool {
    class == QualityClass::Fa || class == QualityClass::Fl || class == QualityClass::A || class
        == QualityClass::Ga
}

impl QualityClass {
    /// Whether it is a good article or better.
    pub fn is_good_or_better(self) -> (r: bool)
        ensures
            r == good_or_better(self),
    {
        match self {
            QualityClass::Fa | QualityClass::Fl | QualityClass::A | QualityClass::Ga => true,
            _ => false,
        }
    }
}

/// What a batch gave.
#[derive(Debug, Clone, PartialEq, Eq)]
pub enum RandomGood {
    /// A good article.
    Found(String),
    /// No good article; the first that was drawn.
    Fallback(String),
    /// Nothing was drawn.
    Empty,
}

/// What a batch gave, by its title.
pub enum PickModel {
    Found(Seq<char>),
    Fallback(Seq<char>),
    Empty,
}

impl View for RandomGood {
    type V = PickModel;

    open spec fn view(&self) -> PickModel {
        match *self {
            RandomGood::Found(t) => PickModel::Found(t@),
            RandomGood::Fallback(t) => PickModel::Fallback(t@),
            RandomGood::Empty => PickModel::Empty,
        }
    }
}

/// How a title is assessed; one that is not listed is not.
pub open spec fn class_of(assessments: Seq<(String, QualityClass)>, title: Seq<char>) -> Option<
    QualityClass,
>
    decreases assessments.len(),
{
    if assessments.len() == 0 {
        None
    } else if assessments[0].0@ == title {
        Some(assessments[0].1)
    } else {
        class_of(assessments.drop_first(), title)
    }
}

/// The title is assessed as a good article or better.
pub open spec fn assessed_good(assessments: Seq<(String, QualityClass)>, title: Seq<char>) -> bool {
    match class_of(assessments, title) {
        Some(class) => good_or_better(class),
        None => false,
    }
}

/// The first good title from a place on.
pub open spec fn first_good(
    titles: Seq<Seq<char>>,
    assessments: Seq<(String, QualityClass)>,
) -> Option<Seq<char>>
    decreases titles.len(),
{
    if titles.len() == 0 {
        None
    } else if assessed_good(assessments, titles[0]) {
        Some(titles[0])
    } else {
        first_good(titles.drop_first(), assessments)
    }
}

/// What is picked from a batch.
pub open spec fn picked(
    titles: Seq<Seq<char>>,
    assessments: Seq<(String, QualityClass)>,
) -> PickModel {
    match first_good(titles, assessments) {
        Some(t) => PickModel::Found(t),
        None => if titles.len() > 0 {
            PickModel::Fallback(titles[0])
        } else {
            PickModel::Empty
        },
    }
}

fn is_good(assessments: &Vec<(String, QualityClass)>, title: &str) -> (r: bool)
    ensures
        r == assessed_good(assessments@, title@),
{
    let n: usize = assessments.len();
    proof { assert(assessments@.skip(0) =~= assessments@); }
    for i in 0..n
        invariant
            n == assessments.len(),
            class_of(assessments@, title@) == class_of(assessments@.skip(i as int), title@),
    {
        proof {
            assert(assessments@.skip(i as int).drop_first() =~= assessments@.skip(i + 1));
        }
        if same_str(assessments[i].0.as_str(), title) {
            return assessments[i].1.is_good_or_better();
        }
    }
    false
}

/// The first title of a batch that is a good article or better; the first title
/// where none is.
pub fn pick_first_good(titles: &Vec<String>, assessments: &Vec<(String, QualityClass)>) -> (r:
    RandomGood)
    ensures
        r@ == picked(views(titles@), assessments@),
{
    let n: usize = titles.len();
    let ghost all = views(titles@);
    proof { assert(all.skip(0) =~= all); }
    for i in 0..n
        invariant
            n == titles.len(),
            all == views(titles@),
            first_good(all, assessments@) == first_good(all.skip(i as int), assessments@),
    {
        proof {
            assert(all.skip(i as int)[0] == titles@[i as int]@);
            assert(all.skip(i as int).drop_first() =~= all.skip(i + 1));
        }
        if is_good(assessments, titles[i].as_str()) {
            return RandomGood::Found(titles[i].clone());
        }
    }
    if n > 0 {
        RandomGood::Fallback(titles[0].clone())
    } else {
        RandomGood::Empty
    }
}

/// A batch that is not empty always gives one of its titles.
pub proof fn a_batch_gives_one_of_its_titles(
    titles: Seq<Seq<char>>,
    assessments: Seq<(String, QualityClass)>,
)
    requires
        titles.len() > 0,
    ensures
        match picked(titles, assessments) {
            PickModel::Found(t) => titles.contains(t) && assessed_good(assessments, t),
            PickModel::Fallback(t) => t == titles[0] && forall|i: int|
                0 <= i < titles.len() ==> !assessed_good(assessments, #[trigger] titles[i]),
            PickModel::Empty => false,
        },
{
    lemma_first_good(titles, assessments);
}

proof fn lemma_first_good(titles: Seq<Seq<char>>, assessments: Seq<(String, QualityClass)>)
    ensures
        match first_good(titles, assessments) {
            Some(t) => titles.contains(t) && assessed_good(assessments, t),
            None => forall|i: int|
                0 <= i < titles.len() ==> !assessed_good(assessments, #[trigger] titles[i]),
        },
    decreases titles.len(),
{
    if titles.len() > 0 {
        let rest = titles.drop_first();
        lemma_first_good(rest, assessments);
        match first_good(titles, assessments) {
            Some(t) => {
                if assessed_good(assessments, titles[0]) {
                    assert(titles.contains(titles[0]));
                } else {
                    let k = rest.index_of(t);
                    assert(titles[k + 1] == t);
                }
            },
            None => {
                assert forall|i: int| 0 <= i < titles.len() implies !assessed_good(
                    assessments,
                    #[trigger] titles[i],
                ) by {
                    if i > 0 {
                        assert(rest[i - 1] == titles[i]);
                    }
                }
            },
        }
    }
}

} // verus!
