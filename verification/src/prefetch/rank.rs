//! Ranking a page's links, and the reasons given for fetching one.
use crate::netqueue::LinkCandidate;
use crate::text::{decimal, decimal_string, join_with, joined_with, same_str, views};
use vstd::arithmetic::power2::{lemma_pow2_adds, lemma_pow2_pos, lemma_pow2_strictly_increases, pow2};
use vstd::prelude::*;

verus! {

/// A link before this place in the document is called a lead link.
pub const LEAD_CUTOFF: usize = 5;

/// A quotient rounded to the nearest integer, the even one of two as near.
pub open spec fn round_half_even(a: nat, b: nat) -> nat {
    let q = a / b;
    let r = a % b;
    if 2 * r < b {
        q
    } else if 2 * r > b {
        q + 1
    } else if q % 2 == 0 {
        q
    } else {
        q + 1
    }
}

/// The double nearest to an integer, itself an integer.
pub open spec fn nearest_double(v: nat, drop_bits: nat) -> nat
    decreases 64 - drop_bits,
{
    if drop_bits >= 64 || v < pow2(53 + drop_bits) {
        round_half_even(v, pow2(drop_bits)) * pow2(drop_bits)
    } else {
        nearest_double(v, drop_bits + 1)
    }
}

/// By how many bits an integer is scaled for its millionth part to have the
/// full precision of a double.
pub open spec fn scale_bits(x: nat, k: nat) -> nat
    decreases 64 - k,
{
    if k >= 64 || x * pow2(k) >= pow2(52) * 1_000_000 {
        k
    } else {
        scale_bits(x, k + 1)
    }
}

/// A count in tenths of a million, as dividing doubles and writing the quotient
/// with one decimal place gives it.
pub open spec fn tenths_of_millions(v: nat) -> nat {
    let x = nearest_double(v, 0);
    let k = scale_bits(x, 0);
    let m = round_half_even(x * pow2(k), 1_000_000);
    round_half_even(10 * m, pow2(k))
}

/// A count of views in short: `42`, `12k`, `1.2M`.
pub open spec fn views_text(v: nat) -> Seq<char> {
    if v >= 1_000_000 {
        let t = tenths_of_millions(v);
        decimal(t / 10) + "."@ + decimal(t % 10) + "M"@
    } else if v >= 1_000 {
        decimal(v / 1_000) + "k"@
    } else {
        decimal(v)
    }
}

fn rounded(a: u128, b: u128) -> (r: u128)
    requires
        0 < b,
        a <= u128::MAX / 4,
        b <= u128::MAX / 4,
    ensures
        r as nat == round_half_even(a as nat, b as nat),
        a / b <= r <= a / b + 1,
{
    let q: u128 = a / b;
    let rem: u128 = a % b;
    if 2 * rem < b {
        q
    } else if 2 * rem > b {
        q + 1
    } else if q % 2 == 0 {
        q
    } else {
        q + 1
    }
}

/// Rounding up once more stays under a bound that the quotient stays under.
proof fn lemma_rounded_bound(a: nat, b: nat, bound: nat)
    requires
        0 < b,
        a < bound * b,
    ensures
        round_half_even(a, b) <= bound,
{
    assert(a / b < bound) by (nonlinear_arith)
        requires
            a < bound * b,
            0 < b,
    ;
}

fn to_double(v: u64) -> (r: u128)
    ensures
        r as nat == nearest_double(v as nat, 0),
        r <= 0x1_0000_0000_0000_0000,
        v >= 1_000_000 ==> r >= 1_000_000,
{
    let mut bits: u64 = 0;
    let mut unit: u128 = 1;
    proof {
        vstd::arithmetic::power2::lemma2_to64();
        vstd::arithmetic::power2::lemma2_to64_rest();
    }
    while bits < 11 && v as u128 >= 0x20_0000_0000_0000 * unit
        invariant
            bits <= 11,
            unit == pow2(bits as nat),
            unit <= 2048,
            0x20_0000_0000_0000 == pow2(53),
            nearest_double(v as nat, 0) == nearest_double(v as nat, bits as nat),
            bits > 0 ==> v >= 0x20_0000_0000_0000,
        decreases 11 - bits,
    {
        proof {
            lemma_pow2_adds(53, bits as nat);
            lemma_pow2_adds(bits as nat, 1);
            vstd::arithmetic::power2::lemma2_to64();
            assert(pow2(bits as nat + 1) <= pow2(11)) by {
                if bits + 1 < 11 {
                    lemma_pow2_strictly_increases(bits as nat + 1, 11);
                }
            }
        }
        bits = bits + 1;
        unit = 2 * unit;
    }
    proof {
        lemma_pow2_adds(53, bits as nat);
        lemma_pow2_pos(bits as nat);
        vstd::arithmetic::power2::lemma2_to64();
        vstd::arithmetic::power2::lemma2_to64_rest();
        assert((v as nat) < pow2(53 + bits as nat));
    }
    let m: u128 = rounded(v as u128, unit);
    proof {
        lemma_rounded_bound(v as nat, unit as nat, pow2(53));
        assert(m * unit <= 0x20_0000_0000_0000 * 2048) by (nonlinear_arith)
            requires
                m <= 0x20_0000_0000_0000,
                unit <= 2048,
        ;
        let q = v as int / unit as int;
        assert(m as int * unit as int >= v as int - unit as int) by (nonlinear_arith)
            requires
                m as int >= q,
                q == v as int / unit as int,
                0 < unit as int,
        ;
        if bits == 0 {
            assert(m == v);
        }
    }
    m * unit
}

fn tenths(v: u64) -> (r: u64)
    requires
        v >= 1_000_000,
    ensures
        r as nat == tenths_of_millions(v as nat),
{
    let x: u128 = to_double(v);
    let mut k: u64 = 0;
    let mut unit: u128 = 1;
    let full: u128 = 0x10_0000_0000_0000 * 1_000_000;
    proof {
        vstd::arithmetic::power2::lemma2_to64();
        vstd::arithmetic::power2::lemma2_to64_rest();
    }
    while k < 52 && x * unit < full
        invariant
            k <= 52,
            1_000_000 <= x <= 0x1_0000_0000_0000_0000,
            unit == pow2(k as nat),
            unit <= 0x10_0000_0000_0000,
            x * unit < 2 * full,
            full == 0x10_0000_0000_0000 * 1_000_000,
            0x10_0000_0000_0000 == pow2(52),
            scale_bits(x as nat, 0) == scale_bits(x as nat, k as nat),
        decreases 52 - k,
    {
        proof {
            lemma_pow2_adds(k as nat, 1);
            vstd::arithmetic::power2::lemma2_to64();
            assert(pow2(k as nat + 1) <= pow2(52)) by {
                if k + 1 < 52 {
                    lemma_pow2_strictly_increases(k as nat + 1, 52);
                }
            }
            assert(x * (2 * unit) == 2 * (x * unit)) by (nonlinear_arith);
        }
        k = k + 1;
        unit = 2 * unit;
    }
    proof {
        lemma_pow2_pos(k as nat);
        if k == 52 {
            assert(x * unit >= full) by (nonlinear_arith)
                requires
                    x >= 1_000_000,
                    unit == 0x10_0000_0000_0000,
                    full == 0x10_0000_0000_0000 * 1_000_000,
            ;
        }
    }
    let m: u128 = rounded(x * unit, 1_000_000);
    proof { lemma_rounded_bound((x * unit) as nat, 1_000_000, 0x20_0000_0000_0000); }
    let t: u128 = rounded(10 * m, unit);
    proof {
        assert(10 * m / unit as int <= 10 * m) by (nonlinear_arith)
            requires
                0 <= m,
                0 < unit as int,
        ;
    }
    t as u64
}

/// A count of views in short: `42`, `12k`, `1.2M`.
pub fn format_views(v: u64) -> (r: String)
    ensures
        r@ == views_text(v as nat),
{
    if v >= 1_000_000 {
        let t: u64 = tenths(v);
        let mut out = decimal_string(t / 10);
        out.push_str(".");
        out.push_str(decimal_string(t % 10).as_str());
        out.push_str("M");
        out
    } else if v >= 1_000 {
        let mut out = decimal_string(v / 1_000);
        out.push_str("k");
        out
    } else {
        decimal_string(v)
    }
}

/// What is said of a link: that it is under the cursor, that it stands in the
/// lead, how often its target is viewed.
pub open spec fn qualities(c: LinkCandidate, views: u64) -> Seq<Seq<char>> {
    let cursor = if c.is_cursor {
        seq!["under cursor"@]
    } else {
        Seq::empty()
    };
    let lead = if c.lead_position < LEAD_CUTOFF {
        seq!["lead"@]
    } else {
        Seq::empty()
    };
    let viewed = if views > 0 {
        seq![views_text(views as nat) + " views/day"@]
    } else {
        Seq::empty()
    };
    cursor + lead + viewed
}

/// Why a link is fetched.
pub open spec fn link_reason_text(article: Seq<char>, c: LinkCandidate, views: u64) -> Seq<char> {
    let said = qualities(c, views);
    if said.len() == 0 {
        "linked from "@ + article
    } else {
        "linked from "@ + article + " ("@ + joined_with(said, ", "@) + ")"@
    }
}

/// Why a link is fetched.
pub fn link_reason(article_title: &str, c: &LinkCandidate, page_views: u64) -> (r: String)
    ensures
        r@ == link_reason_text(article_title@, *c, page_views),
{
    let mut said: Vec<String> = Vec::new();
    proof { assert(views(said@) =~= Seq::empty()); }
    if c.is_cursor {
        said.push("under cursor".to_owned());
        proof { assert(views(said@) =~= seq!["under cursor"@]); }
    }
    let ghost one = views(said@);
    if c.lead_position < LEAD_CUTOFF {
        let ghost pre = said@;
        said.push("lead".to_owned());
        proof { assert(views(said@) =~= views(pre).push("lead"@)); }
    }
    let ghost two = views(said@);
    if page_views > 0 {
        let mut text = format_views(page_views);
        text.push_str(" views/day");
        let ghost pre = said@;
        said.push(text);
        proof { assert(views(said@) =~= views(pre).push(text@)); }
    }
    proof { assert(views(said@) =~= qualities(*c, page_views)); }
    let mut out = "linked from ".to_owned();
    out.push_str(article_title);
    if said.len() == 0 {
        return out;
    }
    out.push_str(" (");
    out.push_str(join_with(&said, ", ").as_str());
    out.push_str(")");
    out
}

/// Why a page of the day's feed is fetched: it is the featured article, or
/// stands in that place among the most read.
pub fn trending_reason(rank: Option<usize>, page_views: u64) -> (r: String)
    ensures
        r@ == match rank {
            None => "today's featured article"@,
            Some(n) => if page_views > 0 {
                "trending #"@ + decimal(n as nat) + " ("@ + views_text(page_views as nat)
                    + " views/day)"@
            } else {
                "trending #"@ + decimal(n as nat)
            },
        },
{
    match rank {
        None => "today's featured article".to_owned(),
        Some(n) => {
            let mut out = "trending #".to_owned();
            out.push_str(decimal_string(n as u64).as_str());
            if page_views > 0 {
                out.push_str(" (");
                out.push_str(format_views(page_views).as_str());
                out.push_str(" views/day)");
            }
            out
        },
    }
}

/// Why a page like those the reader has read is fetched; `affinity` is the
/// affinity with two decimal places.
pub fn morelike_reason(category: &str, affinity: &str) -> (r: String)
    ensures
        r@ == "morelike your "@ + category@ + " reading, affinity "@ + affinity@,
{
    let mut out = "morelike your ".to_owned();
    out.push_str(category);
    out.push_str(" reading, affinity ");
    out.push_str(affinity);
    out
}

/// A link in its place, with the reason for fetching it. Of two links the one
/// with the higher rank scored higher.
#[derive(Debug, Clone, PartialEq, Eq)]
pub struct RankedLink {
    pub title: String,
    pub rank: u64,
    pub reason: String,
}

/// A ranked link's contents.
#[verifier::ext_equal]
pub struct RankedModel {
    pub title: Seq<char>,
    pub rank: u64,
    pub reason: Seq<char>,
}

impl View for RankedLink {
    type V = RankedModel;

    open spec fn view(&self) -> RankedModel {
        RankedModel { title: self.title@, rank: self.rank, reason: self.reason@ }
    }
}

/// The links of a page with what is known of each: how often its target is
/// viewed, and where its score stands among the scores.
pub struct Field {
    pub candidates: Vec<LinkCandidate>,
    pub page_views: Vec<u64>,
    pub ranks: Vec<u64>,
}

impl Field {
    /// There is a count and a rank for each link.
    pub open spec fn wf(self) -> bool {
        self.candidates@.len() == self.page_views@.len() == self.ranks@.len()
    }

    /// Link `a` may stand before link `b`: it ranks higher, or as high and no
    /// later in the document.
    pub open spec fn ahead(self, a: int, b: int) -> bool {
        ||| self.ranks@[a] > self.ranks@[b]
        ||| self.ranks@[a] == self.ranks@[b] && self.candidates@[a].lead_position
            <= self.candidates@[b].lead_position
    }

    /// A link put after those that may stand before it.
    pub open spec fn placed(self, order: Seq<int>, i: int) -> Seq<int>
        decreases order.len(),
    {
        if order.len() == 0 || self.ahead(order.last(), i) {
            order.push(i)
        } else {
            self.placed(order.drop_last(), i).push(order.last())
        }
    }

    /// The first `n` links in their order.
    pub open spec fn ranking(self, n: nat) -> Seq<int>
        decreases n,
    {
        if n == 0 {
            Seq::empty()
        } else {
            self.placed(self.ranking((n - 1) as nat), n - 1)
        }
    }

    /// The titles of links.
    pub open spec fn titles(self, list: Seq<int>) -> Seq<Seq<char>> {
        list.map_values(|i: int| self.candidates@[i].title@)
    }

    /// The first link under the cursor whose title is not among some.
    pub open spec fn cursor_outside(self, order: Seq<int>, titles: Seq<Seq<char>>) -> Option<int>
        decreases order.len(),
    {
        if order.len() == 0 {
            None
        } else {
            let c = self.candidates@[order[0]];
            if c.is_cursor && !titles.contains(c.title@) {
                Some(order[0])
            } else {
                self.cursor_outside(order.drop_first(), titles)
            }
        }
    }

    /// The links before the cut.
    pub open spec fn top(self, top_n: nat) -> Seq<int> {
        let order = self.ranking(self.candidates@.len());
        if order.len() <= top_n {
            order
        } else {
            order.take(top_n as int)
        }
    }

    /// The links that are fetched: those before the cut, and the one under the
    /// cursor.
    pub open spec fn chosen(self, top_n: nat) -> Seq<int> {
        let top = self.top(top_n);
        match self.cursor_outside(self.ranking(self.candidates@.len()), self.titles(top)) {
            Some(i) => top.push(i),
            None => top,
        }
    }

    /// A link with its rank and reason.
    pub open spec fn link(self, article: Seq<char>, i: int) -> RankedModel {
        RankedModel {
            title: self.candidates@[i].title@,
            rank: self.ranks@[i],
            reason: link_reason_text(article, self.candidates@[i], self.page_views@[i]),
        }
    }

    /// Links with their ranks and reasons.
    pub open spec fn links(self, article: Seq<char>, list: Seq<int>) -> Seq<RankedModel> {
        list.map_values(|i: int| self.link(article, i))
    }
}

spec fn as_ints(list: Seq<usize>) -> Seq<int> {
    list.map_values(|i: usize| i as int)
}

spec fn below(list: Seq<usize>, n: int) -> bool {
    forall|k: int| 0 <= k < list.len() ==> (#[trigger] list[k]) < n
}

fn place(f: &Field, order: &mut Vec<usize>, i: usize)
    requires
        f.wf(),
        i < f.candidates@.len(),
        below(old(order)@, i as int),
    ensures
        as_ints(final(order)@) == f.placed(as_ints(old(order)@), i as int),
        below(final(order)@, i + 1),
{
    let ghost before = order@;
    let ghost all = as_ints(before);
    let mut at: usize = order.len();
    let ghost mut tail: Seq<int> = Seq::empty();
    proof {
        assert(all.take(at as int) =~= all);
        assert(f.placed(all, i as int) + tail =~= f.placed(all, i as int));
        assert(tail =~= all.skip(at as int));
    }
    while at > 0 && !(f.ranks[order[at - 1]] > f.ranks[i] || (f.ranks[order[at - 1]] == f.ranks[i]
        && f.candidates[order[at - 1]].lead_position <= f.candidates[i].lead_position))
        invariant
            f.wf(),
            i < f.candidates@.len(),
            order@ == before,
            below(before, i as int),
            all == as_ints(before),
            at <= order.len(),
            tail == all.skip(at as int),
            f.placed(all, i as int) == f.placed(all.take(at as int), i as int) + tail,
        decreases at,
    {
        proof {
            let head = all.take(at as int);
            assert(head.drop_last() =~= all.take(at - 1));
            assert(head.last() == all[at - 1]);
            let inner = f.placed(all.take(at - 1), i as int);
            assert(inner.push(all[at - 1]) + tail =~= inner + (seq![all[at - 1]] + tail));
            tail = seq![all[at - 1]] + tail;
            assert(tail =~= all.skip(at - 1));
        }
        at = at - 1;
    }
    order.insert(at, i);
    proof {
        let head = all.take(at as int);
        if at > 0 {
            assert(head.last() == all[at - 1]);
        }
        assert(f.placed(head, i as int) =~= head.push(i as int));
        assert(as_ints(order@) =~= head.push(i as int) + tail);
    }
}

fn order_links(f: &Field) -> (r: Vec<usize>)
    requires
        f.wf(),
    ensures
        as_ints(r@) == f.ranking(f.candidates@.len()),
        below(r@, f.candidates@.len() as int),
{
    let mut order: Vec<usize> = Vec::new();
    let n: usize = f.candidates.len();
    proof { assert(as_ints(order@) =~= f.ranking(0)); }
    for i in 0..n
        invariant
            n == f.candidates.len(),
            f.wf(),
            as_ints(order@) == f.ranking(i as nat),
            below(order@, i as int),
    {
        place(f, &mut order, i);
    }
    order
}

fn make_link(f: &Field, article: &str, i: usize) -> (r: RankedLink)
    requires
        f.wf(),
        i < f.candidates@.len(),
    ensures
        r@ == f.link(article@, i as int),
{
    RankedLink {
        title: f.candidates[i].title.clone(),
        rank: f.ranks[i],
        reason: link_reason(article, &f.candidates[i], f.page_views[i]),
    }
}

fn listed(links: &Vec<RankedLink>, title: &str) -> (r: bool)
    ensures
        r == exists|j: int| 0 <= j < links@.len() && (#[trigger] links@[j]).title@ == title@,
{
    let n: usize = links.len();
    for i in 0..n
        invariant
            n == links.len(),
            forall|j: int| 0 <= j < i ==> (#[trigger] links@[j]).title@ != title@,
    {
        if same_str(links[i].title.as_str(), title) {
            return true;
        }
    }
    false
}

/// The links of a page worth fetching, the highest rank first and of equal
/// ranks the earlier in the document, up to `top_n` of them; and the link under
/// the cursor where it is not among those.
pub fn rank_links(article_title: &str, f: &Field, top_n: usize) -> (r: Vec<RankedLink>)
    requires
        f.wf(),
    ensures
        views(r@) == f.links(article_title@, f.chosen(top_n as nat)),
{
    let order = order_links(f);
    let ghost all = as_ints(order@);
    let cut: usize = if order.len() <= top_n {
        order.len()
    } else {
        top_n
    };
    let ghost top = f.top(top_n as nat);
    proof { assert(all.take(cut as int) =~= top); }
    let mut out: Vec<RankedLink> = Vec::new();
    proof { assert(views(out@) =~= f.links(article_title@, top.take(0))); }
    for i in 0..cut
        invariant
            f.wf(),
            cut <= order.len(),
            all == as_ints(order@),
            below(order@, f.candidates@.len() as int),
            top == all.take(cut as int),
            views(out@) == f.links(article_title@, top.take(i as int)),
    {
        let ghost pre = out@;
        let link = make_link(f, article_title, order[i]);
        out.push(link);
        proof {
            assert(views(out@) =~= views(pre).push(link@));
            assert(top[i as int] == order@[i as int] as int);
            assert(f.links(article_title@, top.take(i + 1)) =~= f.links(
                article_title@,
                top.take(i as int),
            ).push(link@));
        }
    }
    proof {
        assert(top.take(cut as int) =~= top);
        assert(all.skip(0) =~= all);
    }
    let ghost titles = f.titles(top);
    let n: usize = order.len();
    for i in 0..n
        invariant
            n == order.len(),
            f.wf(),
            all == as_ints(order@),
            all == f.ranking(f.candidates@.len()),
            below(order@, f.candidates@.len() as int),
            top == f.top(top_n as nat),
            titles == f.titles(top),
            views(out@) == f.links(article_title@, top),
            f.cursor_outside(all, titles) == f.cursor_outside(all.skip(i as int), titles),
    {
        let c = &f.candidates[order[i]];
        proof {
            assert(all.skip(i as int)[0] == order@[i as int] as int);
            assert(all.skip(i as int).drop_first() =~= all.skip(i + 1));
        }
        if c.is_cursor {
            let there = listed(&out, c.title.as_str());
            proof {
                assert(there == titles.contains(c.title@)) by {
                    assert(out@.len() == titles.len()) by {
                        assert(views(out@).len() == f.links(article_title@, top).len());
                    }
                    assert forall|j: int| 0 <= j < out@.len() implies (#[trigger] out@[j]).title@
                        == titles[j] by {
                        assert(views(out@)[j] == out@[j]@);
                        assert(f.links(article_title@, top)[j] == f.link(article_title@, top[j]));
                    }
                    if titles.contains(c.title@) {
                        let j = titles.index_of(c.title@);
                        assert(out@[j].title@ == titles[j]);
                    }
                    if there {
                        let j = choose|j: int|
                            0 <= j < out@.len() && (#[trigger] out@[j]).title@ == c.title@;
                        assert(titles[j] == c.title@);
                    }
                }
            }
            if !there {
                let ghost pre = out@;
                let link = make_link(f, article_title, order[i]);
                out.push(link);
                proof {
                    assert(views(out@) =~= views(pre).push(link@));
                    assert(f.links(article_title@, top.push(order@[i as int] as int)) =~= f.links(
                        article_title@,
                        top,
                    ).push(link@));
                }
                return out;
            }
        }
    }
    out
}

/// Each of the first `n` links stands in the ranking exactly once.
pub proof fn lemma_ranking(f: Field, n: nat)
    requires
        f.wf(),
        n <= f.candidates@.len(),
    ensures
        f.ranking(n).len() == n,
        forall|i: int| #[trigger] f.ranking(n).contains(i) <==> 0 <= i < n,
        forall|i: int, j: int|
            0 <= i < j < n ==> f.ahead(#[trigger] f.ranking(n)[i], #[trigger] f.ranking(n)[j]),
    decreases n,
{
    if n > 0 {
        let before = f.ranking((n - 1) as nat);
        lemma_ranking(f, (n - 1) as nat);
        lemma_placed(f, before, n - 1);
    }
}

proof fn lemma_placed(f: Field, order: Seq<int>, x: int)
    requires
        forall|i: int, j: int|
            0 <= i < j < order.len() ==> f.ahead(#[trigger] order[i], #[trigger] order[j]),
    ensures
        f.placed(order, x).len() == order.len() + 1,
        forall|i: int| #[trigger] f.placed(order, x).contains(i) <==> order.contains(i) || i == x,
        forall|i: int, j: int|
            0 <= i < j < order.len() + 1 ==> f.ahead(
                #[trigger] f.placed(order, x)[i],
                #[trigger] f.placed(order, x)[j],
            ),
    decreases order.len(),
{
    let all = f.placed(order, x);
    if order.len() == 0 || f.ahead(order.last(), x) {
        assert forall|i: int| #[trigger] all.contains(i) <==> order.contains(i) || i == x by {
            if order.contains(i) {
                let k = order.index_of(i);
                assert(all[k] == i);
            }
            if i == x {
                assert(all[order.len() as int] == x);
            }
            if all.contains(i) {
                let k = all.index_of(i);
                if k < order.len() {
                    assert(order[k] == i);
                }
            }
        }
        assert forall|i: int, j: int| 0 <= i < j < order.len() + 1 implies f.ahead(
            #[trigger] all[i],
            #[trigger] all[j],
        ) by {
            assert(all[i] == order[i]);
            if j < order.len() {
                assert(all[j] == order[j]);
            } else if i < order.len() - 1 {
                assert(f.ahead(order[i], order[order.len() - 1]));
            }
        }
    } else {
        let head = order.drop_last();
        lemma_placed(f, head, x);
        let inner = f.placed(head, x);
        assert forall|i: int| #[trigger] all.contains(i) <==> order.contains(i) || i == x by {
            if order.contains(i) {
                let k = order.index_of(i);
                if k < head.len() {
                    assert(head[k] == i);
                    let m = inner.index_of(i);
                    assert(inner.contains(i));
                    assert(all[m] == i);
                } else {
                    assert(all[inner.len() as int] == i);
                }
            }
            if i == x {
                assert(inner.contains(x));
                let m = inner.index_of(x);
                assert(all[m] == x);
            }
            if all.contains(i) {
                let k = all.index_of(i);
                if k < inner.len() {
                    assert(inner[k] == i);
                    assert(inner.contains(i));
                    if i != x {
                        let m = head.index_of(i);
                        assert(order[m] == i);
                    }
                } else {
                    assert(order[order.len() - 1] == i);
                }
            }
        }
        assert forall|i: int, j: int| 0 <= i < j < order.len() + 1 implies f.ahead(
            #[trigger] all[i],
            #[trigger] all[j],
        ) by {
            assert(all[i] == inner[i]);
            if j < inner.len() {
                assert(all[j] == inner[j]);
            } else {
                assert(inner.contains(inner[i]));
                if inner[i] != x {
                    let m = head.index_of(inner[i]);
                    assert(order[m] == inner[i]);
                    assert(f.ahead(order[m], order[order.len() - 1]));
                }
            }
        }
    }
}

/// The links before the cut stand in the order of their ranks, and no link that
/// was cut ranks above one that was not.
pub proof fn the_best_links_are_kept(f: Field, top_n: nat, i: int, j: int)
    requires
        f.wf(),
        0 <= i < f.top(top_n).len(),
        i < j < f.candidates@.len(),
    ensures
        f.ahead(f.top(top_n)[i], f.ranking(f.candidates@.len())[j]),
{
    lemma_ranking(f, f.candidates@.len());
}

/// The link under the cursor is always among those that are fetched.
pub proof fn the_cursor_link_is_always_chosen(f: Field, top_n: nat, at: int)
    requires
        f.wf(),
        0 <= at < f.candidates@.len(),
        f.candidates@[at].is_cursor,
        forall|i: int| 0 <= i < f.candidates@.len() && i != at ==> !(#[trigger]
            f.candidates@[i]).is_cursor,
    ensures
        f.titles(f.chosen(top_n)).contains(f.candidates@[at].title@),
{
    let n = f.candidates@.len();
    let order = f.ranking(n);
    lemma_ranking(f, n);
    let top = f.top(top_n);
    let titles = f.titles(top);
    let title = f.candidates@[at].title@;
    let all = f.titles(f.chosen(top_n));
    if titles.contains(title) {
        let k = titles.index_of(title);
        assert(all[k] == titles[k]);
    } else {
        assert(order.contains(at));
        assert forall|k: int| 0 <= k < order.len() implies 0 <= (#[trigger] order[k])
            < f.candidates@.len() || order[k] == at by {
            assert(order.contains(order[k]));
        }
        lemma_cursor_found(f, order, titles, at);
        assert(all[top.len() as int] == title);
    }
}

proof fn lemma_cursor_found(f: Field, order: Seq<int>, titles: Seq<Seq<char>>, at: int)
    requires
        f.wf(),
        order.contains(at),
        forall|k: int| 0 <= k < order.len() ==> 0 <= (#[trigger] order[k]) < f.candidates@.len()
            || order[k] == at,
        0 <= at < f.candidates@.len(),
        f.candidates@[at].is_cursor,
        !titles.contains(f.candidates@[at].title@),
        forall|i: int| 0 <= i < f.candidates@.len() && i != at ==> !(#[trigger]
            f.candidates@[i]).is_cursor,
    ensures
        f.cursor_outside(order, titles) == Some(at),
    decreases order.len(),
{
    if order[0] != at {
        let k = order.index_of(at);
        let rest = order.drop_first();
        assert(rest[k - 1] == at);
        assert forall|m: int| 0 <= m < rest.len() implies 0 <= (#[trigger] rest[m])
            < f.candidates@.len() || rest[m] == at by {
            assert(rest[m] == order[m + 1]);
        }
        assert(!f.candidates@[order[0]].is_cursor);
        lemma_cursor_found(f, rest, titles, at);
    }
}

/// The link under the cursor is added only where its title is not there yet.
pub proof fn no_title_is_added_twice(f: Field, top_n: nat)
    requires
        f.wf(),
        f.chosen(top_n).len() > f.top(top_n).len(),
    ensures
        !f.titles(f.top(top_n)).contains(f.candidates@[f.chosen(top_n).last()].title@),
{
    let order = f.ranking(f.candidates@.len());
    lemma_cursor_is_outside(f, order, f.titles(f.top(top_n)));
}

pub proof fn lemma_cursor_is_outside(f: Field, order: Seq<int>, titles: Seq<Seq<char>>)
    ensures
        match f.cursor_outside(order, titles) {
            Some(i) => !titles.contains(f.candidates@[i].title@) && f.candidates@[i].is_cursor,
            None => true,
        },
    decreases order.len(),
{
    if order.len() > 0 {
        lemma_cursor_is_outside(f, order.drop_first(), titles);
    }
}

} // verus!
