//! Laws of cutting, ordering and cleaning texts.
use vstd::prelude::*;

use crate::prefetch::feed_laws::rising;
use crate::sanitize::dropped;
use crate::sanitize::sanitized;
use crate::sanitize::separator;
use crate::text::insert_sorted;
use crate::text::joined_with;
use crate::text::lemma_lex_total;
use crate::text::lemma_lex_trans;
use crate::text::lex_le;
use crate::text::line_cut;
use crate::text::lines_of;
use crate::text::sorted_texts;
use crate::text::trimmed;
use crate::text::trimmed_end;
use crate::text::trimmed_start;
use crate::text::whitespace;
use crate::text::word_cut;
use crate::text::words_of;

verus! {

/// `s[a..b]` is a longest run without whitespace.
pub open spec fn is_run(s: Seq<char>, a: int, b: int) -> bool {
    &&& 0 <= a < b <= s.len()
    &&& forall|i: int| a <= i < b ==> !whitespace(#[trigger] s[i])
    &&& a > 0 ==> whitespace(s[a - 1])
    &&& b < s.len() ==> whitespace(s[b])
}

/// Word `k` stands where `at` says.
spec fn word_stands(s: Seq<char>, words: Seq<Seq<char>>, at: Seq<int>, k: int) -> bool {
    &&& is_run(s, at[k], at[k] + words[k].len())
    &&& words[k] == s.subrange(at[k], at[k] + words[k].len())
}

/// One of the words is the run.
spec fn is_a_word(words: Seq<Seq<char>>, at: Seq<int>, a: int, b: int) -> bool {
    exists|k: int| 0 <= k < at.len() && #[trigger] at[k] == a && a + words[k].len() == b
}

#[verifier::spinoff_prover]
#[verifier::rlimit(60)]
proof fn lemma_word_cut(s: Seq<char>) -> (at: Seq<int>)
    ensures
        ({
            let cut = word_cut(s);
            let from = s.len() - cut.open.len();
            &&& at.len() == cut.words.len()
            &&& rising(at, s.len() as int)
            &&& forall|k: int|
                0 <= k < at.len() ==> word_stands(s, cut.words, at, k) && #[trigger] at[k]
                    + cut.words[k].len() < s.len()
            &&& forall|k: int| 0 <= k < at.len() ==> #[trigger] at[k] < from || cut.open.len() == 0
            &&& from >= 0
            &&& cut.open == s.subrange(from, s.len() as int)
            &&& cut.open.len() > 0 ==> is_run(s, from, s.len() as int)
            &&& cut.open.len() == 0 ==> s.len() == 0 || whitespace(s[s.len() - 1])
            &&& forall|a: int, b: int| #[trigger]
                is_run(s, a, b) && b < s.len() ==> is_a_word(cut.words, at, a, b)
        }),
    decreases s.len(),
{
    let cut = word_cut(s);
    if s.len() == 0 {
        assert(cut.open =~= s.subrange(0, 0));
        Seq::empty()
    } else {
        let front = s.drop_last();
        let last = s.len() - 1;
        let before = word_cut(front);
        let old_at = lemma_word_cut(front);
        let from = front.len() - before.open.len();
        assert forall|i: int| 0 <= i < last implies front[i] == s[i] by {}
        let at = if whitespace(s[last]) && before.open.len() > 0 {
            old_at.push(from)
        } else {
            old_at
        };
        assert forall|k: int| 0 <= k < old_at.len() implies word_stands(s, cut.words, at, k)
            && #[trigger] at[k] + cut.words[k].len() < s.len() by {
            assert(at[k] == old_at[k]);
            assert(word_stands(front, before.words, old_at, k));
            let (a, b) = (old_at[k], old_at[k] + before.words[k].len());
            assert(cut.words[k] == before.words[k]);
            assert(s.subrange(a, b) =~= front.subrange(a, b));
            assert forall|i: int| a <= i < b implies !whitespace(#[trigger] s[i]) by {
                assert(!whitespace(front[i]));
            }
            assert(whitespace(front[b]));
            if a > 0 {
                assert(whitespace(front[a - 1]));
            }
        }
        if !whitespace(s[last]) {
            assert(cut.open =~= s.subrange(from, s.len() as int)) by {
                assert(before.open == front.subrange(from, front.len() as int));
            }
            assert(is_run(s, from, s.len() as int)) by {
                assert forall|i: int| from <= i < s.len() implies !whitespace(#[trigger] s[i]) by {
                    if i < last {
                        assert(!whitespace(front[i]));
                    }
                }
                if from > 0 {
                    if before.open.len() > 0 {
                        assert(whitespace(front[from - 1]));
                    } else {
                        assert(whitespace(front[front.len() - 1]));
                    }
                }
            }
            assert forall|k: int| 0 <= k < at.len() implies #[trigger] at[k] < s.len()
                - cut.open.len() by {
                assert(old_at[k] + before.words[k].len() < front.len());
                assert(word_stands(front, before.words, old_at, k));
            }
            assert forall|a: int, b: int| #[trigger] is_run(s, a, b) && b < s.len() implies is_a_word(
                cut.words,
                at,
                a,
                b,
            ) by {
                assert(whitespace(s[b]));
                assert(b != last);
                assert(is_run(front, a, b)) by {
                    assert forall|i: int| a <= i < b implies !whitespace(#[trigger] front[i]) by {
                        assert(!whitespace(s[i]));
                    }
                    if a > 0 {
                        assert(whitespace(s[a - 1]));
                    }
                }
                assert(is_a_word(before.words, old_at, a, b));
            }
        } else {
            assert(cut.open =~= s.subrange(s.len() as int, s.len() as int));
            if before.open.len() > 0 {
                let k = old_at.len() as int;
                assert(at[k] == from && cut.words[k] == before.open);
                assert(is_run(front, from, front.len() as int));
                assert(is_run(s, from, last)) by {
                    assert forall|i: int| from <= i < last implies !whitespace(#[trigger] s[i]) by {
                        assert(!whitespace(front[i]));
                    }
                    if from > 0 {
                        assert(whitespace(front[from - 1]));
                    }
                }
                assert(s.subrange(from, last) =~= front.subrange(from, front.len() as int));
                assert(word_stands(s, cut.words, at, k));
                assert(rising(at, s.len() as int)) by {
                    assert forall|j: int, m: int| 0 <= j < m < at.len() implies #[trigger] at[j]
                        < #[trigger] at[m] by {
                        assert(at[j] == old_at[j]);
                        if m < k {
                            assert(at[m] == old_at[m]);
                        } else {
                            assert(old_at[j] < from);
                        }
                    }
                }
            }
            assert forall|a: int, b: int| #[trigger] is_run(s, a, b) && b < s.len() implies is_a_word(
                cut.words,
                at,
                a,
                b,
            ) by {
                assert(is_run(front, a, b)) by {
                    assert forall|i: int| a <= i < b implies !whitespace(#[trigger] front[i]) by {
                        assert(!whitespace(s[i]));
                    }
                    if a > 0 {
                        assert(whitespace(s[a - 1]));
                    }
                    if b < last {
                        assert(whitespace(s[b]));
                    }
                }
                if b < last {
                    assert(is_a_word(before.words, old_at, a, b));
                    let k = choose|k: int|
                        0 <= k < old_at.len() && #[trigger] old_at[k] == a && a
                            + before.words[k].len() == b;
                    assert(at[k] == a && cut.words[k] == before.words[k]);
                } else {
                    assert(!whitespace(front[b - 1]));
                    assert(before.open.len() > 0);
                    if a < from {
                        assert(whitespace(front[from - 1]));
                        assert(!whitespace(front[from - 1]));
                    } else if a > from {
                        assert(whitespace(front[a - 1]));
                        assert(!whitespace(front[a - 1]));
                    }
                    assert(at[old_at.len() as int] == a);
                }
            }
        }
        at
    }
}

/// The words of a text are its longest runs without whitespace: each word is
/// one, in order, and each such run is a word.
pub proof fn words_are_the_runs_between_gaps(s: Seq<char>) -> (at: Seq<int>)
    ensures
        rising(at, s.len() as int),
        words_of(s).len() == at.len(),
        forall|k: int|
            0 <= k < at.len() ==> is_run(s, #[trigger] at[k], at[k] + words_of(s)[k].len())
                && words_of(s)[k] == s.subrange(at[k], at[k] + words_of(s)[k].len()),
        forall|a: int, b: int| #[trigger]
            is_run(s, a, b) ==> exists|k: int|
                0 <= k < at.len() && #[trigger] at[k] == a && a + words_of(s)[k].len() == b,
{
    let cut = word_cut(s);
    let old_at = lemma_word_cut(s);
    let from = s.len() - cut.open.len();
    let words = words_of(s);
    let at = if cut.open.len() > 0 {
        old_at.push(from)
    } else {
        old_at
    };
    assert forall|k: int| 0 <= k < at.len() implies is_run(
        s,
        #[trigger] at[k],
        at[k] + words[k].len(),
    ) && words[k] == s.subrange(at[k], at[k] + words[k].len()) by {
        if k < old_at.len() {
            assert(at[k] == old_at[k] && words[k] == cut.words[k]);
            assert(word_stands(s, cut.words, old_at, k));
        }
    }
    assert forall|j: int, m: int| 0 <= j < m < at.len() implies #[trigger] at[j]
        < #[trigger] at[m] by {
        assert(at[j] == old_at[j]);
        if m < old_at.len() {
            assert(at[m] == old_at[m]);
        }
    }
    assert forall|a: int, b: int| #[trigger] is_run(s, a, b) implies exists|k: int|
        0 <= k < at.len() && #[trigger] at[k] == a && a + words[k].len() == b by {
        if b < s.len() {
            assert(is_a_word(cut.words, old_at, a, b));
            let k = choose|k: int|
                0 <= k < old_at.len() && #[trigger] old_at[k] == a && a + cut.words[k].len() == b;
            assert(at[k] == a && words[k] == cut.words[k]);
        } else {
            assert(!whitespace(s[s.len() - 1]));
            assert(cut.open.len() > 0);
            if a < from {
                assert(whitespace(s[from - 1]));
                assert(!whitespace(s[from - 1]));
            } else if a > from {
                assert(whitespace(s[a - 1]));
                assert(!whitespace(s[a - 1]));
            }
            assert(at[old_at.len() as int] == a);
        }
    }
    at
}

/// Trimming takes the whitespace at both ends and nothing else.
pub proof fn trimming_takes_the_ends_alone(s: Seq<char>) -> (r: (int, int))
    ensures
        0 <= r.0 <= r.1 <= s.len(),
        trimmed(s) == s.subrange(r.0, r.1),
        forall|i: int| 0 <= i < r.0 ==> whitespace(#[trigger] s[i]),
        forall|i: int| r.1 <= i < s.len() ==> whitespace(#[trigger] s[i]),
        r.0 < r.1 ==> !whitespace(s[r.0]) && !whitespace(s[r.1 - 1]),
{
    let a = lemma_trim_start(s);
    let t = s.skip(a);
    let n = lemma_trim_end(t);
    assert(t.take(n) =~= s.subrange(a, a + n));
    assert forall|i: int| a + n <= i < s.len() implies whitespace(#[trigger] s[i]) by {
        assert(whitespace(t[i - a]));
    }
    if n > 0 {
        assert(t[n - 1] == s[a + n - 1]);
        assert(t[0] == s[a]);
    }
    (a, a + n)
}

proof fn lemma_trim_start(s: Seq<char>) -> (a: int)
    ensures
        0 <= a <= s.len(),
        trimmed_start(s) == s.skip(a),
        forall|i: int| 0 <= i < a ==> whitespace(#[trigger] s[i]),
        a < s.len() ==> !whitespace(s[a]),
    decreases s.len(),
{
    if s.len() > 0 && whitespace(s[0]) {
        let rest = s.drop_first();
        let a = lemma_trim_start(rest);
        assert(rest.skip(a) =~= s.skip(a + 1));
        assert forall|i: int| 0 <= i < a + 1 implies whitespace(#[trigger] s[i]) by {
            if i > 0 {
                assert(whitespace(rest[i - 1]));
            }
        }
        a + 1
    } else {
        assert(s.skip(0) =~= s);
        0
    }
}

proof fn lemma_trim_end(s: Seq<char>) -> (n: int)
    ensures
        0 <= n <= s.len(),
        trimmed_end(s) == s.take(n),
        forall|i: int| n <= i < s.len() ==> whitespace(#[trigger] s[i]),
        n > 0 ==> !whitespace(s[n - 1]),
    decreases s.len(),
{
    if s.len() > 0 && whitespace(s.last()) {
        let front = s.drop_last();
        let n = lemma_trim_end(front);
        assert(front.take(n) =~= s.take(n));
        assert forall|i: int| n <= i < s.len() implies whitespace(#[trigger] s[i]) by {
            if i < front.len() {
                assert(whitespace(front[i]));
            }
        }
        n
    } else {
        assert(s.take(s.len() as int) =~= s);
        s.len() as int
    }
}

/// Lines put together with line breaks are the text again, but for a break at
/// the very end. The text holds no carriage return.
pub proof fn lines_join_back(s: Seq<char>)
    requires
        !s.contains('\r'),
    ensures
        ({
            let text = joined_with(lines_of(s), seq!['\n']);
            text == s || text.push('\n') == s
        }),
        forall|k: int| 0 <= k < lines_of(s).len() ==> !(#[trigger] lines_of(s)[k]).contains('\n'),
{
    lemma_line_cut(s);
    let cut = line_cut(s);
    let gap = seq!['\n'];
    if cut.open.len() > 0 {
        let all = cut.lines.push(cut.open);
        assert(all.drop_last() =~= cut.lines);
        if cut.lines.len() == 0 {
            assert(s =~= cut.open);
        } else {
            assert(joined_with(all, gap) =~= s);
        }
    } else if cut.lines.len() == 0 {
        assert(s =~= Seq::empty());
    } else {
        assert(joined_with(cut.lines, gap).push('\n') =~= s);
    }
}

proof fn lemma_line_cut(s: Seq<char>)
    requires
        !s.contains('\r'),
    ensures
        ({
            let cut = line_cut(s);
            let gap = seq!['\n'];
            &&& s == (if cut.lines.len() == 0 {
                Seq::empty()
            } else {
                joined_with(cut.lines, gap) + gap
            }) + cut.open
            &&& !cut.open.contains('\n')
            &&& !cut.open.contains('\r')
            &&& forall|k: int| 0 <= k < cut.lines.len() ==> !(#[trigger] cut.lines[k]).contains('\n')
        }),
    decreases s.len(),
{
    let cut = line_cut(s);
    let gap = seq!['\n'];
    if s.len() == 0 {
        assert(s =~= Seq::<char>::empty() + cut.open);
    } else {
        let front = s.drop_last();
        let c = s.last();
        assert(s[s.len() - 1] == c);
        assert(s.contains(c));
        assert(!front.contains('\r')) by {
            if front.contains('\r') {
                let i = front.index_of('\r');
                assert(s[i] == '\r');
            }
        }
        lemma_line_cut(front);
        let before = line_cut(front);
        assert(s =~= front.push(c));
        if c == '\n' {
            assert(crate::text::without_cr(before.open) == before.open) by {
                if before.open.len() > 0 {
                    assert(before.open.contains(before.open.last()));
                }
            }
            assert(cut.lines.drop_last() =~= before.lines);
            if before.lines.len() == 0 {
                assert(joined_with(cut.lines, gap) == before.open);
            } else {
                assert(joined_with(cut.lines, gap) == joined_with(before.lines, gap) + gap
                    + before.open);
            }
            assert(s =~= joined_with(cut.lines, gap) + gap + cut.open);
            assert forall|k: int| 0 <= k < cut.lines.len() implies !(
            #[trigger] cut.lines[k]).contains('\n') by {
                if k < before.lines.len() {
                    assert(cut.lines[k] == before.lines[k]);
                }
            }
        } else {
            assert(cut.open == before.open.push(c));
            assert forall|i: int| 0 <= i < cut.open.len() implies cut.open[i] != '\n'
                && cut.open[i] != '\r' by {
                if i < before.open.len() {
                    assert(before.open.contains(before.open[i]));
                }
            }
            assert(s =~= (if cut.lines.len() == 0 {
                Seq::empty()
            } else {
                joined_with(cut.lines, gap) + gap
            }) + cut.open);
        }
    }
}

/// The order of texts is decided where they first differ: there the one with
/// the lesser character comes first, and a text comes before what it starts.
pub proof fn order_is_decided_at_the_first_difference(a: Seq<char>, b: Seq<char>) -> (i: int)
    ensures
        0 <= i <= a.len(),
        i <= b.len(),
        forall|j: int| 0 <= j < i ==> a[j] == b[j],
        i < a.len() && i < b.len() ==> a[i] != b[i],
        lex_le(a, b) <==> (i == a.len() || i < b.len() && a[i] < b[i]),
    decreases a.len(),
{
    if a.len() == 0 || b.len() == 0 || a[0] != b[0] {
        0
    } else {
        let (x, y) = (a.drop_first(), b.drop_first());
        let i = order_is_decided_at_the_first_difference(x, y);
        assert forall|j: int| 0 <= j < i + 1 implies a[j] == b[j] by {
            if j > 0 {
                assert(x[j - 1] == y[j - 1]);
            }
        }
        i + 1
    }
}

/// Texts in order.
pub open spec fn in_text_order(list: Seq<Seq<char>>) -> bool {
    forall|i: int, j: int|
        0 <= i < j < list.len() ==> lex_le(#[trigger] list[i], #[trigger] list[j])
}

proof fn lemma_insert_sorted(list: Seq<Seq<char>>, t: Seq<char>)
    requires
        in_text_order(list),
    ensures
        in_text_order(insert_sorted(list, t)),
        insert_sorted(list, t).to_multiset() == list.to_multiset().insert(t),
        insert_sorted(list, t).len() == list.len() + 1,
        forall|i: int|
            0 <= i < list.len() + 1 ==> (#[trigger] insert_sorted(list, t)[i] == t
                || list.contains(insert_sorted(list, t)[i])),
    decreases list.len(),
{
    broadcast use vstd::seq_lib::group_to_multiset_ensures;
    let out = insert_sorted(list, t);
    if list.len() == 0 || lex_le(list.last(), t) {
        assert forall|i: int, j: int| 0 <= i < j < out.len() implies lex_le(
            #[trigger] out[i],
            #[trigger] out[j],
        ) by {
            if j == list.len() {
                if i < list.len() - 1 {
                    assert(lex_le(list[i], list[list.len() - 1]));
                    lemma_lex_trans(list[i], list.last(), t);
                }
            }
        }
        assert forall|i: int| 0 <= i < list.len() + 1 implies (#[trigger] out[i] == t
            || list.contains(out[i])) by {
            if i < list.len() {
                assert(list.contains(list[i]));
            }
        }
    } else {
        let front = list.drop_last();
        assert(in_text_order(front)) by {
            assert forall|i: int, j: int| 0 <= i < j < front.len() implies lex_le(
                #[trigger] front[i],
                #[trigger] front[j],
            ) by {
                assert(lex_le(list[i], list[j]));
            }
        }
        lemma_insert_sorted(front, t);
        let before = insert_sorted(front, t);
        lemma_lex_total(list.last(), t);
        assert forall|i: int, j: int| 0 <= i < j < out.len() implies lex_le(
            #[trigger] out[i],
            #[trigger] out[j],
        ) by {
            if j < before.len() {
                assert(lex_le(before[i], before[j]));
            } else {
                assert(out[i] == before[i]);
                if before[i] != t {
                    let k = front.index_of(before[i]);
                    assert(lex_le(list[k], list[list.len() - 1]));
                }
            }
        }
        assert(list =~= front.push(list.last()));
        assert(out.to_multiset() =~= list.to_multiset().insert(t));
        assert forall|i: int| 0 <= i < list.len() + 1 implies (#[trigger] out[i] == t
            || list.contains(out[i])) by {
            if i < before.len() {
                assert(out[i] == before[i]);
                if before[i] != t {
                    let k = front.index_of(before[i]);
                    assert(list[k] == before[i]);
                }
            } else {
                assert(list[list.len() - 1] == out[i]);
            }
        }
    }
}

/// Sorting gives the same texts in order.
pub proof fn sorting_orders_the_same_texts(list: Seq<Seq<char>>)
    ensures
        in_text_order(sorted_texts(list)),
        sorted_texts(list).to_multiset() == list.to_multiset(),
    decreases list.len(),
{
    broadcast use vstd::seq_lib::group_to_multiset_ensures;
    if list.len() > 0 {
        let front = list.drop_last();
        sorting_orders_the_same_texts(front);
        lemma_insert_sorted(sorted_texts(front), list.last());
        assert(list =~= front.push(list.last()));
    } else {
        assert(sorted_texts(list) =~= list);
    }
}

proof fn lemma_lex_same(a: Seq<char>, b: Seq<char>)
    requires
        lex_le(a, b),
        lex_le(b, a),
    ensures
        a == b,
    decreases a.len(),
{
    if a.len() > 0 && b.len() > 0 && a[0] == b[0] {
        lemma_lex_same(a.drop_first(), b.drop_first());
        assert(a =~= seq![a[0]] + a.drop_first());
        assert(b =~= seq![b[0]] + b.drop_first());
    } else {
        assert(a =~= b);
    }
}

/// The same texts in order are the same list, however they stood before.
pub proof fn order_makes_lists_the_same(a: Seq<Seq<char>>, b: Seq<Seq<char>>)
    requires
        in_text_order(a),
        in_text_order(b),
        a.to_multiset() == b.to_multiset(),
    ensures
        a == b,
    decreases a.len(),
{
    broadcast use vstd::seq_lib::group_to_multiset_ensures;
    assert(a.len() == a.to_multiset().len());
    assert(b.len() == b.to_multiset().len());
    if a.len() > 0 {
        let (x, y) = (a.last(), b.last());
        assert(a[a.len() - 1] == x && b[b.len() - 1] == y);
        assert(a.contains(x) && b.contains(y));
        assert(b.to_multiset().count(x) > 0);
        assert(b.contains(x));
        assert(a.to_multiset().count(y) > 0);
        assert(a.contains(y));
        let i = b.index_of(x);
        let j = a.index_of(y);
        assert(lex_le(x, y)) by {
            if i < b.len() - 1 {
                assert(lex_le(b[i], b[b.len() - 1]));
            } else {
                lemma_lex_total(x, x);
            }
        }
        assert(lex_le(y, x)) by {
            if j < a.len() - 1 {
                assert(lex_le(a[j], a[a.len() - 1]));
            } else {
                lemma_lex_total(x, x);
            }
        }
        lemma_lex_same(x, y);
        let (fa, fb) = (a.drop_last(), b.drop_last());
        assert(a =~= fa.push(x));
        assert(b =~= fb.push(x));
        assert(fa.to_multiset() =~= a.to_multiset().remove(x));
        assert(fb.to_multiset() =~= b.to_multiset().remove(x));
        assert forall|p: int, q: int| 0 <= p < q < fa.len() implies lex_le(
            #[trigger] fa[p],
            #[trigger] fa[q],
        ) by {
            assert(lex_le(a[p], a[q]));
        }
        assert forall|p: int, q: int| 0 <= p < q < fb.len() implies lex_le(
            #[trigger] fb[p],
            #[trigger] fb[q],
        ) by {
            assert(lex_le(b[p], b[q]));
        }
        order_makes_lists_the_same(fa, fb);
    } else {
        assert(a =~= b);
    }
}

/// A cleaned text holds every character that can be shown, in order, and a
/// space for each line or paragraph separator; the characters that are taken
/// out are all that is missing.
pub proof fn what_can_be_shown_is_kept(s: Seq<char>, keep: bool) -> (at: Seq<int>)
    ensures
        rising(at, s.len() as int),
        sanitized(s, keep).len() == at.len(),
        forall|k: int|
            0 <= k < at.len() ==> sanitized(s, keep)[k] == (if separator(s[#[trigger] at[k]]) {
                ' '
            } else {
                s[at[k]]
            }),
        forall|i: int|
            0 <= i < s.len() ==> (at.contains(i) <==> separator(#[trigger] s[i]) || !dropped(
                s[i],
                keep,
            )),
    decreases s.len(),
{
    if s.len() == 0 {
        Seq::empty()
    } else {
        let front = s.drop_last();
        let last = s.len() - 1;
        let before = what_can_be_shown_is_kept(front, keep);
        let kept = separator(s[last]) || !dropped(s[last], keep);
        let at = if kept {
            before.push(last)
        } else {
            before
        };
        crate::prefetch::feed_laws::lemma_contains(before, at, last, kept);
        assert forall|k: int| 0 <= k < at.len() implies sanitized(s, keep)[k] == (if separator(
            s[#[trigger] at[k]],
        ) {
            ' '
        } else {
            s[at[k]]
        }) by {
            if k < before.len() {
                assert(at[k] == before[k]);
                assert(front[before[k]] == s[before[k]]);
            }
        }
        assert forall|i: int| 0 <= i < s.len() implies (at.contains(i) <==> separator(
            #[trigger] s[i],
        ) || !dropped(s[i], keep)) by {
            if i < last {
                assert(front[i] == s[i]);
            }
        }
        at
    }
}

} // verus!
