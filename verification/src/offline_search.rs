//! The full-text index over pinned and cached pages: which rows are written,
//! which are deleted, and how a query is asked. The database runs the steps.
use crate::text::{
    chars_of, join_with, joined_with, split_words, trim, trimmed, views, words_of,
};
use vstd::prelude::*;
use vstd::utf8::encode_utf8;

verus! {

/// The version of the index's tables.
pub const SCHEMA_VERSION: i64 = 1;

/// Where an indexed page stands.
#[derive(Debug, Clone, Copy, PartialEq, Eq, Structural)]
pub enum Kind {
    Saved,
    Cached,
}

/// What a row calls a kind.
pub open spec fn kind_label(k: Kind) -> Seq<char> {
    match k {
        Kind::Saved => "saved"@,
        Kind::Cached => "cached"@,
    }
}

/// The kind that a row names; any other name is a cached page's.
pub open spec fn kind_named(s: Seq<char>) -> Kind {
    if s == "saved"@ {
        Kind::Saved
    } else {
        Kind::Cached
    }
}

impl Kind {
    /// What a row calls the kind.
    pub fn label(&self) -> (r: &'static str)
        ensures
            r@ == kind_label(*self),
    {
        match self {
            Kind::Saved => "saved",
            Kind::Cached => "cached",
        }
    }

    /// The kind that a row names; any other name is a cached page's.
    pub fn parse(s: &str) -> (r: Kind)
        ensures
            r == kind_named(s@),
    {
        if crate::text::same_str(s, "saved") {
            Kind::Saved
        } else {
            Kind::Cached
        }
    }
}

/// A kind is read back from its label.
pub proof fn kind_labels_read_back(k: Kind)
    ensures
        kind_named(kind_label(k)) == k,
{
    reveal_strlit("saved");
    reveal_strlit("cached");
    assert("saved"@.len() == 5);
    assert("cached"@.len() == 6);
}

/// A page that a query found.
#[derive(Debug, Clone, PartialEq, Eq)]
pub struct OfflineHit {
    pub wiki: String,
    pub lang: String,
    pub title: String,
    pub kind: Kind,
    pub snippet: String,
}

/// How many pages were indexed.
#[derive(Debug, Clone, Copy, PartialEq, Eq)]
pub struct ReindexReport {
    pub indexed: usize,
}

/// A page to be indexed.
#[derive(Debug, Clone, PartialEq, Eq)]
pub struct IndexedDoc {
    pub wiki: String,
    pub lang: String,
    pub title: String,
    pub kind: Kind,
    pub body: String,
}

/// A row of the index.
#[verifier::ext_equal]
pub struct RowModel {
    pub wiki: Seq<char>,
    pub lang: Seq<char>,
    pub title: Seq<char>,
    pub kind: Kind,
    pub body: Seq<char>,
}

impl View for IndexedDoc {
    type V = RowModel;

    open spec fn view(&self) -> RowModel {
        RowModel {
            wiki: self.wiki@,
            lang: self.lang@,
            title: self.title@,
            kind: self.kind,
            body: self.body@,
        }
    }
}

/// The 64-bit FNV-1a hash of bytes.
pub open spec fn fnv1a_of(bytes: Seq<u8>) -> u64
    decreases bytes.len(),
{
    if bytes.len() == 0 {
        0xcbf2_9ce4_8422_2325
    } else {
        ((fnv1a_of(bytes.drop_last()) ^ (bytes.last() as u64)) as int * 0x100_0000_01b3
            % 0x1_0000_0000_0000_0000) as u64
    }
}

/// The 64-bit FNV-1a hash of bytes.
pub fn fnv1a(bytes: &[u8]) -> (r: u64)
    ensures
        r == fnv1a_of(bytes@),
{
    let mut h: u64 = 0xcbf2_9ce4_8422_2325;
    let n: usize = bytes.len();
    for i in 0..n
        invariant
            n == bytes@.len(),
            h == fnv1a_of(bytes@.take(i as int)),
    {
        proof { assert(bytes@.take(i + 1).drop_last() =~= bytes@.take(i as int)); }
        h = (h ^ (bytes[i] as u64)).wrapping_mul(0x100_0000_01b3);
    }
    proof { assert(bytes@.take(n as int) =~= bytes@); }
    h
}

/// What tells pages apart: wiki, language and title with a null between each
/// two.
pub open spec fn page_key(wiki: Seq<char>, lang: Seq<char>, title: Seq<char>) -> Seq<char> {
    wiki.push('\0') + lang.push('\0') + title
}

/// The row of a page.
pub open spec fn row_id(wiki: Seq<char>, lang: Seq<char>, title: Seq<char>) -> i64 {
    fnv1a_of(encode_utf8(page_key(wiki, lang, title))) as i64
}

/// The row of a page.
pub fn doc_rowid(wiki: &str, lang: &str, title: &str) -> (r: i64)
    ensures
        r == row_id(wiki@, lang@, title@),
{
    let mut key = wiki.to_owned();
    key.push('\0');
    key.push_str(lang);
    key.push('\0');
    key.push_str(title);
    proof { assert(key@ =~= page_key(wiki@, lang@, title@)); }
    let hash: u64 = fnv1a(key.as_str().as_bytes());
    #[verifier::truncate]
    (hash as i64)
}

/// One step of the database.
#[derive(Debug, Clone, PartialEq, Eq)]
pub enum Step {
    /// Every row goes.
    Clear,
    /// A row goes, where it is there.
    Delete(i64),
    /// A row is written.
    Insert(i64, IndexedDoc),
}

/// A step's contents.
pub enum StepModel {
    Clear,
    Delete(i64),
    Insert(i64, RowModel),
}

impl View for Step {
    type V = StepModel;

    open spec fn view(&self) -> StepModel {
        match *self {
            Step::Clear => StepModel::Clear,
            Step::Delete(id) => StepModel::Delete(id),
            Step::Insert(id, doc) => StepModel::Insert(id, doc@),
        }
    }
}

/// The rows after a step.
pub open spec fn stepped(rows: Map<i64, RowModel>, step: StepModel) -> Map<i64, RowModel> {
    match step {
        StepModel::Clear => Map::empty(),
        StepModel::Delete(id) => rows.remove(id),
        StepModel::Insert(id, row) => rows.insert(id, row),
    }
}

/// The rows after steps in order.
pub open spec fn rows_after(rows: Map<i64, RowModel>, steps: Seq<StepModel>) -> Map<i64, RowModel>
    decreases steps.len(),
{
    if steps.len() == 0 {
        rows
    } else {
        stepped(rows_after(rows, steps.drop_last()), steps.last())
    }
}

/// The steps that index a page: its row goes, then is written.
pub open spec fn steps_to_index(row: RowModel) -> Seq<StepModel> {
    let id = row_id(row.wiki, row.lang, row.title);
    seq![StepModel::Delete(id), StepModel::Insert(id, row)]
}

/// The steps that index pages in order.
pub open spec fn steps_to_index_all(rows: Seq<RowModel>) -> Seq<StepModel>
    decreases rows.len(),
{
    if rows.len() == 0 {
        Seq::empty()
    } else {
        steps_to_index_all(rows.drop_last()) + steps_to_index(rows.last())
    }
}

fn copy_doc(doc: &IndexedDoc) -> (r: IndexedDoc)
    ensures
        r@ == doc@,
{
    IndexedDoc {
        wiki: doc.wiki.clone(),
        lang: doc.lang.clone(),
        title: doc.title.clone(),
        kind: doc.kind,
        body: doc.body.clone(),
    }
}

/// The steps that index a page.
pub fn index_steps(doc: &IndexedDoc) -> (r: Vec<Step>)
    ensures
        views(r@) == steps_to_index(doc@),
{
    let id: i64 = doc_rowid(doc.wiki.as_str(), doc.lang.as_str(), doc.title.as_str());
    let steps: Vec<Step> = vec![Step::Delete(id), Step::Insert(id, copy_doc(doc))];
    proof { assert(views(steps@) =~= steps_to_index(doc@)); }
    steps
}

/// The step that takes a page out of the index.
pub fn remove_step(wiki: &str, lang: &str, title: &str) -> (r: Step)
    ensures
        r@ == StepModel::Delete(row_id(wiki@, lang@, title@)),
{
    Step::Delete(doc_rowid(wiki, lang, title))
}

/// The steps that build the index anew from pages, and how many those are.
pub fn reindex_steps(docs: &Vec<IndexedDoc>) -> (r: (Vec<Step>, ReindexReport))
    ensures
        views(r.0@) == seq![StepModel::Clear] + steps_to_index_all(views(docs@)),
        r.1.indexed == docs@.len(),
{
    let mut out: Vec<Step> = vec![Step::Clear];
    let n: usize = docs.len();
    let ghost all = views(docs@);
    proof {
        assert(views(out@) =~= seq![StepModel::Clear] + steps_to_index_all(all.take(0)));
    }
    for i in 0..n
        invariant
            n == docs.len(),
            all == views(docs@),
            views(out@) == seq![StepModel::Clear] + steps_to_index_all(all.take(i as int)),
    {
        let ghost pre = out@;
        proof { assert(all.take(i + 1).drop_last() =~= all.take(i as int)); }
        let mut steps = index_steps(&docs[i]);
        let ghost added = steps@;
        out.append(&mut steps);
        proof {
            assert(views(out@) =~= views(pre) + views(added));
            assert(seq![StepModel::Clear] + (steps_to_index_all(all.take(i as int))
                + steps_to_index(all[i as int])) =~= views(pre) + views(added));
        }
    }
    proof { assert(all.take(n as int) =~= all); }
    (out, ReindexReport { indexed: n })
}

/// A text with every double quote twice.
pub open spec fn quotes_doubled(s: Seq<char>) -> Seq<char>
    decreases s.len(),
{
    if s.len() == 0 {
        Seq::empty()
    } else {
        let before = quotes_doubled(s.drop_last());
        if s.last() == '"' {
            before.push('"').push('"')
        } else {
            before.push(s.last())
        }
    }
}

/// A word as a phrase of its own, so that nothing in it is read as syntax.
pub open spec fn phrase(word: Seq<char>) -> Seq<char> {
    "\""@ + quotes_doubled(word) + "\""@
}

/// The words of a query as phrases.
pub open spec fn phrases(words: Seq<Seq<char>>) -> Seq<Seq<char>> {
    words.map_values(|w: Seq<char>| phrase(w))
}

fn make_phrase(word: &str) -> (r: String)
    ensures
        r@ == phrase(word@),
{
    let cs = chars_of(word);
    let n: usize = cs.len();
    let mut body = String::new();
    for i in 0..n
        invariant
            n == cs.len(),
            cs@ == word@,
            body@ == quotes_doubled(word@.take(i as int)),
    {
        proof { assert(word@.take(i + 1).drop_last() =~= word@.take(i as int)); }
        if cs[i] == '"' {
            body.push('"');
        }
        body.push(cs[i]);
    }
    proof { assert(word@.take(n as int) =~= word@); }
    let mut out = "\"".to_owned();
    out.push_str(body.as_str());
    out.push_str("\"");
    out
}

/// A query with each of its words as a phrase.
pub fn fts5_query_escape(query: &str) -> (r: String)
    ensures
        r@ == joined_with(phrases(words_of(query@)), " "@),
{
    let words = split_words(query);
    let mut parts: Vec<String> = Vec::new();
    let n: usize = words.len();
    let ghost all = phrases(views(words@));
    for i in 0..n
        invariant
            n == words.len(),
            all == phrases(views(words@)),
            views(parts@) == all.take(i as int),
    {
        let ghost pre = parts@;
        parts.push(make_phrase(words[i].as_str()));
        proof {
            assert(views(parts@) =~= views(pre).push(phrase(words@[i as int]@)));
            assert(all.take(i + 1) =~= all.take(i as int).push(all[i as int]));
        }
    }
    proof { assert(all.take(n as int) =~= all); }
    join_with(&parts, " ")
}

/// What the database is asked for a query; nothing for one of whitespace alone.
pub fn search_query(query: &str) -> (r: Option<String>)
    ensures
        match r {
            Some(q) => trimmed(query@).len() > 0 && q@ == joined_with(
                phrases(words_of(trimmed(query@))),
                " "@,
            ),
            None => trimmed(query@).len() == 0,
        },
{
    let q = trim(query);
    if chars_of(q.as_str()).len() == 0 {
        return None;
    }
    Some(fts5_query_escape(q.as_str()))
}

/// What a quoted literal holds, read from behind its opening quote to its
/// closing one: two quotes stand for one. With it, what follows the literal.
pub open spec fn literal(s: Seq<char>) -> Option<(Seq<char>, Seq<char>)>
    decreases s.len(),
{
    if s.len() == 0 {
        None
    } else if s[0] != '"' {
        match literal(s.skip(1)) {
            Some((text, rest)) => Some((seq![s[0]] + text, rest)),
            None => None,
        }
    } else if s.len() > 1 && s[1] == '"' {
        match literal(s.skip(2)) {
            Some((text, rest)) => Some((seq!['"'] + text, rest)),
            None => None,
        }
    } else {
        Some((Seq::empty(), s.skip(1)))
    }
}

proof fn lemma_doubled_first(s: Seq<char>)
    requires
        s.len() > 0,
    ensures
        quotes_doubled(s) == (if s[0] == '"' {
            seq!['"', '"']
        } else {
            seq![s[0]]
        }) + quotes_doubled(s.skip(1)),
    decreases s.len(),
{
    let head = if s[0] == '"' {
        seq!['"', '"']
    } else {
        seq![s[0]]
    };
    if s.len() == 1 {
        assert(s.drop_last() =~= Seq::empty());
        assert(s.skip(1) =~= Seq::empty());
        assert(quotes_doubled(s) =~= head + quotes_doubled(s.skip(1)));
    } else {
        lemma_doubled_first(s.drop_last());
        assert(s.drop_last().skip(1) =~= s.skip(1).drop_last());
        assert(quotes_doubled(s) =~= head + quotes_doubled(s.skip(1)));
    }
}

/// A word of a query is one literal, whatever it holds: nothing in it ends the
/// literal or is read as anything but the word.
pub proof fn a_phrase_is_one_literal(word: Seq<char>, rest: Seq<char>)
    requires
        rest.len() > 0 ==> rest[0] != '"',
    ensures
        (phrase(word) + rest)[0] == '"',
        literal((phrase(word) + rest).skip(1)) == Some((word, rest)),
    decreases word.len(),
{
    reveal_strlit("\"");
    let body = quotes_doubled(word) + seq!['"'] + rest;
    assert((phrase(word) + rest).skip(1) =~= body);
    if word.len() == 0 {
        assert(body.skip(1) =~= rest);
        assert(word =~= Seq::empty());
    } else {
        let tail = word.skip(1);
        lemma_doubled_first(word);
        a_phrase_is_one_literal(tail, rest);
        let next = quotes_doubled(tail) + seq!['"'] + rest;
        assert((phrase(tail) + rest).skip(1) =~= next);
        if word[0] == '"' {
            assert(body.skip(2) =~= next);
        } else {
            assert(body.skip(1) =~= next);
        }
        assert(seq![word[0]] + tail =~= word);
    }
}

/// The literals that a query holds, a space between each two.
pub open spec fn literals(s: Seq<char>) -> Option<Seq<Seq<char>>>
    decreases s.len(),
{
    if s.len() == 0 {
        Some(Seq::empty())
    } else if s[0] != '"' {
        None
    } else {
        match literal(s.skip(1)) {
            Some((text, rest)) => if rest.len() == 0 {
                Some(seq![text])
            } else if rest.len() < s.len() && rest[0] == ' ' {
                match literals(rest.skip(1)) {
                    Some(more) => Some(seq![text] + more),
                    None => None,
                }
            } else {
                None
            },
            None => None,
        }
    }
}

proof fn lemma_joined_first(parts: Seq<Seq<char>>, gap: Seq<char>)
    requires
        parts.len() > 1,
    ensures
        joined_with(parts, gap) == parts[0] + (gap + joined_with(parts.skip(1), gap)),
    decreases parts.len(),
{
    let tail = parts.skip(1);
    if parts.len() == 2 {
        assert(joined_with(parts.drop_last(), gap) == parts[0]);
        assert(joined_with(tail, gap) == parts[1]);
        assert(joined_with(parts, gap) =~= parts[0] + (gap + joined_with(tail, gap)));
    } else {
        lemma_joined_first(parts.drop_last(), gap);
        assert(parts.drop_last().skip(1) =~= tail.drop_last());
        assert(joined_with(parts, gap) =~= parts[0] + (gap + joined_with(tail, gap)));
    }
}

/// The text that a query becomes holds its words and nothing else, each as a
/// literal.
pub proof fn a_query_holds_its_words(words: Seq<Seq<char>>)
    ensures
        literals(joined_with(phrases(words), " "@)) == Some(words),
    decreases words.len(),
{
    reveal_strlit(" ");
    reveal_strlit("\"");
    let parts = phrases(words);
    let text = joined_with(parts, " "@);
    if words.len() == 0 {
        assert(words =~= Seq::empty());
    } else if words.len() == 1 {
        a_phrase_is_one_literal(words[0], Seq::empty());
        assert(parts[0] + Seq::<char>::empty() =~= parts[0]);
        assert(seq![words[0]] =~= words);
    } else {
        let tail = words.skip(1);
        assert(phrases(tail) =~= parts.skip(1));
        lemma_joined_first(parts, " "@);
        let rest = " "@ + joined_with(phrases(tail), " "@);
        a_phrase_is_one_literal(words[0], rest);
        a_query_holds_its_words(tail);
        assert(text == phrase(words[0]) + rest);
        assert(rest.skip(1) =~= joined_with(phrases(tail), " "@));
        assert(seq![words[0]] + tail =~= words);
    }
}

/// Indexing a page again replaces its row: there is one, with the new text.
pub proof fn indexing_again_replaces(rows: Map<i64, RowModel>, a: RowModel, b: RowModel)
    requires
        a.wiki == b.wiki,
        a.lang == b.lang,
        a.title == b.title,
    ensures
        rows_after(rows_after(rows, steps_to_index(a)), steps_to_index(b)) == rows_after(
            rows,
            steps_to_index(b),
        ),
{
    lemma_index_rows(rows, a);
    lemma_index_rows(rows, b);
    lemma_index_rows(rows_after(rows, steps_to_index(a)), b);
    let id = row_id(a.wiki, a.lang, a.title);
    assert(rows.insert(id, a).insert(id, b) =~= rows.insert(id, b));
}

/// Indexing a page writes its row and touches no other.
proof fn lemma_index_rows(rows: Map<i64, RowModel>, row: RowModel)
    ensures
        rows_after(rows, steps_to_index(row)) == rows.insert(
            row_id(row.wiki, row.lang, row.title),
            row,
        ),
{
    let id = row_id(row.wiki, row.lang, row.title);
    let steps = steps_to_index(row);
    let one = steps.drop_last();
    assert(one =~= seq![StepModel::Delete(id)]);
    assert(one.drop_last() =~= Seq::<StepModel>::empty());
    assert(rows_after(rows, one.drop_last()) == rows);
    assert(rows_after(rows, one) == rows.remove(id));
    assert(rows.remove(id).insert(id, row) =~= rows.insert(id, row));
}

/// A page that is taken out has no row, and every other row stays.
pub proof fn a_removed_page_has_no_row(
    rows: Map<i64, RowModel>,
    wiki: Seq<char>,
    lang: Seq<char>,
    title: Seq<char>,
    other: i64,
)
    requires
        other != row_id(wiki, lang, title),
    ensures
        ({
            let after = stepped(rows, StepModel::Delete(row_id(wiki, lang, title)));
            &&& !after.contains_key(row_id(wiki, lang, title))
            &&& after.contains_key(other) == rows.contains_key(other)
            &&& rows.contains_key(other) ==> after[other] == rows[other]
        }),
{
}

/// After the index is built anew, a row is that of one of the pages: nothing
/// from before is left.
pub proof fn reindexing_leaves_nothing_stale(
    rows: Map<i64, RowModel>,
    pages: Seq<RowModel>,
    id: i64,
)
    requires
        rows_after(rows, seq![StepModel::Clear] + steps_to_index_all(pages)).contains_key(id),
    ensures
        pages.contains(rows_after(rows, seq![StepModel::Clear] + steps_to_index_all(pages))[id]),
    decreases pages.len(),
{
    let clear = seq![StepModel::Clear];
    if pages.len() == 0 {
        assert(clear + steps_to_index_all(pages) =~= clear);
        assert(clear.drop_last() =~= Seq::<StepModel>::empty());
    } else {
        let before = pages.drop_last();
        let last = pages.last();
        let head = clear + steps_to_index_all(before);
        assert(clear + steps_to_index_all(pages) =~= head + steps_to_index(last));
        lemma_rows_append(rows, head, steps_to_index(last));
        lemma_index_rows(rows_after(rows, head), last);
        if id == row_id(last.wiki, last.lang, last.title) {
            assert(pages[pages.len() - 1] == last);
        } else {
            reindexing_leaves_nothing_stale(rows, before, id);
            let k = before.index_of(rows_after(rows, head)[id]);
            assert(pages[k] == before[k]);
        }
    }
}

proof fn lemma_rows_append(rows: Map<i64, RowModel>, a: Seq<StepModel>, b: Seq<StepModel>)
    ensures
        rows_after(rows, a + b) == rows_after(rows_after(rows, a), b),
    decreases b.len(),
{
    if b.len() == 0 {
        assert(a + b =~= a);
    } else {
        assert((a + b).drop_last() =~= a + b.drop_last());
        lemma_rows_append(rows, a, b.drop_last());
    }
}

} // verus!
