//! The bibliography that grows while one reads: citations of articles and of
//! the sources they cite, and the addresses they point to.
use crate::doc::Citation;
use crate::line_file::{rewrite_first, rewritten};
use crate::text::{decimal, decimal_string, same_str, swap_char, swapped, views};
use vstd::prelude::*;

verus! {

/// Whether a citation is of the article itself or of a source that it cites.
#[derive(Debug, Clone, Copy, PartialEq, Eq, Structural)]
pub enum CitationKind {
    Article,
    Reference,
}

impl Default for CitationKind {
    fn default() -> (r: CitationKind)
        ensures
            r == CitationKind::Reference,
    {
        CitationKind::Reference
    }
}

/// A saved citation.
#[derive(Debug, Clone, PartialEq)]
pub struct SavedCitation {
    pub source_article: String,
    pub source_lang: String,
    pub text: String,
    pub url: Option<String>,
    pub saved_at: String,
    pub kind: CitationKind,
}

/// A saved citation's contents.
#[verifier::ext_equal]
pub struct CitationModel {
    pub source_article: Seq<char>,
    pub source_lang: Seq<char>,
    pub text: Seq<char>,
    pub url: Option<Seq<char>>,
    pub saved_at: Seq<char>,
    pub kind: CitationKind,
}

/// An optional string's contents.
pub open spec fn opt_view(s: Option<String>) -> Option<Seq<char>> {
    match s {
        Some(t) => Some(t@),
        None => None,
    }
}

impl View for SavedCitation {
    type V = CitationModel;

    open spec fn view(&self) -> CitationModel {
        CitationModel {
            source_article: self.source_article@,
            source_lang: self.source_lang@,
            text: self.text@,
            url: opt_view(self.url),
            saved_at: self.saved_at@,
            kind: self.kind,
        }
    }
}

impl SavedCitation {
    /// Whether two citations hold the same.
    pub fn same(&self, other: &SavedCitation) -> (r: bool)
        ensures
            r == (self@ == other@),
    {
        let urls = match (&self.url, &other.url) {
            (Some(a), Some(b)) => same_str(a.as_str(), b.as_str()),
            (None, None) => true,
            _ => false,
        };
        urls && self.kind == other.kind && same_str(
            self.source_article.as_str(),
            other.source_article.as_str(),
        ) && same_str(self.source_lang.as_str(), other.source_lang.as_str()) && same_str(
            self.text.as_str(),
            other.text.as_str(),
        ) && same_str(self.saved_at.as_str(), other.saved_at.as_str())
    }
}

/// The bibliography: its citations, and the file they are kept in where there
/// is one.
pub struct ResearchStore {
    pub citations: Vec<SavedCitation>,
    path: Option<String>,
}

/// A bibliography's contents.
#[verifier::ext_equal]
pub struct ResearchModel {
    pub citations: Seq<CitationModel>,
    pub path: Option<Seq<char>>,
}

impl View for ResearchStore {
    type V = ResearchModel;

    closed spec fn view(&self) -> ResearchModel {
        ResearchModel { citations: views(self.citations@), path: opt_view(self.path) }
    }
}

fn copy_path(path: &Option<String>) -> (r: Option<String>)
    ensures
        opt_view(r) == opt_view(*path),
{
    match path {
        Some(p) => Some(p.clone()),
        None => None,
    }
}

impl ResearchStore {
    /// An empty bibliography without a file.
    pub fn in_memory() -> (r: ResearchStore)
        ensures
            r@ == (ResearchModel { citations: Seq::empty(), path: None }),
    {
        let r = ResearchStore { citations: Vec::new(), path: None };
        proof { assert(r@.citations =~= Seq::empty()); }
        r
    }

    /// The bibliography of a file with the citations read from it.
    pub fn load_from(path: String, citations: Vec<SavedCitation>) -> (r: ResearchStore)
        ensures
            r@ == (ResearchModel { citations: views(citations@), path: Some(path@) }),
    {
        ResearchStore { citations, path: Some(path) }
    }

    /// The citations.
    pub fn list(&self) -> (r: &Vec<SavedCitation>)
        ensures
            views(r@) == self@.citations,
    {
        &self.citations
    }

    /// Whether the bibliography has no file.
    pub fn is_in_memory(&self) -> (r: bool)
        ensures
            r == (self@.path is None),
    {
        self.path.is_none()
    }

    /// Adds a citation, and says which file it is to be appended to.
    pub fn add(&mut self, citation: SavedCitation) -> (r: Option<String>)
        ensures
            final(self)@ == (ResearchModel {
                citations: old(self)@.citations.push(citation@),
                path: old(self)@.path,
            }),
            opt_view(r) == old(self)@.path,
    {
        let ghost pre = self.citations@;
        self.citations.push(citation);
        proof { assert(views(self.citations@) =~= views(pre).push(citation@)); }
        copy_path(&self.path)
    }

    /// Takes a citation out, and says which file its line is to be taken out
    /// of. An index past the end has no citation.
    pub fn remove(&mut self, index: usize) -> (r: Option<(SavedCitation, Option<String>)>)
        ensures
            match r {
                Some((removed, path)) => {
                    &&& index < old(self)@.citations.len()
                    &&& removed@ == old(self)@.citations[index as int]
                    &&& opt_view(path) == old(self)@.path
                    &&& final(self)@ == (ResearchModel {
                        citations: old(self)@.citations.remove(index as int),
                        path: old(self)@.path,
                    })
                },
                None => index >= old(self)@.citations.len() && final(self)@ == old(self)@,
            },
    {
        if index >= self.citations.len() {
            return None;
        }
        let ghost pre = self.citations@;
        let removed = self.citations.remove(index);
        proof { assert(views(self.citations@) =~= views(pre).remove(index as int)); }
        Some((removed, copy_path(&self.path)))
    }
}

/// Which lines hold a citation: a line that cannot be read holds none.
pub open spec fn citation_hits(parsed: Seq<Option<SavedCitation>>, target: CitationModel) -> Seq<bool> {
    parsed.map_values(
        |p: Option<SavedCitation>|
            match p {
                Some(c) => c@ == target,
                None => false,
            },
    )
}

/// A bibliography file's lines without the first that holds `target`; `parsed`
/// holds what each line was read as. Nothing is to be written where no line
/// holds it.
pub fn remove_line(
    lines: &Vec<String>,
    parsed: &Vec<Option<SavedCitation>>,
    target: &SavedCitation,
) -> (r: Option<Vec<String>>)
    ensures
        match r {
            Some(out) => rewritten(views(lines@), citation_hits(parsed@, target@), None) == Some(
                views(out@),
            ),
            None => rewritten(views(lines@), citation_hits(parsed@, target@), None) is None,
        },
{
    let mut hits: Vec<bool> = Vec::new();
    let n: usize = parsed.len();
    for i in 0..n
        invariant
            n == parsed.len(),
            hits@ == citation_hits(parsed@, target@).take(i as int),
    {
        let hit = match &parsed[i] {
            Some(c) => c.same(target),
            None => false,
        };
        hits.push(hit);
        proof {
            let all = citation_hits(parsed@, target@);
            assert(all.take(i + 1) =~= all.take(i as int).push(all[i as int]));
        }
    }
    proof {
        let all = citation_hits(parsed@, target@);
        assert(all.take(n as int) =~= all);
    }
    rewrite_first(lines, &hits, None)
}

/// An edition's address.
pub open spec fn edition(lang: Seq<char>) -> Seq<char> {
    "https://"@ + lang + ".wikipedia.org"@
}

/// A title as it stands in an address, with underscores for spaces.
pub open spec fn title_in_url(title: Seq<char>) -> Seq<char> {
    swapped(title, ' ', '_')
}

/// An article's address.
pub open spec fn article_address(title: Seq<char>, lang: Seq<char>) -> Seq<char> {
    edition(lang) + "/wiki/"@ + title_in_url(title)
}

/// The address of an action on a page.
pub open spec fn page_address(title: Seq<char>, lang: Seq<char>, query: Seq<char>) -> Seq<char> {
    edition(lang) + "/w/index.php?title="@ + title_in_url(title) + query
}

fn address(lang: &str, path: &str, title: &str, query: &str) -> (r: String)
    ensures
        r@ == edition(lang@) + path@ + title_in_url(title@) + query@,
{
    let mut out = "https://".to_owned();
    out.push_str(lang);
    out.push_str(".wikipedia.org");
    out.push_str(path);
    out.push_str(swap_char(title, ' ', '_').as_str());
    out.push_str(query);
    out
}

/// An article's address.
pub fn article_url(title: &str, lang: &str) -> (r: String)
    ensures
        r@ == article_address(title@, lang@),
{
    let mut out = "https://".to_owned();
    out.push_str(lang);
    out.push_str(".wikipedia.org");
    out.push_str("/wiki/");
    out.push_str(swap_char(title, ' ', '_').as_str());
    out
}

/// The address at which a page is created.
pub fn create_page_url(title: &str, lang: &str) -> (r: String)
    ensures
        r@ == page_address(title@, lang@, "&action=edit"@),
{
    address(lang, "/w/index.php?title=", title, "&action=edit")
}

/// The address of one revision of an article.
pub fn permalink_url(title: &str, lang: &str, revid: u64) -> (r: String)
    ensures
        r@ == page_address(title@, lang@, "&oldid="@ + decimal(revid as nat)),
{
    let mut query = "&oldid=".to_owned();
    query.push_str(decimal_string(revid).as_str());
    address(lang, "/w/index.php?title=", title, query.as_str())
}

/// The address of an article's history.
pub fn history_url(title: &str, lang: &str) -> (r: String)
    ensures
        r@ == page_address(title@, lang@, "&action=history"@),
{
    address(lang, "/w/index.php?title=", title, "&action=history")
}

/// The citation of an article itself. The title stands as it is in the text,
/// and with underscores in the address.
pub fn self_citation(title: &str, lang: &str) -> (r: Citation)
    ensures
        r.id@ == "self"@,
        r.text@ == "\""@ + title@ + ".\" Wikipedia, The Free Encyclopedia. Wikimedia Foundation."@,
        opt_view(r.url) == Some(article_address(title@, lang@)),
{
    let mut text = "\"".to_owned();
    text.push_str(title);
    text.push_str(".\" Wikipedia, The Free Encyclopedia. Wikimedia Foundation.");
    Citation { id: "self".to_owned(), text, url: Some(article_url(title, lang)) }
}

/// No address holds a space that its edition does not.
pub proof fn titles_in_urls_have_no_spaces(title: Seq<char>)
    ensures
        !title_in_url(title).contains(' '),
{
    let t = title_in_url(title);
    if t.contains(' ') {
        let i = t.index_of(' ');
        assert(t[i] != ' ');
    }
}

} // verus!
