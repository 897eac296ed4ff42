use vstd::prelude::*;

use crate::errors::Errors;
use crate::storage::{strings_view, Page};
use crate::{join_url, url_joined};

verus! {

/// The text of the first `<title>` element of the HTML document `content`,
/// or the empty string where there is none.
pub uninterp spec fn html_title(content: Seq<char>) -> Seq<char>;

/// The `href` values of the document's `<a>` elements that carry one, in
/// document order.
pub uninterp spec fn html_hrefs(content: Seq<char>) -> Seq<Seq<char>>;

/// Relies on `scraper::Html::parse_document`, then `Html::select` with the
/// selector `title`: the text of the first match, or empty. The selector
/// text is fixed and always parses.
#[verifier::external_body]
fn document_title(content: &str) -> (r: String)
    ensures
        r@ == html_title(content@),
{
    let doc = scraper::Html::parse_document(content);
    let title = scraper::Selector::parse("title").unwrap();
    doc.select(&title).next().map(|el| el.text().collect::<String>()).unwrap_or_default()
}

/// Relies on `scraper::Html::parse_document`, then `Html::select` with the
/// selector `a[href]`: the `href` attribute of each match, in document order.
/// The selector text is fixed and always parses, and each match has the attribute.
#[verifier::external_body]
fn document_hrefs(content: &str) -> (r: Vec<String>)
    ensures
        strings_view(r@) == html_hrefs(content@),
{
    let doc = scraper::Html::parse_document(content);
    let anchors = scraper::Selector::parse("a[href]").unwrap();
    doc.select(&anchors).map(|el| String::from(el.value().attr("href").unwrap_or_default())).collect()
}

/// The characters of an optional string.
pub open spec fn option_view(o: Option<String>) -> Option<Seq<char>> {
    match o {
        Some(s) => Some(s@),
        None => None,
    }
}

/// The present values of `s`, in order.
pub open spec fn present(s: Seq<Option<Seq<char>>>) -> Seq<Seq<char>>
    decreases s.len(),
{
    if s.len() == 0 {
        Seq::empty()
    } else {
        let init = present(s.drop_last());
        match s.last() {
            Some(x) => init.push(x),
            None => init,
        }
    }
}

/// The absolute links that the hrefs denote against `base`, in order; an
/// href that cannot be resolved is left out.
pub open spec fn resolved_links(base: Seq<char>, hrefs: Seq<Seq<char>>) -> Seq<Seq<char>> {
    present(hrefs.map_values(|h: Seq<char>| url_joined(base, h)))
}

/// The links of `joined` that could be resolved, in order.
pub fn keep_resolved(joined: &Vec<Option<String>>) -> (r: Vec<String>)
    ensures
        strings_view(r@) == present(joined@.map_values(|o: Option<String>| option_view(o))),
{
    let ghost jv = joined@.map_values(|o: Option<String>| option_view(o));
    let mut r: Vec<String> = Vec::new();
    let mut i: usize = 0;
    while i < joined.len()
        invariant
            0 <= i <= joined@.len(),
            jv == joined@.map_values(|o: Option<String>| option_view(o)),
            strings_view(r@) == present(jv.subrange(0, i as int)),
        decreases joined@.len() - i,
    {
        proof {
            assert(jv.subrange(0, i + 1).drop_last() =~= jv.subrange(0, i as int));
        }
        match &joined[i] {
            Some(s) => {
                r.push(s.clone());
                assert(strings_view(r@) =~= strings_view(r@.drop_last()).push(s@));
            },
            None => {},
        }
        i = i + 1;
    }
    assert(jv.subrange(0, i as int) =~= jv);
    r
}

/// The title and the resolved links of a page.
#[derive(Debug)]
pub struct ParsedContent {
    pub links: Vec<String>,
    pub title: String,
}

/// Reads titles and links out of HTML.
#[derive(Debug)]
pub struct ContentParser {}

impl ContentParser {
    pub fn new() -> (r: ContentParser) {
        ContentParser {  }
    }

    /// The title of `content` and its links resolved against `base`.
    pub fn extract(&self, content: &str, base: &str) -> (r: ParsedContent)
        ensures
            r.title@ == html_title(content@),
            strings_view(r.links@) == resolved_links(base@, html_hrefs(content@)),
    {
        let title = document_title(content);
        let hrefs = document_hrefs(content);
        let ghost hv = html_hrefs(content@);
        let mut joined: Vec<Option<String>> = Vec::new();
        let mut i: usize = 0;
        while i < hrefs.len()
            invariant
                0 <= i <= hrefs@.len(),
                strings_view(hrefs@) == hv,
                joined@.len() == i,
                forall|j: int|
                    0 <= j < i ==> option_view(#[trigger] joined@[j]) == url_joined(base@, hv[j]),
            decreases hrefs@.len() - i,
        {
            let h: &str = hrefs[i].as_str();
            let o = join_url(base, h);
            joined.push(o);
            i = i + 1;
        }
        assert(joined@.map_values(|o: Option<String>| option_view(o)) =~= hv.map_values(
            |h: Seq<char>| url_joined(base@, h),
        ));
        let links = keep_resolved(&joined);
        ParsedContent { links, title }
    }

    /// The page that `content` makes when fetched for a link at `depth`: its
    /// title, the content itself, and its links resolved against `base`.
    /// HTML is read leniently, so this always succeeds.
    pub fn parse(&self, content: &str, base: &str, depth: usize) -> (r: Result<Page, Errors>)
        ensures
            match r {
                Ok(p) => {
                    &&& p.title@ == html_title(content@)
                    &&& p.content@ == content@
                    &&& strings_view(p.links@) == resolved_links(base@, html_hrefs(content@))
                    &&& p.depth == depth
                },
                Err(_) => false,
            },
    {
        let parsed = self.extract(content, base);
        Ok(Page::new(parsed.title, String::from_str(content), parsed.links, depth))
    }
}

} // verus!
