use vstd::prelude::*;

verus! {

/// What a fetch yields once parsed: the page's title, its raw content, the
/// absolute links found in it, and the depth of the link it was fetched for.
#[derive(Debug)]
pub struct Page {
    pub title: String,
    pub content: String,
    pub links: Vec<String>,
    pub depth: usize,
}

/// The characters of each string of `v`, in order.
pub open spec fn strings_view(v: Seq<String>) -> Seq<Seq<char>> {
    v.map_values(|s: String| s@)
}

impl Page {
    pub fn new(title: String, content: String, links: Vec<String>, depth: usize) -> (r: Page)
        ensures
            r.title == title,
            r.content == content,
            r.links == links,
            r.depth == depth,
    {
        Page { title, content, links, depth }
    }
}

/// Where fetched pages are written: a directory, one file per page.
#[derive(Debug)]
pub struct DataStore {
    pub store_dir: String,
}

impl DataStore {
    /// A store over the directory `dir`; the caller makes sure it exists.
    pub fn new(dir: String) -> (r: DataStore)
        ensures
            r.store_dir == dir,
    {
        DataStore { store_dir: dir }
    }
}

} // verus!
