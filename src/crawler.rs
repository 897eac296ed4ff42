use vstd::prelude::*;

use crate::errors::Errors;
use crate::parser::ContentParser;
use crate::storage::{strings_view, DataStore, Page};
use crate::url_queue::{LinkView, Link, SubmitOutcome, URLQueue};
use crate::{is_valid_url, url_parses};

verus! {

/// How many links may wait in the frontier at once (more where there are more
/// seeds, so that seeding never blocks).
pub const QUEUE_SIZE: usize = 100;

/// The deepest crawl that can be asked for: a link one hop below it must still
/// have a depth that fits in a `usize`.
pub const MAX_DEPTH_LIMIT: usize = usize::MAX - 1;

/// A URL to start from, and the origin that links found under it are resolved
/// against.
#[derive(Debug)]
pub struct Seed {
    pub url: String,
    pub base: String,
}

/// The links that a page fetched for `t` leads to: one for each URL whose
/// flag in `valid` is set, in order, with `t`'s base and one hop deeper.
pub open spec fn children(t: LinkView, urls: Seq<Seq<char>>, valid: Seq<bool>) -> Seq<LinkView>
    decreases urls.len(),
{
    if urls.len() == 0 || valid.len() == 0 {
        Seq::empty()
    } else {
        let init = children(t, urls.drop_last(), valid.drop_last());
        if valid.last() {
            init.push(LinkView { url: urls.last(), base: t.base, depth: t.depth + 1 })
        } else {
            init
        }
    }
}

/// The views of the links of `v`.
pub open spec fn links_view(v: Seq<Link>) -> Seq<LinkView> {
    v.map_values(|l: Link| l@)
}

/// Every link derived from a page is one hop deeper than the link the page was
/// fetched for, and keeps its base.
pub proof fn lemma_children_one_hop_deeper(t: LinkView, urls: Seq<Seq<char>>, valid: Seq<bool>)
    ensures
        forall|i: int|
            0 <= i < children(t, urls, valid).len() ==> {
                &&& (#[trigger] children(t, urls, valid)[i]).depth == t.depth + 1
                &&& children(t, urls, valid)[i].base == t.base
            },
    decreases urls.len(),
{
    if urls.len() > 0 && valid.len() > 0 {
        let init = children(t, urls.drop_last(), valid.drop_last());
        lemma_children_one_hop_deeper(t, urls.drop_last(), valid.drop_last());
        let c = children(t, urls, valid);
        assert forall|i: int| 0 <= i < c.len() implies c[i].depth == t.depth + 1 && c[i].base
            == t.base by {
            if i < init.len() {
                assert(c[i] == init[i]);
            }
        }
    }
}

/// The links to submit for the URLs of a page fetched for `target`, given for
/// each URL whether it is valid: the valid ones, in order, at `target`'s depth
/// plus one and with `target`'s base.
pub fn links_to_follow(target: &Link, urls: &Vec<String>, valid: &Vec<bool>) -> (r: Vec<Link>)
    requires
        urls@.len() == valid@.len(),
        target.depth < usize::MAX,
    ensures
        links_view(r@) == children(target@, strings_view(urls@), valid@),
        forall|i: int| 0 <= i < r@.len() ==> (#[trigger] r@[i]).depth == target.depth + 1,
{
    let ghost uv = strings_view(urls@);
    let mut r: Vec<Link> = Vec::new();
    let mut i: usize = 0;
    while i < urls.len()
        invariant
            0 <= i <= urls@.len(),
            urls@.len() == valid@.len(),
            target.depth < usize::MAX,
            uv == strings_view(urls@),
            links_view(r@) == children(target@, uv.subrange(0, i as int), valid@.subrange(0, i as int)),
        decreases urls@.len() - i,
    {
        proof {
            assert(uv.subrange(0, i + 1).drop_last() =~= uv.subrange(0, i as int));
            assert(valid@.subrange(0, i + 1).drop_last() =~= valid@.subrange(0, i as int));
        }
        if valid[i] {
            let link = Link { url: urls[i].clone(), base: target.base.clone(), depth: target.depth + 1 };
            r.push(link);
            assert(links_view(r@) =~= links_view(r@.drop_last()).push(link@));
        }
        i = i + 1;
    }
    assert(uv.subrange(0, i as int) =~= uv);
    assert(valid@.subrange(0, i as int) =~= valid@);
    proof {
        lemma_children_one_hop_deeper(target@, uv, valid@);
        assert forall|i: int| 0 <= i < r@.len() implies (#[trigger] r@[i]).depth == target.depth + 1 by {
            assert(links_view(r@)[i] == r@[i]@);
        }
    }
    r
}

/// Whether each URL of `urls` is valid, in order.
pub open spec fn validity(urls: Seq<Seq<char>>) -> Seq<bool> {
    urls.map_values(|u: Seq<char>| url_parses(u))
}

/// The links to submit once `page`, fetched for `target`, has been handled:
/// none if the page could not be stored (`saved` is false); otherwise one for
/// each of its links that is a valid URL, at `target`'s depth plus one.
pub fn process_crawl(target: &Link, page: &Page, saved: bool) -> (r: Vec<Link>)
    requires
        target.depth < usize::MAX,
    ensures
        !saved ==> r@.len() == 0,
        saved ==> links_view(r@) == children(
            target@,
            strings_view(page.links@),
            validity(strings_view(page.links@)),
        ),
        forall|i: int| 0 <= i < r@.len() ==> (#[trigger] r@[i]).depth == target.depth + 1,
{
    if !saved {
        return Vec::new();
    }
    let mut valid: Vec<bool> = Vec::new();
    let mut i: usize = 0;
    while i < page.links.len()
        invariant
            0 <= i <= page.links@.len(),
            valid@.len() == i,
            forall|j: int| 0 <= j < i ==> #[trigger] valid@[j] == url_parses(page.links@[j]@),
        decreases page.links@.len() - i,
    {
        valid.push(is_valid_url(page.links[i].as_str()));
        i = i + 1;
    }
    assert(valid@ =~= validity(strings_view(page.links@)));
    links_to_follow(target, &page.links, &valid)
}

/// The seed URLs of `seeds`.
pub open spec fn seed_urls(seeds: Seq<Seed>) -> Set<Seq<char>> {
    Set::new(|u: Seq<char>| exists|i: int| 0 <= i < seeds.len() && seeds[i].url@ == u)
}

/// Whether `l` has the URL and the base of one of `seeds`.
pub open spec fn from_seed(seeds: Seq<Seed>, l: LinkView) -> bool {
    exists|j: int| 0 <= j < seeds.len() && seeds[j].url@ == l.url && seeds[j].base@ == l.base
}

/// A crawl run's configuration: where it starts, how deep it goes, how many
/// workers share the work, and where pages are written.
#[derive(Debug)]
pub struct Crawler {
    pub seed_urls: Vec<Seed>,
    pub max_depth: usize,
    pub max_worker: usize,
    pub parser: ContentParser,
    pub page_store: DataStore,
}

impl Crawler {
    /// A crawler for these seeds and limits, writing pages under `store_dir`.
    /// A depth above `MAX_DEPTH_LIMIT` is refused.
    pub fn new(seed_urls: Vec<Seed>, max_depth: usize, max_worker: usize, store_dir: String) -> (r:
        Result<Crawler, Errors>)
        ensures
            r is Ok <==> max_depth <= MAX_DEPTH_LIMIT,
            match r {
                Ok(c) => {
                    &&& c.seed_urls == seed_urls
                    &&& c.max_depth == max_depth
                    &&& c.max_worker == max_worker
                    &&& c.page_store.store_dir == store_dir
                },
                Err(e) => e == Errors::InvalidDepth(max_depth, MAX_DEPTH_LIMIT),
            },
    {
        if max_depth > MAX_DEPTH_LIMIT {
            return Err(Errors::InvalidDepth(max_depth, MAX_DEPTH_LIMIT));
        }
        Ok(
            Crawler {
                seed_urls,
                max_depth,
                max_worker,
                parser: ContentParser::new(),
                page_store: DataStore::new(store_dir),
            },
        )
    }

    /// A fresh frontier holding every seed as a link at depth 1 (a repeated
    /// seed URL once, with its first base). It hands out links up to this
    /// crawler's depth, and has room for all the seeds and at least
    /// `QUEUE_SIZE` links.
    pub fn frontier(&self) -> (r: URLQueue)
        ensures
            r.wf(),
            r@.checked_out == 0,
            !r@.closed,
            r@.max_depth == self.max_depth,
            r@.capacity >= QUEUE_SIZE,
            r@.capacity >= self.seed_urls@.len(),
            r@.visited == seed_urls(self.seed_urls@),
            forall|k: int|
                0 <= k < r@.pending.len() ==> {
                    &&& (#[trigger] r@.pending[k]).depth == 1
                    &&& from_seed(self.seed_urls@, r@.pending[k])
                },
            forall|u: Seq<char>|
                #[trigger] r@.visited.contains(u) ==> exists|k: int|
                    0 <= k < r@.pending.len() && r@.pending[k].url == u,
    {
        let seeds = &self.seed_urls;
        let capacity: usize = if seeds.len() > QUEUE_SIZE {
            seeds.len()
        } else {
            QUEUE_SIZE
        };
        let mut q = URLQueue::new(self.max_depth, capacity);
        let mut i: usize = 0;
        while i < seeds.len()
            invariant
                0 <= i <= seeds@.len(),
                q.wf(),
                q@.checked_out == 0,
                !q@.closed,
                q@.max_depth == self.max_depth,
                q@.capacity == capacity,
                capacity >= QUEUE_SIZE,
                capacity >= seeds@.len(),
                q@.pending.len() <= i,
                q@.visited == seed_urls(seeds@.subrange(0, i as int)),
                forall|k: int|
                    0 <= k < q@.pending.len() ==> {
                        &&& (#[trigger] q@.pending[k]).depth == 1
                        &&& exists|j: int|
                            0 <= j < i && seeds@[j].url@ == q@.pending[k].url && seeds@[j].base@
                                == q@.pending[k].base
                    },
                forall|u: Seq<char>|
                    #[trigger] q@.visited.contains(u) ==> exists|k: int|
                        0 <= k < q@.pending.len() && q@.pending[k].url == u,
            decreases seeds@.len() - i,
        {
            let ghost before = q@;
            let link = Link { url: seeds[i].url.clone(), base: seeds[i].base.clone(), depth: 1 };
            let outcome = q.add_url(&link);
            proof {
                let prefix = seeds@.subrange(0, i as int);
                let next = seeds@.subrange(0, i + 1);
                assert(seed_urls(next) =~= seed_urls(prefix).insert(seeds@[i as int].url@)) by {
                    assert forall|u: Seq<char>| seed_urls(prefix).contains(u) implies seed_urls(
                        next,
                    ).contains(u) by {
                        let j = choose|j: int| 0 <= j < prefix.len() && prefix[j].url@ == u;
                        assert(next[j] == prefix[j]);
                    }
                    assert(next[i as int] == seeds@[i as int]);
                    assert forall|u: Seq<char>| seed_urls(next).contains(u) implies seed_urls(
                        prefix,
                    ).insert(seeds@[i as int].url@).contains(u) by {
                        let j = choose|j: int| 0 <= j < next.len() && next[j].url@ == u;
                        if j < i {
                            assert(prefix[j] == next[j]);
                        }
                    }
                }
                if outcome == SubmitOutcome::Accepted {
                    assert(q@.pending[before.pending.len() as int] == link@);
                    assert forall|k: int| 0 <= k < q@.pending.len() implies {
                        &&& (#[trigger] q@.pending[k]).depth == 1
                        &&& exists|j: int|
                            0 <= j < i + 1 && seeds@[j].url@ == q@.pending[k].url && seeds@[j].base@
                                == q@.pending[k].base
                    } by {
                        if k < before.pending.len() {
                            assert(q@.pending[k] == before.pending[k]);
                        }
                    }
                    assert forall|u: Seq<char>| #[trigger] q@.visited.contains(u) implies exists|k: int|
                        0 <= k < q@.pending.len() && q@.pending[k].url == u by {
                        if before.visited.contains(u) {
                            let k = choose|k: int|
                                0 <= k < before.pending.len() && before.pending[k].url == u;
                            assert(q@.pending[k] == before.pending[k]);
                        } else {
                            assert(q@.pending[before.pending.len() as int].url == u);
                        }
                    }
                }
            }
            i = i + 1;
        }
        assert(seeds@.subrange(0, i as int) =~= seeds@);
        assert forall|k: int| 0 <= k < q@.pending.len() implies {
            &&& (#[trigger] q@.pending[k]).depth == 1
            &&& from_seed(self.seed_urls@, q@.pending[k])
        } by {
            let j = choose|j: int|
                0 <= j < i && seeds@[j].url@ == q@.pending[k].url && seeds@[j].base@
                    == q@.pending[k].base;
            assert(self.seed_urls@[j] == seeds@[j]);
        }
        q
    }
}

} // verus!
