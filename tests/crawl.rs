use tiny_crawler::crawler::{links_to_follow, process_crawl, Crawler, Seed, MAX_DEPTH_LIMIT, QUEUE_SIZE};
use tiny_crawler::errors::Errors;
use tiny_crawler::parser::{keep_resolved, ContentParser};
use tiny_crawler::storage::{DataStore, Page};
use tiny_crawler::url_queue::{Link, SubmitOutcome, TakeOutcome};
use tiny_crawler::is_valid_url;

fn seed(url: &str) -> Seed {
    Seed {
        url: url.to_string(),
        base: url.to_string(),
    }
}

fn fake_fetch(url: &str) -> String {
    if url == "https://a.test/" {
        r#"<html><head><title>A</title></head><body>
        <a href="https://a.test/one">one</a>
        <a href="/two">two</a>
        <a href="http://[::1">broken</a>
        </body></html>"#
            .to_string()
    } else {
        "<html><title>leaf</title></html>".to_string()
    }
}

#[test]
fn one_seed_depth_one_single_worker() {
    let crawler = Crawler::new(vec![seed("https://a.test/")], 1, 1, "data".to_string()).unwrap();
    let mut q = crawler.frontier();
    let mut fetched: Vec<String> = Vec::new();
    let mut persisted: Vec<String> = Vec::new();
    let mut produced: Vec<Link> = Vec::new();
    loop {
        match q.get_next_link() {
            TakeOutcome::Next(target) => {
                fetched.push(target.url.clone());
                let content = fake_fetch(&target.url);
                let page = crawler
                    .parser
                    .parse(&content, &target.base, target.depth)
                    .unwrap();
                persisted.push(page.title.clone());
                let next = process_crawl(&target, &page, true);
                for l in &next {
                    assert_ne!(q.add_url(l), SubmitOutcome::Full);
                }
                produced.extend(next);
                q.complete();
            }
            TakeOutcome::Wait => panic!("a single worker never waits"),
            TakeOutcome::Drained => break,
        }
    }
    assert_eq!(fetched, vec!["https://a.test/".to_string()]);
    assert_eq!(persisted, vec!["A".to_string()]);
    assert_eq!(produced.len(), 2);
    assert_eq!(produced[0].url, "https://a.test/one");
    assert_eq!(produced[1].url, "https://a.test/two");
    assert!(produced.iter().all(|l| l.depth == 2 && l.base == "https://a.test/"));
    assert_eq!(q.pending_count(), 0);
    assert_eq!(q.checked_out_count(), 0);
}

#[test]
fn depth_two_fetches_children_once() {
    let crawler = Crawler::new(vec![seed("https://a.test/")], 2, 1, "data".to_string()).unwrap();
    let mut q = crawler.frontier();
    let mut fetched: Vec<(String, usize)> = Vec::new();
    loop {
        match q.get_next_link() {
            TakeOutcome::Next(target) => {
                fetched.push((target.url.clone(), target.depth));
                let content = fake_fetch(&target.url);
                let page = crawler.parser.parse(&content, &target.base, target.depth).unwrap();
                for l in process_crawl(&target, &page, true) {
                    q.add_url(&l);
                }
                q.complete();
            }
            TakeOutcome::Wait => panic!("a single worker never waits"),
            TakeOutcome::Drained => break,
        }
    }
    assert_eq!(
        fetched,
        vec![
            ("https://a.test/".to_string(), 1),
            ("https://a.test/one".to_string(), 2),
            ("https://a.test/two".to_string(), 2),
        ]
    );
}

#[test]
fn depth_above_limit_is_refused() {
    let r = Crawler::new(vec![seed("https://a.test/")], usize::MAX, 2, "data".to_string());
    assert_eq!(r.unwrap_err(), Errors::InvalidDepth(usize::MAX, MAX_DEPTH_LIMIT));
    let ok = Crawler::new(vec![], MAX_DEPTH_LIMIT, 2, "out".to_string()).unwrap();
    assert_eq!(ok.max_depth, MAX_DEPTH_LIMIT);
    assert_eq!(ok.max_worker, 2);
    assert_eq!(ok.page_store.store_dir, "out");
}

#[test]
fn frontier_holds_each_seed_once_at_depth_one() {
    let crawler = Crawler::new(
        vec![seed("https://a.test/"), seed("https://b.test/"), seed("https://a.test/")],
        3,
        1,
        "data".to_string(),
    )
    .unwrap();
    let mut q = crawler.frontier();
    assert_eq!(q.pending_count(), 2);
    let mut got = Vec::new();
    while let TakeOutcome::Next(l) = q.get_next_link() {
        got.push((l.url, l.depth));
    }
    assert_eq!(
        got,
        vec![("https://a.test/".to_string(), 1), ("https://b.test/".to_string(), 1)]
    );
}

#[test]
fn frontier_makes_room_for_many_seeds() {
    let seeds: Vec<Seed> = (0..QUEUE_SIZE + 5)
        .map(|i| seed(&format!("https://s{}.test/", i)))
        .collect();
    let crawler = Crawler::new(seeds, 1, 1, "data".to_string()).unwrap();
    let q = crawler.frontier();
    assert_eq!(q.pending_count(), QUEUE_SIZE + 5);
}

#[test]
fn unsaved_page_yields_no_links() {
    let target = Link {
        url: "https://a.test/".to_string(),
        base: "https://a.test/".to_string(),
        depth: 1,
    };
    let page = Page::new(
        "t".to_string(),
        "c".to_string(),
        vec!["https://a.test/x".to_string()],
        1,
    );
    assert!(process_crawl(&target, &page, false).is_empty());
    assert_eq!(process_crawl(&target, &page, true).len(), 1);
}

#[test]
fn invalid_urls_are_skipped() {
    let target = Link {
        url: "https://a.test/p".to_string(),
        base: "https://a.test/".to_string(),
        depth: 4,
    };
    let page = Page::new(
        "t".to_string(),
        String::new(),
        vec![
            "not a url".to_string(),
            "https://a.test/q".to_string(),
            "/relative".to_string(),
            "mailto:x@a.test".to_string(),
        ],
        4,
    );
    let next = process_crawl(&target, &page, true);
    let urls: Vec<&str> = next.iter().map(|l| l.url.as_str()).collect();
    assert_eq!(urls, vec!["https://a.test/q", "mailto:x@a.test"]);
    assert!(next.iter().all(|l| l.depth == 5 && l.base == "https://a.test/"));
}

#[test]
fn links_follow_the_validity_flags() {
    let target = Link {
        url: "u".to_string(),
        base: "b".to_string(),
        depth: 0,
    };
    let urls = vec!["x".to_string(), "y".to_string(), "z".to_string()];
    let next = links_to_follow(&target, &urls, &vec![true, false, true]);
    assert_eq!(next.len(), 2);
    assert_eq!(next[0].url, "x");
    assert_eq!(next[1].url, "z");
    assert!(next.iter().all(|l| l.depth == 1 && l.base == "b"));
    assert!(links_to_follow(&target, &urls, &vec![false, false, false]).is_empty());
}

#[test]
fn keep_resolved_drops_missing_links() {
    let joined = vec![None, Some("https://a.test/1".to_string()), None, Some("https://a.test/2".to_string())];
    assert_eq!(
        keep_resolved(&joined),
        vec!["https://a.test/1".to_string(), "https://a.test/2".to_string()]
    );
    assert!(keep_resolved(&vec![]).is_empty());
}

#[test]
fn parse_resolves_and_drops_broken_hrefs() {
    let p = ContentParser::new();
    let page = p
        .parse(
            r#"<html><body><a href="../up">u</a><a href="http://[::1">x</a><a>no href</a></body></html>"#,
            "https://a.test/dir/page",
            3,
        )
        .unwrap();
    assert_eq!(page.title, "");
    assert_eq!(page.links, vec!["https://a.test/up".to_string()]);
    assert_eq!(page.depth, 3);
    assert!(page.content.starts_with("<html>"));
}

#[test]
fn extract_against_unparsable_base_keeps_no_links() {
    let p = ContentParser::new();
    let parsed = p.extract(
        r#"<title>T</title><a href="https://x.test/a">a</a><a href="/b">b</a>"#,
        "not a base",
    );
    assert_eq!(parsed.title, "T");
    assert!(parsed.links.is_empty());
}

#[test]
fn url_validity() {
    assert!(is_valid_url("https://a.test/"));
    assert!(!is_valid_url("example.com"));
    assert!(!is_valid_url(""));
}

#[test]
fn page_and_store_constructors() {
    let page = Page::new("T".to_string(), "C".to_string(), vec!["l".to_string()], 2);
    assert_eq!(page.title, "T");
    assert_eq!(page.content, "C");
    assert_eq!(page.links, vec!["l".to_string()]);
    assert_eq!(page.depth, 2);
    let store = DataStore::new("dir".to_string());
    assert_eq!(store.store_dir, "dir");
}
