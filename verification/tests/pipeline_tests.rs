use news_digest::digest::{deduplicate, is_missing_url, DigestItem};
use news_digest::filter::{Filters, ItemFilter, TitleFilter};
use news_digest::pipeline::{ingest_fetched, is_blacklisted, JsonNewsItem};
use news_digest::storage::Storage;

fn item_filter(title: &str, value: &str) -> ItemFilter {
    ItemFilter {
        title: title.to_string(),
        value: value.to_string(),
    }
}

fn match_all() -> Vec<TitleFilter> {
    Filters::compile(&[item_filter("PLs", ".*")])
}

#[test]
fn test_is_empty_url() {
    let pulled_items = vec![
        DigestItem {
            news_title: "Rust is awesome".to_string(),
            news_url: "https://example.com".to_string(),
            created_at: 1700000000,
            id: 1,
        },
        DigestItem {
            news_title: "Missing URL".to_string(),
            news_url: "".to_string(),
            created_at: 1700000000,
            id: 2,
        },
        DigestItem {
            news_title: "".to_string(),
            news_url: "".to_string(),
            created_at: 1700000000,
            id: 3,
        },
    ];

    assert_eq!(
        pulled_items
            .iter()
            .filter(|i| is_missing_url(&i.news_url))
            .count(),
        2,
        "Missing URL check failed",
    );
}

#[test]
fn test_is_blacklisted() {
    let pulled_items = vec![
        DigestItem {
            news_title: "Rust is awesome".to_string(),
            news_url: "https://example.com".to_string(),
            created_at: 1700000000,
            id: 1,
        },
        DigestItem {
            news_title: "Rust is awesome".to_string(),
            news_url: "https://example.org".to_string(),
            created_at: 1700000000,
            id: 2,
        },
    ];
    let blacklisted_domains = vec![String::from("example.com")];

    assert_eq!(
        pulled_items
            .iter()
            .filter(|i| is_blacklisted(&i.news_url, &blacklisted_domains))
            .count(),
        1,
        "Blacklisted domain check failed",
    );
}

#[test]
fn test_blacklist_ignores_malformed_urls() {
    // malformed or empty URLs are never blacklisted; the exact host must match
    let blacklisted_domains = vec![String::from("example.com")];
    assert!(!is_blacklisted("", &blacklisted_domains));
    assert!(!is_blacklisted("not a url", &blacklisted_domains));
    assert!(!is_blacklisted("https://sub.example.com/x", &blacklisted_domains));
    assert!(is_blacklisted("https://example.com/x", &blacklisted_domains));
}

#[test]
fn test_fetch_news_item() {
    let item = JsonNewsItem {
        id: 111,
        title: Some("Ask HN: Have any of you become homeless?".to_string()),
        url: None,
        time: 1736904177,
    };
    let digest_item: DigestItem = item.as_digest_item();
    // the item is with empty URL, so the title and the URL are reset
    assert_eq!(digest_item.news_title, "-");
    assert_eq!(digest_item.news_url, "-");
    assert_eq!(digest_item.created_at, 1736904177);
    assert_eq!(digest_item.id, 111);
}

#[test]
fn test_find_ids_diff() {
    let mut storage = Storage::new();
    let pulled_items = vec![
        DigestItem {
            news_title: "Rust is awesome".to_string(),
            news_url: "https://example.com".to_string(),
            created_at: 1700000000,
            id: 1,
        },
        DigestItem {
            news_title: "Rust is awesome".to_string(),
            news_url: "https://example.org".to_string(),
            created_at: 1700000000,
            id: 2,
        },
    ];
    let blacklist: Vec<String> = vec![String::from("example.com")];

    // store the pulled items so there are ids to diff against
    ingest_fetched(
        &mut storage,
        "hackernews",
        &pulled_items,
        &match_all(),
        &blacklist,
        false,
    )
    .unwrap();

    let prefetched = vec![1, 2, 3, 4, 5];
    let ids_to_pull = storage.get_ids_to_pull("hackernews", prefetched);
    assert_eq!(ids_to_pull.len(), 3, "Pulling IDs from DB failed");
    assert_eq!(ids_to_pull, vec![3, 4, 5], "Pulling IDs from DB failed");
}

#[test]
fn test_run_fetch() {
    // two fetched items: one without a URL (stored, not in the digest),
    // one kept by the match-all filter
    let mut storage = Storage::new();
    let fetched = vec![
        JsonNewsItem {
            id: 14,
            title: Some("Ask HN: Have any of you become homeless?".to_string()),
            url: None,
            time: 1736904177,
        },
        JsonNewsItem {
            id: 15,
            title: Some("Item 15".to_string()),
            url: Some("https://www.cnbc.com/2025/01/14/item15.html".to_string()),
            time: 1736908019,
        },
    ];
    let items: Vec<DigestItem> = fetched.iter().map(|i| i.as_digest_item()).collect();
    let blacklist = vec![String::from("example.com")];

    let digest = ingest_fetched(
        &mut storage,
        "hackernews",
        &items,
        &match_all(),
        &blacklist,
        false,
    )
    .unwrap();
    let num_fetched = digest.len();

    assert_eq!(num_fetched, 1, "Fetched items count is wrong");
    // both ids are recorded regardless of classification
    assert!(storage.has_record(14, "hackernews"));
    assert!(storage.has_record(15, "hackernews"));
}

#[test]
fn test_run_reverse_fetch() {
    let mut storage = Storage::new();
    let fetched = vec![
        JsonNewsItem {
            id: 14,
            title: Some("Ask HN: Have any of you become homeless?".to_string()),
            url: Some("https://example.com/14".to_string()),
            time: 1736904177,
        },
        JsonNewsItem {
            id: 15,
            title: Some("Item 15".to_string()),
            url: Some("https://www.cnbc.com/2025/01/14/item15.html".to_string()),
            time: 1736908019,
        },
    ];
    let items: Vec<DigestItem> = fetched.iter().map(|i| i.as_digest_item()).collect();
    let filters = Filters::compile(&[item_filter("PLs", "item")]);
    let blacklist: Vec<String> = vec![];

    let digest = ingest_fetched(&mut storage, "hackernews", &items, &filters, &blacklist, true)
        .unwrap();

    assert_eq!(digest.len(), 1, "Fetched items count is wrong");
    assert_eq!(digest[0].id, 14);
}

#[test]
fn test_deduplication() {
    let pulled_items = vec![
        DigestItem {
            news_title: "Item #1".to_string(),
            news_url: "https://example.com".to_string(),
            created_at: 1700000000,
            id: 1,
        },
        DigestItem {
            news_title: "Item #2".to_string(),
            news_url: "https://example.org".to_string(),
            created_at: 1700000000,
            id: 2,
        },
        DigestItem {
            news_title: "Some other name for item #1".to_string(),
            news_url: "https://example.com".to_string(),
            created_at: 1700000000,
            id: 3,
        },
        DigestItem {
            news_title: "Item #2 duplicate".to_string(),
            news_url: "https://example.org".to_string(),
            created_at: 1700000000,
            id: 4,
        },
    ];

    let deduplicated = deduplicate(&pulled_items);
    assert_eq!(deduplicated.len(), 2, "Deduplication failed");

    assert_eq!(deduplicated[0].id, 1, "Deduplication failed");
    assert_eq!(deduplicated[1].id, 2, "Deduplication failed");
    assert_eq!(
        deduplicated[0].news_title, "Item #1",
        "Deduplication failed"
    );
    assert_eq!(
        deduplicated[1].news_title, "Item #2",
        "Deduplication failed"
    );
}

#[test]
fn test_dedup_stability() {
    let items = vec![
        DigestItem {
            id: 1,
            news_title: "first".to_string(),
            news_url: "a".to_string(),
            created_at: 0,
        },
        DigestItem {
            id: 2,
            news_title: "second".to_string(),
            news_url: "b".to_string(),
            created_at: 0,
        },
        DigestItem {
            id: 3,
            news_title: "third".to_string(),
            news_url: "a".to_string(),
            created_at: 0,
        },
    ];
    let unique = deduplicate(&items);
    assert_eq!(unique.len(), 2);
    assert_eq!(unique[0].id, 1);
    assert_eq!(unique[0].news_url, "a");
    assert_eq!(unique[1].id, 2);
    assert_eq!(unique[1].news_url, "b");
}

fn scenario_items() -> Vec<DigestItem> {
    vec![
        DigestItem {
            id: 1,
            news_title: "One".to_string(),
            news_url: "https://news.example/1".to_string(),
            created_at: 1700000001,
        },
        DigestItem {
            id: 2,
            news_title: "Two".to_string(),
            news_url: "https://news.example/2".to_string(),
            created_at: 1700000002,
        },
        DigestItem {
            id: 3,
            news_title: "Three".to_string(),
            news_url: "https://news.example/3".to_string(),
            created_at: 1700000003,
        },
    ]
}

#[test]
fn test_ingestion_scenario() {
    // empty store; candidates [1, 2, 3] for source "hn"; no blacklist and
    // no patterns, with the reversal mode keeping every title: all three
    // end up in the digest and in the ledger
    let mut storage = Storage::new();
    let candidates = vec![1, 2, 3];
    let to_pull = storage.get_ids_to_pull("hn", candidates);
    assert_eq!(to_pull, vec![1, 2, 3]);

    let items = scenario_items();
    let no_filters: Vec<TitleFilter> = Filters::compile(&[]);
    let blacklist: Vec<String> = vec![];
    let digest = ingest_fetched(&mut storage, "hn", &items, &no_filters, &blacklist, true)
        .unwrap();

    assert_eq!(digest.len(), 3);
    assert_eq!(storage.query_ids("hn"), vec![1, 2, 3]);
}

#[test]
fn test_ingest_twice_idempotent() {
    // the second run against an unchanged remote pulls nothing and adds
    // no records
    let mut storage = Storage::new();
    let items = scenario_items();
    let no_filters: Vec<TitleFilter> = Filters::compile(&[]);
    let blacklist: Vec<String> = vec![];

    let to_pull = storage.get_ids_to_pull("hn", vec![1, 2, 3]);
    assert_eq!(to_pull.len(), 3);
    let first = ingest_fetched(&mut storage, "hn", &items, &no_filters, &blacklist, true)
        .unwrap();
    assert_eq!(first.len(), 3);
    let count_after_first = storage.len();

    let to_pull = storage.get_ids_to_pull("hn", vec![1, 2, 3]);
    assert_eq!(to_pull.len(), 0);
    let refetched: Vec<DigestItem> = Vec::new();
    let second = ingest_fetched(&mut storage, "hn", &refetched, &no_filters, &blacklist, true)
        .unwrap();
    assert_eq!(second.len(), 0);
    assert_eq!(storage.len(), count_after_first);
}

#[test]
fn test_rejected_items_recorded() {
    // a blacklisted item is kept out of the digest but still recorded, so
    // it is never fetched again
    let mut storage = Storage::new();
    let items = vec![DigestItem {
        id: 9,
        news_title: "On a bad domain".to_string(),
        news_url: "https://spam.example/9".to_string(),
        created_at: 1700000000,
    }];
    let blacklist = vec![String::from("spam.example")];
    let digest = ingest_fetched(&mut storage, "hn", &items, &match_all(), &blacklist, false)
        .unwrap();
    assert_eq!(digest.len(), 0);
    assert!(storage.has_record(9, "hn"));
    assert_eq!(storage.get_ids_to_pull("hn", vec![9]).len(), 0);
}

#[test]
fn test_ingest_duplicate_batch_rolls_back() {
    // the same id twice in one batch: a duplicate key, nothing persisted
    let mut storage = Storage::new();
    let items = vec![
        DigestItem {
            id: 5,
            news_title: "a".to_string(),
            news_url: "https://news.example/a".to_string(),
            created_at: 0,
        },
        DigestItem {
            id: 5,
            news_title: "b".to_string(),
            news_url: "https://news.example/b".to_string(),
            created_at: 0,
        },
    ];
    let blacklist: Vec<String> = vec![];
    let result = ingest_fetched(&mut storage, "hn", &items, &match_all(), &blacklist, false);
    assert!(result.is_err());
    assert_eq!(storage.len(), 0);
}

#[test]
fn test_delta_concrete() {
    let mut storage = Storage::new();
    ingest_fetched(
        &mut storage,
        "hn",
        &vec![DigestItem {
            id: 1,
            news_title: "seen".to_string(),
            news_url: "https://news.example/1".to_string(),
            created_at: 0,
        }],
        &match_all(),
        &vec![],
        false,
    )
    .unwrap();
    // order of the candidates is preserved; only stored ids drop out
    assert_eq!(storage.get_ids_to_pull("hn", vec![5, 1, 7]), vec![5, 7]);
    // the same id under another source is still new
    assert_eq!(storage.get_ids_to_pull("rss", vec![1]), vec![1]);
}
