use news_digest::digest::DigestItem;
use news_digest::feeds::{feed_digest_items, ingest_feed, FeedItem};
use news_digest::filter::{Filters, ItemFilter, TitleFilter};
use news_digest::storage::Storage;

fn item_filter(title: &str, value: &str) -> ItemFilter {
    ItemFilter {
        title: title.to_string(),
        value: value.to_string(),
    }
}

fn match_all() -> Vec<TitleFilter> {
    Filters::compile(&[item_filter("PLs", ".*")])
}

#[test]
fn test_feed_item_from_guid() {
    let item = FeedItem::from(
        Some("A title".to_string()),
        Some("https://example.com/items/123".to_string()),
    );
    assert_eq!(item.id, 123);
    assert_eq!(item.title, "A title");
    assert_eq!(item.guid, "https://example.com/items/123");
    assert_eq!(item.created_at, 0);

    // trailing slashes are dropped before the last segment is read
    let item = FeedItem::from(None, Some("https://example.com/items/77///".to_string()));
    assert_eq!(item.id, 77);
    assert_eq!(item.title, "");

    // a guid without a numeric tail gives id zero
    let item = FeedItem::from(Some("t".to_string()), Some("https://example.com/about".to_string()));
    assert_eq!(item.id, 0);

    // missing guid reads as empty, id zero
    let item = FeedItem::from(Some("t".to_string()), None);
    assert_eq!(item.guid, "");
    assert_eq!(item.id, 0);
}

#[test]
fn test_feed_digest_items() {
    let items = vec![
        FeedItem {
            id: 1,
            title: "Rust news".to_string(),
            guid: "https://example.com/items/1".to_string(),
            created_at: 0,
        },
        FeedItem {
            id: 2,
            title: "Python news".to_string(),
            guid: "https://example.com/items/2".to_string(),
            created_at: 0,
        },
    ];
    // every pulled item goes into the pipeline; nothing is filtered here
    let digest_items = feed_digest_items(items);
    assert_eq!(digest_items.len(), 2);
    assert_eq!(digest_items[0].id, 1);
    assert_eq!(digest_items[0].news_title, "Rust news");
    assert_eq!(digest_items[0].news_url, "https://example.com/items/1");
    assert_eq!(digest_items[1].id, 2);
    assert_eq!(digest_items[1].news_title, "Python news");
}

#[test]
fn test_ingest_feed() {
    let mut storage = Storage::new();
    let items = vec![
        DigestItem {
            id: 1,
            news_title: "Old".to_string(),
            news_url: "https://example.com/items/1".to_string(),
            created_at: 0,
        },
        DigestItem {
            id: 2,
            news_title: "New".to_string(),
            news_url: "https://example.com/items/2".to_string(),
            created_at: 0,
        },
    ];
    let blacklist: Vec<String> = vec![];

    // id 1 is already recorded under the source
    let seeded = ingest_feed(
        &mut storage,
        "rss",
        &vec![items[0].clone()],
        &match_all(),
        &blacklist,
        false,
        1700000000,
    );
    assert_eq!(seeded.len(), 1);

    let digest = ingest_feed(
        &mut storage,
        "rss",
        &items,
        &match_all(),
        &blacklist,
        false,
        1700000100,
    );
    assert_eq!(digest.len(), 1);
    assert_eq!(digest[0].id, 2);
    assert_eq!(digest[0].news_title, "New");

    // the new record carries the insertion timestamp, not the item's
    let dumped = storage.dump();
    assert_eq!(dumped, "1,rss,1700000000\n2,rss,1700000100\n");

    // a second pull of the same items yields an empty digest
    let digest = ingest_feed(
        &mut storage,
        "rss",
        &items,
        &match_all(),
        &blacklist,
        false,
        1700000200,
    );
    assert_eq!(digest.len(), 0);
    assert_eq!(storage.len(), 2);
}

#[test]
fn test_ingest_feed_rejected_recorded() {
    // a feed item dropped by the filters is kept out of the digest but
    // still recorded, so its id is never re-evaluated
    let mut storage = Storage::new();
    let items = vec![
        DigestItem {
            id: 1,
            news_title: "Rust news".to_string(),
            news_url: "https://example.com/items/1".to_string(),
            created_at: 0,
        },
        DigestItem {
            id: 2,
            news_title: "Python news".to_string(),
            news_url: "https://example.com/items/2".to_string(),
            created_at: 0,
        },
    ];
    let filters = Filters::compile(&[item_filter("PLs", "rust")]);
    let blacklist: Vec<String> = vec![];

    let digest = ingest_feed(&mut storage, "rss", &items, &filters, &blacklist, false, 1700000000);
    assert_eq!(digest.len(), 1);
    assert_eq!(digest[0].id, 1);
    assert!(storage.has_record(1, "rss"));
    assert!(storage.has_record(2, "rss"));

    // the rejected id stays rejected and is not pulled again
    let digest = ingest_feed(&mut storage, "rss", &items, &match_all(), &blacklist, false, 1700000100);
    assert_eq!(digest.len(), 0);
    assert_eq!(storage.len(), 2);
}

#[test]
fn test_ingest_feed_blacklist() {
    // the domain blacklist applies to feed items as well
    let mut storage = Storage::new();
    let items = vec![DigestItem {
        id: 9,
        news_title: "On a bad domain".to_string(),
        news_url: "https://spam.example/items/9".to_string(),
        created_at: 0,
    }];
    let blacklist = vec![String::from("spam.example")];
    let digest = ingest_feed(&mut storage, "rss", &items, &match_all(), &blacklist, false, 1700000000);
    assert_eq!(digest.len(), 0);
    assert!(storage.has_record(9, "rss"));
}

#[test]
fn test_ingest_feed_duplicate_ids() {
    // two pulled items with one id: the first wins, the run succeeds
    let mut storage = Storage::new();
    let items = vec![
        DigestItem {
            id: 5,
            news_title: "a".to_string(),
            news_url: "https://example.com/items/5".to_string(),
            created_at: 0,
        },
        DigestItem {
            id: 5,
            news_title: "b".to_string(),
            news_url: "https://example.com/items/5b".to_string(),
            created_at: 0,
        },
    ];
    let blacklist: Vec<String> = vec![];
    let digest = ingest_feed(&mut storage, "rss", &items, &match_all(), &blacklist, false, 1700000000);
    assert_eq!(digest.len(), 1);
    assert_eq!(digest[0].news_title, "a");
    assert_eq!(storage.len(), 1);
    assert!(storage.has_record(5, "rss"));
}

#[test]
fn test_ingest_feed_url_dedup() {
    // two new items under one URL: both recorded, the digest keeps the first
    let mut storage = Storage::new();
    let items = vec![
        DigestItem {
            id: 1,
            news_title: "first".to_string(),
            news_url: "https://example.com/story".to_string(),
            created_at: 0,
        },
        DigestItem {
            id: 2,
            news_title: "second".to_string(),
            news_url: "https://example.com/story".to_string(),
            created_at: 0,
        },
    ];
    let blacklist: Vec<String> = vec![];
    let digest = ingest_feed(&mut storage, "rss", &items, &match_all(), &blacklist, false, 1700000000);
    assert_eq!(digest.len(), 1);
    assert_eq!(digest[0].id, 1);
    assert_eq!(storage.len(), 2);
}
