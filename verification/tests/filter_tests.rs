use news_digest::digest::DigestItem;
use news_digest::feeds::FeedItem;
use news_digest::filter::{keep_item, Filters, ItemFilter};

fn item_filter(title: &str, value: &str) -> ItemFilter {
    ItemFilter {
        title: title.to_string(),
        value: value.to_string(),
    }
}

#[test]
fn test_filter_fetched() {
    let filters = Filters::compile(&[item_filter("", "rust,python")]);

    // Filter with direct filtering first
    let mut reverse = false;
    let pulled_items: Vec<FeedItem> = vec![
        FeedItem {
            id: 123,
            title: "Python is a programming language".to_string(),
            guid: "https://example.com/items/123".to_string(),
            created_at: 0,
        },
        FeedItem {
            id: 202,
            title: "Rust is cool".to_string(),
            guid: "https://example.com/items/202".to_string(),
            created_at: 0,
        },
        FeedItem {
            id: 303,
            title: "1C is not cool".to_string(),
            guid: "https://example.com/items/303".to_string(),
            created_at: 0,
        },
    ];

    assert_eq!(
        pulled_items
            .iter()
            .filter(|i| keep_item(&filters, &i.title, reverse))
            .count(),
        2,
        "Filter/keep check failed",
    );

    // Filter with reverse filtering
    reverse = true;
    assert_eq!(
        pulled_items
            .iter()
            .filter(|i| keep_item(&filters, &i.title, reverse))
            .count(),
        1,
        "Reverse filter/keep check failed",
    );
}

#[test]
fn test_filtering_items() {
    let pulled_items = vec![
        DigestItem {
            news_title: "Rust is awesome".to_string(),
            news_url: "https://example.com".to_string(),
            created_at: 1700000000,
            id: 1,
        },
        DigestItem {
            news_title: "Rust is cool".to_string(),
            news_url: "https://example.org".to_string(),
            created_at: 1700000000,
            id: 2,
        },
        DigestItem {
            news_title: "Rust is aweful".to_string(),
            news_url: "https://example.org".to_string(),
            created_at: 1700000000,
            id: 3,
        },
        DigestItem {
            news_title: "Go is cool".to_string(),
            news_url: "https://example.org".to_string(),
            created_at: 1700000000,
            id: 4,
        },
        DigestItem {
            news_title: "Dart is some thing".to_string(),
            news_url: "https://example.org".to_string(),
            created_at: 1700000000,
            id: 5,
        },
    ];
    let filters = Filters::compile(&[item_filter("PLs", "cool"), item_filter("PLs", "awesome")]);

    assert_eq!(
        pulled_items
            .iter()
            .filter(|i| keep_item(&filters, &i.news_title, false))
            .count(),
        3,
        "Filtering items agains mutiple simple filters failed",
    );

    let filters = Filters::compile(&[item_filter("PLs", "some\\b")]);

    assert_eq!(
        pulled_items
            .iter()
            .filter(|i| keep_item(&filters, &i.news_title, false))
            .count(),
        2,
        "Filtering items against a regex filter failed",
    );
}

#[test]
fn test_filter_config_from_str() {
    let pulled_items = vec![
        DigestItem {
            news_title: "So You Want to Build Your Own Data Center".to_string(),
            news_url: "https://example.com".to_string(),
            created_at: 1700000000,
            id: 1,
        },
        DigestItem {
            news_title: "Maze Generation: Recursive Division (2011)".to_string(),
            news_url: "https://example.org".to_string(),
            created_at: 1700000000,
            id: 2,
        },
        DigestItem {
            news_title: "Swedish Exports of Ball Bearings".to_string(),
            news_url: "https://example.org".to_string(),
            created_at: 1700000000,
            id: 3,
        },
        DigestItem {
            news_title: "Obelisks".to_string(),
            news_url: "https://example.org".to_string(),
            created_at: 1700000000,
            id: 4,
        },
        DigestItem {
            news_title: "Bluesky accounts add 10k followers per day".to_string(),
            news_url: "https://example.org".to_string(),
            created_at: 1700000000,
            id: 5,
        },
    ];
    let filter_specs = vec![
        item_filter("IDE", "\\bzed\\b,\\b(vs|studio)\\s?code\\b,\\bvim\\b,neovim,\\bide\\b"),
        item_filter("JavaScript", "\\bjs\\b,(ecma|java).*script,\\bnode(\\.?js)?\\b,\\bnpm\\b"),
        item_filter("Covid", "\\bcovid,\\bdelta\\b,vaccin"),
        item_filter("SQL", "sql,database"),
        item_filter(
            "Languages",
            "\\bgo(lang)?\\b,\\brust\\b,\\bphp\\b,\\bmarkdown\\b,crystal,carbon\\b,pattern",
        ),
        item_filter("FreeStuff", "\\bfree\\b"),
        item_filter("HardwareVendors", "dell"),
        item_filter("GraphQL", "graphql"),
        item_filter("API", "api\\b"),
        item_filter("Misc", "toolbox\\b,framework\\b,\\bsdk\\b,\\bui\\b,\\barchitect"),
        item_filter(
            "Hackers",
            "\\bcve-,\\bhack,\\bpassw,\\bsecuri,\\bvulner,\\bbot\\b,\\bbotnet,owasp",
        ),
        item_filter("Development", "development,\\bweb.?socket,gdb"),
        item_filter("Css", "\\bcss\\b,\\bstyle\\b"),
        item_filter(
            "Linux",
            "\\blinux\\b,ubuntu,debian,centos,\\bgnu\\b,\\bopen[-\\s]?source\\b,bpf\\b,tcp,ssh",
        ),
        item_filter(
            "Services",
            "docker,haproxy,cassandra,elasticsearch,rabbitmq,nginx,k8s,\\brke,\\brancher,kubernetes,postfix,https,apache,github,\\bgit\\b",
        ),
        item_filter(
            "FAANG",
            "google,apple,\\bmeta\\b,facebook,\\bfb\\b,microsoft,\\bms\\b,netflix,whatsapp,amazon,\\baws\\b",
        ),
        item_filter("SRE", "\\bsre\\b,devops,resiliency,recovery,reliability"),
        item_filter("Vue", "\\bvue(\\.?js)?\\b"),
        item_filter("Books", "pdf"),
        item_filter("Primers", "primer\\b"),
        item_filter("Awesome", "awesome\\b"),
        item_filter("AppNews", "\\bapp\\b"),
        item_filter("Python", "\\bpython"),
        item_filter("Problem", "version,problem,debug,issues?\\b"),
        item_filter("Releases", "release,\\bannounc"),
        item_filter("CPU/GPU", "\\bintel\\b,\\bamd\\b"),
        item_filter("ComputerScience", "\\bcs-?[1-9],\\balgor"),
        item_filter("Illinois", "chicago,illinois"),
        item_filter("Deals and Discounts", "black\\s*friday,\\bdeals?\\b,discount,coupon"),
    ];

    assert_eq!(filter_specs.len(), 29, "Filters count is wrong");

    let filters = Filters::compile(&filter_specs);
    assert_eq!(filters.len(), 105, "Parsed filters count is wrong");

    assert_eq!(
        pulled_items
            .iter()
            .filter(|i| keep_item(&filters, &i.news_title, false))
            .count(),
        0,
        "Filtering items agains mutiple simple filters failed",
    );
}

#[test]
fn test_filter_symmetry() {
    // for every title, the reverse-mode decision is the negation of the
    // normal-mode one, for an empty pattern set too
    let titles = ["Rust is cool", "Nothing matches here", ""];
    let filters = Filters::compile(&[item_filter("PLs", "rust,go\\b")]);
    for t in titles {
        assert_ne!(keep_item(&filters, t, false), keep_item(&filters, t, true));
    }
    let no_filters = Filters::compile(&[]);
    for t in titles {
        assert!(!keep_item(&no_filters, t, false));
        assert!(keep_item(&no_filters, t, true));
    }
}

#[test]
fn test_invalid_pattern_dropped() {
    // the broken pattern is dropped with the rest still compiled
    let filters = Filters::compile(&[item_filter("broken", "rust,((("), item_filter("ok", "go")]);
    assert_eq!(filters.len(), 2);
    assert!(keep_item(&filters, "Rust 1.0", false));
    assert!(keep_item(&filters, "Go 2.0", false));
    assert!(!keep_item(&filters, "((( literal", false));
}

#[test]
fn test_filter_case_insensitive() {
    let filters = Filters::compile(&[item_filter("PLs", "RUST")]);
    assert!(keep_item(&filters, "rust and more", false));
    assert!(keep_item(&filters, "RuSt and more", false));
    assert!(!keep_item(&filters, "crab and more", false));
}
