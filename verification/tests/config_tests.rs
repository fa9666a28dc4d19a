use news_digest::args::{CmdArgs, FetchOperation};
use news_digest::storage::{Record, Storage};
use news_digest::vacuum::Vacuum;
use news_digest::config::{AppConfig, SmtpConfig, TelegramConfig};
use news_digest::digest::DigestItem;
use news_digest::sender::{digest_to_html, digest_to_text, Sender};

fn base_config() -> AppConfig {
    AppConfig {
        blacklisted_domains: vec![],
        db_file: None,
        filters: vec![],
        purge_after_days: 7,
        smtp: None,
        telegram: None,
        rss_sources: None,
    }
}

#[test]
fn test_get_db_file() {
    let config = base_config();
    assert_eq!(config.get_db_file(), "./db.sqlite3");

    let mut config = base_config();
    config.db_file = Some("ledger.txt".to_string());
    assert_eq!(config.get_db_file(), "ledger.txt");
}

#[test]
fn test_get_sender() {
    let config = base_config();
    assert!(matches!(config.get_sender(), Sender::Dummy(_)));

    let mut config = base_config();
    config.telegram = Some(TelegramConfig {
        token: "tok".to_string(),
        chat_id: "42".to_string(),
    });
    match config.get_sender() {
        Sender::Telegram(t) => assert_eq!(t.config.chat_id, "42"),
        _ => panic!("expected the telegram sender"),
    }

    // smtp wins over telegram when both are configured
    config.smtp = Some(SmtpConfig {
        from: "a@b.c".to_string(),
        to: "d@e.f".to_string(),
        host: "mail.example".to_string(),
        password: "tok".to_string(),
        subject: "Digest".to_string(),
        username: "user".to_string(),
    });
    match config.get_sender() {
        Sender::Smtp(s) => assert_eq!(s.config.host, "mail.example"),
        _ => panic!("expected the smtp sender"),
    }
}

#[test]
fn test_get_action() {
    let args = CmdArgs {
        config: "./config.json".to_string(),
        reverse: true,
        vacuum: false,
        feeds_only: Some(false),
    };
    assert!(matches!(args.get_action(), FetchOperation::Fetch(true)));

    let args = CmdArgs {
        config: "./config.json".to_string(),
        reverse: false,
        vacuum: true,
        feeds_only: None,
    };
    assert!(matches!(args.get_action(), FetchOperation::Vacuum));
}

fn sample_digest() -> Vec<DigestItem> {
    vec![
        DigestItem {
            id: 1,
            news_title: "One".to_string(),
            news_url: "https://news.example/1".to_string(),
            created_at: 0,
        },
        DigestItem {
            id: 2,
            news_title: "Two".to_string(),
            news_url: "https://news.example/2".to_string(),
            created_at: 0,
        },
    ]
}

#[test]
fn test_digest_to_text() {
    let body = digest_to_text(&sample_digest(), "Mon, 1 Jan 2024 00:00:00 +0000");
    assert_eq!(
        body,
        "Hi!\n\n\
         * One - https://news.example/1\n\
         * Two - https://news.example/2\n\
         \nGenerated: Mon, 1 Jan 2024 00:00:00 +0000"
    );
}

#[test]
fn test_digest_to_html() {
    let body = digest_to_html(&sample_digest(), "now");
    assert_eq!(
        body,
        "<html><head>HackerNews Digest</head><body><p>Hi!</p><div><ul>\
         <li><a href=\"https://news.example/1\">One</a></li>\
         <li><a href=\"https://news.example/2\">Two</a></li>\
         </ul></div><p>Generated: now</p></body></html>"
    );
}

#[test]
fn test_vacuum_run() {
    let mut storage = Storage::new();
    let now: i64 = 1700172800;
    storage
        .add(&Record {
            id: 1,
            source: "hn".to_string(),
            created_at: now - 8 * 86400,
        })
        .unwrap();
    storage
        .add(&Record {
            id: 2,
            source: "hn".to_string(),
            created_at: now - 6 * 86400,
        })
        .unwrap();
    let vacuum = Vacuum::new(&base_config());
    let removed = vacuum.run(&mut storage, now);
    assert_eq!(removed, 1);
    assert_eq!(storage.query_ids("hn"), vec![2]);
}
