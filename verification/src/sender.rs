//! Digest presentation and the choice of notification channel. The
//! rendering of a digest into text or HTML is computed here; actual
//! delivery (SMTP, Telegram, console) is the caller's I/O.

use vstd::prelude::*;

use crate::config::{SmtpConfig, TelegramConfig};
use crate::digest::DigestItem;

verus! {

/// Console fallback: the digest is printed rather than sent.
pub struct DummySender {}

/// A sender that delivers by SMTP using the held settings.
pub struct SmtpSender {
    pub config: SmtpConfig,
}

/// A sender that delivers to a Telegram chat using the held settings.
pub struct TelegramSender {
    pub config: TelegramConfig,
}

impl SmtpSender {
    pub fn new(config: &SmtpConfig) -> (s: Self)
        ensures
            s.config == *config,
    {
        SmtpSender { config: config.clone() }
    }
}

impl TelegramSender {
    pub fn new(config: &TelegramConfig) -> (s: Self)
        ensures
            s.config == *config,
    {
        TelegramSender { config: config.clone() }
    }
}

/// The configured delivery channel.
pub enum Sender {
    Dummy(DummySender),
    Smtp(SmtpSender),
    Telegram(TelegramSender),
}

/// The delivery channel by kind, carrying only the settings.
pub enum SenderType {
    Email(SmtpConfig),
    Telegram(TelegramConfig),
    Console,
}

/// One digest line of the plain-text rendering.
pub open spec fn text_line(item: DigestItem) -> Seq<char> {
    "* "@ + item.news_title@ + " - "@ + item.news_url@ + "\n"@
}

/// The item lines of the plain-text rendering, in digest order.
pub open spec fn text_lines(items: Seq<DigestItem>) -> Seq<char>
    decreases items.len(),
{
    if items.len() == 0 {
        Seq::empty()
    } else {
        text_lines(items.drop_last()) + text_line(items.last())
    }
}

/// The whole plain-text rendering of a digest.
pub open spec fn text_digest_spec(items: Seq<DigestItem>, generated_at: Seq<char>) -> Seq<char> {
    "Hi!\n\n"@ + text_lines(items) + "\nGenerated: "@ + generated_at
}

/// One digest line of the HTML rendering.
pub open spec fn html_line(item: DigestItem) -> Seq<char> {
    "<li><a href=\""@ + item.news_url@ + "\">"@ + item.news_title@ + "</a></li>"@
}

/// The item lines of the HTML rendering, in digest order.
pub open spec fn html_lines(items: Seq<DigestItem>) -> Seq<char>
    decreases items.len(),
{
    if items.len() == 0 {
        Seq::empty()
    } else {
        html_lines(items.drop_last()) + html_line(items.last())
    }
}

/// The whole HTML rendering of a digest.
pub open spec fn html_digest_spec(items: Seq<DigestItem>, generated_at: Seq<char>) -> Seq<char> {
    "<html><head>HackerNews Digest</head><body><p>Hi!</p><div><ul>"@ + html_lines(items)
        + "</ul></div><p>Generated: "@ + generated_at + "</p></body></html>"@
}

/// Convert a digest to a plain text string; `generated_at` is the
/// caller's formatted timestamp.
pub fn digest_to_text(digest: &[DigestItem], generated_at: &str) -> (r: String)
    ensures
        r@ == text_digest_spec(digest@, generated_at@),
{
    let mut body = String::from_str("Hi!\n\n");
    let mut k: usize = 0;
    while k < digest.len()
        invariant
            0 <= k <= digest@.len(),
            body@ == "Hi!\n\n"@ + text_lines(digest@.subrange(0, k as int)),
        decreases digest@.len() - k,
    {
        proof {
            assert(digest@.subrange(0, k + 1).drop_last() =~= digest@.subrange(0, k as int));
            assert(digest@.subrange(0, k + 1).last() == digest@[k as int]);
        }
        body.append("* ");
        body.append(digest[k].news_title.as_str());
        body.append(" - ");
        body.append(digest[k].news_url.as_str());
        body.append("\n");
        proof {
            assert(body@ =~= "Hi!\n\n"@ + text_lines(digest@.subrange(0, k + 1)));
        }
        k += 1;
    }
    proof {
        assert(digest@.subrange(0, digest@.len() as int) =~= digest@);
    }
    body.append("\nGenerated: ");
    body.append(generated_at);
    proof {
        assert(body@ =~= text_digest_spec(digest@, generated_at@));
    }
    body
}

/// Convert a digest to an HTML string; `generated_at` is the caller's
/// formatted timestamp.
pub fn digest_to_html(digest: &[DigestItem], generated_at: &str) -> (r: String)
    ensures
        r@ == html_digest_spec(digest@, generated_at@),
{
    let mut body = String::from_str("<html><head>HackerNews Digest</head><body><p>Hi!</p><div><ul>");
    let mut k: usize = 0;
    while k < digest.len()
        invariant
            0 <= k <= digest@.len(),
            body@ == "<html><head>HackerNews Digest</head><body><p>Hi!</p><div><ul>"@
                + html_lines(digest@.subrange(0, k as int)),
        decreases digest@.len() - k,
    {
        proof {
            assert(digest@.subrange(0, k + 1).drop_last() =~= digest@.subrange(0, k as int));
            assert(digest@.subrange(0, k + 1).last() == digest@[k as int]);
        }
        body.append("<li><a href=\"");
        body.append(digest[k].news_url.as_str());
        body.append("\">");
        body.append(digest[k].news_title.as_str());
        body.append("</a></li>");
        proof {
            assert(body@ =~= "<html><head>HackerNews Digest</head><body><p>Hi!</p><div><ul>"@
                + html_lines(digest@.subrange(0, k + 1)));
        }
        k += 1;
    }
    proof {
        assert(digest@.subrange(0, digest@.len() as int) =~= digest@);
    }
    body.append("</ul></div><p>Generated: ");
    body.append(generated_at);
    body.append("</p></body></html>");
    proof {
        assert(body@ =~= html_digest_spec(digest@, generated_at@));
    }
    body
}

} // verus!
