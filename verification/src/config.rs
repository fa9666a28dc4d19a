//! Application configuration: filter specifications, the domain
//! blacklist, the retention window, notification settings and feed
//! sources — plain values handed in by the caller.

use vstd::prelude::*;

use crate::filter::ItemFilter;
use crate::sender::{DummySender, Sender, SmtpSender, TelegramSender};

verus! {

/// SMTP delivery settings.
pub struct SmtpConfig {
    pub from: String,
    pub to: String,
    pub host: String,
    pub password: String,
    pub subject: String,
    pub username: String,
}

impl Clone for SmtpConfig {
    fn clone(&self) -> (r: Self)
        ensures
            r == *self,
    {
        SmtpConfig {
            from: self.from.clone(),
            to: self.to.clone(),
            host: self.host.clone(),
            password: self.password.clone(),
            subject: self.subject.clone(),
            username: self.username.clone(),
        }
    }
}

/// Telegram delivery settings.
pub struct TelegramConfig {
    pub token: String,
    pub chat_id: String,
}

impl Clone for TelegramConfig {
    fn clone(&self) -> (r: Self)
        ensures
            r == *self,
    {
        TelegramConfig { token: self.token.clone(), chat_id: self.chat_id.clone() }
    }
}

/// One RSS channel to pull: its URL and the source name its records are
/// kept under.
pub struct RssSource {
    pub url: String,
    pub name: String,
}

impl Clone for RssSource {
    fn clone(&self) -> (r: Self)
        ensures
            r == *self,
    {
        RssSource { url: self.url.clone(), name: self.name.clone() }
    }
}

/// The application configuration.
pub struct AppConfig {
    pub blacklisted_domains: Vec<String>,
    pub db_file: Option<String>,
    pub filters: Vec<ItemFilter>,
    pub purge_after_days: i64,
    pub smtp: Option<SmtpConfig>,
    pub telegram: Option<TelegramConfig>,
    pub rss_sources: Option<Vec<RssSource>>,
}

fn clone_string_vec(v: &Vec<String>) -> (r: Vec<String>)
    ensures
        r@ == v@,
{
    let mut out: Vec<String> = Vec::new();
    let mut k: usize = 0;
    while k < v.len()
        invariant
            0 <= k <= v@.len(),
            out@ == v@.subrange(0, k as int),
        decreases v@.len() - k,
    {
        out.push(v[k].clone());
        proof {
            assert(out@ =~= v@.subrange(0, k + 1));
        }
        k += 1;
    }
    proof {
        assert(v@.subrange(0, v@.len() as int) =~= v@);
    }
    out
}

impl Clone for AppConfig {
    /// Field equality is stated by view for the vector-valued fields.
    fn clone(&self) -> (r: Self)
        ensures
            r.blacklisted_domains@ == self.blacklisted_domains@,
            r.db_file == self.db_file,
            r.filters@ == self.filters@,
            r.purge_after_days == self.purge_after_days,
            r.smtp == self.smtp,
            r.telegram == self.telegram,
            self.rss_sources is None ==> r.rss_sources is None,
            self.rss_sources matches Some(w) ==> (r.rss_sources matches Some(v) && v@ == w@),
    {
        let db_file = match &self.db_file {
            Some(d) => Some(d.clone()),
            None => None,
        };
        let smtp = match &self.smtp {
            Some(c) => Some(c.clone()),
            None => None,
        };
        let telegram = match &self.telegram {
            Some(c) => Some(c.clone()),
            None => None,
        };
        let rss_sources = match &self.rss_sources {
            Some(v) => {
                let mut out: Vec<RssSource> = Vec::new();
                let mut k: usize = 0;
                while k < v.len()
                    invariant
                        0 <= k <= v@.len(),
                        out@ == v@.subrange(0, k as int),
                    decreases v@.len() - k,
                {
                    out.push(v[k].clone());
                    proof {
                        assert(out@ =~= v@.subrange(0, k + 1));
                    }
                    k += 1;
                }
                proof {
                    assert(v@.subrange(0, v@.len() as int) =~= v@);
                }
                Some(out)
            },
            None => None,
        };
        let mut filters: Vec<ItemFilter> = Vec::new();
        let mut k: usize = 0;
        while k < self.filters.len()
            invariant
                0 <= k <= self.filters@.len(),
                filters@ == self.filters@.subrange(0, k as int),
            decreases self.filters@.len() - k,
        {
            filters.push(self.filters[k].clone());
            proof {
                assert(filters@ =~= self.filters@.subrange(0, k + 1));
            }
            k += 1;
        }
        proof {
            assert(self.filters@.subrange(0, self.filters@.len() as int) =~= self.filters@);
        }
        AppConfig {
            blacklisted_domains: clone_string_vec(&self.blacklisted_domains),
            db_file,
            filters,
            purge_after_days: self.purge_after_days,
            smtp,
            telegram,
            rss_sources,
        }
    }
}

impl AppConfig {
    /// The configured notification sender: SMTP wins over Telegram; with
    /// neither configured the digest goes to the console.
    pub fn get_sender(&self) -> (s: Sender)
        ensures
            match s {
                Sender::Smtp(x) => self.smtp matches Some(c) && x.config == c,
                Sender::Telegram(x) => self.telegram matches Some(c) && x.config == c
                    && self.smtp is None,
                Sender::Dummy(_) => self.smtp is None && self.telegram is None,
            },
    {
        if let Some(config) = &self.smtp {
            Sender::Smtp(SmtpSender::new(config))
        } else if let Some(config) = &self.telegram {
            Sender::Telegram(TelegramSender::new(config))
        } else {
            Sender::Dummy(DummySender {  })
        }
    }

    /// The ledger file path, with its default.
    pub fn get_db_file(&self) -> (f: String)
        ensures
            f@ == match self.db_file {
                Some(d) => d@,
                None => "./db.sqlite3"@,
            },
    {
        match &self.db_file {
            Some(d) => d.clone(),
            None => String::from_str("./db.sqlite3"),
        }
    }
}

} // verus!
