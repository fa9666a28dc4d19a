//! The ingestion pipeline for ranked-ID sources: classification of fetched
//! items against the domain blacklist, the missing-URL check and the title
//! filters, persistence of every classified item (rejected ones included,
//! so an id is never re-fetched), and de-duplication of the keep-list.

use vstd::prelude::*;

use crate::digest::{dedup_spec, deduplicate, is_missing_url, missing_url_spec, DigestItem};
use crate::filter::{keep_item, keep_spec, patterns_of, TitleFilter};
use crate::storage::{
    batch_collides, collides_at, has_key, lemma_has_key_concat, Record, Storage, StoreError,
};
use crate::text::str_eq;

verus! {

/// The domain of a URL string, when the string parses as a URL with a
/// domain. A function of the string alone; only the URL parser says what
/// it is on given values.
pub uninterp spec fn host_of(url: Seq<char>) -> Option<Seq<char>>;

/// Relies on `url::Url::parse` and `url::Url::domain`: whether a string
/// parses, and which domain it has, depend on the string alone; strings
/// that do not parse, or have no domain, yield `None`.
#[verifier::external_body]
fn url_host(url: &str) -> (r: Option<String>)
    ensures
        r matches Some(h) ==> host_of(url@) == Some(h@),
        r is None ==> host_of(url@) is None,
{
    match url::Url::parse(url) {
        Ok(u) => match u.domain() {
            Some(d) => Some(d.to_string()),
            None => None,
        },
        Err(_) => None,
    }
}

/// Whether `h` is one of the blacklisted domains.
pub open spec fn domain_listed(blacklist: Seq<String>, h: Seq<char>) -> bool {
    exists|i: int| 0 <= i < blacklist.len() && blacklist[i]@ == h
}

/// Whether a URL is rejected by the domain blacklist: it is non-empty,
/// parses to a domain, and that domain is listed. Malformed or empty URLs
/// are never blacklisted here — the missing-URL check catches them.
pub open spec fn blacklisted_spec(url: Seq<char>, blacklist: Seq<String>) -> bool {
    &&& url.len() != 0
    &&& match host_of(url) {
        Some(h) => domain_listed(blacklist, h),
        None => false,
    }
}

/// Check if a URL's domain is in the blacklist.
pub fn is_blacklisted(url: &str, blacklist: &Vec<String>) -> (r: bool)
    ensures
        r == blacklisted_spec(url@, blacklist@),
{
    if url.is_empty() {
        return false;
    }
    match url_host(url) {
        Some(domain) => {
            let mut i: usize = 0;
            while i < blacklist.len()
                invariant
                    0 <= i <= blacklist@.len(),
                    url@.len() != 0,
                    host_of(url@) == Some(domain@),
                    forall|j: int| 0 <= j < i ==> blacklist@[j]@ != domain@,
                decreases blacklist@.len() - i,
            {
                if str_eq(domain.as_str(), blacklist[i].as_str()) {
                    return true;
                }
                i += 1;
            }
            proof {
                if domain_listed(blacklist@, domain@) {
                    let j = choose|j: int| 0 <= j < blacklist@.len() && blacklist@[j]@ == domain@;
                    assert(blacklist@[j]@ != domain@);
                }
            }
            false
        },
        None => false,
    }
}

/// A news item as the ranked-ID source's API returns it: title and URL may
/// be absent.
pub struct JsonNewsItem {
    pub id: i64,
    pub title: Option<String>,
    pub url: Option<String>,
    pub time: i64,
}

/// The title an API item carries into classification: absent fields read
/// as empty, and an item without a URL has title and URL replaced by the
/// `"-"` placeholder.
pub open spec fn digest_title_of(it: JsonNewsItem) -> Seq<char> {
    if digest_url_raw(it).len() == 0 {
        "-"@
    } else {
        match it.title {
            Some(t) => t@,
            None => Seq::<char>::empty(),
        }
    }
}

/// The URL field of an API item, with a missing URL read as empty.
pub open spec fn digest_url_raw(it: JsonNewsItem) -> Seq<char> {
    match it.url {
        Some(u) => u@,
        None => Seq::<char>::empty(),
    }
}

/// The URL an API item carries into classification.
pub open spec fn digest_url_of(it: JsonNewsItem) -> Seq<char> {
    if digest_url_raw(it).len() == 0 {
        "-"@
    } else {
        digest_url_raw(it)
    }
}

impl JsonNewsItem {
    /// Convert to a `DigestItem` for classification and storage. A missing
    /// `url` field is treated as an empty string, not an error, and resets
    /// title and URL to the placeholder.
    pub fn as_digest_item(&self) -> (r: DigestItem)
        ensures
            r.id == self.id,
            r.created_at == self.time,
            r.news_title@ == digest_title_of(*self),
            r.news_url@ == digest_url_of(*self),
    {
        let news_title = match &self.title {
            Some(t) => t.clone(),
            None => String::new(),
        };
        let news_url = match &self.url {
            Some(u) => u.clone(),
            None => String::new(),
        };
        if news_url.as_str().is_empty() {
            DigestItem {
                id: self.id,
                news_title: String::from_str("-"),
                news_url: String::from_str("-"),
                created_at: self.time,
            }
        } else {
            DigestItem { id: self.id, news_title, news_url, created_at: self.time }
        }
    }
}

/// Whether an item survives classification: not blacklisted, URL present,
/// and kept by the filters. The checks run in that priority order; a
/// failure of any one rejects the item.
pub open spec fn accepted_spec(
    item: DigestItem,
    patterns: Seq<Seq<char>>,
    blacklist: Seq<String>,
    reverse: bool,
) -> bool {
    &&& !blacklisted_spec(item.news_url@, blacklist)
    &&& !missing_url_spec(item.news_url@)
    &&& keep_spec(patterns, item.news_title@, reverse)
}

/// The accepted items, in input order.
pub open spec fn kept_spec(
    items: Seq<DigestItem>,
    patterns: Seq<Seq<char>>,
    blacklist: Seq<String>,
    reverse: bool,
) -> Seq<DigestItem>
    decreases items.len(),
{
    if items.len() == 0 {
        Seq::empty()
    } else {
        let init = kept_spec(items.drop_last(), patterns, blacklist, reverse);
        if accepted_spec(items.last(), patterns, blacklist, reverse) {
            init.push(items.last())
        } else {
            init
        }
    }
}

/// Whether persisting `items[j]` under `source` would hit a duplicate key:
/// its id is already stored under the source, or appears earlier in the
/// batch.
pub open spec fn item_collides_at(
    rs: Seq<Record>,
    items: Seq<DigestItem>,
    source: Seq<char>,
    j: int,
) -> bool {
    0 <= j < items.len() && (has_key(rs, items[j].id, source) || exists|k: int|
        0 <= k < j && items[k].id == items[j].id)
}

/// Whether persisting the batch hits any duplicate key.
pub open spec fn ingest_collides(rs: Seq<Record>, items: Seq<DigestItem>, source: Seq<char>) -> bool {
    exists|j: int| item_collides_at(rs, items, source, j)
}

/// Classify the fetched items, persist every one of them — rejected items
/// become inert ledger entries so their ids are never fetched again — and
/// return the de-duplicated keep-list as the digest. On a duplicate key
/// the store is left exactly as it was.
pub fn ingest_fetched(
    storage: &mut Storage,
    source: &str,
    items: &Vec<DigestItem>,
    filters: &Vec<TitleFilter>,
    blacklist: &Vec<String>,
    reverse: bool,
) -> (r: Result<Vec<DigestItem>, StoreError>)
    ensures
        match r {
            Ok(digest) => {
                &&& !ingest_collides(old(storage).records@, items@, source@)
                &&& digest@ == dedup_spec(
                    kept_spec(items@, patterns_of(filters@), blacklist@, reverse),
                )
                &&& final(storage).records@.len() == old(storage).records@.len() + items@.len()
                &&& final(storage).records@.subrange(0, old(storage).records@.len() as int) == old(
                    storage,
                ).records@
                &&& forall|j: int|
                    0 <= j < items@.len() ==> {
                        let rec = #[trigger] final(storage).records@[old(storage).records@.len()
                            + j];
                        rec.id == items@[j].id && rec.source@ == source@ && rec.created_at
                            == items@[j].created_at
                    }
                &&& forall|j: int|
                    0 <= j < items@.len() ==> has_key(
                        final(storage).records@,
                        #[trigger] items@[j].id,
                        source@,
                    )
            },
            Err(e) => {
                &&& ingest_collides(old(storage).records@, items@, source@)
                &&& final(storage).records@ == old(storage).records@
                &&& e is DuplicateKey
            },
        },
{
    let ghost orig = storage.records@;
    let ghost patterns = patterns_of(filters@);
    let source_string = String::from_str(source);
    let mut records: Vec<Record> = Vec::new();
    let mut keep: Vec<DigestItem> = Vec::new();
    let mut i: usize = 0;
    while i < items.len()
        invariant
            0 <= i <= items@.len(),
            patterns == patterns_of(filters@),
            source_string@ == source@,
            records@.len() == i,
            forall|j: int|
                0 <= j < i ==> {
                    let rec = #[trigger] records@[j];
                    rec.id == items@[j].id && rec.source@ == source@ && rec.created_at
                        == items@[j].created_at
                },
            keep@ == kept_spec(items@.subrange(0, i as int), patterns, blacklist@, reverse),
        decreases items@.len() - i,
    {
        proof {
            assert(items@.subrange(0, i + 1).drop_last() =~= items@.subrange(0, i as int));
            assert(items@.subrange(0, i + 1).last() == items@[i as int]);
        }
        let item = &items[i];
        let rejected = is_blacklisted(item.news_url.as_str(), blacklist) || is_missing_url(
            &item.news_url,
        ) || !keep_item(filters, item.news_title.as_str(), reverse);
        if !rejected {
            keep.push(item.clone());
        }
        records.push(Record { id: item.id, source: source_string.clone(), created_at: item.created_at });
        i += 1;
    }
    proof {
        assert(items@.subrange(0, items@.len() as int) =~= items@);
    }
    let result = storage.insert_items(records.as_slice());
    proof {
        lemma_collision_equiv(orig, records@, items@, source@);
    }
    match result {
        Ok(()) => {
            proof {
                assert(storage.records@.subrange(0, orig.len() as int) =~= orig);
                assert forall|j: int| 0 <= j < items@.len() implies has_key(
                    storage.records@,
                    #[trigger] items@[j].id,
                    source@,
                ) by {
                    assert(storage.records@[orig.len() + j] == records@[j]);
                };
            }
            Ok(deduplicate(&keep))
        },
        Err(e) => Err(e),
    }
}

/// Law (idempotence, digest side): a run over no fetched items produces
/// an empty digest. With `storage::lemma_second_run_empty` — after one
/// run every candidate id is recorded, so the next delta is empty and
/// nothing is fetched — a second run against an unchanged remote returns
/// no items and leaves the record count as it was.
pub proof fn lemma_no_items_no_digest(
    patterns: Seq<Seq<char>>,
    blacklist: Seq<String>,
    reverse: bool,
)
    ensures
        dedup_spec(kept_spec(Seq::empty(), patterns, blacklist, reverse)) == Seq::<
            DigestItem,
        >::empty(),
{
}

/// A batch of plain records built from digest items under one source
/// collides exactly when the items do.
proof fn lemma_collision_equiv(
    rs: Seq<Record>,
    records: Seq<Record>,
    items: Seq<DigestItem>,
    source: Seq<char>,
)
    requires
        records.len() == items.len(),
        forall|j: int|
            0 <= j < items.len() ==> {
                let rec = #[trigger] records[j];
                rec.id == items[j].id && rec.source@ == source
            },
    ensures
        batch_collides(rs, records) <==> ingest_collides(rs, items, source),
{
    if batch_collides(rs, records) {
        let j = choose|j: int| collides_at(rs, records, j);
        lemma_has_key_concat(rs, records.subrange(0, j), records[j].id, records[j].source@);
        if has_key(rs, records[j].id, records[j].source@) {
            assert(item_collides_at(rs, items, source, j));
        } else {
            let k = choose|k: int|
                0 <= k < records.subrange(0, j).len() && records.subrange(0, j)[k].id
                    == records[j].id && records.subrange(0, j)[k].source@ == records[j].source@;
            assert(records[k].id == records[j].id);
            assert(items[k].id == items[j].id);
            assert(item_collides_at(rs, items, source, j));
        }
        assert(ingest_collides(rs, items, source));
    }
    if ingest_collides(rs, items, source) {
        let j = choose|j: int| item_collides_at(rs, items, source, j);
        lemma_has_key_concat(rs, records.subrange(0, j), records[j].id, records[j].source@);
        if has_key(rs, items[j].id, source) {
            assert(has_key(rs, records[j].id, records[j].source@));
        } else {
            let k = choose|k: int| 0 <= k < j && items[k].id == items[j].id;
            assert(records.subrange(0, j)[k] == records[k]);
            assert(has_key(records.subrange(0, j), records[j].id, records[j].source@));
        }
        assert(collides_at(rs, records, j));
        assert(batch_collides(rs, records));
    }
}

} // verus!
