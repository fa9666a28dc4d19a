//! Bulk feed sources: feed items modelled by plain values, the numeric id
//! taken from the item guid's last path segment, and per-source feed
//! ingestion through the same pipeline as ranked-id sources — delta
//! resolution over every pulled id, classification, persistence of all
//! new items (rejected ones included, so an id is never re-evaluated),
//! and URL de-duplication of the keep-list.

use vstd::prelude::*;

use crate::digest::{dedup_spec, deduplicate, DigestItem};
use crate::filter::{keep_item, patterns_of, TitleFilter};
use crate::pipeline::{is_blacklisted, kept_spec};
use crate::storage::{
    delta_spec, field_num, has_key, lemma_delta_correct, lemma_has_key_concat, Record, Storage,
};
use crate::text::{lemma_split_len, parse_i64, split_spec, split_string};

verus! {

/// One feed entry, reduced to the plain values the pipeline reads.
pub struct FeedItem {
    pub id: i64,
    pub title: String,
    pub guid: String,
    pub created_at: i64,
}

/// `s` with every trailing `c` removed.
pub open spec fn trim_trailing(s: Seq<char>, c: char) -> Seq<char>
    decreases s.len(),
{
    if s.len() > 0 && s.last() == c {
        trim_trailing(s.drop_last(), c)
    } else {
        s
    }
}

/// The numeric id a guid denotes: its last `/`-separated segment, after
/// trailing slashes are dropped, read as a number; zero when that fails.
pub open spec fn feed_id_spec(guid: Seq<char>) -> int {
    field_num(split_spec(trim_trailing(guid, '/'), '/').last())
}

impl FeedItem {
    /// Build a feed item from an entry's title and guid, as plain values;
    /// a missing field reads as empty. The id is taken from the guid.
    pub fn from(title: Option<String>, guid: Option<String>) -> (r: FeedItem)
        ensures
            r.title@ == match title {
                Some(t) => t@,
                None => Seq::<char>::empty(),
            },
            r.guid@ == match guid {
                Some(g) => g@,
                None => Seq::<char>::empty(),
            },
            r.id as int == feed_id_spec(r.guid@),
            r.created_at == 0,
    {
        let g = match guid {
            Some(g) => g,
            None => String::new(),
        };
        let t = match title {
            Some(t) => t,
            None => String::new(),
        };
        let mut n = g.as_str().unicode_len();
        proof {
            assert(g@.subrange(0, n as int) =~= g@);
        }
        while n > 0 && g.as_str().get_char(n - 1) == '/'
            invariant
                0 <= n <= g@.len(),
                trim_trailing(g@, '/') == trim_trailing(g@.subrange(0, n as int), '/'),
            decreases n,
        {
            proof {
                assert(g@.subrange(0, n as int).drop_last() =~= g@.subrange(0, n - 1));
            }
            n -= 1;
        }
        let ghost trimmed_view = trim_trailing(g@, '/');
        proof {
            assert(trimmed_view == g@.subrange(0, n as int));
        }
        let trimmed = g.as_str().substring_char(0, n);
        let parts = split_string(trimmed, 0, '/');
        proof {
            assert(trimmed@.subrange(0, trimmed@.len() as int) =~= trimmed@);
            lemma_split_len(trimmed_view, '/');
        }
        let last = &parts[parts.len() - 1];
        proof {
            assert(parts@[parts@.len() - 1].deep_view() == parts.deep_view()[parts@.len() - 1]);
            assert(parts.deep_view().last() == split_spec(trimmed_view, '/').last());
        }
        let id = match parse_i64(last.as_str()) {
            Some(v) => v,
            None => 0,
        };
        FeedItem { id, title: t, guid: g, created_at: 0 }
    }
}

/// The digest view of a feed item: the guid stands as the URL.
pub open spec fn as_digest(it: FeedItem) -> DigestItem {
    DigestItem { id: it.id, news_title: it.title, news_url: it.guid, created_at: it.created_at }
}

/// The digest views of all pulled feed items, in feed order.
pub open spec fn feed_digest_view(items: Seq<FeedItem>) -> Seq<DigestItem> {
    items.map_values(|it: FeedItem| as_digest(it))
}

/// Carry every pulled feed item into the pipeline as a digest item;
/// nothing is filtered here — classification happens during ingestion.
pub fn feed_digest_items(items: Vec<FeedItem>) -> (r: Vec<DigestItem>)
    ensures
        r@ == feed_digest_view(items@),
{
    let mut out: Vec<DigestItem> = Vec::new();
    let mut k: usize = 0;
    while k < items.len()
        invariant
            0 <= k <= items@.len(),
            out@.len() == k,
            forall|j: int| 0 <= j < k ==> out@[j] == as_digest(#[trigger] items@[j]),
        decreases items@.len() - k,
    {
        let item = &items[k];
        out.push(
            DigestItem {
                id: item.id,
                news_title: item.title.clone(),
                news_url: item.guid.clone(),
                created_at: item.created_at,
            },
        );
        k += 1;
    }
    proof {
        assert(out@ =~= feed_digest_view(items@));
    }
    out
}

/// The first item carrying the given id, if any.
pub open spec fn find_item(items: Seq<DigestItem>, id: i64) -> Option<DigestItem>
    decreases items.len(),
{
    if items.len() == 0 {
        None
    } else if items[0].id == id {
        Some(items[0])
    } else {
        find_item(items.drop_first(), id)
    }
}

/// The items picked for the pulled ids, in pulled order.
pub open spec fn digest_of(items: Seq<DigestItem>, pulled: Seq<i64>) -> Seq<DigestItem>
    decreases pulled.len(),
{
    if pulled.len() == 0 {
        Seq::empty()
    } else {
        let init = digest_of(items, pulled.drop_last());
        match find_item(items, pulled.last()) {
            Some(it) => init.push(it),
            None => init,
        }
    }
}

/// The ids the items carry, in order.
pub open spec fn item_ids(items: Seq<DigestItem>) -> Seq<i64> {
    items.map_values(|it: DigestItem| it.id)
}

/// Whether some item carries the given id.
pub open spec fn carries_id(items: Seq<DigestItem>, id: i64) -> bool {
    exists|j: int| 0 <= j < items.len() && items[j].id == id
}

/// First occurrence of every id, in order.
pub open spec fn dedup_ids(ids: Seq<i64>) -> Seq<i64>
    decreases ids.len(),
{
    if ids.len() == 0 {
        Seq::empty()
    } else {
        let init = dedup_ids(ids.drop_last());
        if ids.drop_last().contains(ids.last()) {
            init
        } else {
            init.push(ids.last())
        }
    }
}

/// The items a feed run works on: of every pulled id not yet recorded
/// under the source, taken once each in observation order, the first item
/// carrying it.
pub open spec fn fresh_feed_items(
    items: Seq<DigestItem>,
    rs: Seq<Record>,
    source: Seq<char>,
) -> Seq<DigestItem> {
    digest_of(items, dedup_ids(delta_spec(item_ids(items), rs, source)))
}

fn contains_id(v: &Vec<i64>, x: i64) -> (r: bool)
    ensures
        r == v@.contains(x),
{
    let mut k: usize = 0;
    while k < v.len()
        invariant
            0 <= k <= v@.len(),
            forall|j: int| 0 <= j < k ==> v@[j] != x,
        decreases v@.len() - k,
    {
        if v[k] == x {
            return true;
        }
        k += 1;
    }
    proof {
        if v@.contains(x) {
            let j = choose|j: int| 0 <= j < v@.len() && v@[j] == x;
            assert(v@[j] != x);
        }
    }
    false
}

fn unique_ids(ids: &Vec<i64>) -> (r: Vec<i64>)
    ensures
        r@ == dedup_ids(ids@),
{
    let mut out: Vec<i64> = Vec::new();
    let mut k: usize = 0;
    while k < ids.len()
        invariant
            0 <= k <= ids@.len(),
            out@ == dedup_ids(ids@.subrange(0, k as int)),
            forall|x: i64| #[trigger] out@.contains(x) <==> ids@.subrange(0, k as int).contains(x),
        decreases ids@.len() - k,
    {
        let ghost pre = ids@.subrange(0, k as int);
        let ghost ext = ids@.subrange(0, k + 1);
        proof {
            assert(ext.drop_last() =~= pre);
            assert(ext.last() == ids@[k as int]);
        }
        let id = ids[k];
        if !contains_id(&out, id) {
            let ghost out0 = out@;
            proof {
                assert(!pre.contains(id));
            }
            out.push(id);
            proof {
                assert forall|x: i64| #[trigger] out@.contains(x) implies ext.contains(x) by {
                    let j = choose|j: int| 0 <= j < out@.len() && out@[j] == x;
                    if j < out@.len() - 1 {
                        assert(out0[j] == x);
                        assert(out0.contains(x));
                        let m = choose|m: int| 0 <= m < pre.len() && pre[m] == x;
                        assert(ext[m] == x);
                    } else {
                        assert(ext[ext.len() - 1] == x);
                    }
                };
                assert forall|x: i64| ext.contains(x) implies #[trigger] out@.contains(x) by {
                    let m = choose|m: int| 0 <= m < ext.len() && ext[m] == x;
                    if m < ext.len() - 1 {
                        assert(pre[m] == x);
                        assert(pre.contains(x));
                        assert(out0.contains(x));
                        let j = choose|j: int| 0 <= j < out0.len() && out0[j] == x;
                        assert(out@[j] == x);
                    } else {
                        assert(out@[out@.len() - 1] == x);
                    }
                };
            }
        } else {
            proof {
                assert(pre.contains(id));
                assert forall|x: i64| #[trigger] out@.contains(x) implies ext.contains(x) by {
                    let m = choose|m: int| 0 <= m < pre.len() && pre[m] == x;
                    assert(ext[m] == x);
                };
                assert forall|x: i64| ext.contains(x) implies #[trigger] out@.contains(x) by {
                    let m = choose|m: int| 0 <= m < ext.len() && ext[m] == x;
                    if m < ext.len() - 1 {
                        assert(pre[m] == x);
                        assert(pre.contains(x));
                    } else {
                        assert(pre.contains(id));
                    }
                };
            }
        }
        k += 1;
    }
    proof {
        assert(ids@.subrange(0, ids@.len() as int) =~= ids@);
    }
    out
}

fn find_by_id(items: &Vec<DigestItem>, id: i64) -> (r: Option<DigestItem>)
    ensures
        match r {
            Some(it) => find_item(items@, id) == Some(it),
            None => find_item(items@, id) is None,
        },
{
    let n = items.len();
    let mut k: usize = 0;
    proof {
        assert(items@.subrange(0, n as int) =~= items@);
    }
    while k < n
        invariant
            0 <= k <= n,
            n == items@.len(),
            find_item(items@, id) == find_item(items@.subrange(k as int, n as int), id),
        decreases n - k,
    {
        proof {
            assert(items@.subrange(k as int, n as int).drop_first() =~= items@.subrange(
                k + 1,
                n as int,
            ));
            assert(items@.subrange(k as int, n as int)[0] == items@[k as int]);
        }
        if items[k].id == id {
            return Some(items[k].clone());
        }
        k += 1;
    }
    proof {
        assert(items@.subrange(n as int, n as int) =~= Seq::<DigestItem>::empty());
    }
    None
}

/// Taking each id once keeps exactly the ids that were there.
proof fn lemma_dedup_ids_membership(ids: Seq<i64>)
    ensures
        forall|x: i64| #[trigger] dedup_ids(ids).contains(x) <==> ids.contains(x),
    decreases ids.len(),
{
    let d = dedup_ids(ids);
    if ids.len() == 0 {
        assert(forall|x: i64| !d.contains(x) && !ids.contains(x));
    } else {
        let tail = ids.drop_last();
        lemma_dedup_ids_membership(tail);
        let d0 = dedup_ids(tail);
        assert forall|x: i64| #[trigger] d.contains(x) implies ids.contains(x) by {
            let k = choose|k: int| 0 <= k < d.len() && d[k] == x;
            if tail.contains(ids.last()) || k < d0.len() {
                assert(d0[k] == x);
                assert(d0.contains(x));
                let m = choose|m: int| 0 <= m < tail.len() && tail[m] == x;
                assert(ids[m] == x);
            } else {
                assert(x == ids.last());
                assert(ids[ids.len() - 1] == x);
            }
        }
        assert forall|x: i64| ids.contains(x) implies #[trigger] d.contains(x) by {
            let m = choose|m: int| 0 <= m < ids.len() && ids[m] == x;
            if m < ids.len() - 1 || tail.contains(ids.last()) {
                assert(tail.contains(x)) by {
                    if m < ids.len() - 1 {
                        assert(tail[m] == x);
                    }
                }
                assert(d0.contains(x));
                let k = choose|k: int| 0 <= k < d0.len() && d0[k] == x;
                assert(d[k] == x);
            } else {
                assert(d[d.len() - 1] == x);
            }
        }
    }
}

/// Taking each id once leaves no two equal entries.
proof fn lemma_dedup_ids_distinct(ids: Seq<i64>)
    ensures
        forall|i: int, j: int|
            0 <= i < j < dedup_ids(ids).len() ==> dedup_ids(ids)[i] != dedup_ids(ids)[j],
    decreases ids.len(),
{
    let d = dedup_ids(ids);
    if ids.len() != 0 {
        let tail = ids.drop_last();
        lemma_dedup_ids_distinct(tail);
        lemma_dedup_ids_membership(tail);
        let d0 = dedup_ids(tail);
        if !tail.contains(ids.last()) {
            assert forall|i: int, j: int| 0 <= i < j < d.len() implies d[i] != d[j] by {
                if j < d0.len() {
                    assert(d0[i] != d0[j]);
                } else {
                    assert(d[j] == ids.last());
                    if d[i] == ids.last() {
                        assert(d0[i] == ids.last());
                        assert(d0.contains(ids.last()));
                    }
                }
            }
        }
    }
}

/// When every pulled id is carried by some item, the picked items line up
/// with the pulled ids one for one.
proof fn lemma_digest_ids(items: Seq<DigestItem>, pulled: Seq<i64>)
    requires
        forall|m: int| 0 <= m < pulled.len() ==> carries_id(items, #[trigger] pulled[m]),
    ensures
        digest_of(items, pulled).len() == pulled.len(),
        forall|m: int|
            0 <= m < pulled.len() ==> #[trigger] digest_of(items, pulled)[m].id == pulled[m],
    decreases pulled.len(),
{
    if pulled.len() != 0 {
        let tail = pulled.drop_last();
        assert forall|m: int| 0 <= m < tail.len() implies carries_id(
            items,
            #[trigger] tail[m],
        ) by {
            assert(tail[m] == pulled[m]);
            assert(carries_id(items, pulled[m]));
        };
        lemma_digest_ids(items, tail);
        assert(carries_id(items, pulled[pulled.len() - 1]));
        lemma_find_found(items, pulled.last());
        let d = digest_of(items, pulled);
        let d0 = digest_of(items, tail);
        assert forall|m: int| 0 <= m < pulled.len() implies #[trigger] d[m].id == pulled[m] by {
            if m < pulled.len() - 1 {
                assert(d[m] == d0[m]);
                assert(tail[m] == pulled[m]);
            }
        }
    }
}

proof fn lemma_find_found(items: Seq<DigestItem>, id: i64)
    requires
        carries_id(items, id),
    ensures
        find_item(items, id) matches Some(it) && it.id == id,
    decreases items.len(),
{
    let j = choose|j: int| 0 <= j < items.len() && items[j].id == id;
    if items[0].id != id {
        assert(items.drop_first()[j - 1] == items[j]);
        assert(carries_id(items.drop_first(), id));
        lemma_find_found(items.drop_first(), id);
    }
}

/// Law (idempotence, feed side): with an empty delta a feed run works on
/// no items. After one run every pulled id is recorded, so by
/// `storage::lemma_second_run_empty` the next delta is empty and a second
/// run over the same feed returns no items and adds no records.
pub proof fn lemma_no_delta_no_digest(items: Seq<DigestItem>, rs: Seq<Record>, source: Seq<char>)
    requires
        delta_spec(item_ids(items), rs, source).len() == 0,
    ensures
        fresh_feed_items(items, rs, source).len() == 0,
{
    assert(delta_spec(item_ids(items), rs, source) =~= Seq::<i64>::empty());
}

/// Run the ingestion pipeline over one feed pull: resolve which pulled
/// ids are new for the source — each id counted once, first item wins —
/// classify each new item against the blacklist, the missing-URL check
/// and the filters, persist every new item under the given timestamp
/// (rejected ones as inert records, so their ids are never re-evaluated),
/// and return the URL-de-duplicated keep-list as the digest. The new ids
/// are distinct and unseen, so the batch insert cannot collide.
pub fn ingest_feed(
    storage: &mut Storage,
    source: &str,
    items: &Vec<DigestItem>,
    filters: &Vec<TitleFilter>,
    blacklist: &Vec<String>,
    reverse: bool,
    now: i64,
) -> (digest: Vec<DigestItem>)
    ensures
        ({
            let fresh = fresh_feed_items(items@, old(storage).records@, source@);
            &&& digest@ == dedup_spec(
                kept_spec(fresh, patterns_of(filters@), blacklist@, reverse),
            )
            &&& final(storage).records@.len() == old(storage).records@.len() + fresh.len()
            &&& final(storage).records@.subrange(0, old(storage).records@.len() as int) == old(
                storage,
            ).records@
            &&& (forall|m: int|
                0 <= m < fresh.len() ==> {
                    let rec = #[trigger] final(storage).records@[old(storage).records@.len() + m];
                    rec.id == fresh[m].id && rec.source@ == source@ && rec.created_at == now
                })
            &&& (forall|j: int|
                0 <= j < items@.len() ==> has_key(
                    final(storage).records@,
                    #[trigger] items@[j].id,
                    source@,
                ))
        }),
{
    let ghost orig = storage.records@;
    let ghost patterns = patterns_of(filters@);
    let source_string = String::from_str(source);

    let mut ids: Vec<i64> = Vec::new();
    let mut k: usize = 0;
    while k < items.len()
        invariant
            0 <= k <= items@.len(),
            ids@.len() == k,
            forall|j: int| 0 <= j < k ==> ids@[j] == items@[j].id,
        decreases items@.len() - k,
    {
        ids.push(items[k].id);
        k += 1;
    }
    proof {
        assert(ids@ =~= item_ids(items@));
    }

    let to_pull = storage.get_ids_to_pull(source, ids);
    let ghost pulled = delta_spec(item_ids(items@), orig, source@);
    let new_ids = unique_ids(&to_pull);
    let ghost uniq = dedup_ids(pulled);

    let mut fresh_items: Vec<DigestItem> = Vec::new();
    let mut m: usize = 0;
    while m < new_ids.len()
        invariant
            0 <= m <= new_ids@.len(),
            new_ids@ == uniq,
            fresh_items@ == digest_of(items@, uniq.subrange(0, m as int)),
        decreases new_ids@.len() - m,
    {
        proof {
            assert(uniq.subrange(0, m + 1).drop_last() =~= uniq.subrange(0, m as int));
            assert(uniq.subrange(0, m + 1).last() == uniq[m as int]);
        }
        if let Some(item) = find_by_id(items, new_ids[m]) {
            fresh_items.push(item);
        }
        m += 1;
    }
    proof {
        assert(uniq.subrange(0, uniq.len() as int) =~= uniq);
        lemma_delta_correct(item_ids(items@), orig, source@);
        lemma_dedup_ids_membership(pulled);
        lemma_dedup_ids_distinct(pulled);
        assert forall|i: int| 0 <= i < uniq.len() implies carries_id(
            items@,
            #[trigger] uniq[i],
        ) by {
            assert(uniq.contains(uniq[i]));
            assert(pulled.contains(uniq[i]));
            assert(item_ids(items@).contains(uniq[i]));
            let j = choose|j: int|
                0 <= j < item_ids(items@).len() && item_ids(items@)[j] == uniq[i];
            assert(items@[j].id == uniq[i]);
        };
        lemma_digest_ids(items@, uniq);
    }
    let ghost fresh = fresh_items@;

    let mut records: Vec<Record> = Vec::new();
    let mut keep: Vec<DigestItem> = Vec::new();
    let mut i: usize = 0;
    while i < fresh_items.len()
        invariant
            0 <= i <= fresh_items@.len(),
            fresh_items@ == fresh,
            patterns == patterns_of(filters@),
            source_string@ == source@,
            records@.len() == i,
            forall|j: int|
                0 <= j < i ==> {
                    let rec = #[trigger] records@[j];
                    rec.id == fresh[j].id && rec.source@ == source@ && rec.created_at == now
                },
            keep@ == kept_spec(fresh.subrange(0, i as int), patterns, blacklist@, reverse),
        decreases fresh_items@.len() - i,
    {
        proof {
            assert(fresh.subrange(0, i + 1).drop_last() =~= fresh.subrange(0, i as int));
            assert(fresh.subrange(0, i + 1).last() == fresh[i as int]);
        }
        let item = &fresh_items[i];
        let rejected = is_blacklisted(item.news_url.as_str(), blacklist)
            || crate::digest::is_missing_url(&item.news_url) || !keep_item(
            filters,
            item.news_title.as_str(),
            reverse,
        );
        if !rejected {
            keep.push(item.clone());
        }
        records.push(Record { id: item.id, source: source_string.clone(), created_at: now });
        i += 1;
    }
    proof {
        assert(fresh.subrange(0, fresh.len() as int) =~= fresh);
        // the batch cannot collide: its ids are distinct and none is stored
        assert forall|j: int|
            0 <= j < records@.len() implies !crate::storage::collides_at(
            orig,
            records@,
            j,
        ) by {
            lemma_has_key_concat(orig, records@.subrange(0, j), records@[j].id, source@);
            assert(uniq.contains(uniq[j]));
            assert(pulled.contains(uniq[j]));
            assert(!has_key(orig, uniq[j], source@));
            if has_key(records@.subrange(0, j), records@[j].id, source@) {
                let k0 = choose|k0: int|
                    0 <= k0 < j && records@.subrange(0, j)[k0].id == records@[j].id
                        && records@.subrange(0, j)[k0].source@ == source@;
                assert(records@[k0].id == uniq[k0]);
                assert(uniq[k0] != uniq[j]);
            }
        };
        if crate::storage::batch_collides(orig, records@) {
            let j = choose|j: int| crate::storage::collides_at(orig, records@, j);
            assert(!crate::storage::collides_at(orig, records@, j));
        }
    }
    let result = storage.insert_items(records.as_slice());
    match result {
        Ok(()) => {
            proof {
                assert(storage.records@.subrange(0, orig.len() as int) =~= orig);
                assert forall|j: int| 0 <= j < items@.len() implies has_key(
                    storage.records@,
                    #[trigger] items@[j].id,
                    source@,
                ) by {
                    let id = items@[j].id;
                    if has_key(orig, id, source@) {
                        lemma_has_key_concat(orig, records@, id, source@);
                    } else {
                        assert(item_ids(items@)[j] == id);
                        assert(item_ids(items@).contains(id));
                        assert(pulled.contains(id));
                        assert(uniq.contains(id));
                        let m0 = choose|m0: int| 0 <= m0 < uniq.len() && uniq[m0] == id;
                        assert(fresh[m0].id == id);
                        assert(storage.records@[orig.len() + m0] == records@[m0]);
                        assert(storage.records@[orig.len() + m0].id == id);
                        assert(storage.records@[orig.len() + m0].source@ == source@);
                    }
                };
            }
            deduplicate(&keep)
        },
        Err(_) => unreached(),
    }
}

} // verus!
