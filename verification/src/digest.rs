//! Digest items and URL-based de-duplication.

use vstd::prelude::*;

verus! {

/// A transient news item carried through classification; it becomes part of
/// the output digest only if it survives the blacklist, missing-URL, filter
/// and de-duplication checks.
pub struct DigestItem {
    pub id: i64,
    pub news_title: String,
    pub news_url: String,
    pub created_at: i64,
}

impl Clone for DigestItem {
    fn clone(&self) -> (r: Self)
        ensures
            r == *self,
    {
        DigestItem {
            id: self.id,
            news_title: self.news_title.clone(),
            news_url: self.news_url.clone(),
            created_at: self.created_at,
        }
    }
}

/// Whether a URL counts as missing: empty, or the `"-"` placeholder that
/// rejected items are stored with.
pub open spec fn missing_url_spec(url: Seq<char>) -> bool {
    url.len() == 0 || url == "-"@
}

/// Check if a URL is missing or empty in a digest item.
pub fn is_missing_url(item_url: &String) -> (r: bool)
    ensures
        r == missing_url_spec(item_url@),
{
    let dash: String = String::from_str("-");
    item_url.as_str().is_empty() || *item_url == dash
}

/// The URLs already taken, threaded through `dedup_from`.
pub open spec fn dedup_from(items: Seq<DigestItem>, seen: Set<Seq<char>>) -> Seq<DigestItem>
    decreases items.len(),
{
    if items.len() == 0 {
        Seq::empty()
    } else if seen.contains(items[0].news_url@) {
        dedup_from(items.drop_first(), seen)
    } else {
        seq![items[0]] + dedup_from(items.drop_first(), seen.insert(items[0].news_url@))
    }
}

/// The de-duplicated digest: first occurrence of every URL, in input order.
pub open spec fn dedup_spec(items: Seq<DigestItem>) -> Seq<DigestItem> {
    dedup_from(items, Set::empty())
}

/// Whether some element of `urls` views to `u`.
pub open spec fn url_seen(urls: Seq<String>, u: Seq<char>) -> bool {
    exists|k: int| 0 <= k < urls.len() && urls[k]@ == u
}

fn contains_url(urls: &Vec<String>, u: &String) -> (r: bool)
    ensures
        r == url_seen(urls@, u@),
{
    let mut k: usize = 0;
    while k < urls.len()
        invariant
            0 <= k <= urls@.len(),
            forall|j: int| 0 <= j < k ==> urls@[j]@ != u@,
        decreases urls@.len() - k,
    {
        if urls[k] == *u {
            return true;
        }
        k += 1;
    }
    false
}

/// The set of URL views occurring in `urls`.
pub open spec fn seen_set(urls: Seq<String>) -> Set<Seq<char>> {
    Set::new(|u: Seq<char>| url_seen(urls, u))
}

/// De-duplicate the fetched items and return the unique items. URL is used
/// as the key; the first occurrence in input order is kept.
pub fn deduplicate(items: &Vec<DigestItem>) -> (unique: Vec<DigestItem>)
    ensures
        unique@ == dedup_spec(items@),
{
    let mut unique_items: Vec<DigestItem> = Vec::new();
    let mut urls: Vec<String> = Vec::new();
    let ghost all = items@;
    let mut i: usize = 0;

    proof {
        assert(seen_set(urls@) =~= Set::<Seq<char>>::empty());
        assert(all.subrange(0, all.len() as int) =~= all);
    }

    while i < items.len()
        invariant
            0 <= i <= all.len(),
            items@ == all,
            unique_items@ + dedup_from(all.subrange(i as int, all.len() as int), seen_set(urls@))
                == dedup_spec(all),
        decreases all.len() - i,
    {
        let ghost pre = all.subrange(i as int, all.len() as int);
        let ghost seen0 = seen_set(urls@);
        let ghost taken0 = unique_items@;
        proof {
            assert(pre[0] == all[i as int]);
            assert(pre.drop_first() =~= all.subrange(i + 1, all.len() as int));
        }
        let item = &items[i];
        if !contains_url(&urls, &item.news_url) {
            let ghost urls0 = urls@;
            urls.push(item.news_url.clone());
            unique_items.push(item.clone());
            proof {
                assert forall|u: Seq<char>| #[trigger] url_seen(urls@, u) implies (u
                    == item.news_url@ || url_seen(urls0, u)) by {
                    let k = choose|k: int| 0 <= k < urls@.len() && urls@[k]@ == u;
                    if k < urls0.len() {
                        assert(url_seen(urls0, u));
                    }
                };
                assert forall|u: Seq<char>| url_seen(urls0, u) implies #[trigger] url_seen(
                    urls@,
                    u,
                ) by {
                    let k = choose|k: int| 0 <= k < urls0.len() && urls0[k]@ == u;
                    assert(urls@[k]@ == u);
                };
                assert(urls@[urls0.len() as int]@ == item.news_url@);
                assert(url_seen(urls@, item.news_url@));
                assert(seen_set(urls@) =~= seen0.insert(item.news_url@));
                assert(unique_items@ + dedup_from(pre.drop_first(), seen0.insert(item.news_url@))
                    =~= taken0 + (seq![pre[0]] + dedup_from(
                    pre.drop_first(),
                    seen0.insert(pre[0].news_url@),
                )));
            }
        }
        i += 1;
    }
    proof {
        assert(all.subrange(all.len() as int, all.len() as int) =~= Seq::<DigestItem>::empty());
        assert(unique_items@ + Seq::<DigestItem>::empty() =~= unique_items@);
    }
    unique_items
}

} // verus!
