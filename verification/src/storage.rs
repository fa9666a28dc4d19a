//! The record store: a per-source ledger of already-processed item
//! identifiers with batch insert (all-or-nothing), query-by-source,
//! age-based eviction, and a flat one-record-per-line text format.

use vstd::prelude::*;

use crate::text::{
    dec_str_i64, i64_to_dec, parse_i64, parse_i64_spec, split_spec, split_string, str_eq,
};

verus! {

/// One ledger entry: an item identifier, the source it was seen under, and
/// the time it was recorded. `(id, source)` is the composite unique key.
pub struct Record {
    pub id: i64,
    pub source: String,
    pub created_at: i64,
}

impl Clone for Record {
    fn clone(&self) -> (r: Self)
        ensures
            r == *self,
    {
        Record { id: self.id, source: self.source.clone(), created_at: self.created_at }
    }
}

/// The numeric value a field parses to, with parse failures mapping to zero.
pub open spec fn field_num(s: Seq<char>) -> int {
    match parse_i64_spec(s) {
        Some(v) => v,
        None => 0,
    }
}

/// The `(id, source, created_at)` a ledger line denotes: three
/// comma-separated fields, or an inert zero record for malformed lines.
pub open spec fn record_fields(s: Seq<char>) -> (int, Seq<char>, int) {
    let parts = split_spec(s, ',');
    if parts.len() == 3 {
        (field_num(parts[0]), parts[1], field_num(parts[2]))
    } else {
        (0, Seq::<char>::empty(), 0)
    }
}

/// Whether `r` is the record that line `s` denotes.
pub open spec fn is_parsed_record(r: Record, s: Seq<char>) -> bool {
    &&& r.id as int == record_fields(s).0
    &&& r.source@ == record_fields(s).1
    &&& r.created_at as int == record_fields(s).2
}

/// The ledger line of a record: `id,source,created_at`.
pub open spec fn line_of(r: Record) -> Seq<char> {
    dec_str_i64(r.id as int) + seq![','] + r.source@ + seq![','] + dec_str_i64(
        r.created_at as int,
    )
}

impl Record {
    /// Parse a ledger line. A line without exactly three comma-separated
    /// fields yields an inert zero record; a field that is not a number
    /// yields zero for that field.
    pub fn from(item: String) -> (r: Record)
        ensures
            is_parsed_record(r, item@),
    {
        proof {
            assert(item@.subrange(0, item@.len() as int) =~= item@);
        }
        let parts = split_string(item.as_str(), 0, ',');
        if parts.len() == 3 {
            proof {
                assert(parts@[0].deep_view() == parts.deep_view()[0]);
                assert(parts@[1].deep_view() == parts.deep_view()[1]);
                assert(parts@[2].deep_view() == parts.deep_view()[2]);
            }
            let id = match parse_i64(parts[0].as_str()) {
                Some(v) => v,
                None => 0,
            };
            let created_at = match parse_i64(parts[2].as_str()) {
                Some(v) => v,
                None => 0,
            };
            let source = parts[1].clone();
            Record { id, source, created_at }
        } else {
            Record { id: 0, source: String::new(), created_at: 0 }
        }
    }

    /// Render the record as its ledger line.
    pub fn into(self) -> (r: String)
        ensures
            r@ == line_of(self),
    {
        let mut out = i64_to_dec(self.id);
        out.append(",");
        out.append(self.source.as_str());
        out.append(",");
        let created = i64_to_dec(self.created_at);
        out.append(created.as_str());
        proof {
            reveal_strlit(",");
            assert(out@ =~= line_of(self));
        }
        out
    }
}

/// Errors of the store. A duplicate `(id, source)` key aborts a whole batch.
#[derive(Debug)]
pub enum StoreError {
    DuplicateKey,
}

/// Whether some record in `rs` has the composite key `(id, source)`.
pub open spec fn has_key(rs: Seq<Record>, id: i64, source: Seq<char>) -> bool {
    exists|k: int| 0 <= k < rs.len() && rs[k].id == id && rs[k].source@ == source
}

/// `rs` with every record keyed `(id, source)` deleted, order kept.
pub open spec fn without_key(rs: Seq<Record>, id: i64, source: Seq<char>) -> Seq<Record>
    decreases rs.len(),
{
    if rs.len() == 0 {
        Seq::empty()
    } else {
        let init = without_key(rs.drop_last(), id, source);
        if rs.last().id == id && rs.last().source@ == source {
            init
        } else {
            init.push(rs.last())
        }
    }
}

/// The ids recorded under `source`, in ledger order.
pub open spec fn ids_under(rs: Seq<Record>, source: Seq<char>) -> Seq<i64>
    decreases rs.len(),
{
    if rs.len() == 0 {
        Seq::empty()
    } else {
        let init = ids_under(rs.drop_last(), source);
        if rs.last().source@ == source {
            init.push(rs.last().id)
        } else {
            init
        }
    }
}

/// The candidates not yet recorded under `source`, in candidate order.
pub open spec fn delta_spec(candidates: Seq<i64>, rs: Seq<Record>, source: Seq<char>) -> Seq<i64>
    decreases candidates.len(),
{
    if candidates.len() == 0 {
        Seq::empty()
    } else {
        let init = delta_spec(candidates.drop_last(), rs, source);
        if has_key(rs, candidates.last(), source) {
            init
        } else {
            init.push(candidates.last())
        }
    }
}

/// The records young enough to survive a vacuum with the given cutoff.
pub open spec fn retained(rs: Seq<Record>, cut: int) -> Seq<Record>
    decreases rs.len(),
{
    if rs.len() == 0 {
        Seq::empty()
    } else {
        let init = retained(rs.drop_last(), cut);
        if rs.last().created_at >= cut {
            init.push(rs.last())
        } else {
            init
        }
    }
}

/// The eviction cutoff: records strictly older than this instant go.
pub open spec fn cutoff(retain_days: int, now: int) -> int {
    now - retain_days * 86400
}

/// Whether inserting `items[j]` into `rs ++ items[..j]` would collide.
pub open spec fn collides_at(rs: Seq<Record>, items: Seq<Record>, j: int) -> bool {
    0 <= j < items.len() && has_key(rs + items.subrange(0, j), items[j].id, items[j].source@)
}

/// Whether a batch insert of `items` into `rs` hits a duplicate key,
/// either against the store or between two records of the batch.
pub open spec fn batch_collides(rs: Seq<Record>, items: Seq<Record>) -> bool {
    exists|j: int| collides_at(rs, items, j)
}

/// The whole ledger rendered as lines, each ended by a newline.
pub open spec fn dump_spec(rs: Seq<Record>) -> Seq<char>
    decreases rs.len(),
{
    if rs.len() == 0 {
        Seq::empty()
    } else {
        dump_spec(rs.drop_last()) + line_of(rs.last()) + seq!['\n']
    }
}

/// Law (line round trip): a record whose source is free of the field
/// separator parses back from its own ledger line.
pub proof fn lemma_record_line_round_trip(r: Record)
    requires
        !r.source@.contains(','),
    ensures
        is_parsed_record(r, line_of(r)),
{
    let a = dec_str_i64(r.id as int);
    let b = dec_str_i64(r.created_at as int);
    crate::text::lemma_dec_str_free_of(r.id as int, ',');
    crate::text::lemma_dec_str_free_of(r.created_at as int, ',');
    let line = line_of(r);
    assert(line =~= a + seq![','] + (r.source@ + seq![','] + b));
    crate::text::lemma_split_at_sep(a, r.source@ + seq![','] + b, ',');
    crate::text::lemma_split_at_sep(r.source@, b, ',');
    crate::text::lemma_split_solid(b, ',');
    let parts = split_spec(line, ',');
    assert(parts =~~= seq![a, r.source@, b]);
    crate::text::lemma_parse_dec_round_trip(r.id as int);
    crate::text::lemma_parse_dec_round_trip(r.created_at as int);
}

/// The rendering of a non-empty ledger, taken from the front.
proof fn lemma_dump_front(rs: Seq<Record>)
    requires
        rs.len() > 0,
    ensures
        dump_spec(rs) == line_of(rs[0]) + seq!['\n'] + dump_spec(rs.drop_first()),
    decreases rs.len(),
{
    if rs.len() == 1 {
        assert(rs.drop_last() =~= Seq::<Record>::empty());
        assert(rs.drop_first() =~= Seq::<Record>::empty());
        assert(dump_spec(rs) =~= line_of(rs[0]) + seq!['\n'] + dump_spec(rs.drop_first()));
    } else {
        lemma_dump_front(rs.drop_last());
        assert(rs.drop_last()[0] == rs[0]);
        assert(rs.drop_last().drop_first() =~= rs.drop_first().drop_last());
        assert(rs.drop_first().last() == rs.last());
        assert(dump_spec(rs) =~= line_of(rs[0]) + seq!['\n'] + dump_spec(rs.drop_first()));
    }
}

/// A ledger line holds no newline when its source does not.
proof fn lemma_line_no_newline(r: Record)
    requires
        !r.source@.contains('\n'),
    ensures
        !line_of(r).contains('\n'),
{
    crate::text::lemma_dec_str_free_of(r.id as int, '\n');
    crate::text::lemma_dec_str_free_of(r.created_at as int, '\n');
    let a = dec_str_i64(r.id as int);
    let b = dec_str_i64(r.created_at as int);
    let s = r.source@;
    let line = line_of(r);
    if line.contains('\n') {
        let i = choose|i: int| 0 <= i < line.len() && line[i] == '\n';
        if i < a.len() {
            assert(a[i] == '\n');
            assert(a.contains('\n'));
        } else if i == a.len() {
            assert(line[i] == ',');
        } else if i < a.len() + 1 + s.len() {
            assert(s[i - a.len() - 1] == '\n');
            assert(s.contains('\n'));
        } else if i == a.len() + 1 + s.len() {
            assert(line[i] == ',');
        } else {
            assert(b[i - a.len() - s.len() - 2] == '\n');
            assert(b.contains('\n'));
        }
    }
}

/// Law (dump/reload): the dumped ledger splits on newlines into one line
/// per record plus a final empty segment, and every line parses back to
/// its record — reloading a dump restores the store, for sources free of
/// the format's two delimiters.
pub proof fn lemma_dump_reload(rs: Seq<Record>)
    requires
        forall|i: int|
            0 <= i < rs.len() ==> !(#[trigger] rs[i].source@).contains(',')
                && !rs[i].source@.contains('\n'),
    ensures
        split_spec(dump_spec(rs), '\n').len() == rs.len() + 1,
        split_spec(dump_spec(rs), '\n').last() == Seq::<char>::empty(),
        forall|i: int|
            0 <= i < rs.len() ==> is_parsed_record(
                rs[i],
                #[trigger] split_spec(dump_spec(rs), '\n')[i],
            ),
    decreases rs.len(),
{
    let lines = split_spec(dump_spec(rs), '\n');
    if rs.len() == 0 {
        assert(lines =~~= seq![Seq::<char>::empty()]);
    } else {
        lemma_dump_front(rs);
        lemma_line_no_newline(rs[0]);
        crate::text::lemma_split_at_sep(line_of(rs[0]), dump_spec(rs.drop_first()), '\n');
        let rest = rs.drop_first();
        assert(forall|i: int|
            0 <= i < rest.len() ==> !(#[trigger] rest[i].source@).contains(',')
                && !rest[i].source@.contains('\n'));
        lemma_dump_reload(rest);
        let sub = split_spec(dump_spec(rest), '\n');
        assert(lines == seq![line_of(rs[0])] + sub);
        lemma_record_line_round_trip(rs[0]);
        assert forall|i: int| 0 <= i < rs.len() implies is_parsed_record(
            rs[i],
            lines[i],
        ) by {
            if i == 0 {
                assert(lines[0] == line_of(rs[0]));
            } else {
                assert(lines[i] == sub[i - 1]);
                assert(rest[i - 1] == rs[i]);
            }
        }
        assert(lines.last() == sub.last());
    }
}

/// A key occurs in a concatenation exactly when it occurs in one of the
/// parts.
pub proof fn lemma_has_key_concat(a: Seq<Record>, b: Seq<Record>, id: i64, source: Seq<char>)
    ensures
        has_key(a + b, id, source) <==> (has_key(a, id, source) || has_key(b, id, source)),
{
    if has_key(a + b, id, source) {
        let k = choose|k: int|
            0 <= k < (a + b).len() && (a + b)[k].id == id && (a + b)[k].source@ == source;
        if k < a.len() {
            assert(a[k] == (a + b)[k]);
        } else {
            assert(b[k - a.len()] == (a + b)[k]);
        }
    }
    if has_key(a, id, source) {
        let k = choose|k: int| 0 <= k < a.len() && a[k].id == id && a[k].source@ == source;
        assert((a + b)[k] == a[k]);
    }
    if has_key(b, id, source) {
        let k = choose|k: int| 0 <= k < b.len() && b[k].id == id && b[k].source@ == source;
        assert((a + b)[a.len() + k] == b[k]);
    }
}

/// Law (delta correctness): the delta holds exactly the candidates whose
/// key is not yet recorded under the source — as a sequence it is the
/// candidate list with the recorded ids deleted, order kept, which its
/// definition states; as a set it is the difference stated here.
pub proof fn lemma_delta_correct(candidates: Seq<i64>, rs: Seq<Record>, source: Seq<char>)
    ensures
        forall|id: i64|
            #[trigger] delta_spec(candidates, rs, source).contains(id) <==> (
            candidates.contains(id) && !has_key(rs, id, source)),
    decreases candidates.len(),
{
    let d = delta_spec(candidates, rs, source);
    if candidates.len() == 0 {
        assert(forall|id: i64| !d.contains(id) && !candidates.contains(id));
    } else {
        let c0 = candidates.drop_last();
        lemma_delta_correct(c0, rs, source);
        let d0 = delta_spec(c0, rs, source);
        assert forall|id: i64| #[trigger] d.contains(id) implies (candidates.contains(id)
            && !has_key(rs, id, source)) by {
            let k = choose|k: int| 0 <= k < d.len() && d[k] == id;
            if has_key(rs, candidates.last(), source) || k < d0.len() {
                assert(d0[k] == id);
                assert(d0.contains(id));
                let m = choose|m: int| 0 <= m < c0.len() && c0[m] == id;
                assert(candidates[m] == id);
            } else {
                assert(id == candidates.last());
                assert(candidates[candidates.len() - 1] == id);
            }
        }
        assert forall|id: i64| (candidates.contains(id) && !has_key(rs, id, source)) implies #[trigger] d.contains(
            id,
        ) by {
            let m = choose|m: int| 0 <= m < candidates.len() && candidates[m] == id;
            if m < candidates.len() - 1 {
                assert(c0[m] == id);
                assert(c0.contains(id));
                assert(d0.contains(id));
                let k = choose|k: int| 0 <= k < d0.len() && d0[k] == id;
                assert(d[k] == id);
            } else {
                assert(id == candidates.last());
                assert(d[d.len() - 1] == id);
            }
        }
    }
}

/// Law (idempotence): once every candidate id is recorded under the
/// source — as it is after an ingestion run has persisted all classified
/// items — the delta of those candidates is empty, so a run against an
/// unchanged remote yields nothing new and leaves the store as it is.
pub proof fn lemma_second_run_empty(candidates: Seq<i64>, rs: Seq<Record>, source: Seq<char>)
    requires
        forall|j: int| 0 <= j < candidates.len() ==> has_key(rs, #[trigger] candidates[j], source),
    ensures
        delta_spec(candidates, rs, source).len() == 0,
    decreases candidates.len(),
{
    if candidates.len() != 0 {
        let c0 = candidates.drop_last();
        assert(forall|j: int| 0 <= j < c0.len() ==> has_key(rs, #[trigger] c0[j], source));
        lemma_second_run_empty(c0, rs, source);
        assert(has_key(rs, candidates[candidates.len() - 1], source));
    }
}

proof fn lemma_retained_len(rs: Seq<Record>, cut: int)
    ensures
        retained(rs, cut).len() <= rs.len(),
    decreases rs.len(),
{
    if rs.len() != 0 {
        lemma_retained_len(rs.drop_last(), cut);
    }
}

/// The in-memory record store. Durability is the caller's business: the
/// caller persists `dump()` and reconstructs with `from_lines`.
pub struct Storage {
    pub records: Vec<Record>,
}

impl Storage {
    /// An empty store.
    pub fn new() -> (s: Storage)
        ensures
            s.records@.len() == 0,
    {
        Storage { records: Vec::new() }
    }

    /// Rebuild a store from ledger lines, one record per line; malformed
    /// lines become inert zero records, as `Record::from` has it.
    pub fn from_lines(lines: &Vec<String>) -> (s: Storage)
        ensures
            s.records@.len() == lines@.len(),
            forall|i: int|
                0 <= i < lines@.len() ==> is_parsed_record(#[trigger] s.records@[i], lines@[i]@),
    {
        let mut records: Vec<Record> = Vec::new();
        let mut i: usize = 0;
        while i < lines.len()
            invariant
                0 <= i <= lines@.len(),
                records@.len() == i,
                forall|j: int|
                    0 <= j < i ==> is_parsed_record(#[trigger] records@[j], lines@[j]@),
            decreases lines@.len() - i,
        {
            records.push(Record::from(lines[i].clone()));
            i += 1;
        }
        Storage { records }
    }

    pub fn len(&self) -> (n: usize)
        ensures
            n == self.records@.len(),
    {
        self.records.len()
    }

    /// Check if a record exists in the storage, based on the id and source
    /// as the composite unique key.
    pub fn has_record(&self, id: i64, source: &str) -> (r: bool)
        ensures
            r == has_key(self.records@, id, source@),
    {
        let mut k: usize = 0;
        while k < self.records.len()
            invariant
                0 <= k <= self.records@.len(),
                forall|j: int|
                    0 <= j < k ==> !(self.records@[j].id == id && self.records@[j].source@
                        == source@),
            decreases self.records@.len() - k,
        {
            if self.records[k].id == id && str_eq(self.records[k].source.as_str(), source) {
                return true;
            }
            k += 1;
        }
        false
    }

    /// Add a record. If its `(id, source)` key is already present, an error
    /// is returned and the store is unchanged.
    pub fn add(&mut self, record: &Record) -> (r: Result<(), StoreError>)
        ensures
            r is Ok <==> !has_key(old(self).records@, record.id, record.source@),
            r is Ok ==> final(self).records@ == old(self).records@.push(*record),
            r is Err ==> final(self).records@ == old(self).records@,
    {
        if !self.has_record(record.id, record.source.as_str()) {
            self.records.push(record.clone());
            return Ok(());
        }
        Err(StoreError::DuplicateKey)
    }

    /// Remove every record with the given key. If none exists, nothing
    /// happens.
    pub fn remove(&mut self, id: i64, source: &str)
        ensures
            final(self).records@ == without_key(old(self).records@, id, source@),
    {
        let ghost orig = self.records@;
        let mut kept: Vec<Record> = Vec::new();
        let mut k: usize = 0;
        while k < self.records.len()
            invariant
                0 <= k <= self.records@.len(),
                self.records@ == orig,
                kept@ == without_key(orig.subrange(0, k as int), id, source@),
            decreases self.records@.len() - k,
        {
            proof {
                assert(orig.subrange(0, k + 1).drop_last() =~= orig.subrange(0, k as int));
            }
            let rec = &self.records[k];
            if !(rec.id == id && str_eq(rec.source.as_str(), source)) {
                kept.push(rec.clone());
            }
            k += 1;
        }
        proof {
            assert(orig.subrange(0, orig.len() as int) =~= orig);
        }
        self.records = kept;
    }

    /// Query the storage for the ids recorded under `source`, in order.
    /// An unknown source yields an empty result.
    pub fn query_ids(&self, source: &str) -> (r: Vec<i64>)
        ensures
            r@ == ids_under(self.records@, source@),
    {
        let mut out: Vec<i64> = Vec::new();
        let mut k: usize = 0;
        while k < self.records.len()
            invariant
                0 <= k <= self.records@.len(),
                out@ == ids_under(self.records@.subrange(0, k as int), source@),
            decreases self.records@.len() - k,
        {
            proof {
                assert(self.records@.subrange(0, k + 1).drop_last() =~= self.records@.subrange(
                    0,
                    k as int,
                ));
            }
            let rec = &self.records[k];
            if str_eq(rec.source.as_str(), source) {
                out.push(rec.id);
            }
            k += 1;
        }
        proof {
            assert(self.records@.subrange(0, self.records@.len() as int) =~= self.records@);
        }
        out
    }

    /// Of the freshly observed ids, those not yet recorded under the given
    /// source, in observation order.
    pub fn get_ids_to_pull(&self, source_name: &str, prefetched_ids: Vec<i64>) -> (r: Vec<i64>)
        ensures
            r@ == delta_spec(prefetched_ids@, self.records@, source_name@),
    {
        let mut out: Vec<i64> = Vec::new();
        let mut k: usize = 0;
        while k < prefetched_ids.len()
            invariant
                0 <= k <= prefetched_ids@.len(),
                out@ == delta_spec(
                    prefetched_ids@.subrange(0, k as int),
                    self.records@,
                    source_name@,
                ),
            decreases prefetched_ids@.len() - k,
        {
            proof {
                assert(prefetched_ids@.subrange(0, k + 1).drop_last() =~= prefetched_ids@.subrange(
                    0,
                    k as int,
                ));
            }
            let id = prefetched_ids[k];
            if !self.has_record(id, source_name) {
                out.push(id);
            }
            k += 1;
        }
        proof {
            assert(prefetched_ids@.subrange(0, prefetched_ids@.len() as int) =~= prefetched_ids@);
        }
        out
    }

    /// Insert a batch of records. If any record's key is already present —
    /// in the store or earlier in the batch — the whole batch is undone and
    /// a `DuplicateKey` error is returned, the store unchanged.
    pub fn insert_items(&mut self, items: &[Record]) -> (r: Result<(), StoreError>)
        ensures
            r is Ok <==> !batch_collides(old(self).records@, items@),
            r is Ok ==> final(self).records@ == old(self).records@ + items@,
            r is Err ==> final(self).records@ == old(self).records@,
    {
        let old_len = self.records.len();
        let ghost orig = self.records@;
        let mut i: usize = 0;
        while i < items.len()
            invariant
                0 <= i <= items@.len(),
                orig == old(self).records@,
                orig.len() == old_len,
                self.records@ == orig + items@.subrange(0, i as int),
                forall|j: int| 0 <= j < i ==> !collides_at(orig, items@, j),
            decreases items@.len() - i,
        {
            let item = &items[i];
            if self.has_record(item.id, item.source.as_str()) {
                proof {
                    assert(collides_at(orig, items@, i as int));
                }
                self.records.truncate(old_len);
                proof {
                    assert(self.records@ =~= orig);
                }
                return Err(StoreError::DuplicateKey);
            }
            self.records.push(item.clone());
            proof {
                assert(self.records@ =~= orig + items@.subrange(0, i + 1));
            }
            i += 1;
        }
        proof {
            assert(self.records@ =~= orig + items@);
            if batch_collides(orig, items@) {
                let j = choose|j: int| collides_at(orig, items@, j);
                assert(!collides_at(orig, items@, j));
            }
        }
        Ok(())
    }

    /// Remove every record strictly older than `now` minus the retention
    /// window; a record created exactly at the cutoff is kept. Returns how
    /// many records were removed.
    pub fn vacuum_at(&mut self, retain_days: i64, now: i64) -> (removed: usize)
        ensures
            final(self).records@ == retained(
                old(self).records@,
                cutoff(retain_days as int, now as int),
            ),
            removed == old(self).records@.len() - final(self).records@.len(),
    {
        let cut: i128 = now as i128 - retain_days as i128 * 86400;
        let ghost orig = self.records@;
        let old_len = self.records.len();
        let mut kept: Vec<Record> = Vec::new();
        let mut k: usize = 0;
        while k < self.records.len()
            invariant
                0 <= k <= self.records@.len(),
                self.records@ == orig,
                cut == cutoff(retain_days as int, now as int),
                kept@ == retained(orig.subrange(0, k as int), cut as int),
            decreases self.records@.len() - k,
        {
            proof {
                assert(orig.subrange(0, k + 1).drop_last() =~= orig.subrange(0, k as int));
            }
            let rec = &self.records[k];
            if rec.created_at as i128 >= cut {
                kept.push(rec.clone());
            }
            k += 1;
        }
        proof {
            assert(orig.subrange(0, orig.len() as int) =~= orig);
            lemma_retained_len(orig, cut as int);
        }
        let removed = old_len - kept.len();
        self.records = kept;
        removed
    }

    /// Remove records older than the retention window, measured from the
    /// wall clock now. The exact boundary behaviour is `vacuum_at`'s.
    pub fn vacuum(&mut self, retain_days: i64) -> (removed: usize)
        ensures
            exists|now: int|
                final(self).records@ == retained(
                    old(self).records@,
                    cutoff(retain_days as int, now),
                ) && removed == old(self).records@.len() - final(self).records@.len(),
    {
        let now = now_timestamp();
        let removed = self.vacuum_at(retain_days, now);
        proof {
            let picked = now as int;
            assert(final(self).records@ == retained(
                old(self).records@,
                cutoff(retain_days as int, picked),
            ));
        }
        removed
    }

    /// Render the whole ledger, one line per record, for persistence.
    pub fn dump(&self) -> (out: String)
        ensures
            out@ == dump_spec(self.records@),
    {
        let mut out = String::new();
        let mut k: usize = 0;
        while k < self.records.len()
            invariant
                0 <= k <= self.records@.len(),
                out@ == dump_spec(self.records@.subrange(0, k as int)),
            decreases self.records@.len() - k,
        {
            proof {
                assert(self.records@.subrange(0, k + 1).drop_last() =~= self.records@.subrange(
                    0,
                    k as int,
                ));
            }
            let line = self.records[k].clone().into();
            out.append(line.as_str());
            out.append("\n");
            proof {
                reveal_strlit("\n");
                assert(out@ =~= dump_spec(self.records@.subrange(0, k + 1)));
            }
            k += 1;
        }
        proof {
            assert(self.records@.subrange(0, self.records@.len() as int) =~= self.records@);
        }
        out
    }
}

/// Relies on `chrono::Utc::now`: the current Unix timestamp. Nothing is
/// assumed of the clock's value.
#[verifier::external_body]
fn now_timestamp() -> i64 {
    chrono::Utc::now().timestamp()
}

} // verus!
