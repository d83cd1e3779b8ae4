//! The semantic index: transcript units with their embeddings, kept in
//! chronological order, with nearest-neighbour ranking and expansion of a hit
//! into the units around it.
//!
//! The index holds its records in memory, in the order of their starts;
//! records that start at the same time stand in the order in which they
//! were stored. An embedding is held as the bit patterns of its components.
//! Distances are computed outside and handed in as integers; only their
//! order counts.

use vstd::prelude::*;
use crate::order::{
    first_n, insert_by, insert_position, is_distinct, is_sorted_by, lemma_first_n_sorted,
    lemma_insert_first_n, lemma_insert_position, lemma_insert_position_bounds, lemma_insert_sorted,
    lemma_sort_distinct, lemma_sort_same_elements, lemma_sort_sorted, sort_by,
};
use crate::config::texts_view;
use crate::text::{decimal, push_decimal, push_signed_decimal, signed_decimal};
use crate::units::{units_view, Clip, ClipView, Timestamp, TimestampView};

verus! {

/// How many records are looked at for each moment that is searched for.
pub const RESULTS_PER_MOMENT: usize = 3;

/// The dimension of the embeddings of the embedding model.
pub const EMBEDDING_DIMENSIONS: usize = 1024;

/// Why an embedder could not embed a text.
#[derive(Debug, Clone)]
pub struct EmbedError {
    pub message: String,
}

/// The embedding capability that the index consumes.
pub trait Embedder {
    /// The embedding of one text.
    fn embed(&mut self, text: &str) -> Result<Vec<u32>, EmbedError>;

    /// The embeddings of several texts, one for each, in order.
    fn batch_embed(&mut self, texts: &[String]) -> Result<Vec<Vec<u32>>, EmbedError>;
}

/// Why an operation on the index failed.
#[derive(Debug, Clone)]
pub enum DbError {
    /// An embedding does not have the dimension of the index.
    DimensionMismatch { expected: usize, found: usize },
    /// No record has the given id.
    NotFound { id: i64 },
    /// The ids are used up.
    Full,
    /// The number of distances differs from the number of records.
    DistanceCount { expected: usize, found: usize },
    /// The number of embeddings differs from the number of units.
    EmbeddingCount { expected: usize, found: usize },
    /// The embedder failed.
    Embedding(EmbedError),
}

impl DbError {
    /// The message for the user, as a text.
    pub open spec fn message_text(self) -> Seq<char> {
        match self {
            DbError::DimensionMismatch { expected, found } => "embedding has "@ + decimal(found as nat)
                + " dimensions, the index has "@ + decimal(expected as nat),
            DbError::NotFound { id } => "no record has the id "@ + signed_decimal(id as int),
            DbError::Full => "the index is full"@,
            DbError::DistanceCount { expected, found } => decimal(found as nat) + " distances for "@
                + decimal(expected as nat) + " records"@,
            DbError::EmbeddingCount { expected, found } => decimal(found as nat)
                + " embeddings for "@ + decimal(expected as nat) + " units"@,
            DbError::Embedding(e) => "embedding failed: "@ + e.message@,
        }
    }

    /// The message for the user.
    pub fn message(&self) -> (m: String)
        ensures
            m@ == self.message_text(),
    {
        match self {
            DbError::DimensionMismatch { expected, found } => {
                let mut m = String::from_str("embedding has ");
                push_decimal(&mut m, *found as u64);
                m.append(" dimensions, the index has ");
                push_decimal(&mut m, *expected as u64);
                m
            },
            DbError::NotFound { id } => {
                let mut m = String::from_str("no record has the id ");
                push_signed_decimal(&mut m, *id);
                m
            },
            DbError::Full => String::from_str("the index is full"),
            DbError::DistanceCount { expected, found } => {
                let mut m = String::new();
                push_decimal(&mut m, *found as u64);
                m.append(" distances for ");
                push_decimal(&mut m, *expected as u64);
                m.append(" records");
                assert(m@ =~= self.message_text());
                m
            },
            DbError::EmbeddingCount { expected, found } => {
                let mut m = String::new();
                push_decimal(&mut m, *found as u64);
                m.append(" embeddings for ");
                push_decimal(&mut m, *expected as u64);
                m.append(" units");
                assert(m@ =~= self.message_text());
                m
            },
            DbError::Embedding(e) => {
                let mut m = String::from_str("embedding failed: ");
                m.append(e.message.as_str());
                m
            },
        }
    }
}

/// One record as queries return it.
#[derive(Debug, Clone)]
pub struct DBTimestamp {
    pub id: i64,
    /// Start time in ticks.
    pub start_time: i64,
    /// End time in ticks.
    pub end_time: i64,
    pub transcript: String,
}

/// Mathematical model of a [`DBTimestamp`].
pub struct DBTimestampView {
    pub id: int,
    pub start_time: int,
    pub end_time: int,
    pub transcript: Seq<char>,
}

impl View for DBTimestamp {
    type V = DBTimestampView;

    open spec fn view(&self) -> DBTimestampView {
        DBTimestampView {
            id: self.id as int,
            start_time: self.start_time as int,
            end_time: self.end_time as int,
            transcript: self.transcript@,
        }
    }
}

/// The models of a vector of query results, element by element.
pub open spec fn results_view(v: Seq<DBTimestamp>) -> Seq<DBTimestampView> {
    v.map_values(|r: DBTimestamp| r@)
}

/// One stored record: a unit, its id, and its embedding.
#[derive(Debug, Clone)]
pub struct EmbeddingRecord {
    pub id: i64,
    /// Start time in ticks.
    pub start_time: i64,
    /// End time in ticks.
    pub end_time: i64,
    pub transcript: String,
    /// The bit patterns of the components of the embedding.
    pub embedding: Vec<u32>,
}

/// Mathematical model of a stored record.
pub struct RecordView {
    pub id: int,
    pub start_time: int,
    pub end_time: int,
    pub transcript: Seq<char>,
    pub embedding: Seq<u32>,
}

impl View for EmbeddingRecord {
    type V = RecordView;

    open spec fn view(&self) -> RecordView {
        RecordView {
            id: self.id as int,
            start_time: self.start_time as int,
            end_time: self.end_time as int,
            transcript: self.transcript@,
            embedding: self.embedding@,
        }
    }
}

/// Mathematical model of the index: its dimension, its records in
/// chronological order, and the id that the next record gets.
pub struct VectorDBView {
    pub dimensions: nat,
    pub records: Seq<RecordView>,
    pub next_id: int,
}

/// The key by which records are ordered: their start time.
pub open spec fn record_start() -> spec_fn(RecordView) -> int {
    |r: RecordView| r.start_time
}

/// What a query returns of a record.
pub open spec fn result_of(r: RecordView) -> DBTimestampView {
    DBTimestampView {
        id: r.id,
        start_time: r.start_time,
        end_time: r.end_time,
        transcript: r.transcript,
    }
}

/// The largest id that a record can get.
pub open spec fn max_id() -> int {
    i64::MAX as int
}

/// What queries return of the records of `s`, in order.
pub open spec fn results_of(s: Seq<RecordView>) -> Seq<DBTimestampView> {
    s.map_values(|r: RecordView| result_of(r))
}

/// The unit that a record holds.
pub open spec fn unit_of(r: RecordView) -> TimestampView {
    TimestampView { start: r.start_time, end: r.end_time, text: r.transcript }
}

/// A record lies in a time range when it starts or ends within it, the ends
/// of the range included.
pub open spec fn overlaps(r: RecordView, start: int, end: int) -> bool {
    (start <= r.start_time <= end) || (start <= r.end_time <= end)
}

/// Each distance with the position at which it stands.
pub open spec fn indexed(distances: Seq<i64>) -> Seq<(int, int)> {
    Seq::new(distances.len(), |i: int| (distances[i] as int, i))
}

/// The key by which positions are ranked: the distance.
pub open spec fn by_distance() -> spec_fn((int, int)) -> int {
    |p: (int, int)| p.0
}

/// The `k` smallest distances with their positions, nearest first; equal
/// distances in the order of their positions. Fewer if there are fewer.
pub open spec fn ranking(distances: Seq<i64>, k: int) -> Seq<(int, int)> {
    first_n(sort_by(indexed(distances), by_distance()), k)
}

/// The texts of `s`, each on a line of its own.
pub open spec fn join_lines(s: Seq<DBTimestampView>) -> Seq<char>
    decreases s.len(),
{
    if s.len() == 0 {
        Seq::empty()
    } else if s.len() == 1 {
        s[0].transcript
    } else {
        join_lines(s.drop_last()) + seq!['\n'] + s.last().transcript
    }
}

/// The window that a run of records spans: from the start of the first to
/// the end of the last, labelled with their texts.
pub open spec fn window_of(s: Seq<DBTimestampView>) -> ClipView {
    ClipView { start: s.first().start_time, end: s.last().end_time, keyword: join_lines(s) }
}

impl VectorDBView {
    /// The records are in the order of their start times, those with the
    /// same start time in the order of their ids; the ids are the numbers
    /// from 1 up to the next id, each held by one record; every embedding
    /// has the dimension of the index.
    pub open spec fn well_formed(self) -> bool {
        &&& 1 <= self.next_id <= max_id()
        &&& self.records.len() == self.next_id - 1
        &&& is_sorted_by(self.records, record_start())
        &&& forall|i: int, j: int|
            0 <= i < j < self.records.len() && (#[trigger] self.records[i]).start_time == (
            #[trigger] self.records[j]).start_time ==> self.records[i].id < self.records[j].id
        &&& forall|i: int|
            0 <= i < self.records.len() ==> 1 <= (#[trigger] self.records[i]).id < self.next_id
        &&& forall|i: int, j: int|
            0 <= i < j < self.records.len() ==> (#[trigger] self.records[i]).id != (
            #[trigger] self.records[j]).id
        &&& forall|i: int|
            0 <= i < self.records.len() ==> (#[trigger] self.records[i]).embedding.len()
                == self.dimensions
    }

    /// The index of the record with the given id, if there is one.
    pub open spec fn position_of(self, id: int) -> Option<int> {
        if exists|i: int| 0 <= i < self.records.len() && (#[trigger] self.records[i]).id == id {
            Some(choose|i: int| 0 <= i < self.records.len() && (#[trigger] self.records[i]).id == id)
        } else {
            None
        }
    }

    /// The record that a unit and its embedding make, under the next id.
    pub open spec fn record_for(self, unit: TimestampView, embedding: Seq<u32>) -> RecordView {
        RecordView {
            id: self.next_id,
            start_time: unit.start,
            end_time: unit.end,
            transcript: unit.text,
            embedding,
        }
    }

    /// An embedding can be stored when it has the dimension of the index and
    /// an id is left.
    pub open spec fn accepts(self, embedding: Seq<u32>) -> bool {
        embedding.len() == self.dimensions && self.next_id < max_id()
    }

    /// The index after a unit has been stored with its embedding: the new
    /// record stands behind the records that start no later than it.
    pub open spec fn inserted(self, unit: TimestampView, embedding: Seq<u32>) -> VectorDBView {
        VectorDBView {
            dimensions: self.dimensions,
            records: insert_by(self.records, record_start(), self.record_for(unit, embedding)),
            next_id: self.next_id + 1,
        }
    }

    /// The number of records that start before the time `t`. They are the
    /// first records of the index.
    pub open spec fn earlier(self, t: int) -> int {
        insert_position(self.records, record_start(), t - 1)
    }

    /// The number of records that start at the time `t` or before it.
    pub open spec fn not_later(self, t: int) -> int {
        insert_position(self.records, record_start(), t)
    }

    /// The record at position `p` with its neighbours in time: up to `before`
    /// of the records that start earlier, those nearest to it; the record
    /// itself; up to `after` of the records that start later, those nearest
    /// to it. All in chronological order.
    pub open spec fn neighbors(self, p: int, before: int, after: int) -> Seq<DBTimestampView> {
        let t = self.records[p].start_time;
        let lo = self.earlier(t);
        let hi = self.not_later(t);
        let from = if lo - before < 0 {
            0
        } else {
            lo - before
        };
        let to = if hi + after > self.records.len() {
            self.records.len() as int
        } else {
            hi + after
        };
        results_of(self.records.subrange(from, lo)) + seq![result_of(self.records[p])] + results_of(
            self.records.subrange(hi, to),
        )
    }

    /// The `k` records nearest to a query, nearest first, where
    /// `distances[i]` is the distance of the record at position `i`.
    pub open spec fn nearest(self, distances: Seq<i64>, k: int) -> Seq<DBTimestampView> {
        ranking(distances, k).map_values(|p: (int, int)| result_of(self.records[p.1]))
    }

    /// The window round each of the `k` records nearest to a query.
    pub open spec fn windows(self, distances: Seq<i64>, k: int, before: int, after: int) -> Seq<
        ClipView,
    > {
        ranking(distances, k).map_values(
            |p: (int, int)| window_of(self.neighbors(p.1, before, after)),
        )
    }

    /// The units of the records that lie in the time range, in
    /// chronological order.
    pub open spec fn in_range(self, start: int, end: int) -> Seq<TimestampView> {
        self.records.filter(|r: RecordView| overlaps(r, start, end)).map_values(
            |r: RecordView| unit_of(r),
        )
    }

    /// The index after the units have been stored one by one, each with the
    /// embedding at its position, up to the first embedding that the index
    /// does not accept or to the end of the shorter of the two sequences.
    pub open spec fn batch_inserted(self, units: Seq<TimestampView>, embeddings: Seq<Seq<u32>>) -> VectorDBView
        decreases units.len(),
    {
        if units.len() == 0 || embeddings.len() == 0 || !self.accepts(embeddings[0]) {
            self
        } else {
            self.inserted(units[0], embeddings[0]).batch_inserted(
                units.drop_first(),
                embeddings.drop_first(),
            )
        }
    }

    /// Why an embedding is not stored, if it is not: it has another
    /// dimension than the index, or, where it has that dimension, the ids
    /// are used up.
    pub open spec fn refusal(self, embedding: Seq<u32>) -> Option<DbError> {
        if embedding.len() != self.dimensions {
            Some(
                DbError::DimensionMismatch {
                    expected: self.dimensions as usize,
                    found: embedding.len() as usize,
                },
            )
        } else if self.next_id >= max_id() {
            Some(DbError::Full)
        } else {
            None
        }
    }

    /// Why a batch stops, if it does: the refusal of the first embedding
    /// that is refused when its turn comes.
    pub open spec fn batch_fault(self, units: Seq<TimestampView>, embeddings: Seq<Seq<u32>>) -> Option<
        DbError,
    >
        decreases units.len(),
    {
        if units.len() == 0 || embeddings.len() == 0 {
            None
        } else if self.refusal(embeddings[0]) is Some {
            self.refusal(embeddings[0])
        } else {
            self.inserted(units[0], embeddings[0]).batch_fault(
                units.drop_first(),
                embeddings.drop_first(),
            )
        }
    }
}

/// The texts of units, in order.
pub open spec fn unit_texts(units: Seq<TimestampView>) -> Seq<Seq<char>> {
    units.map_values(|u: TimestampView| u.text)
}

/// A batch stops for no other reason than a dimension that does not fit or
/// ids that are used up.
pub proof fn lemma_batch_fault_kind(db: VectorDBView, units: Seq<TimestampView>, embeddings: Seq<Seq<u32>>)
    ensures
        db.batch_fault(units, embeddings) is Some ==> db.batch_fault(units, embeddings)->0 is DimensionMismatch
            || db.batch_fault(units, embeddings)->0 is Full,
    decreases units.len(),
{
    if units.len() > 0 && embeddings.len() > 0 && db.refusal(embeddings[0]) is None {
        lemma_batch_fault_kind(
            db.inserted(units[0], embeddings[0]),
            units.drop_first(),
            embeddings.drop_first(),
        );
    }
}

/// A batch that does not stop stores a record for each unit.
pub proof fn lemma_batch_stores_all(db: VectorDBView, units: Seq<TimestampView>, embeddings: Seq<Seq<u32>>)
    requires
        units.len() == embeddings.len(),
        db.batch_fault(units, embeddings) is None,
    ensures
        db.batch_inserted(units, embeddings).records.len() == db.records.len() + units.len(),
    decreases units.len(),
{
    if units.len() > 0 {
        let next = db.inserted(units[0], embeddings[0]);
        lemma_insert_position_bounds(db.records, record_start(), units[0].start);
        lemma_batch_stores_all(next, units.drop_first(), embeddings.drop_first());
    }
}

/// The models of a vector of embeddings, element by element.
pub open spec fn embeddings_view(v: Seq<Vec<u32>>) -> Seq<Seq<u32>> {
    v.map_values(|e: Vec<u32>| e@)
}

/// Storing a record keeps the index well formed.
pub proof fn lemma_inserted_well_formed(db: VectorDBView, unit: TimestampView, embedding: Seq<u32>)
    requires
        db.well_formed(),
        db.accepts(embedding),
    ensures
        db.inserted(unit, embedding).well_formed(),
        db.inserted(unit, embedding).records.len() == db.records.len() + 1,
{
    let x = db.record_for(unit, embedding);
    let old_records = db.records;
    let p = insert_position(old_records, record_start(), unit.start);
    let r = db.inserted(unit, embedding).records;
    lemma_insert_position_bounds(old_records, record_start(), unit.start);
    lemma_insert_sorted(old_records, record_start(), x);
    assert(r.len() == old_records.len() + 1);
    assert(r[p] == x);
    assert forall|i: int| 0 <= i < r.len() && i != p implies #[trigger] r[i] == old_records[if i < p {
        i
    } else {
        i - 1
    }] by {}
    assert forall|i: int, j: int|
        0 <= i < j < r.len() && (#[trigger] r[i]).start_time == (#[trigger] r[j]).start_time implies r[i].id
        < r[j].id by {
        if j == p {
        } else if i == p {
            assert(record_start()(old_records[j - 1]) > unit.start);
        } else {
            let a = if i < p {
                i
            } else {
                i - 1
            };
            let b = if j < p {
                j
            } else {
                j - 1
            };
            assert(old_records[a].id < old_records[b].id);
        }
    }
    assert forall|i: int, j: int| 0 <= i < j < r.len() implies (#[trigger] r[i]).id != (
    #[trigger] r[j]).id by {
        if i != p && j != p {
            let a = if i < p {
                i
            } else {
                i - 1
            };
            let b = if j < p {
                j
            } else {
                j - 1
            };
            assert(old_records[a].id != old_records[b].id);
        }
    }
}

/// The records that start before a time are the first records of a well
/// formed index, and those that start after it are the last.
pub proof fn lemma_earlier_later(db: VectorDBView, t: int)
    requires
        db.well_formed(),
    ensures
        0 <= db.earlier(t) <= db.not_later(t) <= db.records.len(),
        forall|i: int|
            0 <= i < db.records.len() ==> (i < db.earlier(t) <==> (#[trigger] db.records[i]).start_time < t),
        forall|i: int|
            0 <= i < db.records.len() ==> (i >= db.not_later(t) <==> (#[trigger] db.records[i]).start_time
                > t),
{
    lemma_insert_position_bounds(db.records, record_start(), t - 1);
    lemma_insert_position_bounds(db.records, record_start(), t);
    let lo = db.earlier(t);
    let hi = db.not_later(t);
    assert forall|i: int| 0 <= i < db.records.len() implies (i < lo <==> (#[trigger] db.records[i]).start_time
        < t) by {
        if i < lo {
            assert(record_start()(db.records[i]) <= t - 1);
        } else {
            assert(record_start()(db.records[i]) > t - 1);
        }
    }
    assert forall|i: int| 0 <= i < db.records.len() implies (i >= hi <==> (#[trigger] db.records[i]).start_time
        > t) by {
        if i < hi {
            assert(record_start()(db.records[i]) <= t);
        } else {
            assert(record_start()(db.records[i]) > t);
        }
    }
    if lo > hi {
        assert(record_start()(db.records[hi]) > t);
        assert(db.records[hi].start_time < t);
    }
}

/// What the neighbours of a record are: as many of the records that start
/// before it as were asked for, or all of them if there are fewer; the
/// record; and as many of the records that start after it as were asked
/// for, or all of them if there are fewer.
pub proof fn lemma_neighbors(db: VectorDBView, p: int, before: int, after: int)
    requires
        db.well_formed(),
        0 <= p < db.records.len(),
        0 <= before,
        0 <= after,
    ensures
        ({
            let t = db.records[p].start_time;
            let lo = db.earlier(t);
            let hi = db.not_later(t);
            let b = if before < lo {
                before
            } else {
                lo
            };
            let a = if after < db.records.len() - hi {
                after
            } else {
                db.records.len() - hi
            };
            let r = db.neighbors(p, before, after);
            &&& 0 <= lo <= p < hi <= db.records.len()
            &&& r.len() == b + 1 + a
            &&& r[b] == result_of(db.records[p])
            &&& forall|i: int| 0 <= i < b ==> #[trigger] r[i] == result_of(db.records[lo - b + i])
            &&& forall|i: int| 0 <= i < a ==> #[trigger] r[b + 1 + i] == result_of(db.records[hi + i])
            &&& forall|i: int| 0 <= i < b ==> (#[trigger] r[i]).start_time < t
            &&& forall|i: int| 0 <= i < a ==> (#[trigger] r[b + 1 + i]).start_time > t
            &&& forall|i: int, j: int|
                0 <= i <= j < r.len() ==> (#[trigger] r[i]).start_time <= (#[trigger] r[j]).start_time
        }),
{
    let t = db.records[p].start_time;
    lemma_earlier_later(db, t);
    let lo = db.earlier(t);
    let hi = db.not_later(t);
    let b = if before < lo {
        before
    } else {
        lo
    };
    let a = if after < db.records.len() - hi {
        after
    } else {
        db.records.len() - hi
    };
    let r = db.neighbors(p, before, after);
    assert(db.records[p].start_time == t);
    let first = results_of(db.records.subrange(lo - b, lo));
    let last = results_of(db.records.subrange(hi, hi + a));
    assert(r == first + seq![result_of(db.records[p])] + last);
    assert forall|i: int| 0 <= i < b implies #[trigger] r[i] == result_of(db.records[lo - b + i]) by {
        assert(r[i] == first[i]);
    }
    assert forall|i: int| 0 <= i < a implies #[trigger] r[b + 1 + i] == result_of(db.records[hi + i]) by {
        assert(r[b + 1 + i] == last[i]);
    }
    assert forall|i: int| 0 <= i < b implies (#[trigger] r[i]).start_time < t by {
        assert(r[i] == result_of(db.records[lo - b + i]));
        assert(db.records[lo - b + i].start_time < t);
    }
    assert forall|i: int| 0 <= i < a implies (#[trigger] r[b + 1 + i]).start_time > t by {
        assert(r[b + 1 + i] == result_of(db.records[hi + i]));
        assert(db.records[hi + i].start_time > t);
    }
    assert forall|i: int, j: int| 0 <= i <= j < r.len() implies (#[trigger] r[i]).start_time <= (
    #[trigger] r[j]).start_time by {
        let source = |x: int|
            if x < b {
                lo - b + x
            } else if x == b {
                p
            } else {
                hi + (x - b - 1)
            };
        assert(r[i] == result_of(db.records[source(i)])) by {
            if i < b {
                assert(r[i] == result_of(db.records[lo - b + i]));
            } else if i > b {
                assert(r[b + 1 + (i - b - 1)] == result_of(db.records[hi + (i - b - 1)]));
            }
        }
        assert(r[j] == result_of(db.records[source(j)])) by {
            if j < b {
                assert(r[j] == result_of(db.records[lo - b + j]));
            } else if j > b {
                assert(r[b + 1 + (j - b - 1)] == result_of(db.records[hi + (j - b - 1)]));
            }
        }
        assert(source(i) <= source(j));
        assert(record_start()(db.records[source(i)]) <= record_start()(db.records[source(j)]));
    }
}

/// Where no record starts before the record at `p`, the neighbours begin
/// with that record, however many were asked for before it.
pub proof fn lemma_neighbors_at_start(db: VectorDBView, p: int, before: int, after: int)
    requires
        db.well_formed(),
        0 <= p < db.records.len(),
        0 <= before,
        0 <= after,
        forall|i: int|
            0 <= i < db.records.len() ==> (#[trigger] db.records[i]).start_time >= db.records[p].start_time,
    ensures
        db.neighbors(p, before, after).len() >= 1,
        db.neighbors(p, before, after)[0] == result_of(db.records[p]),
{
    let t = db.records[p].start_time;
    lemma_earlier_later(db, t);
    lemma_neighbors(db, p, before, after);
    if db.earlier(t) > 0 {
        assert(db.records[0].start_time < t);
    }
}

/// Where no record starts after the record at `p`, the neighbours end with
/// that record, however many were asked for after it.
pub proof fn lemma_neighbors_at_end(db: VectorDBView, p: int, before: int, after: int)
    requires
        db.well_formed(),
        0 <= p < db.records.len(),
        0 <= before,
        0 <= after,
        forall|i: int|
            0 <= i < db.records.len() ==> (#[trigger] db.records[i]).start_time <= db.records[p].start_time,
    ensures
        db.neighbors(p, before, after).len() >= 1,
        db.neighbors(p, before, after).last() == result_of(db.records[p]),
{
    let t = db.records[p].start_time;
    lemma_earlier_later(db, t);
    lemma_neighbors(db, p, before, after);
    if db.not_later(t) < db.records.len() {
        assert(db.records[db.records.len() - 1].start_time > t);
    }
}

/// The ranking holds the `k` smallest distances in ascending order, or all
/// of them if there are fewer, each with the position at which it stands,
/// and no position twice.
pub proof fn lemma_ranking(distances: Seq<i64>, k: int)
    ensures
        ranking(distances, k).len() == if k <= 0 {
            0
        } else if k <= distances.len() {
            k
        } else {
            distances.len() as int
        },
        is_sorted_by(ranking(distances, k), by_distance()),
        forall|a: int|
            0 <= a < ranking(distances, k).len() ==> 0 <= (#[trigger] ranking(distances, k)[a]).1
                < distances.len() && ranking(distances, k)[a].0 == distances[ranking(distances, k)[a].1],
        forall|a: int, b: int|
            0 <= a < b < ranking(distances, k).len() ==> (#[trigger] ranking(distances, k)[a]).1 != (
            #[trigger] ranking(distances, k)[b]).1,
{
    let all = indexed(distances);
    let sorted = sort_by(all, by_distance());
    let ranked = ranking(distances, k);
    lemma_sort_sorted(all, by_distance());
    lemma_first_n_sorted(sorted, by_distance(), k);
    lemma_sort_same_elements(all, by_distance());
    lemma_sort_distinct(all, by_distance());
    assert forall|a: int| 0 <= a < ranked.len() implies 0 <= (#[trigger] ranked[a]).1 < distances.len()
        && ranked[a].0 == distances[ranked[a].1] by {
        assert(ranked[a] == sorted[a]);
        assert(all.contains(sorted[a]));
    }
    assert forall|a: int, b: int| 0 <= a < b < ranked.len() implies (#[trigger] ranked[a]).1 != (
    #[trigger] ranked[b]).1 by {
        assert(ranked[a] == sorted[a] && ranked[b] == sorted[b]);
        assert(all.contains(sorted[a]) && all.contains(sorted[b]));
        assert(sorted[a] != sorted[b]);
    }
}

/// What the ranking leaves out is no nearer than what it holds: a position
/// that is not ranked has a distance that is at least every ranked distance.
pub proof fn lemma_ranking_nearest(distances: Seq<i64>, k: int, j: int)
    requires
        0 <= j < distances.len(),
        forall|a: int| 0 <= a < ranking(distances, k).len() ==> (#[trigger] ranking(distances, k)[a]).1 != j,
    ensures
        forall|a: int|
            0 <= a < ranking(distances, k).len() ==> (#[trigger] ranking(distances, k)[a]).0 <= distances[j],
{
    let all = indexed(distances);
    let sorted = sort_by(all, by_distance());
    let ranked = ranking(distances, k);
    lemma_sort_sorted(all, by_distance());
    lemma_sort_same_elements(all, by_distance());
    assert(all[j] == (distances[j] as int, j));
    assert(sorted.contains(all[j]));
    let q = choose|q: int| 0 <= q < sorted.len() && sorted[q] == all[j];
    assert forall|a: int| 0 <= a < ranked.len() implies (#[trigger] ranked[a]).0 <= distances[j] by {
        assert(ranked[a] == sorted[a]);
        if q < ranked.len() {
            assert(ranked[q] == sorted[q]);
            assert(ranked[q].1 == j);
        } else {
            assert(by_distance()(sorted[a]) <= by_distance()(sorted[q]));
        }
    }
}

/// An in-memory index of embedded transcript units.
pub struct VectorDB {
    dimensions: usize,
    records: Vec<EmbeddingRecord>,
    next_id: i64,
}

impl View for VectorDB {
    type V = VectorDBView;

    closed spec fn view(&self) -> VectorDBView {
        VectorDBView {
            dimensions: self.dimensions as nat,
            records: self.records@.map_values(|r: EmbeddingRecord| r@),
            next_id: self.next_id as int,
        }
    }
}

impl VectorDB {
    #[verifier::type_invariant]
    spec fn valid(self) -> bool {
        self@.well_formed()
    }

    /// An empty index for embeddings of the given dimension. The first
    /// record gets the id 1.
    pub fn new_in_memory(dimensions: usize) -> (db: VectorDB)
        ensures
            db@ == (VectorDBView { dimensions: dimensions as nat, records: Seq::empty(), next_id: 1 }),
            db@.well_formed(),
    {
        let db = VectorDB { dimensions, records: Vec::new(), next_id: 1 };
        assert(db@.records == Seq::<RecordView>::empty());
        db
    }

    /// The dimension that every embedding of this index has.
    pub fn dimensions(&self) -> (d: usize)
        ensures
            d == self@.dimensions,
    {
        self.dimensions
    }

    /// The number of records.
    pub fn len(&self) -> (n: usize)
        ensures
            n == self@.records.len(),
            self@.well_formed(),
    {
        proof {
            use_type_invariant(self);
        }
        self.records.len()
    }

    /// The embedding of the record at `index`, counted in chronological
    /// order, or `None` if there is no such record.
    pub fn embedding_at(&self, index: usize) -> (e: Option<&Vec<u32>>)
        ensures
            index < self@.records.len() ==> e is Some && e->0@ == self@.records[index as int].embedding,
            index >= self@.records.len() ==> e is None,
    {
        if index < self.records.len() {
            Some(&self.records[index].embedding)
        } else {
            None
        }
    }

    /// Stores a unit with its embedding under the next id, and returns that
    /// id. An embedding of another dimension is refused, and nothing is
    /// stored once the ids are used up; the index is then unchanged.
    pub fn insert(&mut self, timestamp: &Timestamp, embedding: Vec<u32>) -> (r: Result<i64, DbError>)
        ensures
            final(self)@.well_formed(),
            old(self)@.accepts(embedding@) ==> r == Ok::<i64, DbError>(old(self)@.next_id as i64)
                && final(self)@ == old(self)@.inserted(timestamp@, embedding@),
            !old(self)@.accepts(embedding@) ==> r is Err && final(self)@ == old(self)@,
            embedding@.len() != old(self)@.dimensions ==> r == Err::<i64, DbError>(
                DbError::DimensionMismatch {
                    expected: old(self)@.dimensions as usize,
                    found: embedding@.len() as usize,
                },
            ),
            embedding@.len() == old(self)@.dimensions && old(self)@.next_id == max_id() ==> r == Err::<
                i64,
                DbError,
            >(DbError::Full),
            r is Err ==> old(self)@.refusal(embedding@) == Some(r->Err_0),
    {
        proof {
            use_type_invariant(&*self);
        }
        if embedding.len() != self.dimensions {
            return Err(
                DbError::DimensionMismatch { expected: self.dimensions, found: embedding.len() },
            );
        }
        if self.next_id == i64::MAX {
            return Err(DbError::Full);
        }
        let id = self.next_id;
        let ghost before = self@;
        let ghost rows = self@.records;
        let mut p: usize = self.records.len();
        while p > 0 && self.records[p - 1].start_time > timestamp.start
            invariant
                p <= self.records.len(),
                rows == self@.records,
                before == self@,
                forall|i: int| p <= i < rows.len() ==> record_start()(#[trigger] rows[i]) > timestamp.start,
            decreases p,
        {
            p -= 1;
        }
        let record = EmbeddingRecord {
            id,
            start_time: timestamp.start,
            end_time: timestamp.end,
            transcript: timestamp.text.clone(),
            embedding,
        };
        proof {
            lemma_insert_position(rows, record_start(), timestamp.start as int, p as int);
            lemma_inserted_well_formed(before, timestamp@, embedding@);
            assert(record@ == before.record_for(timestamp@, embedding@));
        }
        let mut taken = VectorDB { dimensions: self.dimensions, records: Vec::new(), next_id: 1 };
        core::mem::swap(&mut taken, self);
        let VectorDB { dimensions, mut records, next_id } = taken;
        records.insert(p, record);
        assert(records@.map_values(|r: EmbeddingRecord| r@) == insert_by(
            rows,
            record_start(),
            before.record_for(timestamp@, embedding@),
        ));
        *self = VectorDB { dimensions, records, next_id: next_id + 1 };
        Ok(id)
    }

    /// Embeds the text of a unit and stores the unit with that embedding.
    /// Whatever the embedder returns, the index stays well formed: it takes
    /// the unit in if the embedding has its dimension, and is unchanged
    /// otherwise.
    pub fn add_clip<E: Embedder>(&mut self, embedder: &mut E, timestamp: &Timestamp) -> (r: Result<
        (),
        DbError,
    >)
        ensures
            final(self)@.well_formed(),
            r is Ok ==> exists|e: Seq<u32>|
                old(self)@.accepts(e) && final(self)@ == #[trigger] old(self)@.inserted(timestamp@, e),
            r is Err ==> final(self)@ == old(self)@,
            r is Err ==> r->Err_0 is Embedding || (r->Err_0 is Full && old(self)@.next_id == max_id())
                || (r->Err_0 is DimensionMismatch && r->Err_0->DimensionMismatch_expected == old(
                self,
            )@.dimensions && r->Err_0->DimensionMismatch_found != old(self)@.dimensions),
    {
        proof {
            use_type_invariant(&*self);
        }
        match embedder.embed(timestamp.text.as_str()) {
            Ok(embedding) => {
                let ghost e = embedding@;
                assert(embedding.len() == e.len());
                match self.insert(timestamp, embedding) {
                    Ok(_) => {
                        assert(final(self)@ == old(self)@.inserted(timestamp@, e));
                        Ok(())
                    },
                    Err(error) => Err(error),
                }
            },
            Err(error) => Err(DbError::Embedding(error)),
        }
    }

    /// Takes the embedding of a query as it is if it has the dimension of
    /// the index, and refuses it if it has another.
    pub fn accept_query(&self, embedding: Vec<u32>) -> (r: Result<Vec<u32>, DbError>)
        ensures
            embedding@.len() == self@.dimensions ==> r == Ok::<Vec<u32>, DbError>(embedding),
            embedding@.len() != self@.dimensions ==> r == Err::<Vec<u32>, DbError>(
                DbError::DimensionMismatch {
                    expected: self@.dimensions as usize,
                    found: embedding@.len() as usize,
                },
            ),
    {
        if embedding.len() == self.dimensions {
            Ok(embedding)
        } else {
            Err(DbError::DimensionMismatch { expected: self.dimensions, found: embedding.len() })
        }
    }

    /// Embeds the text of a query: the embedder is handed the text as it
    /// came, and what it returns goes through [`VectorDB::accept_query`].
    /// Whatever the embedder returns, an embedding comes back only if it
    /// has the dimension of the index.
    pub fn embed_query<E: Embedder>(&self, embedder: &mut E, query: &str) -> (r: Result<Vec<u32>, DbError>)
        ensures
            r is Ok ==> r->Ok_0@.len() == self@.dimensions,
            r is Err ==> r->Err_0 is Embedding || (r->Err_0 is DimensionMismatch
                && r->Err_0->DimensionMismatch_expected == self@.dimensions
                && r->Err_0->DimensionMismatch_found != self@.dimensions),
    {
        match embedder.embed(query) {
            Ok(embedding) => {
                assert(embedding.len() == embedding@.len());
                self.accept_query(embedding)
            },
            Err(error) => Err(DbError::Embedding(error)),
        }
    }

    /// Stores the units one by one, each with the embedding at its position.
    /// Where the number of embeddings is not the number of units, nothing
    /// is stored. Else it stops at the first embedding that the index
    /// refuses, with the error of that refusal, and the units before it
    /// stay stored; where none is refused, every unit is stored.
    pub fn insert_batch(&mut self, timestamps: &Vec<Timestamp>, embeddings: Vec<Vec<u32>>) -> (r: Result<
        (),
        DbError,
    >)
        ensures
            final(self)@.well_formed(),
            embeddings@.len() != timestamps@.len() ==> final(self)@ == old(self)@ && r == Err::<
                (),
                DbError,
            >(DbError::EmbeddingCount { expected: timestamps.len(), found: embeddings.len() }),
            embeddings@.len() == timestamps@.len() ==> final(self)@ == old(self)@.batch_inserted(
                units_view(timestamps@),
                embeddings_view(embeddings@),
            ) && r == (match old(self)@.batch_fault(
                units_view(timestamps@),
                embeddings_view(embeddings@),
            ) {
                Some(error) => Err::<(), DbError>(error),
                None => Ok::<(), DbError>(()),
            }),
            r is Ok ==> final(self)@.records.len() == old(self)@.records.len() + timestamps@.len(),
    {
        proof {
            use_type_invariant(&*self);
        }
        let ghost units = units_view(timestamps@);
        let ghost embs = embeddings_view(embeddings@);
        let ghost start = self@;
        let n = timestamps.len();
        if embeddings.len() != n {
            return Err(DbError::EmbeddingCount { expected: n, found: embeddings.len() });
        }
        assert(units.skip(0) == units && embs.skip(0) == embs);
        let mut i: usize = 0;
        for embedding in it: embeddings
            invariant
                i == it.index(),
                start == old(self)@,
                it.seq() == embeddings@,
                it.seq().len() == n,
                n == timestamps.len(),
                units == units_view(timestamps@),
                embs == embeddings_view(it.seq()),
                self@.well_formed(),
                start.batch_inserted(units, embs) == self@.batch_inserted(
                    units.skip(it.index() as int),
                    embs.skip(it.index() as int),
                ),
                start.batch_fault(units, embs) == self@.batch_fault(
                    units.skip(it.index() as int),
                    embs.skip(it.index() as int),
                ),
        {
            let ghost rest_units = units.skip(i as int);
            let ghost rest_embs = embs.skip(i as int);
            proof {
                assert(rest_units[0] == timestamps@[i as int]@);
                assert(rest_embs[0] == embedding@);
                assert(rest_units.drop_first() == units.skip(i + 1));
                assert(rest_embs.drop_first() == embs.skip(i + 1));
            }
            match self.insert(&timestamps[i], embedding) {
                Ok(_) => {},
                Err(error) => {
                    return Err(error);
                },
            }
            i += 1;
        }
        proof {
            lemma_batch_stores_all(start, units, embs);
        }
        Ok(())
    }

    /// The texts of the units, in order: what is handed to the embedder for
    /// a batch.
    pub fn texts_of(timestamps: &Vec<Timestamp>) -> (texts: Vec<String>)
        ensures
            texts_view(texts@) == unit_texts(units_view(timestamps@)),
    {
        let mut texts: Vec<String> = Vec::new();
        let mut i: usize = 0;
        while i < timestamps.len()
            invariant
                i <= timestamps.len(),
                texts.len() == i,
                forall|j: int| 0 <= j < i ==> (#[trigger] texts@[j])@ == timestamps@[j].text@,
            decreases timestamps.len() - i,
        {
            texts.push(timestamps[i].text.clone());
            i += 1;
        }
        assert(texts_view(texts@) =~= unit_texts(units_view(timestamps@)));
        texts
    }

    /// Embeds the texts of the units in one call and stores the units with
    /// the embeddings that come back, as [`VectorDB::insert_batch`] does.
    /// The embedder is handed the texts that [`VectorDB::texts_of`] gives.
    /// Whatever it returns, the batch succeeds only if every unit is
    /// stored, and nothing is stored unless there is one embedding for each
    /// unit.
    pub fn batch_add_clips<E: Embedder>(&mut self, embedder: &mut E, timestamps: Vec<Timestamp>) -> (r:
        Result<(), DbError>)
        ensures
            final(self)@.well_formed(),
            r is Ok ==> final(self)@.records.len() == old(self)@.records.len() + timestamps@.len(),
            r is Err && (r->Err_0 is Embedding || r->Err_0 is EmbeddingCount) ==> final(self)@ == old(
                self,
            )@,
            r is Err && r->Err_0 is EmbeddingCount ==> r->Err_0->EmbeddingCount_expected
                == timestamps@.len() && r->Err_0->EmbeddingCount_found != timestamps@.len(),
            !(r is Err && (r->Err_0 is Embedding || r->Err_0 is EmbeddingCount)) ==> exists|
                e: Seq<Seq<u32>>,
            |
                #![trigger old(self)@.batch_inserted(units_view(timestamps@), e)]
                e.len() == timestamps@.len() && final(self)@ == old(self)@.batch_inserted(
                    units_view(timestamps@),
                    e,
                ) && r == (match old(self)@.batch_fault(units_view(timestamps@), e) {
                    Some(error) => Err::<(), DbError>(error),
                    None => Ok::<(), DbError>(()),
                }),
    {
        proof {
            use_type_invariant(&*self);
        }
        let texts = VectorDB::texts_of(&timestamps);
        match embedder.batch_embed(texts.as_slice()) {
            Ok(embeddings) => {
                let ghost e = embeddings_view(embeddings@);
                assert(embeddings.len() == e.len());
                let r = self.insert_batch(&timestamps, embeddings);
                proof {
                    if e.len() == timestamps@.len() {
                        lemma_batch_fault_kind(old(self)@, units_view(timestamps@), e);
                        assert(final(self)@ == old(self)@.batch_inserted(units_view(timestamps@), e));
                    }
                }
                r
            },
            Err(error) => Err(DbError::Embedding(error)),
        }
    }

    fn result_at(&self, i: usize) -> (r: DBTimestamp)
        requires
            i < self@.records.len(),
        ensures
            r@ == result_of(self@.records[i as int]),
    {
        let record = &self.records[i];
        DBTimestamp {
            id: record.id,
            start_time: record.start_time,
            end_time: record.end_time,
            transcript: record.transcript.clone(),
        }
    }

    fn push_results(&self, out: &mut Vec<DBTimestamp>, from: usize, to: usize)
        requires
            from <= to <= self@.records.len(),
        ensures
            results_view(final(out)@) == results_view(old(out)@) + results_of(
                self@.records.subrange(from as int, to as int),
            ),
    {
        let mut i: usize = from;
        assert(self@.records.subrange(from as int, from as int) == Seq::<RecordView>::empty());
        while i < to
            invariant
                from <= i <= to <= self@.records.len(),
                results_view(out@) == results_view(old(out)@) + results_of(
                    self@.records.subrange(from as int, i as int),
                ),
            decreases to - i,
        {
            let ghost shown = results_view(out@);
            let ghost part = self@.records.subrange(from as int, i as int);
            let r = self.result_at(i);
            out.push(r);
            assert(results_view(out@) == shown.push(result_of(self@.records[i as int])));
            assert(self@.records.subrange(from as int, i + 1) == part.push(self@.records[i as int]));
            assert(results_of(part.push(self@.records[i as int])) == results_of(part).push(
                result_of(self@.records[i as int]),
            ));
            i += 1;
        }
    }

    fn neighbors_at(&self, p: usize, before: usize, after: usize) -> (out: Vec<DBTimestamp>)
        requires
            p < self@.records.len(),
        ensures
            results_view(out@) == self@.neighbors(p as int, before as int, after as int),
            out.len() > 0,
    {
        proof {
            use_type_invariant(self);
        }
        let ghost rows = self@.records;
        let n = self.records.len();
        let t = self.records[p].start_time;
        let mut lo: usize = p;
        while lo > 0 && self.records[lo - 1].start_time >= t
            invariant
                lo <= p < n,
                n == self.records.len(),
                rows == self@.records,
                forall|i: int| lo <= i <= p ==> record_start()(#[trigger] rows[i]) >= t,
            decreases lo,
        {
            lo -= 1;
        }
        let mut hi: usize = p + 1;
        while hi < n && self.records[hi].start_time <= t
            invariant
                p < hi <= n,
                n == self.records.len(),
                rows == self@.records,
                forall|i: int| p <= i < hi ==> record_start()(#[trigger] rows[i]) <= t,
            decreases n - hi,
        {
            hi += 1;
        }
        proof {
            assert forall|i: int| lo <= i < rows.len() implies record_start()(#[trigger] rows[i]) > t - 1 by {
                if i > p {
                    assert(record_start()(rows[p as int]) <= record_start()(rows[i]));
                }
            }
            lemma_insert_position(rows, record_start(), t - 1, lo as int);
            assert forall|i: int| hi <= i < rows.len() implies record_start()(#[trigger] rows[i]) > t by {
                assert(record_start()(rows[hi as int]) <= record_start()(rows[i]));
            }
            lemma_insert_position(rows, record_start(), t as int, hi as int);
        }
        let from = if lo >= before {
            lo - before
        } else {
            0
        };
        let to = if n - hi >= after {
            hi + after
        } else {
            n
        };
        let mut out: Vec<DBTimestamp> = Vec::new();
        assert(results_view(out@) == Seq::<DBTimestampView>::empty());
        self.push_results(&mut out, from, lo);
        let target = self.result_at(p);
        out.push(target);
        let ghost middle = results_view(out@);
        assert(middle == results_of(rows.subrange(from as int, lo as int)) + seq![
            result_of(rows[p as int]),
        ]);
        self.push_results(&mut out, hi, to);
        assert(results_view(out@).len() == out.len());
        out
    }

    /// The record with the given id and its neighbours in time: up to
    /// `num_neighbors_before` of the records that start earlier, the record
    /// itself, and up to `num_neighbors_after` of the records that start
    /// later, in chronological order. Where fewer records lie on a side than
    /// were asked for, all of those are returned. It fails only if no record
    /// has the id.
    pub fn get_neighboring_clips(
        &self,
        clip_id: i64,
        num_neighbors_before: usize,
        num_neighbors_after: usize,
    ) -> (r: Result<Vec<DBTimestamp>, DbError>)
        ensures
            self@.well_formed(),
            match self@.position_of(clip_id as int) {
                Some(p) => r is Ok && results_view(r->Ok_0@) == self@.neighbors(
                    p,
                    num_neighbors_before as int,
                    num_neighbors_after as int,
                ),
                None => r is Err && r->Err_0 == (DbError::NotFound { id: clip_id }),
            },
    {
        proof {
            use_type_invariant(self);
        }
        let n = self.records.len();
        let mut p: usize = 0;
        while p < n && self.records[p].id != clip_id
            invariant
                p <= n,
                n == self.records.len(),
                forall|i: int| 0 <= i < p ==> (#[trigger] self@.records[i]).id != clip_id,
            decreases n - p,
        {
            p += 1;
        }
        if p == n {
            return Err(DbError::NotFound { id: clip_id });
        }
        assert(self@.records[p as int].id == clip_id);
        assert(self@.position_of(clip_id as int) == Some(p as int));
        Ok(self.neighbors_at(p, num_neighbors_before, num_neighbors_after))
    }

    /// The units of the records that start or end within the time range,
    /// the ends of the range included, in chronological order.
    pub fn get_clips_in_range(&self, start_time: i64, end_time: i64) -> (units: Vec<Timestamp>)
        ensures
            crate::units::units_view(units@) == self@.in_range(start_time as int, end_time as int),
    {
        let ghost rows = self@.records;
        let ghost pred = |r: RecordView| overlaps(r, start_time as int, end_time as int);
        let n = self.records.len();
        let mut units: Vec<Timestamp> = Vec::new();
        let mut i: usize = 0;
        proof {
            reveal(Seq::filter);
            assert(rows.take(0).filter(pred) == Seq::<RecordView>::empty());
            assert(crate::units::units_view(units@) == Seq::<TimestampView>::empty());
        }
        while i < n
            invariant
                i <= n,
                n == self.records.len(),
                rows == self@.records,
                pred == |r: RecordView| overlaps(r, start_time as int, end_time as int),
                crate::units::units_view(units@) == rows.take(i as int).filter(pred).map_values(
                    |r: RecordView| unit_of(r),
                ),
            decreases n - i,
        {
            let record = &self.records[i];
            let ghost shown = crate::units::units_view(units@);
            proof {
                reveal(Seq::filter);
                assert(rows.take(i + 1).drop_last() == rows.take(i as int));
                assert(rows.take(i + 1).last() == record@);
            }
            if (start_time <= record.start_time && record.start_time <= end_time) || (start_time
                <= record.end_time && record.end_time <= end_time) {
                units.push(
                    Timestamp {
                        start: record.start_time,
                        end: record.end_time,
                        text: record.transcript.clone(),
                    },
                );
                assert(crate::units::units_view(units@) == shown.push(unit_of(record@)));
            }
            i += 1;
        }
        assert(rows.take(n as int) == rows);
        units
    }

    /// The `max_results` records nearest to a query, nearest first; all
    /// records if there are fewer, none if the index is empty.
    /// `distances[i]` is the distance from the query to the record at
    /// position `i`: there must be one for each record.
    pub fn search(&self, distances: &Vec<i64>, max_results: usize) -> (r: Result<Vec<DBTimestamp>, DbError>)
        ensures
            distances.len() == self@.records.len() ==> r is Ok && results_view(r->Ok_0@) == self@.nearest(
                distances@,
                max_results as int,
            ) && r->Ok_0.len() == if max_results <= distances.len() {
                max_results
            } else {
                distances.len()
            },
            distances.len() != self@.records.len() ==> r is Err && r->Err_0 == (DbError::DistanceCount {
                expected: self@.records.len() as usize,
                found: distances.len(),
            }),
    {
        if distances.len() != self.records.len() {
            return Err(
                DbError::DistanceCount { expected: self.records.len(), found: distances.len() },
            );
        }
        let best = nearest_positions(distances, max_results);
        let ghost ranked = ranking(distances@, max_results as int);
        let mut out: Vec<DBTimestamp> = Vec::new();
        let mut a: usize = 0;
        while a < best.len()
            invariant
                a <= best.len(),
                distances.len() == self@.records.len(),
                pairs_view(best@) == ranked,
                forall|b: int| 0 <= b < best.len() ==> (#[trigger] best[b]).1 < distances.len(),
                out.len() == a,
                forall|b: int| 0 <= b < a ==> (#[trigger] out[b])@ == result_of(self@.records[ranked[b].1]),
            decreases best.len() - a,
        {
            assert(ranked[a as int] == (best[a as int].0 as int, best[a as int].1 as int));
            let r = self.result_at(best[a].1);
            out.push(r);
            a += 1;
        }
        assert(results_view(out@) == self@.nearest(distances@, max_results as int));
        proof {
            lemma_sort_sorted(indexed(distances@), by_distance());
        }
        Ok(out)
    }

    /// The window round each of the `max_results` records nearest to a
    /// query, nearest first: the record with up to `before` neighbours that
    /// start earlier and up to `after` that start later, as one clip from
    /// the start of the first to the end of the last, labelled with their
    /// texts, one to a line.
    pub fn find_windows(
        &self,
        distances: &Vec<i64>,
        max_results: usize,
        before: usize,
        after: usize,
    ) -> (r: Result<Vec<Clip>, DbError>)
        ensures
            distances.len() == self@.records.len() ==> r is Ok && crate::units::clips_view(r->Ok_0@)
                == self@.windows(distances@, max_results as int, before as int, after as int),
            distances.len() != self@.records.len() ==> r is Err && r->Err_0 == (DbError::DistanceCount {
                expected: self@.records.len() as usize,
                found: distances.len(),
            }),
    {
        if distances.len() != self.records.len() {
            return Err(
                DbError::DistanceCount { expected: self.records.len(), found: distances.len() },
            );
        }
        let best = nearest_positions(distances, max_results);
        let ghost ranked = ranking(distances@, max_results as int);
        let mut out: Vec<Clip> = Vec::new();
        let mut a: usize = 0;
        while a < best.len()
            invariant
                a <= best.len(),
                distances.len() == self@.records.len(),
                pairs_view(best@) == ranked,
                forall|b: int| 0 <= b < best.len() ==> (#[trigger] best[b]).1 < distances.len(),
                out.len() == a,
                forall|b: int|
                    0 <= b < a ==> (#[trigger] out[b])@ == window_of(
                        self@.neighbors(ranked[b].1, before as int, after as int),
                    ),
            decreases best.len() - a,
        {
            assert(ranked[a as int] == (best[a as int].0 as int, best[a as int].1 as int));
            let around = self.neighbors_at(best[a].1, before, after);
            let clip = window_clip(&around).unwrap();
            out.push(clip);
            a += 1;
        }
        assert(crate::units::clips_view(out@) == self@.windows(
            distances@,
            max_results as int,
            before as int,
            after as int,
        ));
        Ok(out)
    }
}

spec fn pairs_view(v: Seq<(i64, usize)>) -> Seq<(int, int)> {
    v.map_values(|p: (i64, usize)| (p.0 as int, p.1 as int))
}

fn nearest_positions(distances: &Vec<i64>, k: usize) -> (best: Vec<(i64, usize)>)
    ensures
        pairs_view(best@) == ranking(distances@, k as int),
        forall|a: int| 0 <= a < best.len() ==> (#[trigger] best[a]).1 < distances.len(),
{
    let n = distances.len();
    let ghost all = indexed(distances@);
    let mut best: Vec<(i64, usize)> = Vec::new();
    let mut i: usize = 0;
    assert(pairs_view(best@) == Seq::<(int, int)>::empty());
    assert(all.take(0) == Seq::<(int, int)>::empty());
    while i < n
        invariant
            n == distances.len(),
            i <= n,
            all == indexed(distances@),
            best.len() <= k,
            pairs_view(best@) == first_n(sort_by(all.take(i as int), by_distance()), k as int),
            forall|a: int| 0 <= a < best.len() ==> (#[trigger] best[a]).1 < i,
        decreases n - i,
    {
        let d = distances[i];
        let ghost sorted = sort_by(all.take(i as int), by_distance());
        let ghost shown = pairs_view(best@);
        let ghost x = (d as int, i as int);
        let mut p: usize = best.len();
        while p > 0 && best[p - 1].0 > d
            invariant
                p <= best.len(),
                shown == pairs_view(best@),
                forall|a: int| p <= a < shown.len() ==> by_distance()(#[trigger] shown[a]) > d,
            decreases p,
        {
            p -= 1;
        }
        proof {
            lemma_insert_position(shown, by_distance(), d as int, p as int);
            lemma_sort_sorted(all.take(i as int), by_distance());
            lemma_insert_first_n(sorted, by_distance(), x, k as int);
            let next = all.take(i + 1);
            assert(next.drop_last() == all.take(i as int));
            assert(next.last() == x);
            assert(sort_by(next, by_distance()) == insert_by(sorted, by_distance(), x));
        }
        if p < k {
            best.insert(p, (d, i));
            assert(pairs_view(best@) == insert_by(shown, by_distance(), x));
            if best.len() > k {
                best.pop();
                assert(pairs_view(best@) == insert_by(shown, by_distance(), x).take(k as int));
            }
        } else {
            assert(insert_by(shown, by_distance(), x).take(k as int) == shown);
        }
        i += 1;
    }
    assert(all.take(n as int) == all);
    best
}

/// The window that a run of records spans, from the start of the first to
/// the end of the last, labelled with their texts, one to a line. `None` for
/// an empty run.
pub fn window_clip(records: &Vec<DBTimestamp>) -> (c: Option<Clip>)
    ensures
        records.len() == 0 ==> c is None,
        records.len() > 0 ==> c is Some && c->0@ == window_of(results_view(records@)),
{
    let n = records.len();
    if n == 0 {
        return None;
    }
    let ghost all = results_view(records@);
    let mut label = records[0].transcript.clone();
    let mut i: usize = 1;
    assert(all.take(1).len() == 1);
    assert(join_lines(all.take(1)) == all.take(1)[0].transcript);
    while i < n
        invariant
            1 <= i <= n,
            n == records.len(),
            all == results_view(records@),
            label@ == join_lines(all.take(i as int)),
        decreases n - i,
    {
        proof {
            reveal_strlit("\n");
            assert("\n"@ == seq!['\n']);
            assert(all.take(i + 1).drop_last() == all.take(i as int));
            assert(all.take(i + 1).last() == records@[i as int]@);
        }
        label.append("\n");
        label.append(records[i].transcript.as_str());
        i += 1;
    }
    assert(all.take(n as int) == all);
    Some(Clip { start: records[0].start_time, end: records[n - 1].end_time, keyword: label })
}

} // verus!
