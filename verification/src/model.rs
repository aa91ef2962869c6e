//! Data model: locations, path entries, content records, and the
//! table pair the identification job runs over.

use vstd::prelude::*;

verus! {

/// A scanned root, identified by id and root path.
pub struct Location {
    pub id: u64,
    /// Root path of the location, as raw path bytes.
    pub path: Vec<u8>,
}

/// A discovered filesystem node.
///
/// `content_link` is unset exactly when the entry is an orphan.
/// `cas_id` carries the outcome of the pluggable, deterministic
/// content-fingerprint function on this entry's bytes: `Some` is the
/// content identity, `None` records that the bytes could not be read
/// (a per-entry soft failure, absorbed into the `ignored` tally).
pub struct PathEntry {
    /// Monotonically increasing id, assigned externally, immutable.
    pub id: u64,
    /// Owning location id.
    pub location_id: u64,
    /// Hierarchy-encoding path bytes enabling prefix (subtree) queries.
    pub materialized_path: Vec<u8>,
    pub is_dir: bool,
    /// Id of the linked content record; unset iff the entry is orphan.
    pub content_link: Option<u64>,
    /// Content identity of the entry's bytes, or `None` if unreadable.
    pub cas_id: Option<u64>,
}

/// Mathematical image of a `PathEntry`.
pub ghost struct PathEntryModel {
    pub id: u64,
    pub location_id: u64,
    pub materialized_path: Seq<u8>,
    pub is_dir: bool,
    pub content_link: Option<u64>,
    pub cas_id: Option<u64>,
}

impl View for PathEntry {
    type V = PathEntryModel;

    open spec fn view(&self) -> PathEntryModel {
        PathEntryModel {
            id: self.id,
            location_id: self.location_id,
            materialized_path: self.materialized_path@,
            is_dir: self.is_dir,
            content_link: self.content_link,
            cas_id: self.cas_id,
        }
    }
}

impl Clone for PathEntry {
    fn clone(&self) -> (r: Self)
        ensures
            r@ == self@,
    {
        PathEntry {
            id: self.id,
            location_id: self.location_id,
            materialized_path: self.materialized_path.clone(),
            is_dir: self.is_dir,
            content_link: self.content_link,
            cas_id: self.cas_id,
        }
    }
}

/// A dedup unit for unique content, keyed by a content-derived
/// identifier; referenced by zero or more path entries.
#[derive(Clone, Copy, PartialEq, Eq, Structural)]
pub struct ContentRecord {
    /// Row id of the record; equals its index in the record table.
    pub id: u64,
    /// The content-derived identifier the record is keyed by.
    pub cas_id: u64,
}

/// The two tables the job reads and mutates: path entries, kept in
/// ascending id order, and content records, keyed by content identity.
pub struct Tables {
    pub file_paths: Vec<PathEntry>,
    pub content_records: Vec<ContentRecord>,
}

impl Tables {
    /// The path entry table as a sequence of entry models.
    pub open spec fn rows(self) -> Seq<PathEntryModel> {
        self.file_paths@.map_values(|e: PathEntry| e@)
    }

    /// The content record table as a sequence.
    pub open spec fn records(self) -> Seq<ContentRecord> {
        self.content_records@
    }

    /// Well-formedness: entry ids strictly ascending (hence unique)
    /// and below `u64::MAX` so a cursor one past any id exists; record
    /// ids equal their index; content identifiers pairwise distinct;
    /// content links point into the record table.
    pub open spec fn wf(self) -> bool {
        &&& forall|i: int, j: int|
            0 <= i < j < self.rows().len() ==> self.rows()[i].id < self.rows()[j].id
        &&& forall|i: int| 0 <= i < self.rows().len() ==> (#[trigger] self.rows()[i].id) < u64::MAX
        &&& forall|i: int|
            0 <= i < self.records().len() ==> (#[trigger] self.records()[i].id) == i as u64
        &&& forall|i: int, j: int|
            0 <= i < j < self.records().len()
                ==> self.records()[i].cas_id != self.records()[j].cas_id
        &&& forall|i: int|
            0 <= i < self.rows().len() && (#[trigger] self.rows()[i].content_link) is Some
                ==> self.rows()[i].content_link->0 < self.records().len()
    }
}

/// Whether some record in `records` is keyed by `cas`.
pub open spec fn has_record(records: Seq<ContentRecord>, cas: u64) -> bool {
    exists|i: int| 0 <= i < records.len() && (#[trigger] records[i].cas_id) == cas
}

/// Index of the record keyed by `cas`; meaningful when such a record
/// exists and content identifiers are pairwise distinct.
pub open spec fn record_index_for(records: Seq<ContentRecord>, cas: u64) -> int {
    choose|i: int| 0 <= i < records.len() && (#[trigger] records[i].cas_id) == cas
}

/// Id of the record keyed by `cas`; meaningful under the same
/// conditions as `record_index_for`.
pub open spec fn record_id_for(records: Seq<ContentRecord>, cas: u64) -> u64 {
    records[record_index_for(records, cas)].id
}

/// The models of a sequence of path entries.
pub open spec fn views(s: Seq<PathEntry>) -> Seq<PathEntryModel> {
    s.map_values(|e: PathEntry| e@)
}

/// The two entries agree on every field except possibly the content
/// link.
pub open spec fn same_but_link(a: PathEntryModel, b: PathEntryModel) -> bool {
    &&& b.id == a.id
    &&& b.location_id == a.location_id
    &&& b.materialized_path == a.materialized_path
    &&& b.is_dir == a.is_dir
    &&& b.cas_id == a.cas_id
}

/// With pairwise distinct content identifiers, the record index for a
/// present identifier is the unique index carrying it.
pub proof fn lemma_record_index_unique(records: Seq<ContentRecord>, cas: u64)
    requires
        forall|i: int, j: int|
            0 <= i < j < records.len() ==> records[i].cas_id != records[j].cas_id,
        has_record(records, cas),
    ensures
        0 <= record_index_for(records, cas) < records.len(),
        records[record_index_for(records, cas)].cas_id == cas,
        forall|j: int|
            0 <= j < records.len() && (#[trigger] records[j].cas_id) == cas ==> j
                == record_index_for(records, cas),
{
    let i = record_index_for(records, cas);
    assert(0 <= i < records.len() && records[i].cas_id == cas) by {
        assert(exists|k: int| 0 <= k < records.len() && (#[trigger] records[k].cas_id) == cas);
    }
}

/// Extending the record table leaves the index and id of an already
/// present identifier unchanged.
pub proof fn lemma_record_id_extend(
    records1: Seq<ContentRecord>,
    records2: Seq<ContentRecord>,
    cas: u64,
)
    requires
        records1.len() <= records2.len(),
        forall|i: int| 0 <= i < records1.len() ==> records2[i] == records1[i],
        forall|i: int, j: int|
            0 <= i < j < records2.len() ==> records2[i].cas_id != records2[j].cas_id,
        has_record(records1, cas),
    ensures
        has_record(records2, cas),
        record_index_for(records2, cas) == record_index_for(records1, cas),
        record_id_for(records2, cas) == record_id_for(records1, cas),
{
    assert(forall|i: int, j: int|
        0 <= i < j < records1.len() ==> records1[i].cas_id != records1[j].cas_id);
    lemma_record_index_unique(records1, cas);
    let i1 = record_index_for(records1, cas);
    assert(records2[i1].cas_id == cas);
    assert(has_record(records2, cas));
    lemma_record_index_unique(records2, cas);
}

} // verus!
