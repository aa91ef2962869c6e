//! Identification engine: for one batch of orphan entries, resolve
//! each content identity against the record table, link or create,
//! and tally the outcomes.

use vstd::prelude::*;

use crate::model::{
    has_record, lemma_record_id_extend, lemma_record_index_unique, record_id_for,
    record_index_for, same_but_link, views, ContentRecord, PathEntry, PathEntryModel, Tables,
};

verus! {

/// Number of entries of `s` whose content identity is missing — the
/// per-entry soft failures a step absorbs.
pub open spec fn soft_failures(s: Seq<PathEntryModel>) -> int
    decreases s.len(),
{
    if s.len() == 0 {
        0
    } else {
        soft_failures(s.drop_last()) + if s.last().cas_id is None {
            1int
        } else {
            0int
        }
    }
}

proof fn lemma_soft_failures_take_step(s: Seq<PathEntryModel>, k: int)
    requires
        0 <= k < s.len(),
    ensures
        soft_failures(s.take(k + 1)) == soft_failures(s.take(k)) + if s[k].cas_id is None {
            1int
        } else {
            0int
        },
{
    let t = s.take(k + 1);
    assert(t.drop_last() =~= s.take(k));
    assert(t.last() == s[k]);
}

/// What one processed batch does to the tables: records only grow,
/// every new record carries an identity from the batch and every
/// batch identity is recorded afterwards; a row is untouched unless
/// its id is in the batch with a present identity, in which case only
/// its content link changes, to the record keyed by its identity; the
/// tallies add up to the batch length and the new cursor is one past
/// the largest id of the batch.
pub open spec fn step_effect(
    pre: Tables,
    post: Tables,
    batch: Seq<PathEntryModel>,
    created: int,
    linked: int,
    ignored: int,
    new_cursor: u64,
) -> bool {
    &&& post.rows().len() == pre.rows().len()
    &&& pre.records().len() <= post.records().len()
    &&& forall|i: int| 0 <= i < pre.records().len() ==> post.records()[i] == pre.records()[i]
    &&& forall|i: int|
        #![trigger post.records()[i]]
        pre.records().len() <= i < post.records().len() ==> exists|k: int|
            0 <= k < batch.len() && (#[trigger] batch[k]).cas_id == Option::Some(
                post.records()[i].cas_id,
            )
    &&& forall|k: int|
        0 <= k < batch.len() && (#[trigger] batch[k]).cas_id is Some ==> has_record(
            post.records(),
            batch[k].cas_id->0,
        )
    &&& created == post.records().len() - pre.records().len()
    &&& ignored == soft_failures(batch)
    &&& created + linked + ignored == batch.len()
    &&& forall|i: int|
        0 <= i < pre.rows().len() ==> same_but_link(pre.rows()[i], #[trigger] post.rows()[i])
    &&& forall|i: int|
        0 <= i < pre.rows().len() && #[trigger] post.rows()[i] != pre.rows()[i] ==> exists|k: int|
            0 <= k < batch.len() && (#[trigger] batch[k]).id == pre.rows()[i].id
                && batch[k].cas_id is Some
    &&& forall|i: int, k: int|
        #![trigger pre.rows()[i], batch[k]]
        0 <= i < pre.rows().len() && 0 <= k < batch.len() && pre.rows()[i].id == batch[k].id
            ==> match batch[k].cas_id {
            Option::Some(cas) => post.rows()[i].content_link == Option::Some(
                record_id_for(post.records(), cas),
            ),
            Option::None => post.rows()[i] == pre.rows()[i],
        }
    &&& batch.len() > 0 ==> new_cursor == batch.last().id + 1
}

/// Index of the record keyed by `cas`, if one exists.
fn find_record_by_cas(tables: &Tables, cas: u64) -> (r: Option<usize>)
    ensures
        match r {
            Option::Some(idx) => idx < tables.records().len() && tables.records()[idx as int].cas_id
                == cas,
            Option::None => !has_record(tables.records(), cas),
        },
{
    let len = tables.content_records.len();
    let mut i: usize = 0;
    while i < len
        invariant
            0 <= i <= len,
            len == tables.records().len(),
            forall|j: int| 0 <= j < i ==> (#[trigger] tables.records()[j].cas_id) != cas,
        decreases len - i,
    {
        if tables.content_records[i].cas_id == cas {
            return Option::Some(i);
        }
        i += 1;
    }
    Option::None
}

/// Index of the row carrying `id`; the caller guarantees there is one.
fn find_row_index(tables: &Tables, id: u64) -> (idx: usize)
    requires
        exists|i: int| 0 <= i < tables.rows().len() && (#[trigger] tables.rows()[i]).id == id,
    ensures
        idx < tables.rows().len(),
        tables.rows()[idx as int].id == id,
{
    let len = tables.file_paths.len();
    let mut i: usize = 0;
    while i < len
        invariant
            0 <= i <= len,
            len == tables.rows().len(),
            forall|j: int| 0 <= j < i ==> (#[trigger] tables.rows()[j]).id != id,
        decreases len - i,
    {
        if tables.file_paths[i].id == id {
            return i;
        }
        i += 1;
    }
    proof {
        assert(false);
    }
    0
}

/// Processes one batch of orphan entries: looks each content identity
/// up in the record table, links the entry to the found record or to
/// a newly created one, absorbs unreadable entries into the ignored
/// tally, and returns `(created, linked, ignored, new_cursor)`.
pub fn process_identifier_file_paths(tables: &mut Tables, file_paths: &Vec<PathEntry>) -> (r: (
    usize,
    usize,
    usize,
    u64,
))
    requires
        old(tables).wf(),
        file_paths@.len() >= 1,
        forall|k: int|
            0 <= k < file_paths@.len() ==> exists|i: int|
                0 <= i < old(tables).rows().len() && old(tables).rows()[i] == (
                #[trigger] file_paths@[k])@,
        forall|k1: int, k2: int|
            0 <= k1 < k2 < file_paths@.len() ==> file_paths@[k1]@.id < file_paths@[k2]@.id,
    ensures
        final(tables).wf(),
        step_effect(
            *old(tables),
            *final(tables),
            views(file_paths@),
            r.0 as int,
            r.1 as int,
            r.2 as int,
            r.3,
        ),
{
    let ghost o = *old(tables);
    let ghost batch = views(file_paths@);
    // index in `o` of the row each batch entry came from
    let ghost rowidx = Seq::new(
        batch.len(),
        |k: int| choose|i: int| 0 <= i < o.rows().len() && o.rows()[i] == batch[k],
    );
    let len = file_paths.len();
    proof {
        assert(forall|k: int| 0 <= k < batch.len() ==> #[trigger] batch[k] == file_paths@[k]@);
        assert forall|k: int| 0 <= k < batch.len() implies 0 <= #[trigger] rowidx[k]
            < o.rows().len() && o.rows()[rowidx[k]] == batch[k] by {
            assert(batch[k] == file_paths@[k]@);
            let w = choose|i: int|
                0 <= i < o.rows().len() && o.rows()[i] == (#[trigger] file_paths@[k])@;
            assert(o.rows()[w] == batch[k]);
            assert(exists|i: int| 0 <= i < o.rows().len() && #[trigger] o.rows()[i] == batch[k]);
        }
        assert forall|k: int| 0 <= k < batch.len() implies (#[trigger] batch[k]).id
            < u64::MAX by {
            assert(o.rows()[rowidx[k]].id < u64::MAX);
        }
    }
    let mut created: usize = 0;
    let mut linked: usize = 0;
    let mut ignored: usize = 0;
    let mut kk: usize = 0;
    while kk < len
        invariant
            0 <= kk <= len,
            len == batch.len(),
            len == file_paths@.len(),
            batch == views(file_paths@),
            forall|k: int| 0 <= k < batch.len() ==> #[trigger] batch[k] == file_paths@[k]@,
            forall|k1: int, k2: int|
                0 <= k1 < k2 < batch.len() ==> (#[trigger] batch[k1]).id < (#[trigger] batch[k2]).id,
            forall|k: int| 0 <= k < batch.len() ==> (#[trigger] batch[k]).id < u64::MAX,
            rowidx.len() == batch.len(),
            forall|k: int|
                0 <= k < batch.len() ==> 0 <= #[trigger] rowidx[k] < o.rows().len()
                    && o.rows()[rowidx[k]] == batch[k],
            o.wf(),
            tables.wf(),
            tables.rows().len() == o.rows().len(),
            o.records().len() <= tables.records().len(),
            forall|i: int|
                0 <= i < o.records().len() ==> #[trigger] tables.records()[i] == o.records()[i],
            forall|i: int|
                #![trigger tables.records()[i]]
                o.records().len() <= i < tables.records().len() ==> exists|k: int|
                    0 <= k < kk && (#[trigger] batch[k]).cas_id == Option::Some(
                        tables.records()[i].cas_id,
                    ),
            forall|k: int|
                0 <= k < kk && (#[trigger] batch[k]).cas_id is Some ==> has_record(
                    tables.records(),
                    batch[k].cas_id->0,
                ),
            created == tables.records().len() - o.records().len(),
            ignored == soft_failures(batch.take(kk as int)),
            created + linked + ignored == kk,
            forall|i: int|
                0 <= i < o.rows().len() ==> same_but_link(o.rows()[i], #[trigger] tables.rows()[i]),
            forall|i: int|
                0 <= i < o.rows().len() && #[trigger] tables.rows()[i] != o.rows()[i]
                    ==> exists|k: int|
                    0 <= k < kk && (#[trigger] batch[k]).id == o.rows()[i].id
                        && batch[k].cas_id is Some,
            forall|i: int, k: int|
                #![trigger o.rows()[i], batch[k]]
                0 <= i < o.rows().len() && 0 <= k < kk && o.rows()[i].id == batch[k].id
                    ==> match batch[k].cas_id {
                    Option::Some(cas) => tables.rows()[i].content_link == Option::Some(
                        record_id_for(tables.records(), cas),
                    ),
                    Option::None => tables.rows()[i] == o.rows()[i],
                },
        decreases len - kk,
    {
        let ghost t_pre = *tables;
        proof {
            lemma_soft_failures_take_step(batch, kk as int);
            // the id of the current entry occurs in `o` exactly at
            // rowidx[kk], and that row was not touched by an earlier
            // iteration, since ids occur once in the batch
            let i0 = rowidx[kk as int];
            assert(o.rows()[i0] == batch[kk as int]);
            if tables.rows()[i0] != o.rows()[i0] {
                let k2 = choose|k2: int|
                    0 <= k2 < kk && (#[trigger] batch[k2]).id == o.rows()[i0].id
                        && batch[k2].cas_id is Some;
                assert(batch[k2].id < batch[kk as int].id);
            }
            assert(tables.rows()[i0] == batch[kk as int]);
            assert forall|i: int|
                0 <= i < o.rows().len() && (#[trigger] o.rows()[i]).id == batch[kk as int].id
                    implies i == i0 by {
                if i < i0 {
                    assert(o.rows()[i].id < o.rows()[i0].id);
                }
                if i0 < i {
                    assert(o.rows()[i0].id < o.rows()[i].id);
                }
            }
        }
        let ghost i0 = rowidx[kk as int];
        let maybe_cas = file_paths[kk].cas_id;
        match maybe_cas {
            Option::None => {
                proof {
                    assert(batch[kk as int].cas_id is None);
                }
                ignored += 1;
            },
            Option::Some(cas) => {
                proof {
                    assert(batch[kk as int].cas_id == Option::Some(cas));
                }
                let rid: u64 = match find_record_by_cas(tables, cas) {
                    Option::Some(idx) => {
                        linked += 1;
                        proof {
                            assert(tables.records()[idx as int].id == idx as u64);
                        }
                        idx as u64
                    },
                    Option::None => {
                        let fresh: u64 = tables.content_records.len() as u64;
                        tables.content_records.push(ContentRecord { id: fresh, cas_id: cas });
                        created += 1;
                        proof {
                            assert(tables.records() =~= t_pre.records().push(
                                ContentRecord { id: fresh, cas_id: cas },
                            ));
                            assert(tables.rows() =~= t_pre.rows());
                        }
                        fresh
                    },
                };
                let ghost t_mid = *tables;
                proof {
                    // the record keyed by `cas` now exists, is unique, and
                    // sits at index `rid`
                    assert(has_record(tables.records(), cas)) by {
                        assert(tables.records()[rid as int].cas_id == cas);
                    }
                    lemma_record_index_unique(tables.records(), cas);
                    assert(record_index_for(tables.records(), cas) == rid as int);
                    assert(record_id_for(tables.records(), cas) == rid);
                    assert(tables.rows() == t_pre.rows());
                    assert(tables.rows()[i0] == batch[kk as int]);
                    assert(exists|i: int|
                        0 <= i < tables.rows().len() && (#[trigger] tables.rows()[i]).id
                            == file_paths@[kk as int]@.id);
                }
                let row = find_row_index(tables, file_paths[kk].id);
                proof {
                    assert(tables.rows()[row as int].id == batch[kk as int].id);
                    assert(same_but_link(o.rows()[row as int], tables.rows()[row as int]));
                    assert(o.rows()[row as int].id == batch[kk as int].id);
                    assert(row as int == i0);
                }
                tables.file_paths[row].content_link = Option::Some(rid);
                proof {
                    assert(forall|i: int|
                        0 <= i < tables.rows().len() && i != row ==> #[trigger] tables.rows()[i]
                            == t_mid.rows()[i]);
                    assert(tables.rows()[row as int].content_link == Option::Some(rid));
                    assert(same_but_link(t_mid.rows()[row as int], tables.rows()[row as int]));
                    assert(tables.records() == t_mid.records());
                    // earlier links keep their record: the record table only grew
                    assert forall|k: int|
                        0 <= k < kk && (#[trigger] batch[k]).cas_id is Some implies has_record(
                        tables.records(),
                        batch[k].cas_id->0,
                    ) && record_id_for(tables.records(), batch[k].cas_id->0) == record_id_for(
                        t_pre.records(),
                        batch[k].cas_id->0,
                    ) by {
                        lemma_record_id_extend(
                            t_pre.records(),
                            tables.records(),
                            batch[k].cas_id->0,
                        );
                    }
                }
            },
        }
        kk += 1;
    }
    let last = file_paths.len() - 1;
    let new_cursor = file_paths[last].id + 1;
    proof {
        assert(batch.take(len as int) =~= batch);
        assert(batch.last() == batch[len - 1]);
    }
    (created, linked, ignored, new_cursor)
}

} // verus!
