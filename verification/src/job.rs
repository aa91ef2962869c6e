//! The identification job: state machine over the scanner, engine and
//! aggregator — initiation, stepwise processing and finalization.

use vstd::prelude::*;

use crate::engine::{process_identifier_file_paths, step_effect};
use crate::model::{PathEntryModel, Tables};
use crate::scanner::{
    bytes_equal, count_orphan_file_paths, filter_for, first_orphan_file_path_id,
    get_orphan_file_paths, lemma_matching_membership, matching, opt_bytes, sub_scope,
    OrphanFilterModel,
};

verus! {

/// Reason a run terminated early, without error.
#[derive(Clone, Copy, PartialEq, Eq, Structural, Debug)]
pub enum EarlyFinishReason {
    /// There was no orphan file path to process at initiation.
    NoOrphanPaths,
    /// A fetch for an expected mid-run chunk returned no rows.
    ExpectedRowsMissing,
}

impl EarlyFinishReason {
    /// Human-readable form of the reason.
    pub fn message(&self) -> (r: String)
        ensures
            r@ == match self {
                EarlyFinishReason::NoOrphanPaths => "no orphan file paths to process"@,
                EarlyFinishReason::ExpectedRowsMissing =>
                    "expected orphan file paths not returned from query for this chunk"@,
            },
    {
        match self {
            EarlyFinishReason::NoOrphanPaths => "no orphan file paths to process".to_string(),
            EarlyFinishReason::ExpectedRowsMissing =>
                "expected orphan file paths not returned from query for this chunk".to_string(),
        }
    }
}

/// Errors ending a state-machine operation.
#[derive(Clone, Copy, PartialEq, Eq, Structural, Debug)]
pub enum JobError {
    /// Non-error early termination, carrying its reason.
    EarlyFinish(EarlyFinishReason),
    /// The scope path exists but is not a directory — fatal at init.
    InvalidSubPath,
    /// The scope path has no entry under this location — fatal at init.
    SubPathNotFound,
}

/// A scanned root handed to the job at initiation.
pub use crate::model::Location;

/// Initiation parameters: the location to scan and an optional
/// subtree to start from.  An empty subtree path means the whole
/// location.
pub struct FileIdentifierJobInit {
    pub location: Location,
    pub sub_path: Option<Vec<u8>>,
}

/// State resolved at initiation and fixed for the run.
pub struct FileIdentifierJobData {
    /// Root path of the location.
    pub location_path: Vec<u8>,
    /// The validated scope directory path, if a subtree was given.
    pub maybe_sub_path: Option<Vec<u8>>,
}

/// Counters accumulated over a run.
#[derive(Clone, Copy, PartialEq, Eq, Structural, Debug)]
pub struct FileIdentifierReport {
    pub total_orphan_paths: usize,
    pub total_objects_created: usize,
    pub total_objects_linked: usize,
    pub total_objects_ignored: usize,
}

impl Default for FileIdentifierReport {
    /// All counters zero.
    fn default() -> (r: Self)
        ensures
            r.total_orphan_paths == 0,
            r.total_objects_created == 0,
            r.total_objects_linked == 0,
            r.total_objects_ignored == 0,
    {
        FileIdentifierReport {
            total_orphan_paths: 0,
            total_objects_created: 0,
            total_objects_linked: 0,
            total_objects_ignored: 0,
        }
    }
}

/// The running checkpoint and final result payload of a run: the
/// report plus the cursor marking the resume position.
#[derive(Clone, Copy, PartialEq, Eq, Structural, Debug)]
pub struct FileIdentifierJobRunMetadata {
    pub report: FileIdentifierReport,
    pub cursor: u64,
}

impl Default for FileIdentifierJobRunMetadata {
    /// Zero counters and cursor zero.
    fn default() -> (r: Self)
        ensures
            r.report.total_orphan_paths == 0,
            r.report.total_objects_created == 0,
            r.report.total_objects_linked == 0,
            r.report.total_objects_ignored == 0,
            r.cursor == 0,
    {
        FileIdentifierJobRunMetadata {
            report: FileIdentifierReport {
                total_orphan_paths: 0,
                total_objects_created: 0,
                total_objects_linked: 0,
                total_objects_ignored: 0,
            },
            cursor: 0,
        }
    }
}

impl FileIdentifierJobRunMetadata {
    /// Merges one step outcome into the running metadata: counters
    /// are summed field-wise, the cursor is replaced.
    pub fn update(&mut self, new_data: Self)
        requires
            old(self).report.total_orphan_paths + new_data.report.total_orphan_paths
                <= usize::MAX,
            old(self).report.total_objects_created + new_data.report.total_objects_created
                <= usize::MAX,
            old(self).report.total_objects_linked + new_data.report.total_objects_linked
                <= usize::MAX,
            old(self).report.total_objects_ignored + new_data.report.total_objects_ignored
                <= usize::MAX,
        ensures
            final(self).report.total_orphan_paths == old(self).report.total_orphan_paths
                + new_data.report.total_orphan_paths,
            final(self).report.total_objects_created == old(self).report.total_objects_created
                + new_data.report.total_objects_created,
            final(self).report.total_objects_linked == old(self).report.total_objects_linked
                + new_data.report.total_objects_linked,
            final(self).report.total_objects_ignored == old(self).report.total_objects_ignored
                + new_data.report.total_objects_ignored,
            final(self).cursor == new_data.cursor,
    {
        self.report.total_orphan_paths = self.report.total_orphan_paths
            + new_data.report.total_orphan_paths;
        self.report.total_objects_created = self.report.total_objects_created
            + new_data.report.total_objects_created;
        self.report.total_objects_linked = self.report.total_objects_linked
            + new_data.report.total_objects_linked;
        self.report.total_objects_ignored = self.report.total_objects_ignored
            + new_data.report.total_objects_ignored;
        self.cursor = new_data.cursor;
    }
}

/// Number of steps a run of `n` orphans takes with chunks of `c`:
/// `n / c`, rounded up.
pub open spec fn spec_total_steps(n: int, c: int) -> int {
    n / c + if n % c == 0 {
        0int
    } else {
        1int
    }
}

/// Chunk planner: converts the orphan count into the fixed number of
/// equally-sized steps of the run.
pub fn total_task_count(orphan_count: usize, chunk_size: usize) -> (n: usize)
    requires
        chunk_size >= 1,
    ensures
        n == spec_total_steps(orphan_count as int, chunk_size as int),
{
    let q = orphan_count / chunk_size;
    let rem = orphan_count % chunk_size;
    if rem == 0 {
        q
    } else {
        proof {
            let n = orphan_count as int;
            let c = chunk_size as int;
            vstd::arithmetic::div_mod::lemma_fundamental_div_mod(n, c);
            assert(n == c * (n / c) + n % c);
            assert(q == n / c);
            assert(rem == n % c);
            assert(c * q <= n - 1);
            assert(q <= c * q) by (nonlinear_arith)
                requires
                    c >= 1,
                    q >= 0,
            ;
            assert(q <= n - 1);
        }
        q + 1
    }
}

/// A subtree scope was given and is non-empty.
pub open spec fn scope_given(init: FileIdentifierJobInit) -> bool {
    match init.sub_path {
        Option::Some(p) => p@.len() > 0,
        Option::None => false,
    }
}

/// The given scope directory path.
pub open spec fn given_sub(init: FileIdentifierJobInit) -> Seq<u8> {
    init.sub_path->0@
}

/// The scope a run effectively uses: the given subtree, or none for
/// the whole location.
pub open spec fn effective_scope(init: FileIdentifierJobInit) -> Option<Seq<u8>> {
    if scope_given(init) {
        Option::Some(given_sub(init))
    } else {
        Option::None
    }
}

/// Some entry of the location sits exactly at the scope path.
pub open spec fn scope_entry_exists(rows: Seq<PathEntryModel>, loc: u64, sub: Seq<u8>) -> bool {
    exists|i: int|
        0 <= i < rows.len() && (#[trigger] rows[i]).location_id == loc
            && rows[i].materialized_path == sub
}

/// Some directory entry of the location sits exactly at the scope path.
pub open spec fn scope_dir_exists(rows: Seq<PathEntryModel>, loc: u64, sub: Seq<u8>) -> bool {
    exists|i: int|
        0 <= i < rows.len() && (#[trigger] rows[i]).location_id == loc
            && rows[i].materialized_path == sub && rows[i].is_dir
}

/// The cursorless filter a run with these initiation parameters scans
/// under.
pub open spec fn init_filter(init: FileIdentifierJobInit) -> OrphanFilterModel {
    filter_for(init.location.id, Option::None, sub_scope(effective_scope(init)))
}

/// The orphan set of a run: the matches of its cursorless filter at
/// initiation.
pub open spec fn initial_orphans(tables: Tables, init: FileIdentifierJobInit) -> Seq<
    PathEntryModel,
> {
    matching(tables.rows(), init_filter(init))
}

/// The chunked, resumable identification job.
pub struct FileIdentifierJob {}

impl FileIdentifierJob {
    /// A fresh job value.
    pub fn new() -> (s: Self) {
        FileIdentifierJob {  }
    }

    /// Initiation: validates the scope against the table, counts the
    /// orphans, publishes the run data, and either finishes early
    /// (zero orphans), fails (bad scope), or returns the starting
    /// metadata — total count and first cursor — with the number of
    /// planned steps.
    pub fn init(
        &self,
        tables: &Tables,
        init: &FileIdentifierJobInit,
        data: &mut Option<FileIdentifierJobData>,
        chunk_size: usize,
    ) -> (r: Result<(FileIdentifierJobRunMetadata, usize), JobError>)
        requires
            chunk_size >= 1,
        ensures
            ({
                let rows = tables.rows();
                let loc = init.location.id;
                let m = initial_orphans(*tables, *init);
                if scope_given(*init) && !scope_entry_exists(rows, loc, given_sub(*init)) {
                    r == Err::<(FileIdentifierJobRunMetadata, usize), JobError>(
                        JobError::SubPathNotFound,
                    ) && *final(data) == *old(data)
                } else if scope_given(*init) && !scope_dir_exists(rows, loc, given_sub(*init)) {
                    r == Err::<(FileIdentifierJobRunMetadata, usize), JobError>(
                        JobError::InvalidSubPath,
                    ) && *final(data) == *old(data)
                } else {
                    &&& match *final(data) {
                        Option::Some(d) => d.location_path@ == init.location.path@ && opt_bytes(
                            d.maybe_sub_path,
                        ) == effective_scope(*init),
                        Option::None => false,
                    }
                    &&& m.len() == 0 ==> r == Err::<
                        (FileIdentifierJobRunMetadata, usize),
                        JobError,
                    >(JobError::EarlyFinish(EarlyFinishReason::NoOrphanPaths))
                    &&& m.len() > 0 ==> match r {
                        Ok((meta, task_count)) => {
                            &&& meta.report.total_orphan_paths == m.len()
                            &&& meta.report.total_objects_created == 0
                            &&& meta.report.total_objects_linked == 0
                            &&& meta.report.total_objects_ignored == 0
                            &&& meta.cursor == m[0].id
                            &&& task_count == spec_total_steps(
                                m.len() as int,
                                chunk_size as int,
                            )
                        },
                        Err(_) => false,
                    }
                }
            }),
    {
        let location_id = init.location.id;
        let ghost rows = tables.rows();
        let maybe_sub_path: Option<Vec<u8>> = match &init.sub_path {
            Option::Some(sub) if sub.len() > 0 => {
                let len = tables.file_paths.len();
                let mut found = false;
                let mut found_dir = false;
                let mut i: usize = 0;
                while i < len
                    invariant
                        0 <= i <= len,
                        len == rows.len(),
                        rows == tables.rows(),
                        init.sub_path matches Option::Some(s) && s == sub,
                        found == scope_entry_exists(rows.take(i as int), location_id, sub@),
                        found_dir == scope_dir_exists(rows.take(i as int), location_id, sub@),
                    decreases len - i,
                {
                    let e = &tables.file_paths[i];
                    if e.location_id == location_id && bytes_equal(&e.materialized_path, sub) {
                        found = true;
                        if e.is_dir {
                            found_dir = true;
                        }
                    }
                    proof {
                        let t = rows.take(i + 1);
                        assert(forall|j: int| 0 <= j < t.len() ==> t[j] == #[trigger] rows[j]);
                        assert(forall|j: int|
                            0 <= j < i ==> rows.take(i as int)[j] == #[trigger] rows[j]);
                        assert(t[i as int] == rows[i as int]);
                    }
                    i += 1;
                }
                proof {
                    assert(rows.take(len as int) =~= rows);
                }
                if !found {
                    return Err(JobError::SubPathNotFound);
                }
                if !found_dir {
                    return Err(JobError::InvalidSubPath);
                }
                Option::Some(sub.clone())
            },
            _ => Option::None,
        };
        proof {
            assert(opt_bytes(maybe_sub_path) == effective_scope(*init));
        }
        *data = Some(
            FileIdentifierJobData {
                location_path: init.location.path.clone(),
                maybe_sub_path: match &maybe_sub_path {
                    Option::Some(p) => Option::Some(p.clone()),
                    Option::None => Option::None,
                },
            },
        );
        let orphan_count = count_orphan_file_paths(tables, location_id, &maybe_sub_path);
        if orphan_count == 0 {
            return Err(JobError::EarlyFinish(EarlyFinishReason::NoOrphanPaths));
        }
        let task_count = total_task_count(orphan_count, chunk_size);
        match first_orphan_file_path_id(tables, location_id, &maybe_sub_path) {
            Option::Some(first_id) => Ok(
                (
                    FileIdentifierJobRunMetadata {
                        report: FileIdentifierReport {
                            total_orphan_paths: orphan_count,
                            total_objects_created: 0,
                            total_objects_linked: 0,
                            total_objects_ignored: 0,
                        },
                        cursor: first_id,
                    },
                    task_count,
                ),
            ),
            Option::None => {
                proof {
                    assert(false);
                }
                Err(JobError::EarlyFinish(EarlyFinishReason::NoOrphanPaths))
            },
        }
    }

    /// One step: fetches the next chunk at the current cursor,
    /// finishes early if the expected rows are missing, otherwise
    /// runs the identification engine on the chunk and returns the
    /// step metadata to merge — counters of this step only, and the
    /// advanced cursor.
    pub fn execute_step(
        &self,
        tables: &mut Tables,
        init: &FileIdentifierJobInit,
        data: &FileIdentifierJobData,
        run_metadata: &FileIdentifierJobRunMetadata,
        chunk_size: usize,
    ) -> (r: Result<FileIdentifierJobRunMetadata, JobError>)
        requires
            old(tables).wf(),
            chunk_size >= 1,
        ensures
            final(tables).wf(),
            ({
                let f = filter_for(
                    init.location.id,
                    Option::Some(run_metadata.cursor),
                    sub_scope(opt_bytes(data.maybe_sub_path)),
                );
                let m = matching(old(tables).rows(), f);
                let b = if m.len() <= chunk_size {
                    m.len() as int
                } else {
                    chunk_size as int
                };
                if m.len() == 0 {
                    r == Err::<FileIdentifierJobRunMetadata, JobError>(
                        JobError::EarlyFinish(EarlyFinishReason::ExpectedRowsMissing),
                    ) && *final(tables) == *old(tables)
                } else {
                    match r {
                        Ok(nm) => {
                            &&& step_effect(
                                *old(tables),
                                *final(tables),
                                m.take(b),
                                nm.report.total_objects_created as int,
                                nm.report.total_objects_linked as int,
                                nm.report.total_objects_ignored as int,
                                nm.cursor,
                            )
                            &&& nm.report.total_orphan_paths == 0
                        },
                        Err(_) => false,
                    }
                }
            }),
    {
        let location_id = init.location.id;
        let ghost f = filter_for(
            location_id,
            Option::Some(run_metadata.cursor),
            sub_scope(opt_bytes(data.maybe_sub_path)),
        );
        let ghost m = matching(old(tables).rows(), f);
        let file_paths = get_orphan_file_paths(
            tables,
            location_id,
            run_metadata.cursor,
            &data.maybe_sub_path,
            chunk_size,
        );
        if file_paths.is_empty() {
            return Err(JobError::EarlyFinish(EarlyFinishReason::ExpectedRowsMissing));
        }
        proof {
            lemma_matching_membership(tables.rows(), f);
            crate::scanner::lemma_matching_sorted(tables.rows(), f);
            assert forall|k: int| 0 <= k < file_paths@.len() implies exists|i: int|
                0 <= i < tables.rows().len() && tables.rows()[i] == (
            #[trigger] file_paths@[k])@ by {
                assert(file_paths@[k]@ == m[k]);
                let w = choose|i: int|
                    0 <= i < tables.rows().len() && tables.rows()[i] == #[trigger] m[k];
                assert(tables.rows()[w] == file_paths@[k]@);
            }
            assert(forall|k1: int, k2: int|
                0 <= k1 < k2 < file_paths@.len() ==> file_paths@[k1]@.id < file_paths@[k2]@.id);
        }
        let counts = process_identifier_file_paths(tables, &file_paths);
        let new_metadata = FileIdentifierJobRunMetadata {
            report: FileIdentifierReport {
                total_orphan_paths: 0,
                total_objects_created: counts.0,
                total_objects_linked: counts.1,
                total_objects_ignored: counts.2,
            },
            cursor: counts.3,
        };
        proof {
            let b = if m.len() <= chunk_size {
                m.len() as int
            } else {
                chunk_size as int
            };
            assert(crate::model::views(file_paths@) =~= m.take(b));
        }
        Ok(new_metadata)
    }

    /// Finalization: hands the accumulated run metadata back as the
    /// job's durable result.
    pub fn finalize(&self, run_metadata: &FileIdentifierJobRunMetadata) -> (r:
        FileIdentifierJobRunMetadata)
        ensures
            r == *run_metadata,
    {
        *run_metadata
    }

    /// A whole run: initiation, one step per planned chunk, and
    /// finalization.  On a valid scope every orphan of the initial
    /// orphan set is processed exactly once: the final report counts
    /// them all, partitioned into created, linked and ignored, and the
    /// tables change exactly as one processing of the whole set.
    pub fn run(&self, tables: &mut Tables, init: &FileIdentifierJobInit, chunk_size: usize) -> (r:
        RunOutcome)
        requires
            old(tables).wf(),
            chunk_size >= 1,
        ensures
            final(tables).wf(),
            ({
                let rows = old(tables).rows();
                let loc = init.location.id;
                let m = initial_orphans(*old(tables), *init);
                let zero = FileIdentifierJobRunMetadata {
                    report: FileIdentifierReport {
                        total_orphan_paths: 0,
                        total_objects_created: 0,
                        total_objects_linked: 0,
                        total_objects_ignored: 0,
                    },
                    cursor: 0,
                };
                if scope_given(*init) && !scope_entry_exists(rows, loc, given_sub(*init)) {
                    r == RunOutcome::Failed(JobError::SubPathNotFound, zero) && *final(tables)
                        == *old(tables)
                } else if scope_given(*init) && !scope_dir_exists(rows, loc, given_sub(*init)) {
                    r == RunOutcome::Failed(JobError::InvalidSubPath, zero) && *final(tables)
                        == *old(tables)
                } else if m.len() == 0 {
                    r == RunOutcome::EarlyFinished(EarlyFinishReason::NoOrphanPaths, zero)
                        && *final(tables) == *old(tables)
                } else {
                    match r {
                        RunOutcome::Completed(meta) => {
                            &&& meta.report.total_orphan_paths == m.len()
                            &&& meta.report.total_objects_created
                                + meta.report.total_objects_linked
                                + meta.report.total_objects_ignored == m.len()
                            &&& meta.cursor == m.last().id + 1
                            &&& step_effect(
                                *old(tables),
                                *final(tables),
                                m,
                                meta.report.total_objects_created as int,
                                meta.report.total_objects_linked as int,
                                meta.report.total_objects_ignored as int,
                                meta.cursor,
                            )
                        },
                        _ => false,
                    }
                }
            }),
    {
        let ghost o = *old(tables);
        let ghost m = initial_orphans(o, *init);
        let mut data: Option<FileIdentifierJobData> = None;
        let (meta0, _task_count) = match self.init(tables, init, &mut data, chunk_size) {
            Ok(out) => out,
            Err(JobError::EarlyFinish(reason)) => {
                return RunOutcome::EarlyFinished(reason, FileIdentifierJobRunMetadata::default());
            },
            Err(e) => {
                return RunOutcome::Failed(e, FileIdentifierJobRunMetadata::default());
            },
        };
        let d = match &data {
            Option::Some(d) => d,
            Option::None => {
                proof {
                    assert(false);
                }
                return RunOutcome::Failed(
                    JobError::SubPathNotFound,
                    FileIdentifierJobRunMetadata::default(),
                );
            },
        };
        let ghost scope = sub_scope(effective_scope(*init));
        let ghost loc = init.location.id;
        let total = meta0.report.total_orphan_paths;
        let mut meta = meta0;
        let mut processed: usize = 0;
        proof {
            // the first cursor sees the whole orphan sequence
            crate::scanner::lemma_matching_sorted(o.rows(), init_filter(*init));
            crate::scanner::lemma_matching_cursor(o.rows(), init_filter(*init), meta.cursor);
            crate::scanner::lemma_ge_filter_skip(m, meta.cursor, 0);
            assert(matching(o.rows(), filter_for(loc, Option::Some(meta.cursor), scope))
                =~= m.skip(0));
            assert(m.skip(0) =~= m);
            assert(m.take(0) =~= Seq::<PathEntryModel>::empty());
        }
        while processed < total
            invariant
                chunk_size >= 1,
                tables.wf(),
                o.wf(),
                m == initial_orphans(o, *init),
                crate::scanner::ids_ascending(m),
                total == m.len(),
                loc == init.location.id,
                scope == sub_scope(effective_scope(*init)),
                opt_bytes(d.maybe_sub_path) == effective_scope(*init),
                0 <= processed <= total,
                meta.report.total_orphan_paths == total,
                meta.report.total_objects_created + meta.report.total_objects_linked
                    + meta.report.total_objects_ignored == processed,
                step_effect(
                    o,
                    *tables,
                    m.take(processed as int),
                    meta.report.total_objects_created as int,
                    meta.report.total_objects_linked as int,
                    meta.report.total_objects_ignored as int,
                    meta.cursor,
                ),
                matching(tables.rows(), filter_for(loc, Option::Some(meta.cursor), scope))
                    == m.skip(processed as int),
            decreases total - processed,
        {
            let ghost t_pre = *tables;
            let ghost fcur = filter_for(loc, Option::Some(meta.cursor), scope);
            let ghost mnow = matching(t_pre.rows(), fcur);
            proof {
                assert(mnow =~= m.skip(processed as int));
                assert(mnow.len() == total - processed);
            }
            match self.execute_step(tables, init, d, &meta, chunk_size) {
                Ok(nm) => {
                    let ghost b = if mnow.len() <= chunk_size {
                        mnow.len() as int
                    } else {
                        chunk_size as int
                    };
                    proof {
                        assert(1 <= b <= mnow.len());
                        assert(forall|j: int|
                            0 <= j < b ==> #[trigger] mnow.take(b)[j] == m[processed + j]);
                        assert(mnow.take(b) =~= m.skip(processed as int).take(b));
                        crate::laws::lemma_step_advances_window(
                            t_pre,
                            *tables,
                            fcur,
                            meta.cursor,
                            b,
                            nm.report.total_objects_created as int,
                            nm.report.total_objects_linked as int,
                            nm.report.total_objects_ignored as int,
                            nm.cursor,
                        );
                        crate::laws::lemma_step_effect_compose(
                            o,
                            t_pre,
                            *tables,
                            m,
                            processed as int,
                            b,
                            meta.report.total_objects_created as int,
                            meta.report.total_objects_linked as int,
                            meta.report.total_objects_ignored as int,
                            meta.cursor,
                            nm.report.total_objects_created as int,
                            nm.report.total_objects_linked as int,
                            nm.report.total_objects_ignored as int,
                            nm.cursor,
                        );
                        assert(mnow.skip(b) =~= m.skip(processed + b));
                        assert(nm.report.total_objects_created
                            + nm.report.total_objects_linked
                            + nm.report.total_objects_ignored == b);
                    }
                    let step_processed = nm.report.total_objects_created
                        + nm.report.total_objects_linked + nm.report.total_objects_ignored;
                    meta.update(nm);
                    processed = processed + step_processed;
                },
                Err(_) => {
                    // unreachable: the window invariant guarantees the
                    // expected rows are present
                    proof {
                        assert(false);
                    }
                    return RunOutcome::Failed(
                        JobError::EarlyFinish(EarlyFinishReason::ExpectedRowsMissing),
                        meta,
                    );
                },
            }
        }
        proof {
            assert(m.take(total as int) =~= m);
            assert(m.last() == m[total - 1]);
        }
        RunOutcome::Completed(self.finalize(&meta))
    }
}

/// Terminal outcome of a whole run, each carrying the metadata
/// accumulated up to termination.
#[derive(Clone, Copy, PartialEq, Eq, Structural, Debug)]
pub enum RunOutcome {
    /// All planned steps completed; the payload is the final report.
    Completed(FileIdentifierJobRunMetadata),
    /// The run terminated early, without error.
    EarlyFinished(EarlyFinishReason, FileIdentifierJobRunMetadata),
    /// The run failed; metadata of completed steps is preserved.
    Failed(JobError, FileIdentifierJobRunMetadata),
}

} // verus!
