//! Orphan scanner: the filter over the path entry table and the
//! verified count / first-id / batch queries the job is built on.

use vstd::prelude::*;

use crate::model::{PathEntry, PathEntryModel, Tables};

verus! {

/// Filter selecting orphan file entries of one location, optionally
/// from a cursor upward and optionally restricted to a subtree.
pub struct OrphanFilter {
    pub location_id: u64,
    /// Inclusive lower bound on entry ids (the cursor), if any.
    pub file_path_id: Option<u64>,
    /// Materialized-path prefix selecting the children of a scope
    /// directory, if a scope was given.
    pub scope_child_prefix: Option<Vec<u8>>,
}

/// Mathematical image of an `OrphanFilter`.
pub ghost struct OrphanFilterModel {
    pub location_id: u64,
    pub file_path_id: Option<u64>,
    pub scope_child_prefix: Option<Seq<u8>>,
}

impl View for OrphanFilter {
    type V = OrphanFilterModel;

    open spec fn view(&self) -> OrphanFilterModel {
        OrphanFilterModel {
            location_id: self.location_id,
            file_path_id: self.file_path_id,
            scope_child_prefix: match self.scope_child_prefix {
                Option::Some(ref p) => Option::Some(p@),
                Option::None => Option::None,
            },
        }
    }
}

/// Builds a filter model from its three parts; `scope` is already the
/// child prefix of the scope directory.
pub open spec fn filter_for(
    location_id: u64,
    cursor: Option<u64>,
    scope: Option<Seq<u8>>,
) -> OrphanFilterModel {
    OrphanFilterModel { location_id, file_path_id: cursor, scope_child_prefix: scope }
}

/// The child prefix induced by an optional scope directory path: the
/// path followed by a separator, so that exactly the proper
/// descendants of the directory match.
pub open spec fn sub_scope(sub: Option<Seq<u8>>) -> Option<Seq<u8>> {
    match sub {
        Option::Some(p) => Option::Some(p.push(47u8)),
        Option::None => Option::None,
    }
}

/// View of an optional byte path.
pub open spec fn opt_bytes(o: Option<Vec<u8>>) -> Option<Seq<u8>> {
    match o {
        Option::Some(p) => Option::Some(p@),
        Option::None => Option::None,
    }
}

/// `p` is a prefix of `s`.
pub open spec fn is_prefix_of(p: Seq<u8>, s: Seq<u8>) -> bool {
    p.len() <= s.len() && s.take(p.len() as int) == p
}

/// Whether one path entry satisfies the orphan filter: no content
/// link, not a directory, owning location matches, id at or past the
/// cursor, and materialized path inside the scope.
pub open spec fn entry_matches(f: OrphanFilterModel, e: PathEntryModel) -> bool {
    &&& e.content_link is None
    &&& !e.is_dir
    &&& e.location_id == f.location_id
    &&& match f.file_path_id {
        Option::Some(c) => e.id >= c,
        Option::None => true,
    }
    &&& match f.scope_child_prefix {
        Option::Some(p) => is_prefix_of(p, e.materialized_path),
        Option::None => true,
    }
}

/// The subsequence of `rows` matching `f`, in table order.
pub open spec fn matching(rows: Seq<PathEntryModel>, f: OrphanFilterModel) -> Seq<PathEntryModel>
    decreases rows.len(),
{
    if rows.len() == 0 {
        Seq::empty()
    } else if entry_matches(f, rows.last()) {
        matching(rows.drop_last(), f).push(rows.last())
    } else {
        matching(rows.drop_last(), f)
    }
}

/// The subsequence of `s` whose ids are at least `c`, in order.
pub open spec fn ge_filter(s: Seq<PathEntryModel>, c: u64) -> Seq<PathEntryModel>
    decreases s.len(),
{
    if s.len() == 0 {
        Seq::empty()
    } else if s.last().id >= c {
        ge_filter(s.drop_last(), c).push(s.last())
    } else {
        ge_filter(s.drop_last(), c)
    }
}

/// Ids strictly ascend along `s`.
pub open spec fn ids_ascending(s: Seq<PathEntryModel>) -> bool {
    forall|i: int, j: int| 0 <= i < j < s.len() ==> s[i].id < s[j].id
}

/// Scanning one more row extends the matching subsequence by that row
/// exactly when it matches.
pub proof fn lemma_matching_take_step(rows: Seq<PathEntryModel>, f: OrphanFilterModel, i: int)
    requires
        0 <= i < rows.len(),
    ensures
        matching(rows.take(i + 1), f) == if entry_matches(f, rows[i]) {
            matching(rows.take(i), f).push(rows[i])
        } else {
            matching(rows.take(i), f)
        },
{
    let t = rows.take(i + 1);
    assert(t.drop_last() =~= rows.take(i));
    assert(t.last() == rows[i]);
}

/// The matches of a prefix of the table are a prefix of the matches
/// of the whole table.
pub proof fn lemma_matching_take_prefix(rows: Seq<PathEntryModel>, f: OrphanFilterModel, i: int)
    requires
        0 <= i <= rows.len(),
    ensures
        matching(rows.take(i), f).len() <= matching(rows, f).len(),
        matching(rows, f).take(matching(rows.take(i), f).len() as int) == matching(
            rows.take(i),
            f,
        ),
    decreases rows.len() - i,
{
    if i == rows.len() {
        assert(rows.take(i) =~= rows);
        assert(matching(rows, f).take(matching(rows, f).len() as int) =~= matching(rows, f));
    } else {
        lemma_matching_take_step(rows, f, i);
        lemma_matching_take_prefix(rows, f, i + 1);
        let a = matching(rows.take(i), f);
        let b = matching(rows.take(i + 1), f);
        let m = matching(rows, f);
        assert(m.take(b.len() as int) == b);
        if entry_matches(f, rows[i]) {
            assert(m.take(a.len() as int) =~= a) by {
                assert(b == a.push(rows[i]));
                assert(forall|k: int|
                    0 <= k < a.len() ==> m.take(b.len() as int)[k] == #[trigger] b[k]);
            }
        }
    }
}

/// Every match satisfies the filter and occurs in the table; over a
/// table with strictly ascending ids the matches ascend too.
pub proof fn lemma_matching_membership(rows: Seq<PathEntryModel>, f: OrphanFilterModel)
    ensures
        forall|k: int|
            0 <= k < matching(rows, f).len() ==> entry_matches(
                f,
                #[trigger] matching(rows, f)[k],
            ),
        forall|k: int|
            0 <= k < matching(rows, f).len() ==> exists|i: int|
                0 <= i < rows.len() && rows[i] == #[trigger] matching(rows, f)[k],
    decreases rows.len(),
{
    if rows.len() > 0 {
        lemma_matching_membership(rows.drop_last(), f);
        let m0 = matching(rows.drop_last(), f);
        assert(forall|k: int|
            0 <= k < m0.len() ==> exists|i: int|
                0 <= i < rows.len() && rows[i] == #[trigger] m0[k]) by {
            assert(forall|i: int|
                0 <= i < rows.drop_last().len() ==> #[trigger] rows.drop_last()[i] == rows[i]);
        }
        assert(rows.last() == rows[rows.len() - 1]);
    }
}

/// Every row satisfying the filter occurs in the matching
/// subsequence.
pub proof fn lemma_matching_complete(rows: Seq<PathEntryModel>, f: OrphanFilterModel)
    ensures
        forall|i: int|
            0 <= i < rows.len() && entry_matches(f, #[trigger] rows[i]) ==> exists|k: int|
                0 <= k < matching(rows, f).len() && #[trigger] matching(rows, f)[k] == rows[i],
    decreases rows.len(),
{
    if rows.len() > 0 {
        lemma_matching_complete(rows.drop_last(), f);
        let m0 = matching(rows.drop_last(), f);
        let m = matching(rows, f);
        assert(forall|k: int| 0 <= k < m0.len() ==> #[trigger] m[k] == m0[k]);
        assert forall|i: int|
            0 <= i < rows.len() && entry_matches(f, #[trigger] rows[i]) implies exists|k: int|
            0 <= k < m.len() && #[trigger] m[k] == rows[i] by {
            if i < rows.len() - 1 {
                assert(rows.drop_last()[i] == rows[i]);
                let k = choose|k: int| 0 <= k < m0.len() && #[trigger] m0[k] == rows.drop_last()[i];
                assert(m[k] == rows[i]);
            } else {
                assert(rows.last() == rows[i]);
                assert(m[m.len() - 1] == rows[i]);
            }
        }
    }
}

/// A table none of whose rows satisfies the filter has no matches.
pub proof fn lemma_matching_empty(rows: Seq<PathEntryModel>, f: OrphanFilterModel)
    requires
        forall|i: int| 0 <= i < rows.len() ==> !entry_matches(f, #[trigger] rows[i]),
    ensures
        matching(rows, f) == Seq::<PathEntryModel>::empty(),
    decreases rows.len(),
{
    if rows.len() > 0 {
        assert(forall|i: int|
            0 <= i < rows.drop_last().len() ==> #[trigger] rows.drop_last()[i] == rows[i]);
        lemma_matching_empty(rows.drop_last(), f);
        assert(rows.last() == rows[rows.len() - 1]);
    }
}

/// Over a table with strictly ascending ids the matching subsequence
/// has strictly ascending ids as well.
pub proof fn lemma_matching_sorted(rows: Seq<PathEntryModel>, f: OrphanFilterModel)
    requires
        ids_ascending(rows),
    ensures
        ids_ascending(matching(rows, f)),
    decreases rows.len(),
{
    if rows.len() > 0 {
        assert(ids_ascending(rows.drop_last())) by {
            assert(forall|i: int|
                0 <= i < rows.drop_last().len() ==> #[trigger] rows.drop_last()[i] == rows[i]);
        }
        lemma_matching_sorted(rows.drop_last(), f);
        if entry_matches(f, rows.last()) {
            lemma_matching_membership(rows.drop_last(), f);
            let m0 = matching(rows.drop_last(), f);
            assert(forall|k: int| 0 <= k < m0.len() ==> (#[trigger] m0[k]).id < rows.last().id)
                by {
                assert(forall|i: int|
                    0 <= i < rows.drop_last().len()
                        ==> (#[trigger] rows.drop_last()[i]).id < rows.last().id);
            }
        }
    }
}

/// Matching depends only on how the filter judges each row: tables
/// that agree row by row (equal wherever either side matches) have
/// the same matching subsequence.
pub proof fn lemma_matching_pointwise(
    rows1: Seq<PathEntryModel>,
    rows2: Seq<PathEntryModel>,
    f: OrphanFilterModel,
)
    requires
        rows1.len() == rows2.len(),
        forall|i: int|
            0 <= i < rows1.len() ==> entry_matches(f, #[trigger] rows1[i]) == entry_matches(
                f,
                #[trigger] rows2[i],
            ),
        forall|i: int|
            0 <= i < rows1.len() && entry_matches(f, #[trigger] rows1[i]) ==> rows1[i] == rows2[i],
    ensures
        matching(rows1, f) == matching(rows2, f),
    decreases rows1.len(),
{
    if rows1.len() > 0 {
        assert(forall|i: int|
            0 <= i < rows1.drop_last().len() ==> #[trigger] rows1.drop_last()[i] == rows1[i]);
        assert(forall|i: int|
            0 <= i < rows2.drop_last().len() ==> #[trigger] rows2.drop_last()[i] == rows2[i]);
        lemma_matching_pointwise(rows1.drop_last(), rows2.drop_last(), f);
        assert(rows1.last() == rows1[rows1.len() - 1]);
        assert(rows2.last() == rows2[rows2.len() - 1]);
    }
}

/// Tightening the cursor of a filter keeps exactly the matches whose
/// id reaches the new cursor.
pub proof fn lemma_matching_cursor(rows: Seq<PathEntryModel>, f: OrphanFilterModel, c: u64)
    requires
        match f.file_path_id {
            Option::Some(c0) => c0 <= c,
            Option::None => true,
        },
    ensures
        matching(rows, filter_for(f.location_id, Option::Some(c), f.scope_child_prefix))
            == ge_filter(matching(rows, f), c),
    decreases rows.len(),
{
    let fc = filter_for(f.location_id, Option::Some(c), f.scope_child_prefix);
    if rows.len() > 0 {
        lemma_matching_cursor(rows.drop_last(), f, c);
        let e = rows.last();
        if entry_matches(f, e) {
            let m0 = matching(rows.drop_last(), f);
            assert(matching(rows, f) == m0.push(e));
            assert(m0.push(e).drop_last() =~= m0);
            assert(m0.push(e).last() == e);
        }
    }
}

/// Over an id-ascending sequence split at `j` by the cursor, keeping
/// the ids at or past the cursor is dropping the first `j` elements.
pub proof fn lemma_ge_filter_skip(s: Seq<PathEntryModel>, c: u64, j: int)
    requires
        ids_ascending(s),
        0 <= j <= s.len(),
        forall|i: int| 0 <= i < j ==> (#[trigger] s[i]).id < c,
        forall|i: int| j <= i < s.len() ==> (#[trigger] s[i]).id >= c,
    ensures
        ge_filter(s, c) == s.skip(j),
    decreases s.len(),
{
    if s.len() == 0 {
        assert(ge_filter(s, c) =~= s.skip(j));
    } else {
        assert(ids_ascending(s.drop_last())) by {
            assert(forall|i: int|
                0 <= i < s.drop_last().len() ==> #[trigger] s.drop_last()[i] == s[i]);
        }
        assert(forall|i: int|
            0 <= i < s.drop_last().len() ==> #[trigger] s.drop_last()[i] == s[i]);
        if s.last().id >= c {
            // the split point lies before the last element
            assert(j <= s.len() - 1);
            lemma_ge_filter_skip(s.drop_last(), c, j);
            assert(s.drop_last().skip(j).push(s.last()) =~= s.skip(j));
        } else {
            assert(j == s.len());
            lemma_ge_filter_skip(s.drop_last(), c, s.len() - 1);
            assert(s.drop_last().skip(s.len() - 1) =~= s.skip(j));
        }
    }
}

/// Whether `p` is a byte-prefix of `s`.
fn bytes_is_prefix(p: &Vec<u8>, s: &Vec<u8>) -> (r: bool)
    ensures
        r == is_prefix_of(p@, s@),
{
    if p.len() > s.len() {
        return false;
    }
    let n = p.len();
    let mut i: usize = 0;
    while i < n
        invariant
            0 <= i <= n,
            n == p@.len() <= s@.len(),
            forall|k: int| 0 <= k < i ==> p@[k] == s@[k],
        decreases n - i,
    {
        if p[i] != s[i] {
            assert(s@.take(p@.len() as int)[i as int] != p@[i as int]);
            return false;
        }
        i += 1;
    }
    assert(s@.take(p@.len() as int) =~= p@);
    true
}

/// Whether two byte paths are equal.
pub fn bytes_equal(a: &Vec<u8>, b: &Vec<u8>) -> (r: bool)
    ensures
        r == (a@ == b@),
{
    if a.len() != b.len() {
        return false;
    }
    let n = a.len();
    let mut i: usize = 0;
    while i < n
        invariant
            0 <= i <= n,
            n == a@.len() == b@.len(),
            forall|k: int| 0 <= k < i ==> a@[k] == b@[k],
        decreases n - i,
    {
        if a[i] != b[i] {
            assert(a@ != b@) by {
                if a@ == b@ {
                    assert(a@[i as int] == b@[i as int]);
                }
            }
            return false;
        }
        i += 1;
    }
    assert(a@ =~= b@);
    true
}

/// Whether `e` satisfies `f`.
pub fn matches_entry(f: &OrphanFilter, e: &PathEntry) -> (r: bool)
    ensures
        r == entry_matches(f@, e@),
{
    if e.content_link.is_some() {
        return false;
    }
    if e.is_dir {
        return false;
    }
    if e.location_id != f.location_id {
        return false;
    }
    match &f.file_path_id {
        Option::Some(c) => {
            if e.id < *c {
                return false;
            }
        },
        Option::None => {},
    }
    match &f.scope_child_prefix {
        Option::Some(p) => bytes_is_prefix(p, &e.materialized_path),
        Option::None => true,
    }
}

/// Builds the filter selecting the orphan file entries of a location:
/// no content link, not a directory, optionally at or past a cursor,
/// optionally inside the subtree of a validated scope directory.
pub fn orphan_path_filters(
    location_id: u64,
    file_path_id: Option<u64>,
    maybe_sub_path: &Option<Vec<u8>>,
) -> (f: OrphanFilter)
    ensures
        f@ == filter_for(location_id, file_path_id, sub_scope(opt_bytes(*maybe_sub_path))),
{
    let scope_child_prefix = match maybe_sub_path {
        Option::Some(p) => {
            let mut prefix = p.clone();
            prefix.push(47u8);
            Option::Some(prefix)
        },
        Option::None => Option::None,
    };
    OrphanFilter { location_id, file_path_id, scope_child_prefix }
}

/// Number of orphan file entries of the location inside the scope.
pub fn count_orphan_file_paths(
    tables: &Tables,
    location_id: u64,
    maybe_sub_path: &Option<Vec<u8>>,
) -> (n: usize)
    ensures
        n == matching(
            tables.rows(),
            filter_for(location_id, Option::None, sub_scope(opt_bytes(*maybe_sub_path))),
        ).len(),
{
    let f = orphan_path_filters(location_id, Option::None, maybe_sub_path);
    let ghost rows = tables.rows();
    let len = tables.file_paths.len();
    let mut n: usize = 0;
    let mut i: usize = 0;
    while i < len
        invariant
            0 <= i <= len,
            len == rows.len(),
            rows == tables.rows(),
            f@ == filter_for(location_id, Option::None, sub_scope(opt_bytes(*maybe_sub_path))),
            n == matching(rows.take(i as int), f@).len(),
            n <= i,
        decreases len - i,
    {
        proof {
            lemma_matching_take_step(rows, f@, i as int);
        }
        if matches_entry(&f, &tables.file_paths[i]) {
            n += 1;
        }
        i += 1;
    }
    proof {
        assert(rows.take(len as int) =~= rows);
    }
    n
}

/// Id of the first orphan file entry of the location inside the
/// scope, or `None` when there is none.
pub fn first_orphan_file_path_id(
    tables: &Tables,
    location_id: u64,
    maybe_sub_path: &Option<Vec<u8>>,
) -> (r: Option<u64>)
    ensures
        ({
            let m = matching(
                tables.rows(),
                filter_for(location_id, Option::None, sub_scope(opt_bytes(*maybe_sub_path))),
            );
            match r {
                Option::Some(id) => m.len() > 0 && id == m[0].id,
                Option::None => m.len() == 0,
            }
        }),
{
    let f = orphan_path_filters(location_id, Option::None, maybe_sub_path);
    let ghost rows = tables.rows();
    let len = tables.file_paths.len();
    let mut i: usize = 0;
    while i < len
        invariant
            0 <= i <= len,
            len == rows.len(),
            rows == tables.rows(),
            f@ == filter_for(location_id, Option::None, sub_scope(opt_bytes(*maybe_sub_path))),
            matching(rows.take(i as int), f@).len() == 0,
        decreases len - i,
    {
        proof {
            lemma_matching_take_step(rows, f@, i as int);
        }
        if matches_entry(&f, &tables.file_paths[i]) {
            proof {
                lemma_matching_take_prefix(rows, f@, i + 1);
                assert(matching(rows.take(i + 1), f@) == matching(
                    rows.take(i as int),
                    f@,
                ).push(rows[i as int]));
                assert(matching(rows, f@).take(1)[0] == rows[i as int]);
            }
            return Option::Some(tables.file_paths[i].id);
        }
        i += 1;
    }
    proof {
        assert(rows.take(len as int) =~= rows);
    }
    Option::None
}

/// The next batch: up to `chunk_size` orphan file entries of the
/// location inside the scope with id at or past the cursor, in
/// ascending id order — exactly the front of the remaining matches.
pub fn get_orphan_file_paths(
    tables: &Tables,
    location_id: u64,
    file_path_id: u64,
    maybe_sub_path: &Option<Vec<u8>>,
    chunk_size: usize,
) -> (r: Vec<PathEntry>)
    requires
        chunk_size >= 1,
    ensures
        ({
            let m = matching(
                tables.rows(),
                filter_for(
                    location_id,
                    Option::Some(file_path_id),
                    sub_scope(opt_bytes(*maybe_sub_path)),
                ),
            );
            &&& r@.len() == if m.len() <= chunk_size {
                m.len() as int
            } else {
                chunk_size as int
            }
            &&& forall|k: int| 0 <= k < r@.len() ==> (#[trigger] r@[k])@ == m[k]
        }),
{
    let f = orphan_path_filters(location_id, Option::Some(file_path_id), maybe_sub_path);
    let ghost rows = tables.rows();
    let ghost m = matching(rows, f@);
    let len = tables.file_paths.len();
    let mut r: Vec<PathEntry> = Vec::new();
    let mut i: usize = 0;
    while i < len && r.len() < chunk_size
        invariant
            0 <= i <= len,
            len == rows.len(),
            rows == tables.rows(),
            m == matching(rows, f@),
            f@ == filter_for(
                location_id,
                Option::Some(file_path_id),
                sub_scope(opt_bytes(*maybe_sub_path)),
            ),
            r@.len() == matching(rows.take(i as int), f@).len(),
            r@.len() <= chunk_size,
            forall|k: int|
                0 <= k < r@.len() ==> (#[trigger] r@[k])@ == matching(rows.take(i as int), f@)[k],
        decreases len - i,
    {
        proof {
            lemma_matching_take_step(rows, f@, i as int);
        }
        if matches_entry(&f, &tables.file_paths[i]) {
            r.push(tables.file_paths[i].clone());
        }
        i += 1;
    }
    proof {
        lemma_matching_take_prefix(rows, f@, i as int);
        let mi = matching(rows.take(i as int), f@);
        if i == len {
            assert(rows.take(len as int) =~= rows);
        } else {
            // stopped because the batch is full
            assert(r@.len() == chunk_size);
            assert(m.take(mi.len() as int) == mi);
            assert(forall|k: int|
                0 <= k < r@.len() ==> m.take(mi.len() as int)[k] == #[trigger] m[k]);
        }
    }
    r
}

} // verus!
