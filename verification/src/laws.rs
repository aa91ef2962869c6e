//! Run-level laws: how one processed chunk advances the cursor window,
//! how step effects compose over a run, and what the chunk plan and
//! the dedup resolution guarantee.

use vstd::prelude::*;

use crate::engine::{soft_failures, step_effect};
use crate::model::{
    has_record, lemma_record_id_extend, record_id_for, PathEntryModel, Tables,
};
use crate::scanner::{
    entry_matches, filter_for, ge_filter, ids_ascending, lemma_ge_filter_skip,
    lemma_matching_cursor, lemma_matching_membership, lemma_matching_pointwise,
    lemma_matching_sorted, matching, OrphanFilterModel,
};
use crate::job::spec_total_steps;

verus! {

/// The planned number of steps is the orphan count divided by the
/// chunk size, rounded up: it covers the whole count, and every step
/// but possibly the last is full.
pub proof fn lemma_total_steps_is_ceiling(n: int, c: int)
    requires
        n >= 0,
        c >= 1,
    ensures
        c * spec_total_steps(n, c) >= n,
        n > 0 ==> c * (spec_total_steps(n, c) - 1) < n,
        spec_total_steps(n, c) == (n + c - 1) / c,
{
    vstd::arithmetic::div_mod::lemma_fundamental_div_mod(n, c);
    let q = n / c;
    let r = n % c;
    assert(0 <= r < c);
    vstd::arithmetic::div_mod::lemma_fundamental_div_mod(n + c - 1, c);
    if r == 0 {
        assert(c * spec_total_steps(n, c) == c * q);
        assert((n + c - 1) / c == q) by (nonlinear_arith)
            requires
                c >= 1,
                n == c * q,
                (n + c - 1) == c * ((n + c - 1) / c) + (n + c - 1) % c,
                0 <= (n + c - 1) % c < c,
        ;
        if n > 0 {
            assert(c * (q - 1) < n) by (nonlinear_arith)
                requires
                    c >= 1,
                    n == c * q,
                    n > 0,
            ;
        }
    } else {
        assert(c * spec_total_steps(n, c) == c * (q + 1));
        assert(c * (q + 1) >= n && c * q < n && (n + c - 1) / c == q + 1) by (nonlinear_arith)
            requires
                c >= 1,
                n == c * q + r,
                0 < r < c,
                (n + c - 1) == c * ((n + c - 1) / c) + (n + c - 1) % c,
                0 <= (n + c - 1) % c < c,
        ;
    }
}

/// A fetch at a cursor never returns an id below it.
pub proof fn lemma_fetch_ids_at_or_past_cursor(
    rows: Seq<PathEntryModel>,
    f: OrphanFilterModel,
    c: u64,
)
    requires
        f.file_path_id == Option::Some(c),
    ensures
        forall|k: int| 0 <= k < matching(rows, f).len() ==> (#[trigger] matching(rows, f)[k]).id
            >= c,
{
    lemma_matching_membership(rows, f);
    assert forall|k: int|
        0 <= k < matching(rows, f).len() implies (#[trigger] matching(rows, f)[k]).id >= c by {
        assert(entry_matches(f, matching(rows, f)[k]));
    }
}

/// Soft failures add up over concatenation.
pub proof fn lemma_soft_failures_concat(a: Seq<PathEntryModel>, b: Seq<PathEntryModel>)
    ensures
        soft_failures(a + b) == soft_failures(a) + soft_failures(b),
    decreases b.len(),
{
    if b.len() == 0 {
        assert(a + b =~= a);
    } else {
        assert((a + b).drop_last() =~= a + b.drop_last());
        assert((a + b).last() == b.last());
        lemma_soft_failures_concat(a, b.drop_last());
    }
}

/// Processing the front window of the remaining orphan sequence moves
/// the cursor just past it: the next fetch sees exactly the rest.
/// With the cursor strictly increasing step by step, the windows of a
/// run tile the orphan set — no duplicates and no gaps.
pub proof fn lemma_step_advances_window(
    pre: Tables,
    post: Tables,
    f: OrphanFilterModel,
    cursor: u64,
    b: int,
    created: int,
    linked: int,
    ignored: int,
    new_cursor: u64,
)
    requires
        pre.wf(),
        post.wf(),
        f.file_path_id == Option::Some(cursor),
        1 <= b <= matching(pre.rows(), f).len(),
        step_effect(pre, post, matching(pre.rows(), f).take(b), created, linked, ignored, new_cursor),
    ensures
        new_cursor == matching(pre.rows(), f)[b - 1].id + 1,
        new_cursor > cursor,
        matching(
            post.rows(),
            filter_for(f.location_id, Option::Some(new_cursor), f.scope_child_prefix),
        ) =~= matching(pre.rows(), f).skip(b),
{
    let m = matching(pre.rows(), f);
    let w = m.take(b);
    lemma_matching_sorted(pre.rows(), f);
    lemma_matching_membership(pre.rows(), f);
    lemma_fetch_ids_at_or_past_cursor(pre.rows(), f, cursor);
    assert(w.last() == m[b - 1]);
    assert(new_cursor == m[b - 1].id + 1);
    assert(new_cursor > cursor);
    let fnc = filter_for(f.location_id, Option::Some(new_cursor), f.scope_child_prefix);
    // rows changed by the step all carry ids below the new cursor and
    // lost their orphan status, so under the advanced filter the old
    // and new tables match identically
    assert forall|i: int| 0 <= i < pre.rows().len() implies entry_matches(
        fnc,
        #[trigger] pre.rows()[i],
    ) == entry_matches(fnc, #[trigger] post.rows()[i]) && (entry_matches(fnc, pre.rows()[i])
        ==> pre.rows()[i] == post.rows()[i]) by {
        if post.rows()[i] != pre.rows()[i] {
            let k = choose|k: int|
                0 <= k < w.len() && (#[trigger] w[k]).id == pre.rows()[i].id && w[k].cas_id
                    is Some;
            assert(w[k] == m[k]);
            assert(pre.rows()[i].id <= m[b - 1].id) by {
                if k < b - 1 {
                    assert(m[k].id < m[b - 1].id);
                }
            }
            assert(!entry_matches(fnc, pre.rows()[i]));
            assert(post.rows()[i].id == pre.rows()[i].id);
            assert(!entry_matches(fnc, post.rows()[i]));
        }
    }
    lemma_matching_pointwise(pre.rows(), post.rows(), fnc);
    lemma_matching_cursor(pre.rows(), f, new_cursor);
    assert(matching(pre.rows(), fnc) == ge_filter(m, new_cursor)) by {
        assert(fnc == filter_for(f.location_id, Option::Some(new_cursor), f.scope_child_prefix));
    }
    lemma_ge_filter_skip(m, new_cursor, b);
}

/// Step effects compose: a run whose steps each process the next
/// window of the orphan sequence has, as a whole, the effect of one
/// processing of the entire part covered so far, with the tallies
/// summed.
pub proof fn lemma_step_effect_compose(
    o: Tables,
    t1: Tables,
    t2: Tables,
    m: Seq<PathEntryModel>,
    p: int,
    b: int,
    c1: int,
    l1: int,
    i1: int,
    cur1: u64,
    c2: int,
    l2: int,
    i2: int,
    cur2: u64,
)
    requires
        o.wf(),
        t1.wf(),
        t2.wf(),
        ids_ascending(m),
        0 <= p,
        1 <= b,
        p + b <= m.len(),
        step_effect(o, t1, m.take(p), c1, l1, i1, cur1),
        step_effect(t1, t2, m.skip(p).take(b), c2, l2, i2, cur2),
    ensures
        step_effect(o, t2, m.take(p + b), c1 + c2, l1 + l2, i1 + i2, cur2),
{
    let w1 = m.take(p);
    let w2 = m.skip(p).take(b);
    let w = m.take(p + b);
    assert(w =~= w1 + w2);
    assert(forall|k: int| 0 <= k < w.len() ==> #[trigger] w[k] == m[k]);
    assert(forall|k: int| 0 <= k < w1.len() ==> #[trigger] w1[k] == m[k]);
    assert(forall|k: int| 0 <= k < w2.len() ==> #[trigger] w2[k] == m[p + k]);
    lemma_soft_failures_concat(w1, w2);
    // records of the first part survive into the final table
    assert(forall|i: int| 0 <= i < o.records().len() ==> #[trigger] t2.records()[i]
        == o.records()[i]);
    // every new record's identity comes from the covered part
    assert forall|i: int|
        #![trigger t2.records()[i]]
        o.records().len() <= i < t2.records().len() implies exists|k: int|
        0 <= k < w.len() && (#[trigger] w[k]).cas_id == Option::Some(t2.records()[i].cas_id) by {
        if i < t1.records().len() {
            let k = choose|k: int|
                0 <= k < w1.len() && (#[trigger] w1[k]).cas_id == Option::Some(
                    t1.records()[i].cas_id,
                );
            assert(w[k].cas_id == Option::Some(t2.records()[i].cas_id));
        } else {
            let k = choose|k: int|
                0 <= k < w2.len() && (#[trigger] w2[k]).cas_id == Option::Some(
                    t2.records()[i].cas_id,
                );
            assert(w[p + k].cas_id == Option::Some(t2.records()[i].cas_id));
        }
    }
    // every covered identity is recorded at the end
    assert forall|k: int|
        0 <= k < w.len() && (#[trigger] w[k]).cas_id is Some implies has_record(
        t2.records(),
        w[k].cas_id->0,
    ) by {
        if k < p {
            assert(w1[k].cas_id is Some);
            let cas = w1[k].cas_id->0;
            assert(has_record(t1.records(), cas));
            lemma_record_id_extend(t1.records(), t2.records(), cas);
        } else {
            assert(w2[k - p].cas_id is Some);
            assert(has_record(t2.records(), w2[k - p].cas_id->0));
        }
    }
    // rows changed over the run are exactly those of the covered part
    assert forall|i: int|
        0 <= i < o.rows().len() && #[trigger] t2.rows()[i] != o.rows()[i] implies exists|k: int|
        0 <= k < w.len() && (#[trigger] w[k]).id == o.rows()[i].id && w[k].cas_id is Some by {
        if t2.rows()[i] != t1.rows()[i] {
            let k = choose|k: int|
                0 <= k < w2.len() && (#[trigger] w2[k]).id == t1.rows()[i].id && w2[k].cas_id
                    is Some;
            assert(t1.rows()[i].id == o.rows()[i].id);
            assert(w[p + k].id == o.rows()[i].id && w[p + k].cas_id is Some);
        } else {
            let k = choose|k: int|
                0 <= k < w1.len() && (#[trigger] w1[k]).id == o.rows()[i].id && w1[k].cas_id
                    is Some;
            assert(w[k].id == o.rows()[i].id && w[k].cas_id is Some);
        }
    }
    // each covered entry with a present identity ends linked to the
    // record keyed by it
    assert forall|i: int, k: int|
        #![trigger o.rows()[i], w[k]]
        0 <= i < o.rows().len() && 0 <= k < w.len() && o.rows()[i].id == w[k].id implies (match w[k].cas_id {
        Option::Some(cas) => t2.rows()[i].content_link == Option::Some(
            record_id_for(t2.records(), cas),
        ),
        Option::None => t2.rows()[i] == o.rows()[i],
    }) by {
        if k < p {
            assert(o.rows()[i].id == w1[k].id);
            assert(match w1[k].cas_id {
                Option::Some(cas) => t1.rows()[i].content_link == Option::Some(
                    record_id_for(t1.records(), cas),
                ),
                Option::None => t1.rows()[i] == o.rows()[i],
            });
            // this row is not part of the second window: its id sits
            // before the window and ids ascend
            assert(t2.rows()[i] == t1.rows()[i]) by {
                if t2.rows()[i] != t1.rows()[i] {
                    let k2 = choose|k2: int|
                        0 <= k2 < w2.len() && (#[trigger] w2[k2]).id == t1.rows()[i].id
                            && w2[k2].cas_id is Some;
                    assert(t1.rows()[i].id == o.rows()[i].id);
                    assert(m[p + k2].id == m[k].id);
                    assert(m[k].id < m[p + k2].id);
                }
            }
            match w1[k].cas_id {
                Option::Some(cas) => {
                    lemma_record_id_extend(t1.records(), t2.records(), cas);
                    assert(t2.rows()[i].content_link == Option::Some(
                        record_id_for(t2.records(), cas),
                    ));
                },
                Option::None => {
                    assert(t2.rows()[i] == o.rows()[i]);
                },
            }
        } else {
            assert(w2[k - p] == m[k]);
            assert(t1.rows()[i].id == o.rows()[i].id);
            assert(t1.rows()[i].id == w2[k - p].id);
            assert(match w2[k - p].cas_id {
                Option::Some(cas) => t2.rows()[i].content_link == Option::Some(
                    record_id_for(t2.records(), cas),
                ),
                Option::None => t2.rows()[i] == t1.rows()[i],
            });
            if w2[k - p].cas_id is None {
                // untouched by the second step; show the first part
                // never touched it either: its id sits in the second
                // window
                assert(t1.rows()[i] == o.rows()[i]) by {
                    if t1.rows()[i] != o.rows()[i] {
                        let k1 = choose|k1: int|
                            0 <= k1 < w1.len() && (#[trigger] w1[k1]).id == o.rows()[i].id
                            && w1[k1].cas_id is Some;
                        assert(m[k1].id == m[k].id);
                        assert(m[k1].id < m[k].id);
                    }
                }
            }
        }
    }
    // the final cursor is one past the covered part
    assert(w2.len() > 0);
    assert(w2.last() == m[p + b - 1]);
    assert(w.last() == m[p + b - 1]);
}

/// Soft failures are never negative.
pub proof fn lemma_soft_failures_nonneg(s: Seq<PathEntryModel>)
    ensures
        soft_failures(s) >= 0,
    decreases s.len(),
{
    if s.len() > 0 {
        lemma_soft_failures_nonneg(s.drop_last());
    }
}

/// A sequence without soft failures has a content identity for every
/// entry.
pub proof fn lemma_no_soft_failures(s: Seq<PathEntryModel>)
    requires
        soft_failures(s) == 0,
    ensures
        forall|k: int| 0 <= k < s.len() ==> (#[trigger] s[k]).cas_id is Some,
    decreases s.len(),
{
    if s.len() > 0 {
        lemma_soft_failures_nonneg(s.drop_last());
        assert(soft_failures(s.drop_last()) == 0);
        lemma_no_soft_failures(s.drop_last());
        assert(!(s.last().cas_id is None));
        assert forall|k: int| 0 <= k < s.len() implies (#[trigger] s[k]).cas_id is Some by {
            if k < s.len() - 1 {
                assert(s.drop_last()[k] == s[k]);
                assert(s.drop_last()[k].cas_id is Some);
            } else {
                assert(s.last() == s[k]);
            }
        }
    }
}

/// After a run that processed every orphan of a scan, and absent soft
/// failures, the same scan finds zero orphans: every entry it matched
/// is now linked.
pub proof fn lemma_rerun_finds_no_orphans(
    pre: Tables,
    post: Tables,
    f: OrphanFilterModel,
    created: int,
    linked: int,
    ignored: int,
    new_cursor: u64,
)
    requires
        pre.wf(),
        post.wf(),
        step_effect(pre, post, matching(pre.rows(), f), created, linked, ignored, new_cursor),
        soft_failures(matching(pre.rows(), f)) == 0,
    ensures
        matching(post.rows(), f) == Seq::<PathEntryModel>::empty(),
{
    let m = matching(pre.rows(), f);
    lemma_matching_membership(pre.rows(), f);
    crate::scanner::lemma_matching_complete(pre.rows(), f);
    lemma_no_soft_failures(m);
    assert forall|i: int| 0 <= i < post.rows().len() implies !entry_matches(
        f,
        #[trigger] post.rows()[i],
    ) by {
        if entry_matches(f, post.rows()[i]) {
            if post.rows()[i] == pre.rows()[i] {
                // this row was an orphan of the scan, so the run
                // linked it
                let k = choose|k: int| 0 <= k < m.len() && #[trigger] m[k] == pre.rows()[i];
                assert(pre.rows()[i].id == m[k].id);
                assert(m[k].cas_id is Some);
                assert(post.rows()[i].content_link is Some);
            } else {
                // a changed row carries a content link
                let k = choose|k: int|
                    0 <= k < m.len() && (#[trigger] m[k]).id == pre.rows()[i].id && m[k].cas_id
                        is Some;
                assert(post.rows()[i].content_link is Some);
            }
        }
    }
    crate::scanner::lemma_matching_empty(post.rows(), f);
}

/// Entries sharing one content identity converge to one content
/// record: after a processed batch, both are linked to the record
/// keyed by that identity — the same single record, wherever the
/// entries sit.
pub proof fn lemma_identity_convergence(
    pre: Tables,
    post: Tables,
    batch: Seq<PathEntryModel>,
    created: int,
    linked: int,
    ignored: int,
    new_cursor: u64,
    i1: int,
    i2: int,
    k1: int,
    k2: int,
    cas: u64,
)
    requires
        pre.wf(),
        post.wf(),
        step_effect(pre, post, batch, created, linked, ignored, new_cursor),
        0 <= i1 < pre.rows().len(),
        0 <= i2 < pre.rows().len(),
        0 <= k1 < batch.len(),
        0 <= k2 < batch.len(),
        pre.rows()[i1].id == batch[k1].id,
        pre.rows()[i2].id == batch[k2].id,
        batch[k1].cas_id == Option::Some(cas),
        batch[k2].cas_id == Option::Some(cas),
    ensures
        post.rows()[i1].content_link == Option::Some(record_id_for(post.records(), cas)),
        post.rows()[i1].content_link == post.rows()[i2].content_link,
{
    // immediate from the link clause of the step effect: both entries
    // are linked to the record keyed by `cas`, of which there is one
}

} // verus!
