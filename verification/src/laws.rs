//! Laws of the correction engine, stated over the models that the engine's
//! contracts use.
use vstd::prelude::*;

use crate::corrections::{
    absorbed_findings, absorbs, blocker, blocks, delete_anchor, delete_refusal, delete_snapshot, first_index_of_id,
    first_match, insertion_point, kept_findings, lemma_first_match, lemma_first_match_at,
    mark_corrected, position_of, start_key, sorted_by_start, sync_finding, synced, undo_findings,
    undo_points, undo_refusal,
};
use crate::types::{AuditPoint, CorrectionType, FindingStatus, FindingView, UndoDelete, UndoRecord};

verus! {

broadcast use vstd::seq_lib::group_seq_properties;

/// At most one finding of `s` carries the id `x`.
pub open spec fn id_at_most_once(s: Seq<FindingView>, x: Seq<char>) -> bool {
    forall|i: int, j: int|
        0 <= i < s.len() && 0 <= j < s.len() && (#[trigger] s[i]).id == x && (#[trigger] s[j]).id == x ==> i == j
}

/// No two points of `points` carry the same id.
pub open spec fn ids_distinct(points: Seq<AuditPoint>) -> bool {
    forall|i: int, j: int|
        0 <= i < points.len() && 0 <= j < points.len() && (#[trigger] points[i]).id == (#[trigger] points[j]).id ==> i == j
}

proof fn lemma_insertion_point_bound(t: Seq<FindingView>, key: usize)
    ensures
        0 <= insertion_point(t, key) <= t.len(),
{
    lemma_first_match(t, |g: FindingView| start_key(g) > key);
}

/// Sorting keeps the length, keeps the finding carrying `x` and introduces
/// no other.
proof fn lemma_sort_keeps_id(s: Seq<FindingView>, x: Seq<char>)
    requires
        id_at_most_once(s, x),
    ensures
        sorted_by_start(s).len() == s.len(),
        id_at_most_once(sorted_by_start(s), x),
        forall|i: int| 0 <= i < s.len() && (#[trigger] s[i]).id == x ==> exists|k: int|
            0 <= k < s.len() && sorted_by_start(s)[k] == s[i],
        (forall|i: int| 0 <= i < s.len() ==> (#[trigger] s[i]).id != x) ==> (forall|k: int|
            0 <= k < s.len() ==> (#[trigger] sorted_by_start(s)[k]).id != x),
    decreases s.len(),
{
    if s.len() > 0 {
        let d = s.drop_last();
        let e = s.last();
        assert forall|i: int, j: int|
            0 <= i < d.len() && 0 <= j < d.len() && (#[trigger] d[i]).id == x && (#[trigger] d[j]).id == x implies i == j by {
            assert(s[i] == d[i] && s[j] == d[j]);
        }
        lemma_sort_keeps_id(d, x);
        let t = sorted_by_start(d);
        let q = insertion_point(t, start_key(e));
        lemma_insertion_point_bound(t, start_key(e));
        t.insert_ensures(q, e);
        let r = t.insert(q, e);
        assert(sorted_by_start(s) == r);
        assert forall|k: int| 0 <= k < r.len() && k != q implies (k < q ==> r[k] == t[k]) && (k > q ==> r[k] == t[k - 1]) by {
            if k > q {
                assert(r[(k - 1) + 1] == t[k - 1]);
            }
        }
        if e.id == x {
            assert forall|i: int| 0 <= i < d.len() implies (#[trigger] d[i]).id != x by {
                assert(s[i] == d[i]);
                assert(s[s.len() - 1] == e);
            }
            assert forall|i: int, j: int|
                0 <= i < r.len() && 0 <= j < r.len() && (#[trigger] r[i]).id == x && (#[trigger] r[j]).id == x implies i == j by {
                if i != q {
                    assert(t[if i < q { i } else { i - 1 }].id != x);
                }
                if j != q {
                    assert(t[if j < q { j } else { j - 1 }].id != x);
                }
            }
            assert forall|i: int| 0 <= i < s.len() && (#[trigger] s[i]).id == x implies exists|k: int|
                0 <= k < s.len() && r[k] == s[i] by {
                if i < s.len() - 1 {
                    assert(d[i] == s[i]);
                } else {
                    assert(r[q] == s[i]);
                }
            }
        } else {
            assert forall|i: int, j: int|
                0 <= i < r.len() && 0 <= j < r.len() && (#[trigger] r[i]).id == x && (#[trigger] r[j]).id == x implies i == j by {
                let ti = if i < q { i } else { i - 1 };
                let tj = if j < q { j } else { j - 1 };
                assert(t[ti].id == x);
                assert(t[tj].id == x);
            }
            assert forall|i: int| 0 <= i < s.len() && (#[trigger] s[i]).id == x implies exists|k: int|
                0 <= k < s.len() && r[k] == s[i] by {
                assert(i < s.len() - 1);
                assert(d[i] == s[i]);
                let k = choose|k: int| 0 <= k < d.len() && t[k] == d[i];
                if k < q {
                    assert(r[k] == s[i]);
                } else {
                    assert(r[k + 1] == s[i]);
                }
            }
            if forall|i: int| 0 <= i < s.len() ==> (#[trigger] s[i]).id != x {
                assert forall|i: int| 0 <= i < d.len() implies (#[trigger] d[i]).id != x by {
                    assert(s[i] == d[i]);
                }
                assert forall|k: int| 0 <= k < r.len() implies (#[trigger] r[k]).id != x by {
                    if k != q {
                        assert(t[if k < q { k } else { k - 1 }].id != x);
                    }
                }
            }
        }
    }
}

} // verus!

verus! {

/// Filtering introduces no second finding carrying `x`.
proof fn lemma_filter_at_most_once(s: Seq<FindingView>, p: spec_fn(FindingView) -> bool, x: Seq<char>)
    requires
        id_at_most_once(s, x),
    ensures
        id_at_most_once(s.filter(p), x),
        (forall|i: int| 0 <= i < s.len() ==> (#[trigger] s[i]).id != x) ==> (forall|k: int|
            0 <= k < s.filter(p).len() ==> (#[trigger] s.filter(p)[k]).id != x),
    decreases s.len(),
{
    if s.len() > 0 {
        let d = s.drop_last();
        let e = s.last();
        assert(s =~= d.push(e));
        d.lemma_filter_push(e, p);
        assert forall|i: int, j: int|
            0 <= i < d.len() && 0 <= j < d.len() && (#[trigger] d[i]).id == x && (#[trigger] d[j]).id == x implies i == j by {
            assert(s[i] == d[i] && s[j] == d[j]);
        }
        lemma_filter_at_most_once(d, p, x);
        let fd = d.filter(p);
        if e.id == x {
            assert forall|i: int| 0 <= i < d.len() implies (#[trigger] d[i]).id != x by {
                assert(s[i] == d[i]);
                assert(s[s.len() - 1] == e);
            }
        }
        if forall|i: int| 0 <= i < s.len() ==> (#[trigger] s[i]).id != x {
            assert forall|i: int| 0 <= i < d.len() implies (#[trigger] d[i]).id != x by {
                assert(s[i] == d[i]);
            }
            assert(s[s.len() - 1] == e);
        }
        if p(e) {
            let fs = fd.push(e);
            assert(s.filter(p) == fs);
            assert forall|i: int, j: int|
                0 <= i < fs.len() && 0 <= j < fs.len() && (#[trigger] fs[i]).id == x && (#[trigger] fs[j]).id == x implies i == j by {
                if i < fd.len() {
                    assert(fs[i] == fd[i]);
                }
                if j < fd.len() {
                    assert(fs[j] == fd[j]);
                }
            }
        } else {
            assert(s.filter(p) == fd);
        }
    }
}

/// Mapping findings by a function that keeps ids keeps them: at most one
/// finding carries `x` after, as before.
proof fn lemma_map_keeps_ids(s: Seq<FindingView>, f: spec_fn(FindingView) -> FindingView, x: Seq<char>)
    requires
        id_at_most_once(s, x),
        forall|g: FindingView| #[trigger] f(g).id == g.id,
    ensures
        id_at_most_once(s.map_values(f), x),
        forall|i: int| 0 <= i < s.len() ==> (#[trigger] s.map_values(f)[i]).id == s[i].id,
{
    let m = s.map_values(f);
    assert forall|i: int| 0 <= i < s.len() implies (#[trigger] m[i]).id == s[i].id by {
        assert(m[i] == f(s[i]));
    }
    assert forall|i: int, j: int|
        0 <= i < m.len() && 0 <= j < m.len() && (#[trigger] m[i]).id == x && (#[trigger] m[j]).id == x implies i == j by {
        assert(s[i].id == x && s[j].id == x);
    }
}

/// Realignment keeps the id of a finding.
proof fn lemma_sync_keeps_id(pts: Seq<AuditPoint>)
    ensures
        forall|g: FindingView| #[trigger] sync_finding(pts, g).id == g.id,
{
}

/// After a correction of `id` and the realignment, the first finding carrying
/// `id` is the corrected one, untouched by the realignment.
proof fn lemma_corrected_found(
    pts: Seq<AuditPoint>,
    fs: Seq<FindingView>,
    id: Seq<char>,
    zs: int,
    ze: int,
    c: CorrectionType,
    u: UndoRecord,
)
    requires
        id_at_most_once(fs, id),
        position_of(fs, id) is Some,
    ensures
        ({
            let kept = kept_findings(fs, id, zs, ze);
            let marked = mark_corrected(kept, id, c, u);
            let out = synced(pts, marked);
            &&& position_of(out, id) is Some
            &&& out[position_of(out, id)->0] == FindingView {
                status: FindingStatus::Corrected,
                correction: Some(c),
                undo: Some(u),
                ..fs[position_of(fs, id)->0]
            }
        }),
{
    let kept = kept_findings(fs, id, zs, ze);
    crate::corrections::lemma_position_in_kept(fs, id, zs, ze);
    if zs <= ze {
        lemma_filter_at_most_once(fs, |g: FindingView| !crate::corrections::absorbs(g, id, zs, ze), id);
    }
    assert(id_at_most_once(kept, id));
    let k = position_of(kept, id)->0;
    lemma_first_match(kept, |g: FindingView| g.id == id);
    let target = FindingView {
        status: FindingStatus::Corrected,
        correction: Some(c),
        undo: Some(u),
        ..fs[position_of(fs, id)->0]
    };
    let marked = mark_corrected(kept, id, c, u);
    assert(marked[k] == target);
    assert forall|i: int, j: int|
        0 <= i < marked.len() && 0 <= j < marked.len() && (#[trigger] marked[i]).id == id && (#[trigger] marked[j]).id == id implies i == j by {
        assert(kept[i].id == id && kept[j].id == id);
    }
    let f = |g: FindingView| sync_finding(pts, g);
    let mapped = marked.map_values(f);
    lemma_sync_keeps_id(pts);
    assert(forall|g: FindingView| #[trigger] f(g).id == g.id);
    lemma_map_keeps_ids(marked, f, id);
    assert(mapped[k] == target);
    lemma_sort_keeps_id(mapped, id);
    let out = sorted_by_start(mapped);
    assert(out == synced(pts, marked));
    assert(mapped[k].id == id);
    let kk = choose|kk: int| 0 <= kk < mapped.len() && out[kk] == mapped[k];
    assert forall|j: int| 0 <= j < kk implies (#[trigger] out[j]).id != id by {
        if out[j].id == id {
            assert(j == kk);
        }
    }
    lemma_first_match_at(out, |g: FindingView| g.id == id, kk);
}

} // verus!

verus! {

/// A false positive again, without correction.
pub open spec fn as_false_positive(g: FindingView) -> FindingView {
    FindingView { status: FindingStatus::Fp, correction: None, ..g }
}

/// Undoing a deletion gives back exactly the trace it edited: the same
/// points, with the same ids and coordinates, in the same order. The
/// corrected finding comes back as it was before the deletion, pending,
/// without correction nor snapshot (and the realigned findings hold it
/// realigned on the restored trace), and the false positives the deletion
/// absorbed come back as false positives. This holds when the point ids of
/// the trace are distinct and when at most one finding carries the id of the
/// corrected one.
pub proof fn law_undo_delete_restores(
    points: Seq<AuditPoint>,
    fs: Seq<FindingView>,
    id: Seq<char>,
    ds: int,
    de: int,
    u: UndoDelete,
)
    requires
        0 <= ds,
        ids_distinct(points),
        id_at_most_once(fs, id),
        delete_refusal(points, fs, id, ds, de) is None,
        delete_snapshot(u, points, fs, id, ds, de),
    ensures
        ({
            let after = points.subrange(0, ds) + points.subrange(de + 1, points.len() as int);
            let fs2 = synced(
                after,
                mark_corrected(kept_findings(fs, id, ds, de), id, CorrectionType::Delete, UndoRecord::Delete(u)),
            );
            let back = undo_findings(fs2, id);
            &&& undo_refusal(after, fs2, id) is None
            &&& undo_points(after, fs2, id) == points
            &&& back[position_of(fs2, id)->0] == FindingView { correction: None, undo: None, ..fs[position_of(fs, id)->0] }
            &&& synced(points, back).to_multiset().count(
                sync_finding(points, FindingView { correction: None, undo: None, ..fs[position_of(fs, id)->0] }),
            ) > 0
            &&& back.subrange(fs2.len() as int, back.len() as int) == absorbed_findings(fs, id, ds, de).map_values(
                |g: FindingView| as_false_positive(g),
            )
        }),
{
    let after = points.subrange(0, ds) + points.subrange(de + 1, points.len() as int);
    let rec = UndoRecord::Delete(u);
    let fs2 = synced(after, mark_corrected(kept_findings(fs, id, ds, de), id, CorrectionType::Delete, rec));
    lemma_first_match(fs, |g: FindingView| g.id == id);
    lemma_corrected_found(after, fs, id, ds, de, CorrectionType::Delete, rec);
    let pos2 = position_of(fs2, id)->0;
    lemma_first_match(fs2, |g: FindingView| g.id == id);
    assert(0 <= pos2 < fs2.len());
    assert(fs2[pos2].undo == Some(rec));
    assert(ds <= de < points.len());
    if de + 1 < points.len() {
        assert(after[ds] == points[de + 1]);
        assert forall|j: int| 0 <= j < ds implies !((|p: AuditPoint| p.id == points[de + 1].id)(#[trigger] after[j])) by {
            assert(after[j] == points[j]);
        }
        lemma_first_match_at(after, |p: AuditPoint| p.id == points[de + 1].id, ds);
        assert(delete_anchor(after, u) == Some(ds));
    } else {
        assert(ds >= 1);
        assert(after[ds - 1] == points[ds - 1]);
        assert forall|j: int| 0 <= j < ds - 1 implies !((|p: AuditPoint| p.id == points[ds - 1].id)(#[trigger] after[j])) by {
            assert(after[j] == points[j]);
        }
        lemma_first_match_at(after, |p: AuditPoint| p.id == points[ds - 1].id, ds - 1);
        assert(delete_anchor(after, u) == Some(ds));
    }
    assert(undo_points(after, fs2, id) =~= points);
    let back = undo_findings(fs2, id);
    let head = fs2.update(pos2, FindingView { status: FindingStatus::Pending, correction: None, undo: None, ..fs2[pos2] });
    let tail = crate::corrections::absorbed_of(rec).map_values(
        |g: FindingView| FindingView { status: FindingStatus::Fp, correction: None, ..g },
    );
    assert(back == head + tail);
    assert(back[pos2] == head[pos2]);
    assert(back.subrange(fs2.len() as int, back.len() as int) =~= tail);
    assert(back[pos2] =~= FindingView { correction: None, undo: None, ..fs[position_of(fs, id)->0] });
    assert(back.subrange(fs2.len() as int, back.len() as int) =~= absorbed_findings(fs, id, ds, de).map_values(
        |g: FindingView| as_false_positive(g),
    ));
    lemma_synced_holds(points, back, pos2);
}

} // verus!

verus! {

/// Every finding of the sorted list is a finding of the list.
proof fn lemma_sort_members(s: Seq<FindingView>)
    ensures
        sorted_by_start(s).len() == s.len(),
        forall|k: int| 0 <= k < s.len() ==> exists|i: int| 0 <= i < s.len() && #[trigger] sorted_by_start(s)[k] == s[i],
    decreases s.len(),
{
    if s.len() > 0 {
        let d = s.drop_last();
        let e = s.last();
        lemma_sort_members(d);
        let t = sorted_by_start(d);
        let q = insertion_point(t, start_key(e));
        lemma_insertion_point_bound(t, start_key(e));
        t.insert_ensures(q, e);
        let r = t.insert(q, e);
        assert(sorted_by_start(s) == r);
        assert forall|k: int| 0 <= k < s.len() implies exists|i: int| 0 <= i < s.len() && #[trigger] r[k] == s[i] by {
            if k == q {
                assert(r[k] == s[s.len() - 1]);
            } else {
                let tk = if k < q { k } else { k - 1 };
                if k > q {
                    assert(r[(k - 1) + 1] == t[k - 1]);
                }
                assert(r[k] == t[tk]);
                let i = choose|i: int| 0 <= i < d.len() && t[tk] == d[i];
                assert(d[i] == s[i]);
            }
        }
    }
}

/// `x` lies outside the `n` ids from `next` on.
pub open spec fn id_outside(x: u32, next: u32, n: int) -> bool {
    x < next || x >= next + n
}

/// The replaced points of the correction held by `g`, if any, all carry ids
/// outside the `n` ids from `next` on.
pub open spec fn undo_ids_outside(g: FindingView, next: u32, n: int) -> bool {
    match g.undo {
        Some(v) => forall|j: int| 0 <= j < crate::corrections::orig_of(v).len() ==> id_outside(
            (#[trigger] crate::corrections::orig_of(v)[j]).id,
            next,
            n,
        ),
        None => true,
    }
}

/// Undoing a routing gives back exactly the trace it edited: the same
/// points, with the same ids and coordinates, in the same order. The
/// corrected finding comes back as it was before the routing, pending,
/// without correction nor snapshot (and the realigned findings hold it
/// realigned on the restored trace), and the false positives the routing
/// absorbed come back as false positives. This holds when the point ids of
/// the trace are distinct, when the route brings at least one point between
/// its two ends and the ids it allocates from `next_point_id` are fresh (they
/// do not saturate, and neither the trace nor the points replaced by the
/// corrections the findings hold carry any of them), and when at most one
/// finding carries the id of the corrected one.
#[verifier::rlimit(40)]
pub proof fn law_undo_route_restores(
    points: Seq<AuditPoint>,
    fs: Seq<FindingView>,
    id: Seq<char>,
    start: int,
    end: int,
    coords: Seq<crate::types::LatLon>,
    profile: Seq<char>,
    next_point_id: u32,
    u: crate::types::UndoRoute,
)
    requires
        0 <= start,
        ids_distinct(points),
        forall|i: int| 0 <= i < points.len() ==> id_outside((#[trigger] points[i]).id, next_point_id, coords.len() - 2),
        coords.len() >= 3,
        next_point_id + coords.len() - 3 <= u32::MAX,
        id_at_most_once(fs, id),
        forall|i: int| 0 <= i < fs.len() ==> undo_ids_outside(#[trigger] fs[i], next_point_id, coords.len() - 2),
        crate::corrections::route_refusal(points, fs, id, start, end, coords.len() as int, profile) is None,
        crate::corrections::route_snapshot(u, points, fs, id, start, end, coords, next_point_id),
    ensures
        ({
            let after = points.subrange(0, start + 1) + crate::corrections::route_mids(coords, next_point_id)
                + points.subrange(end, points.len() as int);
            let fs2 = synced(
                after,
                mark_corrected(
                    kept_findings(fs, id, start + 1, end - 1),
                    id,
                    crate::corrections::route_correction(profile),
                    UndoRecord::Route(u),
                ),
            );
            let back = undo_findings(fs2, id);
            &&& undo_refusal(after, fs2, id) is None
            &&& undo_points(after, fs2, id) == points
            &&& back[position_of(fs2, id)->0] == FindingView { correction: None, undo: None, ..fs[position_of(fs, id)->0] }
            &&& synced(points, back).to_multiset().count(
                sync_finding(points, FindingView { correction: None, undo: None, ..fs[position_of(fs, id)->0] }),
            ) > 0
            &&& back.subrange(fs2.len() as int, back.len() as int) == absorbed_findings(fs, id, start + 1, end - 1).map_values(
                |g: FindingView| as_false_positive(g),
            )
        }),
{
    let mids = crate::corrections::route_mids(coords, next_point_id);
    let after = points.subrange(0, start + 1) + mids + points.subrange(end, points.len() as int);
    let rec = UndoRecord::Route(u);
    let c = crate::corrections::route_correction(profile);
    let kept = kept_findings(fs, id, start + 1, end - 1);
    let marked = mark_corrected(kept, id, c, rec);
    let f = |g: FindingView| sync_finding(after, g);
    let mapped = marked.map_values(f);
    let fs2 = synced(after, marked);
    assert(fs2 == sorted_by_start(mapped));
    assert(start + 1 <= end < points.len());
    lemma_first_match(fs, |g: FindingView| g.id == id);
    lemma_corrected_found(after, fs, id, start + 1, end - 1, c, rec);
    let pos2 = position_of(fs2, id)->0;
    lemma_first_match(fs2, |g: FindingView| g.id == id);
    assert(fs2[pos2].undo == Some(rec));

    // No other finding reuses the routed points.
    let n = coords.len() - 2;
    let inserted = u.inserted_ids@;
    assert forall|k: int| 0 <= k < inserted.len() implies next_point_id <= #[trigger] inserted[k] < next_point_id + n by {
        assert(inserted[k] == mids[k].id);
    }
    crate::corrections::lemma_position_in_kept(fs, id, start + 1, end - 1);
    assert forall|i: int| 0 <= i < kept.len() implies undo_ids_outside(#[trigger] kept[i], next_point_id, n) by {
        if start + 1 <= end - 1 {
            let p = |g: FindingView| !crate::corrections::absorbs(g, id, start + 1, end - 1);
            assert(fs.filter(p).contains(kept[i]));
            fs.lemma_filter_contains_rev(p, kept[i]);
        }
    }
    let k0 = position_of(kept, id)->0;
    lemma_first_match(kept, |g: FindingView| g.id == id);
    assert forall|i: int| 0 <= i < marked.len() implies (#[trigger] marked[i]).id == id || undo_ids_outside(marked[i], next_point_id, n) by {
        if i != k0 {
            assert(marked[i] == kept[i]);
        }
    }
    assert forall|i: int| 0 <= i < mapped.len() implies (#[trigger] mapped[i]).id == id || undo_ids_outside(mapped[i], next_point_id, n) by {
        assert(mapped[i] == sync_finding(after, marked[i]));
        assert(mapped[i].id == marked[i].id && mapped[i].undo == marked[i].undo);
    }
    lemma_sort_members(mapped);
    assert forall|i: int| 0 <= i < fs2.len() implies !crate::corrections::reuses(#[trigger] fs2[i], id, inserted) by {
        let j = choose|j: int| 0 <= j < mapped.len() && fs2[i] == mapped[j];
        assert(mapped[j].id == id || undo_ids_outside(mapped[j], next_point_id, n));
        if fs2[i].id != id {
            match fs2[i].undo {
                Some(v) => {
                    let o = crate::corrections::orig_of(v);
                    assert forall|jj: int| 0 <= jj < o.len() implies !inserted.contains(#[trigger] o[jj].id) by {
                        if inserted.contains(o[jj].id) {
                            let kk = choose|kk: int| 0 <= kk < inserted.len() && inserted[kk] == o[jj].id;
                            assert(next_point_id <= inserted[kk] < next_point_id + n);
                        }
                    }
                },
                None => {},
            }
        }
    }

    // The routed points are found where the routing put them.
    let n = inserted.len();
    assert(n == coords.len() - 2);
    assert(after[start + 1] == mids[0]);
    assert forall|j: int| 0 <= j < start + 1 implies !((|p: AuditPoint| p.id == inserted[0])(#[trigger] after[j])) by {
        assert(after[j] == points[j]);
    }
    lemma_first_match_at(after, |p: AuditPoint| p.id == inserted[0], start + 1);
    assert forall|k: int| 0 <= k < n implies after[start + 1 + k].id == #[trigger] inserted[k] by {
        assert(after[start + 1 + k] == mids[k]);
    }
    assert(crate::corrections::inserted_at(after, inserted, start + 1));
    assert(undo_refusal(after, fs2, id) is None);
    assert(undo_points(after, fs2, id) =~= points);
    let back = undo_findings(fs2, id);
    let head = fs2.update(pos2, FindingView { status: FindingStatus::Pending, correction: None, undo: None, ..fs2[pos2] });
    let tail = crate::corrections::absorbed_of(rec).map_values(
        |g: FindingView| FindingView { status: FindingStatus::Fp, correction: None, ..g },
    );
    assert(back == head + tail);
    assert(back[pos2] == head[pos2]);
    assert(back[pos2] =~= FindingView { correction: None, undo: None, ..fs[position_of(fs, id)->0] });
    assert(back.subrange(fs2.len() as int, back.len() as int) =~= tail);
    assert(back.subrange(fs2.len() as int, back.len() as int) =~= absorbed_findings(fs, id, start + 1, end - 1).map_values(
        |g: FindingView| as_false_positive(g),
    ));
    lemma_synced_holds(points, back, pos2);
}

} // verus!

verus! {

/// The findings are in non-decreasing order of position.
pub open spec fn ordered_by_start(s: Seq<FindingView>) -> bool {
    forall|i: int, j: int| 0 <= i <= j < s.len() ==> start_key(#[trigger] s[i]) <= start_key(#[trigger] s[j])
}

proof fn lemma_sorted_ordered(s: Seq<FindingView>)
    ensures
        ordered_by_start(sorted_by_start(s)),
        sorted_by_start(s).len() == s.len(),
    decreases s.len(),
{
    if s.len() > 0 {
        let d = s.drop_last();
        let e = s.last();
        lemma_sorted_ordered(d);
        let t = sorted_by_start(d);
        let key = start_key(e);
        let q = insertion_point(t, key);
        lemma_first_match(t, |g: FindingView| start_key(g) > key);
        t.insert_ensures(q, e);
        let r = t.insert(q, e);
        assert(sorted_by_start(s) == r);
        assert forall|i: int| 0 <= i < t.len() implies (i < q ==> start_key(#[trigger] t[i]) <= key) && (i >= q ==> start_key(t[i]) > key) by {
            if i >= q {
                assert(start_key(t[q]) > key);
                assert(start_key(t[q]) <= start_key(t[i]));
            }
        }
        assert forall|i: int| 0 <= i < r.len() && i != q implies #[trigger] r[i] == t[if i < q { i } else { i - 1 }] by {
            if i > q {
                assert(r[(i - 1) + 1] == t[i - 1]);
            }
        }
        assert forall|i: int, j: int| 0 <= i <= j < r.len() implies start_key(#[trigger] r[i]) <= start_key(#[trigger] r[j]) by {
            if i != q && j != q {
                let ti = if i < q { i } else { i - 1 };
                let tj = if j < q { j } else { j - 1 };
                assert(start_key(t[ti]) <= start_key(t[tj]));
            }
        }
    }
}

/// After a realignment the findings are in non-decreasing order of position,
/// and none is lost or added.
pub proof fn law_synced_is_ordered(points: Seq<AuditPoint>, fs: Seq<FindingView>)
    ensures
        ordered_by_start(synced(points, fs)),
        synced(points, fs).len() == fs.len(),
{
    lemma_sorted_ordered(fs.map_values(|f: FindingView| sync_finding(points, f)));
}

/// Marking a pending finding without correction as a false positive, then
/// removing the mark, gives the findings back unchanged.
pub proof fn law_unmark_undoes_mark(fs: Seq<FindingView>, id: Seq<char>)
    requires
        position_of(fs, id) is Some,
        fs[position_of(fs, id)->0].status == FindingStatus::Pending,
        fs[position_of(fs, id)->0].correction is None,
    ensures
        ({
            let marked = crate::corrections::with_status(fs, id, FindingStatus::Fp);
            &&& position_of(marked, id) == position_of(fs, id)
            &&& marked[position_of(marked, id)->0].status == FindingStatus::Fp
            &&& crate::corrections::with_status(marked, id, FindingStatus::Pending) == fs
        }),
{
    let i = position_of(fs, id)->0;
    let p = |g: FindingView| g.id == id;
    lemma_first_match(fs, p);
    let marked = crate::corrections::with_status(fs, id, FindingStatus::Fp);
    assert forall|j: int| 0 <= j < i implies !p(#[trigger] marked[j]) by {
        assert(marked[j] == fs[j]);
    }
    lemma_first_match_at(marked, p, i);
    assert(crate::corrections::with_status(marked, id, FindingStatus::Pending) =~= fs);
}

/// A deletion never leaves the working trace with fewer than two points.
pub proof fn law_delete_keeps_two_points(points: Seq<AuditPoint>, fs: Seq<FindingView>, id: Seq<char>, ds: int, de: int)
    requires
        0 <= ds,
        delete_refusal(points, fs, id, ds, de) is None,
    ensures
        (points.subrange(0, ds) + points.subrange(de + 1, points.len() as int)).len() >= 2,
{
}

} // verus!

verus! {

/// When the right anchor of an undone deletion has left the trace but its
/// left anchor is still there, the undo is not refused: the deleted points
/// go back right after the left anchor. The undo is refused only when both
/// anchors are gone.
pub proof fn law_undo_delete_left_anchor_takes_over(
    points: Seq<AuditPoint>,
    fs: Seq<FindingView>,
    id: Seq<char>,
    u: UndoDelete,
    p: int,
)
    requires
        position_of(fs, id) is Some,
        fs[position_of(fs, id)->0].status == FindingStatus::Corrected,
        fs[position_of(fs, id)->0].undo == Some(UndoRecord::Delete(u)),
        u.anchor_right_id is Some ==> first_index_of_id(points, u.anchor_right_id->0) is None,
        u.anchor_left_id is Some,
        first_index_of_id(points, u.anchor_left_id->0) == Some(p),
    ensures
        undo_refusal(points, fs, id) is None,
        undo_points(points, fs, id) == points.subrange(0, p + 1) + u.orig_pts@ + points.subrange(p + 1, points.len() as int),
{
    lemma_first_match(points, |q: AuditPoint| q.id == u.anchor_left_id->0);
    assert(delete_anchor(points, u) == Some(p + 1));
}

} // verus!

verus! {

/// The stable sort by position only reorders: it holds each finding as
/// often as its input does.
proof fn lemma_sort_permutes(s: Seq<FindingView>)
    ensures
        sorted_by_start(s).to_multiset() == s.to_multiset(),
    decreases s.len(),
{
    if s.len() > 0 {
        let d = s.drop_last();
        lemma_sort_permutes(d);
        let t = sorted_by_start(d);
        let q = insertion_point(t, start_key(s.last()));
        lemma_insertion_point_bound(t, start_key(s.last()));
        vstd::seq_lib::to_multiset_insert(t, q, s.last());
        vstd::seq_lib::to_multiset_build(d, s.last());
        assert(s =~= d.push(s.last()));
    }
}

/// The realignment of `s` holds the realigned `s[i]`.
proof fn lemma_synced_holds(points: Seq<AuditPoint>, s: Seq<FindingView>, i: int)
    requires
        0 <= i < s.len(),
    ensures
        synced(points, s).to_multiset().count(sync_finding(points, s[i])) > 0,
{
    let m = s.map_values(|g: FindingView| sync_finding(points, g));
    lemma_sort_permutes(m);
    assert(m[i] == sync_finding(points, s[i]));
    assert(m.contains(m[i]));
    vstd::seq_lib::to_multiset_contains(m, m[i]);
}

/// A realignment neither loses nor adds a finding: its result holds the
/// realigned findings, each exactly as often as the input holds it, in
/// non-decreasing order of position.
pub proof fn law_synced_is_permutation(points: Seq<AuditPoint>, fs: Seq<FindingView>)
    ensures
        synced(points, fs).to_multiset() == fs.map_values(|f: FindingView| sync_finding(points, f)).to_multiset(),
        ordered_by_start(synced(points, fs)),
{
    lemma_sort_permutes(fs.map_values(|f: FindingView| sync_finding(points, f)));
    law_synced_is_ordered(points, fs);
}

} // verus!

verus! {

/// Filtering splits a list in two: what passes and what does not together
/// hold each item as often as the list.
proof fn lemma_filter_split(s: Seq<FindingView>, p: spec_fn(FindingView) -> bool)
    ensures
        s.filter(p).to_multiset().add(s.filter(|g: FindingView| !p(g)).to_multiset()) == s.to_multiset(),
    decreases s.len(),
{
    broadcast use vstd::multiset::group_multiset_axioms;
    let q = |g: FindingView| !p(g);
    if s.len() == 0 {
        assert(s.filter(p) =~= Seq::<FindingView>::empty());
        assert(s.filter(q) =~= Seq::<FindingView>::empty());
        assert(s.filter(p).to_multiset().add(s.filter(q).to_multiset()) =~= s.to_multiset());
    } else {
        let d = s.drop_last();
        let x = s.last();
        lemma_filter_split(d, p);
        assert(s =~= d.push(x));
        d.lemma_filter_push(x, p);
        d.lemma_filter_push(x, q);
        vstd::seq_lib::to_multiset_build(d, x);
        if p(x) {
            vstd::seq_lib::to_multiset_build(d.filter(p), x);
        } else {
            vstd::seq_lib::to_multiset_build(d.filter(q), x);
        }
        assert(s.filter(p).to_multiset().add(s.filter(q).to_multiset()) =~= s.to_multiset());
    }
}

/// A correction of `id` over `[zs, ze]` absorbs exactly the false positives,
/// other than the corrected finding, whose zone meets the range, in list
/// order, and keeps all the others: each finding goes to one side only, and
/// the two sides together hold the findings. An empty range absorbs nothing.
pub proof fn law_absorption_splits_findings(fs: Seq<FindingView>, id: Seq<char>, zs: int, ze: int)
    ensures
        forall|k: int| 0 <= k < absorbed_findings(fs, id, zs, ze).len() ==> absorbs(
            #[trigger] absorbed_findings(fs, id, zs, ze)[k],
            id,
            zs,
            ze,
        ),
        zs <= ze ==> forall|k: int| 0 <= k < kept_findings(fs, id, zs, ze).len() ==> !absorbs(
            #[trigger] kept_findings(fs, id, zs, ze)[k],
            id,
            zs,
            ze,
        ),
        kept_findings(fs, id, zs, ze).to_multiset().add(absorbed_findings(fs, id, zs, ze).to_multiset())
            == fs.to_multiset(),
        zs > ze ==> absorbed_findings(fs, id, zs, ze).len() == 0 && kept_findings(fs, id, zs, ze) == fs,
{
    broadcast use vstd::multiset::group_multiset_axioms;
    let p = |g: FindingView| absorbs(g, id, zs, ze);
    let q = |g: FindingView| !absorbs(g, id, zs, ze);
    if zs <= ze {
        fs.filter_lemma(p);
        fs.filter_lemma(q);
        lemma_filter_split(fs, p);
        assert(fs.filter(|g: FindingView| !p(g)) =~= fs.filter(q)) by {
            assert((|g: FindingView| !p(g)) =~= q);
        }
        assert(kept_findings(fs, id, zs, ze).to_multiset().add(absorbed_findings(fs, id, zs, ze).to_multiset())
            =~= fs.to_multiset());
    } else {
        assert(Seq::<FindingView>::empty().to_multiset() =~= vstd::multiset::Multiset::empty());
        assert(fs.to_multiset().add(vstd::multiset::Multiset::empty()) =~= fs.to_multiset());
    }
}

} // verus!

verus! {

/// Findings whose position key is `k`.
pub open spec fn key_is(k: usize) -> spec_fn(FindingView) -> bool {
    |f: FindingView| start_key(f) == k
}

/// A list none of whose items passes `p` keeps nothing through it.
proof fn lemma_filter_none(s: Seq<FindingView>, p: spec_fn(FindingView) -> bool)
    requires
        forall|i: int| 0 <= i < s.len() ==> !p(#[trigger] s[i]),
    ensures
        s.filter(p) == Seq::<FindingView>::empty(),
{
    s.filter_lemma(p);
    if s.filter(p).len() > 0 {
        let x = s.filter(p)[0];
        assert(s.filter(p).contains(x));
        s.lemma_filter_contains_rev(p, x);
    }
    assert(s.filter(p) =~= Seq::<FindingView>::empty());
}

/// The sort by position is stable: for every key, the findings with that
/// key come out in the order they went in.
proof fn lemma_sort_stable(s: Seq<FindingView>, k: usize)
    ensures
        sorted_by_start(s).filter(key_is(k)) == s.filter(key_is(k)),
    decreases s.len(),
{
    let p = key_is(k);
    if s.len() == 0 {
        assert(sorted_by_start(s) =~= Seq::<FindingView>::empty());
    } else {
        let d = s.drop_last();
        let x = s.last();
        lemma_sort_stable(d, k);
        let t = sorted_by_start(d);
        lemma_sorted_ordered(d);
        let q = insertion_point(t, start_key(x));
        lemma_insertion_point_bound(t, start_key(x));
        lemma_first_match(t, |g: FindingView| start_key(g) > start_key(x));
        let pre = t.subrange(0, q);
        let suf = t.subrange(q, t.len() as int);
        assert(t =~= pre + suf);
        assert(t.insert(q, x) =~= pre + seq![x] + suf);
        assert(sorted_by_start(s) == t.insert(q, x));
        assert(s =~= d.push(x));
        d.lemma_filter_push(x, p);
        Seq::filter_distributes_over_add(pre, suf, p);
        Seq::filter_distributes_over_add(pre + seq![x], suf, p);
        Seq::filter_distributes_over_add(pre, seq![x], p);
        assert forall|i: int| 0 <= i < suf.len() implies start_key(#[trigger] suf[i]) > start_key(x) by {
            assert(suf[i] == t[q + i]);
            assert(start_key(t[q]) > start_key(x));
            assert(start_key(t[q]) <= start_key(t[q + i]));
        }
        if p(x) {
            assert forall|i: int| 0 <= i < suf.len() implies !p(#[trigger] suf[i]) by {
                assert(start_key(suf[i]) > start_key(x));
            }
            lemma_filter_none(suf, p);
            assert(seq![x].filter(p) =~= seq![x]) by {
                seq![x].filter_lemma(p);
                Seq::<FindingView>::empty().lemma_filter_push(x, p);
                assert(seq![x] =~= Seq::<FindingView>::empty().push(x));
            }
        } else {
            assert(seq![x].filter(p) =~= Seq::<FindingView>::empty()) by {
                Seq::<FindingView>::empty().lemma_filter_push(x, p);
                assert(seq![x] =~= Seq::<FindingView>::empty().push(x));
            }
        }
        assert(sorted_by_start(s).filter(p) =~= s.filter(p));
    }
}

/// The re-sort after a realignment is stable: for every position key, the
/// realigned findings with that key come out in the order of the input.
pub proof fn law_synced_is_stable(points: Seq<AuditPoint>, fs: Seq<FindingView>, k: usize)
    ensures
        synced(points, fs).filter(key_is(k)) == fs.map_values(|f: FindingView| sync_finding(points, f)).filter(
            key_is(k),
        ),
{
    lemma_sort_stable(fs.map_values(|f: FindingView| sync_finding(points, f)), k);
}

} // verus!

verus! {

/// After a correction of `id` over `[zs, ze]` (a deletion of `[ds, de]`, or a
/// routing of the interior of `[start, end]`) and the realignment, the
/// findings hold the corrected finding, found first by its id, as it was
/// before, now corrected, with its correction type and its snapshot. This
/// holds when at most one finding carries `id`.
pub proof fn law_correction_marks_the_finding(
    points: Seq<AuditPoint>,
    fs: Seq<FindingView>,
    id: Seq<char>,
    zs: int,
    ze: int,
    c: CorrectionType,
    u: UndoRecord,
)
    requires
        id_at_most_once(fs, id),
        position_of(fs, id) is Some,
    ensures
        position_of(synced(points, mark_corrected(kept_findings(fs, id, zs, ze), id, c, u)), id) is Some,
        synced(points, mark_corrected(kept_findings(fs, id, zs, ze), id, c, u))[position_of(
            synced(points, mark_corrected(kept_findings(fs, id, zs, ze), id, c, u)),
            id,
        )->0] == (FindingView {
            status: FindingStatus::Corrected,
            correction: Some(c),
            undo: Some(u),
            ..fs[position_of(fs, id)->0]
        }),
{
    lemma_corrected_found(points, fs, id, zs, ze, c, u);
}

/// The nesting guard over a non-empty range `[zs, ze]`: as long as some
/// pending finding other than the corrected one, of whatever kind, has a
/// zone (first part) that meets the range, the guard names a finding; the
/// finding it names is such a pending finding, the first of the list.
pub proof fn law_pending_overlap_blocks(fs: Seq<FindingView>, current: Seq<char>, zs: int, ze: int)
    ensures
        zs <= ze && (exists|i: int|
            0 <= i < fs.len() && (#[trigger] fs[i]).id != current && fs[i].status == FindingStatus::Pending
                && fs[i].parts.len() > 0 && fs[i].parts[0].e >= zs && fs[i].parts[0].s <= ze) ==> blocker(
            fs,
            current,
            zs,
            ze,
        ) is Some,
        blocker(fs, current, zs, ze) matches Some(b) ==> zs <= ze && exists|i: int|
            0 <= i < fs.len() && (#[trigger] fs[i]).id == b && b != current && fs[i].status
                == FindingStatus::Pending && fs[i].parts.len() > 0 && fs[i].parts[0].e >= zs && fs[i].parts[0].s
                <= ze && forall|j: int|
                0 <= j < i ==> !((#[trigger] fs[j]).id != current && fs[j].status == FindingStatus::Pending
                    && fs[j].parts.len() > 0 && fs[j].parts[0].e >= zs && fs[j].parts[0].s <= ze),
{
    let p = |g: FindingView| blocks(g, current, zs, ze);
    lemma_first_match(fs, p);
    if zs <= ze {
        if let Some(i) = first_match(fs, p) {
            assert(p(fs[i]));
            assert forall|j: int| 0 <= j < i implies !((#[trigger] fs[j]).id != current && fs[j].status
                == FindingStatus::Pending && fs[j].parts.len() > 0 && fs[j].parts[0].e >= zs && fs[j].parts[0].s
                <= ze) by {
                assert(!p(fs[j]));
            }
        } else {
            assert forall|i: int| 0 <= i < fs.len() implies !((#[trigger] fs[i]).id != current && fs[i].status
                == FindingStatus::Pending && fs[i].parts.len() > 0 && fs[i].parts[0].e >= zs && fs[i].parts[0].s
                <= ze) by {
                assert(!p(fs[i]));
            }
        }
    }
}

/// A correction over a non-empty range `[zs, ze]` absorbs every false
/// positive, other than the corrected finding, whose zone (first part) meets
/// the range, and keeps none of them; whatever it absorbs is such a false
/// positive of the list, and whatever it keeps is not.
pub proof fn law_overlapping_false_positives_absorbed(fs: Seq<FindingView>, id: Seq<char>, zs: int, ze: int)
    ensures
        zs <= ze ==> forall|k: int|
            0 <= k < fs.len() && (#[trigger] fs[k]).id != id && fs[k].status == FindingStatus::Fp
                && fs[k].parts.len() > 0 && fs[k].parts[0].e >= zs && fs[k].parts[0].s <= ze ==> absorbed_findings(
                fs,
                id,
                zs,
                ze,
            ).contains(fs[k]) && !kept_findings(fs, id, zs, ze).contains(fs[k]),
        forall|g: FindingView| #[trigger]
            absorbed_findings(fs, id, zs, ze).contains(g) ==> fs.contains(g) && g.id != id && g.status
                == FindingStatus::Fp && g.parts.len() > 0 && g.parts[0].e >= zs && g.parts[0].s <= ze,
        forall|g: FindingView| #[trigger]
            kept_findings(fs, id, zs, ze).contains(g) ==> fs.contains(g) && !(zs <= ze && g.id != id && g.status
                == FindingStatus::Fp && g.parts.len() > 0 && g.parts[0].e >= zs && g.parts[0].s <= ze),
{
    let p = |g: FindingView| absorbs(g, id, zs, ze);
    let q = |g: FindingView| !absorbs(g, id, zs, ze);
    fs.filter_lemma(p);
    fs.filter_lemma(q);
    if zs <= ze {
        assert forall|k: int|
            0 <= k < fs.len() && (#[trigger] fs[k]).id != id && fs[k].status == FindingStatus::Fp
                && fs[k].parts.len() > 0 && fs[k].parts[0].e >= zs && fs[k].parts[0].s <= ze implies absorbed_findings(
                fs,
                id,
                zs,
                ze,
            ).contains(fs[k]) && !kept_findings(fs, id, zs, ze).contains(fs[k]) by {
            assert(p(fs[k]));
            fs.lemma_filter_contains(p, k);
            if kept_findings(fs, id, zs, ze).contains(fs[k]) {
                let j = choose|j: int| 0 <= j < fs.filter(q).len() && fs.filter(q)[j] == fs[k];
                assert(q(fs.filter(q)[j]));
            }
        }
    }
    assert forall|g: FindingView| #[trigger] absorbed_findings(fs, id, zs, ze).contains(g) implies fs.contains(g)
        && g.id != id && g.status == FindingStatus::Fp && g.parts.len() > 0 && g.parts[0].e >= zs && g.parts[0].s
        <= ze by {
        fs.lemma_filter_contains_rev(p, g);
        let j = choose|j: int| 0 <= j < fs.filter(p).len() && fs.filter(p)[j] == g;
        assert(p(fs.filter(p)[j]));
    }
    assert forall|g: FindingView| #[trigger] kept_findings(fs, id, zs, ze).contains(g) implies fs.contains(g)
        && !(zs <= ze && g.id != id && g.status == FindingStatus::Fp && g.parts.len() > 0 && g.parts[0].e >= zs
        && g.parts[0].s <= ze) by {
        if zs <= ze {
            fs.lemma_filter_contains_rev(q, g);
            let j = choose|j: int| 0 <= j < fs.filter(q).len() && fs.filter(q)[j] == g;
            assert(q(fs.filter(q)[j]));
        }
    }
}

} // verus!
