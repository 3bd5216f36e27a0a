//! Preview of a deletion of points, recomputed at each move of the cursors:
//! the cursors are clamped into the zone of the finding, each point of the
//! zone is styled kept or deleted, and the paths drawn on the map are made
//! of the kept points (blue join) and of the deleted ones (red line, for a
//! roundabout loop). The working trace is left unchanged.
//!
//! The routing anchors of a loop and the placement of the labels compute
//! with coordinates; the application supplies the anchors and places the
//! labels of the kept points listed here.
use vstd::prelude::*;

use crate::text::{decimal, push_decimal};
use crate::types::{AuditPoint, Finding, FindingKind, LatLon};

verus! {

broadcast use vstd::seq_lib::group_seq_properties;

/// Style of one point of the zone during the preview.
#[derive(Clone, Copy, Debug)]
pub struct PreviewPointStyle {
    pub index: usize,
    /// The point stays after the deletion.
    pub kept: bool,
    /// Routing anchor of a loop (neutral style during the preview).
    pub is_anchor: bool,
}

/// A slider cursor put on the map: the point it stands on and its tooltip.
#[derive(Clone, Debug)]
pub struct CursorSpot {
    pub index: usize,
    /// `conservé`, or `bord de trace` when the range reaches an end of the
    /// trace.
    pub title: String,
}

/// Everything of a deletion preview but what computes with coordinates.
#[derive(Clone, Debug)]
pub struct DeletePlan {
    /// Clamped start cursor.
    pub start: usize,
    /// Clamped end cursor.
    pub end: usize,
    /// Style of each point of the zone.
    pub points: Vec<PreviewPointStyle>,
    /// Blue path of the kept points (empty below two points).
    pub join: Vec<LatLon>,
    /// Red path of the deleted points, loops only (empty below two points).
    pub red: Vec<LatLon>,
    pub cursors: Vec<CursorSpot>,
    /// Points to label as kept, loops only.
    pub kept: Vec<usize>,
    /// Label of the start cursor.
    pub count_start: String,
    /// Label of the end cursor.
    pub count_end: String,
}

/// `x` brought into `[lo, hi]`.
pub open spec fn clamped(x: int, lo: int, hi: int) -> int {
    if x < lo {
        lo
    } else if x > hi {
        hi
    } else {
        x
    }
}

/// `x` brought into `[lo, hi]`.
fn clamp_usize(x: usize, lo: usize, hi: usize) -> (r: usize)
    requires
        lo <= hi,
    ensures
        r == clamped(x as int, lo as int, hi as int),
{
    if x < lo {
        lo
    } else if x > hi {
        hi
    } else {
        x
    }
}

/// Cursors of an out-and-back deletion: both in the zone, an inverted range
/// brought back to a single point.
pub open spec fn ar_bounds(s0: int, e0: int, start: int, end: int) -> (int, int) {
    let st = clamped(start, s0, e0);
    let en = clamped(end, s0, e0);
    if st > en {
        (en, en)
    } else {
        (st, en)
    }
}

/// Cursors of a loop deletion: both in the zone, never crossed, and leaving
/// at least one point to delete between them when the zone allows it.
pub open spec fn rp_bounds(s0: int, e0: int, start: int, end: int) -> (int, int) {
    let d = clamped(start, s0, e0);
    let f = clamped(end, s0, e0);
    let d2 = if d > f - 1 {
        if f - 1 > s0 { f - 1 } else { s0 }
    } else {
        d
    };
    let f2 = if f < d2 + 1 {
        if d2 + 1 < e0 { d2 + 1 } else { e0 }
    } else {
        f
    };
    (d2, f2)
}

/// Cursors of an out-and-back deletion.
pub fn clamp_ar(s0: usize, e0: usize, start: usize, end: usize) -> (r: (usize, usize))
    requires
        s0 <= e0,
    ensures
        (r.0 as int, r.1 as int) == ar_bounds(s0 as int, e0 as int, start as int, end as int),
{
    let st = clamp_usize(start, s0, e0);
    let en = clamp_usize(end, s0, e0);
    if st > en {
        (en, en)
    } else {
        (st, en)
    }
}

/// Cursors of a loop deletion.
pub fn clamp_rp(s0: usize, e0: usize, start: usize, end: usize) -> (r: (usize, usize))
    requires
        s0 <= e0,
        e0 < usize::MAX,
    ensures
        (r.0 as int, r.1 as int) == rp_bounds(s0 as int, e0 as int, start as int, end as int),
{
    let d = clamp_usize(start, s0, e0);
    let f = clamp_usize(end, s0, e0);
    let d2 = if f == 0 || d > f - 1 {
        if f >= 1 && f - 1 > s0 {
            f - 1
        } else {
            s0
        }
    } else {
        d
    };
    let f2 = if f < d2 + 1 {
        if d2 + 1 < e0 {
            d2 + 1
        } else {
            e0
        }
    } else {
        f
    };
    (d2, f2)
}

/// The indices `lo..=hi` that stand in a trace of `m` points.
pub open spec fn span_in(lo: int, hi: int, m: int) -> Seq<int> {
    Seq::new(if hi >= lo { (hi - lo + 1) as nat } else { 0 }, |k: int| lo + k).filter(|i: int| i < m)
}

/// Coordinates of the points at `idx`.
pub open spec fn coords_at(points: Seq<AuditPoint>, idx: Seq<int>) -> Seq<LatLon> {
    idx.map_values(|i: int| LatLon { lat: points[i].lat, lon: points[i].lon })
}

/// A path is drawn only from two points on.
pub open spec fn drawn(path: Seq<LatLon>) -> Seq<LatLon> {
    if path.len() < 2 {
        Seq::empty()
    } else {
        path
    }
}

/// Appends the coordinates of the points `lo..=hi` that stand in the trace.
fn push_span(path: &mut Vec<LatLon>, points: &[AuditPoint], lo: usize, hi: usize)
    requires
        hi < usize::MAX,
    ensures
        final(path)@ == old(path)@ + coords_at(points@, span_in(lo as int, hi as int, points@.len() as int)),
{
    let ghost m = points@.len() as int;
    let ghost all = Seq::new(if hi >= lo { (hi - lo + 1) as nat } else { 0 }, |k: int| lo + k);
    let ghost p = |i: int| i < m;
    let ghost start = path@;
    if lo > hi {
        assert(all.filter(p) =~= Seq::<int>::empty());
        assert(coords_at(points@, span_in(lo as int, hi as int, m)) =~= Seq::<LatLon>::empty());
        assert(path@ =~= start + Seq::<LatLon>::empty());
        return;
    }
    let mut i: usize = lo;
    assert(all.subrange(0, 0).filter(p) =~= Seq::<int>::empty());
    while i <= hi
        invariant
            lo <= i <= hi + 1,
            hi < usize::MAX,
            m == points@.len(),
            all == Seq::new((hi - lo + 1) as nat, |k: int| lo + k),
            p == (|i: int| i < m),
            path@ == start + coords_at(points@, all.subrange(0, i - lo).filter(p)),
        decreases hi + 1 - i,
    {
        let ghost k = i - lo;
        assert(all.subrange(0, k + 1) =~= all.subrange(0, k as int).push(i as int));
        proof {
            all.subrange(0, k as int).lemma_filter_push(i as int, p);
        }
        if i < points.len() {
            path.push(LatLon { lat: points[i].lat, lon: points[i].lon });
            assert(coords_at(points@, all.subrange(0, k + 1).filter(p)) =~= coords_at(
                points@,
                all.subrange(0, k as int).filter(p),
            ).push(LatLon { lat: points@[i as int].lat, lon: points@[i as int].lon }));
        }
        i = i + 1;
    }
    assert(all.subrange(0, hi - lo + 1) =~= all);
}

/// Clears a path of fewer than two points.
fn finish_path(path: Vec<LatLon>) -> (r: Vec<LatLon>)
    ensures
        r@ == drawn(path@),
{
    if path.len() < 2 {
        Vec::new()
    } else {
        path
    }
}

} // verus!

verus! {

/// Why a deletion preview is impossible, else the zone `[s0, e0]` of the
/// finding and, for a loop, its core `[cs, ce]`.
pub open spec fn preview_span_of(parts: Seq<crate::types::PartView>, kind: FindingKind, m: nat) -> Result<(usize, usize, Option<(usize, usize)>), Seq<char>> {
    if parts.len() == 0 {
        Err("Anomalie sans emprise : aperçu impossible."@)
    } else if m == 0 {
        Err("Trace vide : aucun aperçu possible."@)
    } else if parts[0].e >= m {
        Err("Emprise hors de la trace : aperçu impossible."@)
    } else if kind == FindingKind::Rp {
        if parts.len() < 2 {
            Err("Anomalie RP sans cœur : aperçu impossible."@)
        } else {
            Ok((parts[0].s, parts[0].e, Some((parts[1].s, parts[1].e))))
        }
    } else {
        Ok((parts[0].s, parts[0].e, None))
    }
}

/// Zone (and core, for a loop) of a deletion preview of `finding` on a
/// trace of `points_len` points.
pub fn preview_span(finding: &Finding, points_len: usize) -> (r: Result<(usize, usize, Option<(usize, usize)>), String>)
    ensures
        match preview_span_of(finding@.parts, finding.kind, points_len as nat) {
            Ok(v) => r matches Ok(w) && w == v,
            Err(m) => r matches Err(e) && e@ == m,
        },
{
    if finding.parts.len() == 0 {
        return Err(String::from_str("Anomalie sans emprise : aperçu impossible."));
    }
    assert(finding@.parts[0] == finding.parts@[0]@);
    let s0 = finding.parts[0].s;
    let e0 = finding.parts[0].e;
    if points_len == 0 {
        return Err(String::from_str("Trace vide : aucun aperçu possible."));
    }
    if e0 >= points_len {
        return Err(String::from_str("Emprise hors de la trace : aperçu impossible."));
    }
    match finding.kind {
        FindingKind::Rp => {
            if finding.parts.len() < 2 {
                return Err(String::from_str("Anomalie RP sans cœur : aperçu impossible."));
            }
            assert(finding@.parts[1] == finding.parts@[1]@);
            Ok((s0, e0, Some((finding.parts[1].s, finding.parts[1].e))))
        },
        FindingKind::Ar => Ok((s0, e0, None)),
    }
}

/// Style of point `i`: kept outside the deleted range (`(a, b)` exclusive
/// for a loop, `[a, b]` inclusive otherwise), anchors flagged for a loop.
pub open spec fn style_at(i: int, a: int, b: int, is_loop: bool, up: int, dn: int) -> PreviewPointStyle {
    PreviewPointStyle {
        index: i as usize,
        kept: if is_loop { i <= a || i >= b } else { i < a || i > b },
        is_anchor: is_loop && (i == up || i == dn),
    }
}

/// Styles of the points `s0..=e0`.
fn zone_styles(s0: usize, e0: usize, a: usize, b: usize, is_loop: bool, up: usize, dn: usize) -> (r: Vec<PreviewPointStyle>)
    requires
        s0 <= e0 < usize::MAX,
    ensures
        r@.len() == e0 - s0 + 1,
        forall|k: int| 0 <= k < r@.len() ==> (#[trigger] r@[k]) == style_at(s0 + k, a as int, b as int, is_loop, up as int, dn as int),
{
    let mut v: Vec<PreviewPointStyle> = Vec::new();
    let mut i: usize = s0;
    while i <= e0
        invariant
            s0 <= i <= e0 + 1,
            e0 < usize::MAX,
            v@.len() == i - s0,
            forall|k: int| 0 <= k < v@.len() ==> (#[trigger] v@[k]) == style_at(s0 + k, a as int, b as int, is_loop, up as int, dn as int),
        decreases e0 + 1 - i,
    {
        let kept = if is_loop { i <= a || i >= b } else { i < a || i > b };
        v.push(PreviewPointStyle { index: i, kept, is_anchor: is_loop && (i == up || i == dn) });
        i = i + 1;
    }
    v
}

/// A cursor on point `index` with its tooltip.
fn cursor(index: usize, kept: bool) -> (r: CursorSpot)
    ensures
        r.index == index,
        r.title@ == (if kept { "conservé"@ } else { "bord de trace"@ }),
{
    if kept {
        CursorSpot { index, title: String::from_str("conservé") }
    } else {
        CursorSpot { index, title: String::from_str("bord de trace") }
    }
}

/// Blue path of an out-and-back deletion of `[st, en]`: from the point
/// before the zone to the last kept point before the range, then from the
/// first kept point after it to the point after the zone.
pub open spec fn ar_join(points: Seq<AuditPoint>, s0: int, e0: int, st: int, en: int) -> Seq<LatLon> {
    let m = points.len() as int;
    (if st >= 1 {
        coords_at(points, span_in(if s0 >= 1 { s0 - 1 } else { 0 }, st - 1, m))
    } else {
        Seq::empty()
    }) + (if en + 1 < m {
        coords_at(points, span_in(en + 1, if e0 + 1 < m - 1 { e0 + 1 } else { m - 1 }, m))
    } else {
        Seq::empty()
    })
}

/// Preview of the deletion of `[start, end]` in the zone `[s0, e0]` of an
/// out-and-back.
pub fn preview_ar(points: &[AuditPoint], s0: usize, e0: usize, start: usize, end: usize) -> (r: DeletePlan)
    requires
        s0 <= e0 < points@.len(),
    ensures
        (r.start as int, r.end as int) == ar_bounds(s0 as int, e0 as int, start as int, end as int),
        r.points@.len() == e0 - s0 + 1,
        forall|k: int| 0 <= k < r.points@.len() ==> (#[trigger] r.points@[k]) == style_at(
            s0 + k,
            r.start as int,
            r.end as int,
            false,
            0,
            0,
        ),
        r.join@ == drawn(ar_join(points@, s0 as int, e0 as int, r.start as int, r.end as int)),
        r.red@.len() == 0,
        r.kept@.len() == 0,
        r.cursors@.len() == 2,
        r.cursors@[0].index == (if r.start >= 1 { r.start - 1 } else { r.start as int }),
        r.cursors@[0].title@ == (if r.start >= 1 { "conservé"@ } else { "bord de trace"@ }),
        r.cursors@[1].index == (if r.end + 1 < points@.len() { r.end + 1 } else { r.end as int }),
        r.cursors@[1].title@ == (if r.end + 1 < points@.len() { "conservé"@ } else { "bord de trace"@ }),
        r.count_start@ == "pt "@ + decimal((r.start + 1) as nat),
        r.count_end@ == "pt "@ + decimal((r.end + 1) as nat),
{
    let m = points.len();
    let (st, en) = clamp_ar(s0, e0, start, end);
    let styles = zone_styles(s0, e0, st, en, false, 0, 0);
    let mut join: Vec<LatLon> = Vec::new();
    let ghost part_a = if st >= 1 {
        coords_at(points@, span_in(if s0 >= 1 { s0 - 1 } else { 0 }, st - 1, m as int))
    } else {
        Seq::empty()
    };
    if st >= 1 {
        let lo = if s0 >= 1 { s0 - 1 } else { 0 };
        push_span(&mut join, points, lo, st - 1);
    }
    assert(join@ =~= part_a);
    if en + 1 < m {
        let hi = if e0 + 1 < m - 1 { e0 + 1 } else { m - 1 };
        push_span(&mut join, points, en + 1, hi);
    } else {
        assert(join@ =~= part_a + Seq::<LatLon>::empty());
    }
    let join = finish_path(join);
    let c_a = if st >= 1 { cursor(st - 1, true) } else { cursor(st, false) };
    let c_b = if en + 1 < m { cursor(en + 1, true) } else { cursor(en, false) };
    let mut cursors: Vec<CursorSpot> = Vec::new();
    cursors.push(c_a);
    cursors.push(c_b);
    let mut count_start = String::from_str("pt ");
    push_decimal(&mut count_start, st as u128 + 1);
    let mut count_end = String::from_str("pt ");
    push_decimal(&mut count_end, en as u128 + 1);
    DeletePlan {
        start: st,
        end: en,
        points: styles,
        join,
        red: Vec::new(),
        cursors,
        kept: Vec::new(),
        count_start,
        count_end,
    }
}

} // verus!

verus! {

/// Blue path of a loop deletion: the kept points before the start cursor,
/// then those after the end cursor (the direct chord between the cursors is
/// wanted).
pub open spec fn rp_join(points: Seq<AuditPoint>, s0: int, e0: int, d: int, f: int) -> Seq<LatLon> {
    let m = points.len() as int;
    coords_at(points, span_in(s0, d, m)) + coords_at(points, span_in(f, e0, m))
}

/// Red path of a loop deletion: the deleted points along the trace.
pub open spec fn rp_red(points: Seq<AuditPoint>, d: int, f: int) -> Seq<LatLon> {
    let f1 = if f >= 1 { f - 1 } else { 0 };
    if d + 1 <= f1 {
        coords_at(points, span_in(d + 1, f1, points.len() as int))
    } else {
        Seq::empty()
    }
}

/// The indices `lo..=hi`.
pub open spec fn span(lo: int, hi: int) -> Seq<usize> {
    Seq::new(if hi >= lo { (hi - lo + 1) as nat } else { 0 }, |k: int| (lo + k) as usize)
}

/// Appends the indices `lo..=hi`.
fn push_indices(v: &mut Vec<usize>, lo: usize, hi: usize)
    requires
        hi < usize::MAX,
    ensures
        final(v)@ == old(v)@ + span(lo as int, hi as int),
{
    let ghost start = v@;
    if lo > hi {
        assert(v@ =~= start + span(lo as int, hi as int));
        return;
    }
    let mut i: usize = lo;
    while i <= hi
        invariant
            lo <= i <= hi + 1,
            hi < usize::MAX,
            v@ == start + span(lo as int, i - 1),
        decreases hi + 1 - i,
    {
        v.push(i);
        i = i + 1;
        assert(v@ =~= start + span(lo as int, i - 1));
    }
}

/// `Points conservés : [a – b]`.
fn kept_range_text(a: usize, b: usize) -> (r: String)
    requires
        a < usize::MAX,
        b < usize::MAX,
    ensures
        r@ == "Points conservés : ["@ + decimal((a + 1) as nat) + " – "@ + decimal((b + 1) as nat) + "]"@,
{
    let mut t = String::from_str("Points conservés : [");
    push_decimal(&mut t, a as u128 + 1);
    t.append(" – ");
    push_decimal(&mut t, b as u128 + 1);
    t.append("]");
    t
}

/// Preview of the deletion between the cursors `start` and `end` in the
/// zone `[s0, e0]` of a roundabout loop whose routing anchors are `up` and
/// `dn`: the cursors spare what lies before the start one and after the end
/// one, everything between them is deleted.
pub fn preview_rp(points: &[AuditPoint], s0: usize, e0: usize, start: usize, end: usize, up: usize, dn: usize) -> (r: DeletePlan)
    requires
        s0 <= e0 < points@.len(),
    ensures
        (r.start as int, r.end as int) == rp_bounds(s0 as int, e0 as int, start as int, end as int),
        r.points@.len() == e0 - s0 + 1,
        forall|k: int| 0 <= k < r.points@.len() ==> (#[trigger] r.points@[k]) == style_at(
            s0 + k,
            r.start as int,
            r.end as int,
            true,
            up as int,
            dn as int,
        ),
        r.join@ == drawn(rp_join(points@, s0 as int, e0 as int, r.start as int, r.end as int)),
        r.red@ == drawn(rp_red(points@, r.start as int, r.end as int)),
        r.kept@ == span(s0 as int, r.start as int) + span(r.end as int, e0 as int),
        r.cursors@.len() == 2,
        r.cursors@[0].index == r.start && r.cursors@[0].title@ == "conservé"@,
        r.cursors@[1].index == r.end && r.cursors@[1].title@ == "conservé"@,
        r.count_start@ == "Points conservés : ["@ + decimal((s0 + 1) as nat) + " – "@ + decimal(
            (r.start + 1) as nat,
        ) + "]"@,
        r.count_end@ == "Points conservés : ["@ + decimal((r.end + 1) as nat) + " – "@ + decimal(
            (e0 + 1) as nat,
        ) + "]"@,
{
    let m = points.len();
    assert(e0 < m);
    let (d, f) = clamp_rp(s0, e0, start, end);
    let styles = zone_styles(s0, e0, d, f, true, up, dn);
    let mut join: Vec<LatLon> = Vec::new();
    push_span(&mut join, points, s0, d);
    push_span(&mut join, points, f, e0);
    assert(join@ =~= rp_join(points@, s0 as int, e0 as int, d as int, f as int));
    let join = finish_path(join);
    let mut red: Vec<LatLon> = Vec::new();
    let f1 = if f >= 1 { f - 1 } else { 0 };
    if d + 1 <= f1 {
        push_span(&mut red, points, d + 1, f1);
    }
    assert(red@ =~= rp_red(points@, d as int, f as int));
    let red = finish_path(red);
    let mut cursors: Vec<CursorSpot> = Vec::new();
    cursors.push(cursor(d, true));
    cursors.push(cursor(f, true));
    let mut kept: Vec<usize> = Vec::new();
    push_indices(&mut kept, s0, d);
    push_indices(&mut kept, f, e0);
    assert(kept@ =~= span(s0 as int, d as int) + span(f as int, e0 as int));
    let count_start = kept_range_text(s0, d);
    let count_end = kept_range_text(f, e0);
    DeletePlan { start: d, end: f, points: styles, join, red, cursors, kept, count_start, count_end }
}

} // verus!

verus! {

/// The cursors of an out-and-back deletion stay in the zone and never
/// cross.
pub proof fn law_ar_cursors_in_zone(s0: int, e0: int, start: int, end: int)
    requires
        s0 <= e0,
    ensures
        s0 <= ar_bounds(s0, e0, start, end).0 <= ar_bounds(s0, e0, start, end).1 <= e0,
{
}

/// The cursors of a loop deletion stay in the zone and, when the zone has
/// two points or more, the end cursor stays strictly after the start one.
pub proof fn law_rp_cursors_leave_a_point(s0: int, e0: int, start: int, end: int)
    requires
        s0 < e0,
    ensures
        s0 <= rp_bounds(s0, e0, start, end).0 < rp_bounds(s0, e0, start, end).1 <= e0,
{
}

} // verus!
