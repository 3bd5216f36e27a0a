//! Cleaning of an imported trace, phase by phase (isolated points off the
//! trace, roundabouts, out-and-backs): the working files of a phase, the
//! checks before a phase is validated, and the application of the validated
//! corrections to the points of the trace.
//!
//! Coordinates and elevations are carried as the bit patterns of their
//! binary64 values; the detection itself, which computes with them, is done
//! by the application.
use vstd::prelude::*;

use crate::corrections::first_match;
use crate::paths::{join_path, path_join};
use crate::patterns::{
    far_time_in, far_time_pattern, gpx_error_text, gpx_points, gpx_read, gpx_track_points, regex_compiles,
    regex_first_match, track_point_view,
};
use crate::text::{decimal, push_decimal, starts_with};

verus! {

broadcast use vstd::seq_lib::group_seq_properties;

/// Kind of a cleaning case; drives the tools offered to the user.
#[derive(Clone, Copy, Debug, PartialEq, Eq, Structural)]
pub enum CleaningCaseKind {
    /// An isolated point off the trace that comes back at once.
    Spike,
    /// A sustained turn in a roundabout.
    Roundabout,
    /// An out-and-back branch.
    OutAndBack,
    /// A case made by hand by the user.
    Manual,
    /// Fallback for working files of an earlier version.
    Unknown,
}

/// A point moved by a correction: the point at index `index` of the imported trace takes
/// these coordinates (bit patterns of binary64 values).
#[derive(Clone, Copy, Debug)]
pub struct MovedPoint {
    pub index: usize,
    pub lat: u64,
    pub lon: u64,
}

/// Corrections of a case, in indices of the trace as imported.
#[derive(Clone, Debug)]
pub struct Correction {
    /// Inclusive ranges `[from, to]` of points to delete.
    pub delete_ranges: Vec<[usize; 2]>,
    pub moved_points: Vec<MovedPoint>,
}

impl Default for Correction {
    fn default() -> (r: Self)
        ensures
            r.delete_ranges@.len() == 0 && r.moved_points@.len() == 0,
    {
        Correction { delete_ranges: Vec::new(), moved_points: Vec::new() }
    }
}

/// A cleaning case to treat.
#[derive(Clone, Debug)]
pub struct CleaningCase {
    /// Stable id (`"c1"`, ...).
    pub id: String,
    pub kind: CleaningCaseKind,
    /// Start of the zone (index in the imported trace, included).
    pub start_index: usize,
    /// End of the zone (index in the imported trace, included).
    pub end_index: usize,
    /// Turning points (indices in the imported trace).
    pub apex_indices: Vec<usize>,
    /// Largest heading gap in the case (degrees, bit pattern).
    pub bearing_delta_deg: u64,
    /// Signed cumulated angle of a roundabout (degrees, bit pattern).
    pub total_angle_deg: u64,
    /// Deletions suggested by the detection.
    pub suggested_delete_ranges: Vec<[usize; 2]>,
    /// `"pending"`, `"corrected"` or `"kept"` (false positive).
    pub state: String,
    pub correction: Correction,
}

/// Cleaning state of a trace for one phase.
#[derive(Clone, Debug)]
pub struct CleaningState {
    pub trace_id: String,
    /// Heading tolerance (degrees, bit pattern).
    pub tolerance_deg: u64,
    /// `"spike"`, `"roundabout"` or `"out_and_back"`.
    pub phase: String,
    pub cases: Vec<CleaningCase>,
}

/// A point of the trace with everything it carries.
#[derive(Clone, Debug)]
pub struct GpxPoint {
    pub lat: u64,
    pub lon: u64,
    pub ele: Option<u64>,
    pub time: Option<String>,
}

/// Default minimal number of points of a roundabout.
pub fn default_points_min() -> (r: usize)
    ensures
        r == 5,
{
    5
}

/// Default number of points of the detection window of a roundabout.
pub fn default_points_max() -> (r: usize)
    ensures
        r == 50,
{
    50
}

/// Default number of points shown before and after a detected segment.
pub fn default_marge_points() -> (r: usize)
    ensures
        r == 5,
{
    5
}

/// `{mode_dir}/traces/{trace_id}/{file}`.
pub open spec fn trace_file_of(mode_dir: Seq<char>, trace_id: Seq<char>, file: Seq<char>) -> Seq<char> {
    path_join(path_join(path_join(mode_dir, "traces"@), trace_id), file)
}

/// `{mode_dir}/traces/{trace_id}/{file}`.
fn trace_file(mode_dir: &str, trace_id: &str, file: &str) -> (r: String)
    ensures
        r@ == trace_file_of(mode_dir@, trace_id@, file@),
{
    let a = join_path(mode_dir, "traces");
    let b = join_path(a.as_str(), trace_id);
    join_path(b.as_str(), file)
}

/// Working file of a phase: `{mode_dir}/traces/{trace_id}/cleaning.{phase}.json`.
pub fn get_cleaning_path(mode_dir: &str, trace_id: &str, phase: &str) -> (r: String)
    ensures
        r@ == trace_file_of(mode_dir@, trace_id@, "cleaning."@ + phase@ + ".json"@),
{
    let mut f = String::from_str("cleaning.");
    f.append(phase);
    f.append(".json");
    trace_file(mode_dir, trace_id, f.as_str())
}

/// Decisions kept for a phase:
/// `{mode_dir}/traces/{trace_id}/cleaning.{phase}.decisions.json`.
pub fn get_decisions_path(mode_dir: &str, trace_id: &str, phase: &str) -> (r: String)
    ensures
        r@ == trace_file_of(mode_dir@, trace_id@, "cleaning."@ + phase@ + ".decisions.json"@),
{
    let mut f = String::from_str("cleaning.");
    f.append(phase);
    f.append(".decisions.json");
    trace_file(mode_dir, trace_id, f.as_str())
}

/// Detection run for a phase.
#[derive(Clone, Copy, Debug, PartialEq, Eq, Structural)]
pub enum PhaseDetection {
    /// Isolated points and out-and-backs together (first phase).
    Combined,
    Roundabouts,
    OutAndBacks,
}

/// Detection run for a phase; an unknown phase falls back to the first one.
pub open spec fn detection_of(phase: Seq<char>) -> PhaseDetection {
    if phase == "roundabout"@ {
        PhaseDetection::Roundabouts
    } else if phase == "out_and_back"@ {
        PhaseDetection::OutAndBacks
    } else {
        PhaseDetection::Combined
    }
}

/// Detection run for a phase.
pub fn detection_for_phase(phase: &str) -> (r: PhaseDetection)
    ensures
        r == detection_of(phase@),
{
    let p = String::from_str(phase);
    if p == String::from_str("roundabout") {
        PhaseDetection::Roundabouts
    } else if p == String::from_str("out_and_back") {
        PhaseDetection::OutAndBacks
    } else {
        PhaseDetection::Combined
    }
}

} // verus!

verus! {

/// Refusal of the out-and-back phase, whose validation is not available.
pub open spec fn out_and_back_refusal() -> Seq<char> {
    "Étape « Aller/Retour » non implémentée : elle produira un autre type de fichier (pas une modification du GPX)."@
}

/// Checks that a phase can be validated at all: the out-and-back phase
/// cannot.
pub fn check_phase_supported(phase: &str) -> (r: Result<(), String>)
    ensures
        phase@ == "out_and_back"@ ==> (r matches Err(e) && e@ == out_and_back_refusal()),
        phase@ != "out_and_back"@ ==> r is Ok,
{
    if String::from_str(phase) == String::from_str("out_and_back") {
        return Err(String::from_str(
            "Étape « Aller/Retour » non implémentée : elle produira un autre type de fichier (pas une modification du GPX).",
        ));
    }
    Ok(())
}

/// The case still waits for the user.
pub open spec fn is_pending_case(c: CleaningCase) -> bool {
    c.state@ == "pending"@
}

/// Number of pending cases.
pub open spec fn pending_cases(cs: Seq<CleaningCase>) -> nat {
    cs.filter(|c: CleaningCase| is_pending_case(c)).len()
}

/// Phase that follows `phase` in the cleaning pipeline.
pub open spec fn next_phase_of(phase: Seq<char>) -> Option<Seq<char>> {
    if phase == "spike"@ {
        Some("roundabout"@)
    } else if phase == "roundabout"@ {
        Some("out_and_back"@)
    } else {
        None
    }
}

/// Outcome of the checks before the validation of `phase` with a state of
/// phase `state_phase`: the next phase, or why the validation is refused
/// (state of another phase, pending cases, unknown phase).
pub open spec fn phase_plan_of(phase: Seq<char>, state_phase: Seq<char>, cs: Seq<CleaningCase>) -> Result<Seq<char>, Seq<char>> {
    if state_phase.len() > 0 && state_phase != phase {
        Err("Phase incohérente : état « "@ + state_phase + " », phase demandée « "@ + phase + " »."@)
    } else if pending_cases(cs) > 0 {
        Err("Validation impossible : "@ + decimal(pending_cases(cs)) + " cas restent à traiter."@)
    } else {
        match next_phase_of(phase) {
            Some(n) => Ok(n),
            None => Err("Phase inconnue : "@ + phase),
        }
    }
}

/// Number of pending cases.
fn count_pending(cases: &Vec<CleaningCase>) -> (n: usize)
    ensures
        n == pending_cases(cases@),
{
    let ghost p = |c: CleaningCase| is_pending_case(c);
    let pending = String::from_str("pending");
    let mut n: usize = 0;
    let mut i: usize = 0;
    while i < cases.len()
        invariant
            0 <= i <= cases@.len(),
            p == (|c: CleaningCase| is_pending_case(c)),
            pending@ == "pending"@,
            n == cases@.subrange(0, i as int).filter(p).len(),
            n <= i,
        decreases cases.len() - i,
    {
        assert(cases@.subrange(0, i + 1) =~= cases@.subrange(0, i as int).push(cases@[i as int]));
        proof {
            cases@.subrange(0, i as int).lemma_filter_push(cases@[i as int], p);
        }
        if cases[i].state == pending {
            n = n + 1;
        }
        i = i + 1;
    }
    assert(cases@.subrange(0, cases@.len() as int) =~= cases@);
    n
}

/// Checks before the validation of a phase: the state is of that phase (or
/// of none), no case is pending, the phase has a next one, which is
/// returned.
pub fn plan_phase_validation(phase: &str, state: &CleaningState) -> (r: Result<String, String>)
    ensures
        match phase_plan_of(phase@, state.phase@, state.cases@) {
            Ok(n) => r matches Ok(x) && x@ == n,
            Err(m) => r matches Err(e) && e@ == m,
        },
{
    let p = String::from_str(phase);
    if state.phase.unicode_len() > 0 && state.phase != p {
        let mut m = String::from_str("Phase incohérente : état « ");
        m.append(state.phase.as_str());
        m.append(" », phase demandée « ");
        m.append(phase);
        m.append(" ».");
        return Err(m);
    }
    let pending = count_pending(&state.cases);
    if pending > 0 {
        let mut m = String::from_str("Validation impossible : ");
        push_decimal(&mut m, pending as u128);
        m.append(" cas restent à traiter.");
        return Err(m);
    }
    if p == String::from_str("spike") {
        Ok(String::from_str("roundabout"))
    } else if p == String::from_str("roundabout") {
        Ok(String::from_str("out_and_back"))
    } else {
        let mut m = String::from_str("Phase inconnue : ");
        m.append(phase);
        Err(m)
    }
}

} // verus!

verus! {

/// The corrections of the case apply (it is not kept as is).
pub open spec fn is_active(c: CleaningCase) -> bool {
    c.state@ != "kept"@
}

/// A deletion range tagged with the id of its case: `(id, from, to)`.
pub type TaggedRange = (Seq<char>, usize, usize);

/// The deletion ranges of a case, tagged with its id.
pub open spec fn tagged_ranges(c: CleaningCase) -> Seq<TaggedRange> {
    c.correction.delete_ranges@.map_values(|r: [usize; 2]| (c.id@, r@[0], r@[1]))
}

/// The deletion ranges of the active cases, in order.
pub open spec fn active_ranges(cs: Seq<CleaningCase>) -> Seq<TaggedRange>
    decreases cs.len(),
{
    if cs.len() == 0 {
        Seq::empty()
    } else {
        active_ranges(cs.drop_last()) + if is_active(cs.last()) {
            tagged_ranges(cs.last())
        } else {
            Seq::empty()
        }
    }
}

/// The moved points of the active cases, in order.
pub open spec fn active_moves(cs: Seq<CleaningCase>) -> Seq<MovedPoint>
    decreases cs.len(),
{
    if cs.len() == 0 {
        Seq::empty()
    } else {
        active_moves(cs.drop_last()) + if is_active(cs.last()) {
            cs.last().correction.moved_points@
        } else {
            Seq::empty()
        }
    }
}

proof fn lemma_active_prefix(cs: Seq<CleaningCase>, k: int)
    requires
        0 <= k <= cs.len(),
    ensures
        active_ranges(cs.subrange(0, k)).len() <= active_ranges(cs).len(),
        active_ranges(cs).subrange(0, active_ranges(cs.subrange(0, k)).len() as int) == active_ranges(cs.subrange(0, k)),
        active_moves(cs.subrange(0, k)).len() <= active_moves(cs).len(),
        active_moves(cs).subrange(0, active_moves(cs.subrange(0, k)).len() as int) == active_moves(cs.subrange(0, k)),
    decreases cs.len(),
{
    if k == cs.len() {
        assert(cs.subrange(0, k) =~= cs);
    } else {
        lemma_active_prefix(cs.drop_last(), k);
        assert(cs.drop_last().subrange(0, k) =~= cs.subrange(0, k));
        let a = active_ranges(cs.drop_last());
        let b = active_ranges(cs);
        let la = active_ranges(cs.subrange(0, k)).len() as int;
        assert(b.subrange(0, la) =~= a.subrange(0, la));
        let am = active_moves(cs.drop_last());
        let bm = active_moves(cs);
        let lm = active_moves(cs.subrange(0, k)).len() as int;
        assert(bm.subrange(0, lm) =~= am.subrange(0, lm));
    }
}

/// The range `(id, from, to)` is not a valid inclusive range of a trace of
/// `n` points.
pub open spec fn is_invalid(t: TaggedRange, n: nat) -> bool {
    t.1 > t.2 || t.2 >= n
}

/// Point `i` lies in one of the ranges `rs`.
pub open spec fn covered(rs: Seq<TaggedRange>, i: int) -> bool
    decreases rs.len(),
{
    rs.len() > 0 && (covered(rs.drop_last(), i) || (rs.last().1 <= i && i <= rs.last().2))
}

/// Point `i` lies in one of the deletion ranges of the active cases.
pub open spec fn is_deleted_at(cs: Seq<CleaningCase>, i: int) -> bool {
    covered(active_ranges(cs), i)
}

/// Where point `i` is moved: the first moved point of index `i` among the
/// active cases.
pub open spec fn move_of(cs: Seq<CleaningCase>, i: int) -> Option<MovedPoint> {
    match first_match(active_moves(cs), |m: MovedPoint| m.index == i) {
        Some(j) => Some(active_moves(cs)[j]),
        None => None,
    }
}

/// Point `p` with the coordinates of `mv`, if any.
pub open spec fn moved(p: GpxPoint, mv: Option<MovedPoint>) -> GpxPoint {
    match mv {
        Some(m) => GpxPoint { lat: m.lat, lon: m.lon, ..p },
        None => p,
    }
}

/// The first `k` points once the corrections are applied: deleted points
/// left out, moved points moved.
pub open spec fn cleaned_upto(points: Seq<GpxPoint>, cs: Seq<CleaningCase>, k: int) -> Seq<GpxPoint>
    decreases k,
{
    if k <= 0 {
        Seq::empty()
    } else if is_deleted_at(cs, k - 1) {
        cleaned_upto(points, cs, k - 1)
    } else {
        cleaned_upto(points, cs, k - 1).push(moved(points[k - 1], move_of(cs, k - 1)))
    }
}

/// Number of points deleted among the first `k`.
pub open spec fn removed_upto(cs: Seq<CleaningCase>, k: int) -> nat
    decreases k,
{
    if k <= 0 {
        0
    } else if is_deleted_at(cs, k - 1) {
        removed_upto(cs, k - 1) + 1
    } else {
        removed_upto(cs, k - 1)
    }
}

/// Outcome of applying the corrections of the cases to the points: the
/// first invalid deletion range is refused; a result of fewer than two
/// points is refused; otherwise the kept points and the number of deleted
/// ones.
pub open spec fn corrections_outcome(points: Seq<GpxPoint>, cs: Seq<CleaningCase>) -> Result<(Seq<GpxPoint>, nat), Seq<char>> {
    let n = points.len();
    match first_match(active_ranges(cs), |t: TaggedRange| is_invalid(t, n)) {
        Some(j) => {
            let t = active_ranges(cs)[j];
            Err("Cas "@ + t.0 + " : plage de suppression invalide ["@ + decimal(t.1 as nat) + ", "@ + decimal(
                t.2 as nat,
            ) + "] ("@ + decimal(n) + " points)."@)
        },
        None => if cleaned_upto(points, cs, n as int).len() < 2 {
            Err("Le nettoyage aboutirait à moins de 2 points : correction refusée."@)
        } else {
            Ok((cleaned_upto(points, cs, n as int), removed_upto(cs, n as int)))
        },
    }
}

} // verus!

verus! {

/// Error text of an invalid deletion range.
pub open spec fn invalid_range_message(t: TaggedRange, n: nat) -> Seq<char> {
    "Cas "@ + t.0 + " : plage de suppression invalide ["@ + decimal(t.1 as nat) + ", "@ + decimal(t.2 as nat)
        + "] ("@ + decimal(n) + " points)."@
}

/// Error text of an invalid deletion range.
fn invalid_range_text(id: &String, from: usize, to: usize, n: usize) -> (r: String)
    ensures
        r@ == invalid_range_message((id@, from, to), n as nat),
{
    let mut m = String::from_str("Cas ");
    m.append(id.as_str());
    m.append(" : plage de suppression invalide [");
    push_decimal(&mut m, from as u128);
    m.append(", ");
    push_decimal(&mut m, to as u128);
    m.append("] (");
    push_decimal(&mut m, n as u128);
    m.append(" points).");
    m
}

/// Deletion flags of the `n` points of the trace, or the refusal of the
/// first invalid range.
fn mark_deletions(n: usize, cases: &Vec<CleaningCase>) -> (r: Result<Vec<bool>, String>)
    ensures
        match first_match(active_ranges(cases@), |t: TaggedRange| is_invalid(t, n as nat)) {
            Some(j) => r matches Err(e) && e@ == invalid_range_message(active_ranges(cases@)[j], n as nat),
            None => r matches Ok(d) && d@.len() == n && forall|i: int| 0 <= i < n ==> d@[i] == is_deleted_at(cases@, i),
        },
{
    let ghost pred = |t: TaggedRange| is_invalid(t, n as nat);
    let mut deleted: Vec<bool> = Vec::new();
    let mut k: usize = 0;
    while k < n
        invariant
            0 <= k <= n,
            deleted@.len() == k,
            forall|x: int| 0 <= x < k ==> !deleted@[x],
        decreases n - k,
    {
        deleted.push(false);
        k = k + 1;
    }
    let kept = String::from_str("kept");
    let mut ci: usize = 0;
    assert(cases@.subrange(0, 0) =~= Seq::<CleaningCase>::empty());
    while ci < cases.len()
        invariant
            0 <= ci <= cases@.len(),
            deleted@.len() == n,
            kept@ == "kept"@,
            pred == (|t: TaggedRange| is_invalid(t, n as nat)),
            forall|j: int| 0 <= j < active_ranges(cases@.subrange(0, ci as int)).len() ==> !pred(
                #[trigger] active_ranges(cases@.subrange(0, ci as int))[j],
            ),
            forall|x: int| 0 <= x < n ==> deleted@[x] == covered(active_ranges(cases@.subrange(0, ci as int)), x),
        decreases cases.len() - ci,
    {
        let ghost done = active_ranges(cases@.subrange(0, ci as int));
        let ghost c = cases@[ci as int];
        assert(cases@.subrange(0, ci + 1).drop_last() =~= cases@.subrange(0, ci as int));
        assert(cases@.subrange(0, ci + 1).last() == c);
        if cases[ci].state != kept {
            let ranges = &cases[ci].correction.delete_ranges;
            let ghost tr = tagged_ranges(c);
            let mut ri: usize = 0;
            assert(done + tr.subrange(0, 0) =~= done);
            while ri < ranges.len()
                invariant
                    0 <= ri <= ranges@.len(),
                    ci < cases@.len(),
                    c == cases@[ci as int],
                    ranges@ == c.correction.delete_ranges@,
                    tr == tagged_ranges(c),
                    is_active(c),
                    done == active_ranges(cases@.subrange(0, ci as int)),
                    deleted@.len() == n,
                    pred == (|t: TaggedRange| is_invalid(t, n as nat)),
                    forall|j: int| 0 <= j < (done + tr.subrange(0, ri as int)).len() ==> !pred(
                        #[trigger] (done + tr.subrange(0, ri as int))[j],
                    ),
                    forall|x: int| 0 <= x < n ==> deleted@[x] == covered(done + tr.subrange(0, ri as int), x),
                decreases ranges.len() - ri,
            {
                let r = ranges[ri];
                let from = r[0];
                let to = r[1];
                let ghost cur = done + tr.subrange(0, ri as int);
                let ghost t = tr[ri as int];
                assert(t == (c.id@, from, to));
                assert(cur.push(t) =~= done + tr.subrange(0, ri + 1));
                if from > to || to >= n {
                    proof {
                        lemma_active_prefix(cases@, ci + 1);
                        let all = active_ranges(cases@);
                        let pre = active_ranges(cases@.subrange(0, ci + 1));
                        assert(cases@.subrange(0, ci + 1).drop_last() =~= cases@.subrange(0, ci as int));
                        assert(cases@.subrange(0, ci + 1).last() == c);
                        assert(pre == done + tr);
                        assert(all.subrange(0, pre.len() as int) == pre);
                        let idx = cur.len() as int;
                        assert(all[idx] == pre[idx]);
                        assert(pre[idx] == t);
                        assert forall|j: int| 0 <= j < idx implies !pred(#[trigger] all[j]) by {
                            assert(all[j] == pre[j]);
                            assert(pre[j] == cur[j]);
                        }
                        crate::corrections::lemma_first_match_at(all, pred, idx);
                    }
                    return Err(invalid_range_text(&cases[ci].id, from, to, n));
                }
                let mut i: usize = from;
                while i <= to
                    invariant
                        from <= i <= to + 1,
                        to < n,
                        deleted@.len() == n,
                        forall|x: int| 0 <= x < n ==> deleted@[x] == (covered(cur, x) || (from <= x < i)),
                    decreases to + 1 - i,
                {
                    deleted.set(i, true);
                    i = i + 1;
                }
                proof {
                    assert(cur.push(t).drop_last() =~= cur);
                    assert(cur.push(t).last() == t);
                    assert forall|x: int| 0 <= x < n implies deleted@[x] == covered(cur.push(t), x) by {
                        assert(covered(cur.push(t), x) == (covered(cur, x) || (from <= x && x <= to)));
                    }
                    assert forall|j: int| 0 <= j < cur.push(t).len() implies !pred(#[trigger] cur.push(t)[j]) by {
                        if j < cur.len() {
                            assert(cur.push(t)[j] == cur[j]);
                        }
                    }
                }
                ri = ri + 1;
            }
            assert(tr.subrange(0, ranges@.len() as int) =~= tr);
            assert(active_ranges(cases@.subrange(0, ci + 1)) == done + tr);
        } else {
            assert(active_ranges(cases@.subrange(0, ci + 1)) =~= done);
        }
        ci = ci + 1;
    }
    assert(cases@.subrange(0, cases@.len() as int) =~= cases@);
    proof {
        crate::corrections::lemma_first_match_none(active_ranges(cases@), pred);
    }
    Ok(deleted)
}

} // verus!

verus! {

/// Where point `i` is moved by the active cases, if anywhere.
fn move_for(cases: &Vec<CleaningCase>, i: usize) -> (r: Option<MovedPoint>)
    ensures
        r == move_of(cases@, i as int),
{
    let ghost pred = |m: MovedPoint| m.index == i as int;
    let kept = String::from_str("kept");
    let mut ci: usize = 0;
    assert(cases@.subrange(0, 0) =~= Seq::<CleaningCase>::empty());
    while ci < cases.len()
        invariant
            0 <= ci <= cases@.len(),
            kept@ == "kept"@,
            pred == (|m: MovedPoint| m.index == i as int),
            forall|j: int| 0 <= j < active_moves(cases@.subrange(0, ci as int)).len() ==> !pred(
                #[trigger] active_moves(cases@.subrange(0, ci as int))[j],
            ),
        decreases cases.len() - ci,
    {
        let ghost done = active_moves(cases@.subrange(0, ci as int));
        let ghost c = cases@[ci as int];
        assert(cases@.subrange(0, ci + 1).drop_last() =~= cases@.subrange(0, ci as int));
        assert(cases@.subrange(0, ci + 1).last() == c);
        if cases[ci].state != kept {
            let mv = &cases[ci].correction.moved_points;
            let ghost ms = mv@;
            let mut mi: usize = 0;
            while mi < mv.len()
                invariant
                    0 <= mi <= mv@.len(),
                    ci < cases@.len(),
                    c == cases@[ci as int],
                    ms == mv@,
                    ms == c.correction.moved_points@,
                    is_active(c),
                    done == active_moves(cases@.subrange(0, ci as int)),
                    pred == (|m: MovedPoint| m.index == i as int),
                    forall|j: int| 0 <= j < done.len() ==> !pred(#[trigger] done[j]),
                    forall|j: int| 0 <= j < mi ==> !pred(#[trigger] ms[j]),
                decreases mv.len() - mi,
            {
                if mv[mi].index == i {
                    proof {
                        lemma_active_prefix(cases@, ci + 1);
                        let all = active_moves(cases@);
                        let pre = active_moves(cases@.subrange(0, ci + 1));
                        assert(cases@.subrange(0, ci + 1).drop_last() =~= cases@.subrange(0, ci as int));
                        assert(cases@.subrange(0, ci + 1).last() == c);
                        assert(pre == done + ms);
                        assert(all.subrange(0, pre.len() as int) == pre);
                        let idx = done.len() + mi;
                        assert(all[idx] == pre[idx]);
                        assert(pre[idx] == ms[mi as int]);
                        assert forall|j: int| 0 <= j < idx implies !pred(#[trigger] all[j]) by {
                            assert(all[j] == pre[j]);
                            if j < done.len() {
                                assert(pre[j] == done[j]);
                            } else {
                                assert(pre[j] == ms[j - done.len()]);
                            }
                        }
                        crate::corrections::lemma_first_match_at(all, pred, idx);
                    }
                    return Some(mv[mi]);
                }
                mi = mi + 1;
            }
            proof {
                let pre = active_moves(cases@.subrange(0, ci + 1));
                assert(pre == done + ms);
                assert forall|j: int| 0 <= j < pre.len() implies !pred(#[trigger] pre[j]) by {
                    if j < done.len() {
                        assert(pre[j] == done[j]);
                    } else {
                        assert(pre[j] == ms[j - done.len()]);
                    }
                }
            }
        } else {
            assert(active_moves(cases@.subrange(0, ci + 1)) =~= done);
        }
        ci = ci + 1;
    }
    assert(cases@.subrange(0, cases@.len() as int) =~= cases@);
    proof {
        crate::corrections::lemma_first_match_none(active_moves(cases@), pred);
    }
    None
}

/// A copy of the point, moved by `mv` if given.
fn moved_point(p: &GpxPoint, mv: Option<MovedPoint>) -> (r: GpxPoint)
    ensures
        r == moved(*p, mv),
{
    let time = match &p.time {
        Some(t) => Some(t.clone()),
        None => None,
    };
    match mv {
        Some(m) => GpxPoint { lat: m.lat, lon: m.lon, ele: p.ele, time },
        None => GpxPoint { lat: p.lat, lon: p.lon, ele: p.ele, time },
    }
}

/// Applies the corrections of the validated cases to the imported points of
/// the trace: points in a deletion range of a case not kept as is are left
/// out, moved points take their new coordinates. Returns the kept points and
/// the number of deleted ones; an invalid range, or fewer than two points
/// left, is refused.
pub fn apply_corrections(points: &Vec<GpxPoint>, cases: &Vec<CleaningCase>) -> (r: Result<(Vec<GpxPoint>, usize), String>)
    ensures
        match corrections_outcome(points@, cases@) {
            Ok((kept, removed)) => r matches Ok((v, n)) && v@ == kept && n == removed,
            Err(m) => r matches Err(e) && e@ == m,
        },
{
    let n = points.len();
    let deleted = match mark_deletions(n, cases) {
        Ok(d) => d,
        Err(e) => return Err(e),
    };
    let mut result: Vec<GpxPoint> = Vec::new();
    let mut removed: usize = 0;
    let mut i: usize = 0;
    while i < n
        invariant
            0 <= i <= n,
            n == points@.len(),
            deleted@.len() == n,
            forall|x: int| 0 <= x < n ==> deleted@[x] == is_deleted_at(cases@, x),
            result@ == cleaned_upto(points@, cases@, i as int),
            removed == removed_upto(cases@, i as int),
            removed <= i,
        decreases n - i,
    {
        if deleted[i] {
            removed = removed + 1;
        } else {
            let mv = move_for(cases, i);
            let p = moved_point(&points[i], mv);
            result.push(p);
        }
        i = i + 1;
    }
    if result.len() < 2 {
        return Err(String::from_str("Le nettoyage aboutirait à moins de 2 points : correction refusée."));
    }
    Ok((result, removed))
}

} // verus!

verus! {

/// The case changes the trace: not kept as is, with a deletion or a move.
pub open spec fn changes_trace(c: CleaningCase) -> bool {
    is_active(c) && (c.correction.delete_ranges@.len() > 0 || c.correction.moved_points@.len() > 0)
}

/// Some case changes the trace; otherwise the phase is validated without
/// rewriting the GPX.
pub fn has_changes(cases: &Vec<CleaningCase>) -> (r: bool)
    ensures
        r == exists|i: int| 0 <= i < cases@.len() && changes_trace(#[trigger] cases@[i]),
{
    let kept = String::from_str("kept");
    let mut i: usize = 0;
    while i < cases.len()
        invariant
            0 <= i <= cases@.len(),
            kept@ == "kept"@,
            forall|j: int| 0 <= j < i ==> !changes_trace(#[trigger] cases@[j]),
        decreases cases.len() - i,
    {
        let c = &cases[i];
        if c.state != kept && (c.correction.delete_ranges.len() > 0 || c.correction.moved_points.len() > 0) {
            assert(changes_trace(cases@[i as int]));
            return true;
        }
        i = i + 1;
    }
    false
}

/// A validated case that leaves its zone in the trace (kept as is, or
/// validated without any correction): its decision is remembered.
pub open spec fn is_remembered(c: CleaningCase) -> bool {
    c.state@ != "pending"@ && (c.state@ == "kept"@ || (c.correction.delete_ranges@.len() == 0
        && c.correction.moved_points@.len() == 0))
}

/// Positions of the cases whose decision is remembered, in order.
pub fn remembered_cases(cases: &Vec<CleaningCase>) -> (r: Vec<usize>)
    ensures
        r@ == Seq::new(cases@.len() as nat, |i: int| i).filter(|i: int| is_remembered(cases@[i])).map_values(
            |i: int| i as usize,
        ),
{
    let ghost idx = Seq::new(cases@.len() as nat, |i: int| i);
    let ghost p = |i: int| is_remembered(cases@[i]);
    let kept = String::from_str("kept");
    let pending = String::from_str("pending");
    let mut out: Vec<usize> = Vec::new();
    let mut i: usize = 0;
    assert(idx.subrange(0, 0).filter(p) =~= Seq::<int>::empty());
    while i < cases.len()
        invariant
            0 <= i <= cases@.len(),
            idx == Seq::new(cases@.len() as nat, |i: int| i),
            p == (|i: int| is_remembered(cases@[i])),
            kept@ == "kept"@,
            pending@ == "pending"@,
            out@ == idx.subrange(0, i as int).filter(p).map_values(|i: int| i as usize),
        decreases cases.len() - i,
    {
        let c = &cases[i];
        let keep = c.state != pending && (c.state == kept || (c.correction.delete_ranges.len() == 0
            && c.correction.moved_points.len() == 0));
        assert(keep == p(i as int));
        assert(idx.subrange(0, i + 1) =~= idx.subrange(0, i as int).push(i as int));
        proof {
            idx.subrange(0, i as int).lemma_filter_push(i as int, p);
        }
        if keep {
            out.push(i);
        }
        assert(out@ =~= idx.subrange(0, i + 1).filter(p).map_values(|i: int| i as usize));
        i = i + 1;
    }
    assert(idx.subrange(0, cases@.len() as int) =~= idx);
    out
}

/// `d` is `c` re-marked kept: state `"kept"`, no correction, everything
/// else unchanged.
pub open spec fn is_remarked_kept(d: CleaningCase, c: CleaningCase) -> bool {
    &&& d.state@ == "kept"@
    &&& d.correction.delete_ranges@.len() == 0
    &&& d.correction.moved_points@.len() == 0
    &&& d.id == c.id && d.kind == c.kind && d.start_index == c.start_index && d.end_index == c.end_index
    &&& d.apex_indices@ == c.apex_indices@ && d.bearing_delta_deg == c.bearing_delta_deg
    &&& d.total_angle_deg == c.total_angle_deg && d.suggested_delete_ranges@ == c.suggested_delete_ranges@
}

/// Re-marks as kept the pending cases whose zone matches a decision
/// remembered for the phase (`near[i]` for case `i`): they take the state
/// `"kept"` and lose their correction; the other cases are unchanged.
pub fn remark_kept(cases: &mut Vec<CleaningCase>, near: &Vec<bool>)
    requires
        near@.len() == old(cases)@.len(),
    ensures
        final(cases)@.len() == old(cases)@.len(),
        forall|i: int| 0 <= i < old(cases)@.len() ==> if is_pending_case(old(cases)@[i]) && near@[i] {
            is_remarked_kept(#[trigger] final(cases)@[i], old(cases)@[i])
        } else {
            final(cases)@[i] == old(cases)@[i]
        },
{
    let ghost c0 = cases@;
    let pending = String::from_str("pending");
    let mut i: usize = 0;
    while i < cases.len()
        invariant
            0 <= i <= cases@.len(),
            cases@.len() == c0.len(),
            near@.len() == c0.len(),
            pending@ == "pending"@,
            forall|j: int| 0 <= j < i ==> if is_pending_case(c0[j]) && near@[j] {
                is_remarked_kept(#[trigger] cases@[j], c0[j])
            } else {
                cases@[j] == c0[j]
            },
            forall|j: int| i <= j < c0.len() ==> (#[trigger] cases@[j]) == c0[j],
        decreases cases.len() - i,
    {
        if cases[i].state == pending && near[i] {
            cases[i].state = String::from_str("kept");
            cases[i].correction = Correction { delete_ranges: Vec::new(), moved_points: Vec::new() };
        }
        i = i + 1;
    }
}

} // verus!

verus! {

/// The cleaned GPX document (1.1, one track of one segment) around the point
/// blocks `<trkpt>...</trkpt>` already written.
pub open spec fn cleaned_gpx_of(name: Seq<char>, blocks: Seq<Seq<char>>) -> Seq<char> {
    "<?xml version=\"1.0\" encoding=\"UTF-8\"?>\n"@
        + "<gpx creator=\"VisuGPS2 - Nettoyage de trace\" version=\"1.1\" xmlns=\"http://www.topografix.com/GPX/1/1\">\n"@
        + "  <trk>\n"@ + "    <name>"@ + crate::export::xml_escaped(name) + "</name>\n"@ + "    <trkseg>\n"@
        + crate::text::joined(blocks) + "    </trkseg>\n"@ + "  </trk>\n"@ + "</gpx>\n"@
}

/// The cleaned GPX document around the point blocks.
pub fn build_cleaned_gpx(point_blocks: &Vec<String>, name: &str) -> (r: String)
    ensures
        r@ == cleaned_gpx_of(name@, crate::export::string_views(point_blocks@)),
{
    let mut s = String::from_str("<?xml version=\"1.0\" encoding=\"UTF-8\"?>\n");
    s.append(
        "<gpx creator=\"VisuGPS2 - Nettoyage de trace\" version=\"1.1\" xmlns=\"http://www.topografix.com/GPX/1/1\">\n",
    );
    s.append("  <trk>\n");
    s.append("    <name>");
    let n = crate::export::xml_escape(name);
    s.append(n.as_str());
    s.append("</name>\n");
    s.append("    <trkseg>\n");
    let ghost head = s@;
    let ghost blocks = crate::export::string_views(point_blocks@);
    let mut i: usize = 0;
    assert(blocks.subrange(0, 0) =~= Seq::<Seq<char>>::empty());
    while i < point_blocks.len()
        invariant
            0 <= i <= point_blocks@.len(),
            blocks == crate::export::string_views(point_blocks@),
            s@ == head + crate::text::joined(blocks.subrange(0, i as int)),
        decreases point_blocks.len() - i,
    {
        s.append(point_blocks[i].as_str());
        assert(blocks.subrange(0, i + 1).drop_last() =~= blocks.subrange(0, i as int));
        assert(blocks[i as int] == point_blocks@[i as int]@);
        i = i + 1;
    }
    assert(blocks.subrange(0, point_blocks@.len() as int) =~= blocks);
    s.append("    </trkseg>\n");
    s.append("  </trk>\n");
    s.append("</gpx>\n");
    s
}

} // verus!

verus! {

proof fn lemma_no_active(cs: Seq<CleaningCase>)
    requires
        forall|i: int| 0 <= i < cs.len() ==> !is_active(#[trigger] cs[i]),
    ensures
        active_ranges(cs).len() == 0,
        active_moves(cs).len() == 0,
    decreases cs.len(),
{
    if cs.len() > 0 {
        assert forall|i: int| 0 <= i < cs.drop_last().len() implies !is_active(#[trigger] cs.drop_last()[i]) by {
            assert(cs.drop_last()[i] == cs[i]);
        }
        lemma_no_active(cs.drop_last());
        assert(!is_active(cs[cs.len() - 1]));
    }
}

proof fn lemma_cleaned_len(points: Seq<GpxPoint>, cs: Seq<CleaningCase>, k: int)
    requires
        0 <= k,
    ensures
        cleaned_upto(points, cs, k).len() + removed_upto(cs, k) == k,
    decreases k,
{
    if k > 0 {
        lemma_cleaned_len(points, cs, k - 1);
    }
}

proof fn lemma_cleaned_untouched(points: Seq<GpxPoint>, cs: Seq<CleaningCase>, k: int)
    requires
        0 <= k <= points.len(),
        active_ranges(cs).len() == 0,
        active_moves(cs).len() == 0,
    ensures
        cleaned_upto(points, cs, k) == points.subrange(0, k),
        removed_upto(cs, k) == 0,
    decreases k,
{
    if k > 0 {
        lemma_cleaned_untouched(points, cs, k - 1);
        assert(!is_deleted_at(cs, k - 1));
        crate::corrections::lemma_first_match_none(active_moves(cs), |m: MovedPoint| m.index == k - 1);
        assert(points.subrange(0, k - 1).push(points[k - 1]) =~= points.subrange(0, k));
    }
}

/// Cases kept as is (false positives) change nothing: with at least two
/// points, applying their corrections gives back every point unchanged and
/// deletes none.
pub proof fn law_kept_cases_change_nothing(points: Seq<GpxPoint>, cs: Seq<CleaningCase>)
    requires
        forall|i: int| 0 <= i < cs.len() ==> !is_active(#[trigger] cs[i]),
        points.len() >= 2,
    ensures
        corrections_outcome(points, cs) == Ok::<(Seq<GpxPoint>, nat), Seq<char>>((points, 0nat)),
{
    lemma_no_active(cs);
    lemma_cleaned_untouched(points, cs, points.len() as int);
    assert(points.subrange(0, points.len() as int) =~= points);
    crate::corrections::lemma_first_match_none(active_ranges(cs), |t: TaggedRange| is_invalid(t, points.len()));
}

/// No case that changes nothing puts a deletion range or a moved point among
/// the active corrections.
proof fn lemma_no_change(cs: Seq<CleaningCase>)
    requires
        forall|i: int| 0 <= i < cs.len() ==> !changes_trace(#[trigger] cs[i]),
    ensures
        active_ranges(cs).len() == 0,
        active_moves(cs).len() == 0,
    decreases cs.len(),
{
    if cs.len() > 0 {
        assert forall|i: int| 0 <= i < cs.drop_last().len() implies !changes_trace(#[trigger] cs.drop_last()[i]) by {
            assert(cs.drop_last()[i] == cs[i]);
        }
        lemma_no_change(cs.drop_last());
        assert(!changes_trace(cs[cs.len() - 1]));
    }
}

/// A case not kept as is that deletes a range or moves a point changes the
/// trace. A phase none of whose cases changes the trace leaves the points as
/// they are: applied to a trace of at least two points, its corrections give
/// every point back unchanged and delete none, so the GPX need not be
/// rewritten.
pub proof fn law_no_change_keeps_points(points: Seq<GpxPoint>, cs: Seq<CleaningCase>)
    ensures
        forall|i: int|
            0 <= i < cs.len() && (#[trigger] cs[i]).state@ != "kept"@ && (cs[i].correction.delete_ranges@.len() > 0
                || cs[i].correction.moved_points@.len() > 0) ==> changes_trace(cs[i]),
        (forall|i: int| 0 <= i < cs.len() ==> !changes_trace(#[trigger] cs[i])) && points.len() >= 2
            ==> corrections_outcome(points, cs) == Ok::<(Seq<GpxPoint>, nat), Seq<char>>((points, 0nat)),
{
    if (forall|i: int| 0 <= i < cs.len() ==> !changes_trace(#[trigger] cs[i])) && points.len() >= 2 {
        lemma_no_change(cs);
        lemma_cleaned_untouched(points, cs, points.len() as int);
        assert(points.subrange(0, points.len() as int) =~= points);
        crate::corrections::lemma_first_match_none(active_ranges(cs), |t: TaggedRange| is_invalid(t, points.len()));
    }
}

/// The points kept among the first `m` begin with those kept among the
/// first `k`, for `k <= m`.
proof fn lemma_cleaned_prefix(points: Seq<GpxPoint>, cs: Seq<CleaningCase>, k: int, m: int)
    requires
        0 <= k <= m,
    ensures
        cleaned_upto(points, cs, k).len() <= cleaned_upto(points, cs, m).len(),
        forall|j: int|
            0 <= j < cleaned_upto(points, cs, k).len() ==> #[trigger] cleaned_upto(points, cs, m)[j]
                == cleaned_upto(points, cs, k)[j],
    decreases m - k,
{
    if k < m {
        lemma_cleaned_prefix(points, cs, k, m - 1);
    }
}

/// Applying the corrections keeps, in order, every point that no active
/// deletion range covers: the point of index `k` becomes the kept point of
/// index `k` less the number of points deleted before it. A moved point
/// takes the latitude and longitude of its move and keeps its elevation and
/// its timestamp; a point that no case moves is kept unchanged.
pub proof fn law_kept_points_keep_elevation_and_time(points: Seq<GpxPoint>, cs: Seq<CleaningCase>)
    ensures
        corrections_outcome(points, cs) matches Ok((kept, removed)) ==> forall|k: int|
            0 <= k < points.len() && !#[trigger] is_deleted_at(cs, k) ==> 0 <= k - removed_upto(cs, k) < kept.len()
                && match move_of(cs, k) {
                Some(m) => kept[k - removed_upto(cs, k)] == (GpxPoint {
                    lat: m.lat,
                    lon: m.lon,
                    ele: points[k].ele,
                    time: points[k].time,
                }),
                None => kept[k - removed_upto(cs, k)] == points[k],
            },
{
    let n = points.len() as int;
    assert forall|k: int| 0 <= k < n && !#[trigger] is_deleted_at(cs, k) implies 0 <= k - removed_upto(cs, k)
        < cleaned_upto(points, cs, n).len() && cleaned_upto(points, cs, n)[k - removed_upto(cs, k)] == moved(
        points[k],
        move_of(cs, k),
    ) by {
        lemma_cleaned_len(points, cs, k);
        lemma_cleaned_prefix(points, cs, k + 1, n);
        assert(cleaned_upto(points, cs, k + 1) == cleaned_upto(points, cs, k).push(moved(points[k], move_of(cs, k))));
    }
}

/// Every point is either kept or counted as deleted: the kept points and
/// the deleted ones add up to the points of the trace.
pub proof fn law_corrections_account_for_every_point(points: Seq<GpxPoint>, cs: Seq<CleaningCase>)
    ensures
        corrections_outcome(points, cs) matches Ok((kept, removed)) ==> kept.len() + removed == points.len(),
{
    lemma_cleaned_len(points, cs, points.len() as int);
}

} // verus!

verus! {

/// Error text of a GPX document the cleaning cannot read.
pub open spec fn invalid_gpx_prefix() -> Seq<char> {
    "GPX invalide : "@
}

/// `GPX invalide : ` followed by `detail`.
fn invalid_gpx(detail: &str) -> (r: String)
    ensures
        r@ == invalid_gpx_prefix() + detail@,
{
    let mut m = String::from_str("GPX invalide : ");
    m.append(detail);
    m
}

/// The points of the GPX text `raw` as the cleaning reads them: every point
/// of every segment of every track, in file order, with its coordinates,
/// elevation and time. A document the GPX reader cannot read, or that
/// `far_time_pattern` leaves out, is refused as invalid.
pub fn track_points(raw: &str) -> (r: Result<Vec<GpxPoint>, String>)
    ensures
        r is Ok <==> (regex_compiles(far_time_pattern()) && regex_first_match(far_time_pattern(), raw@) is None
            && gpx_read(raw@) is Some),
        r matches Ok(v) ==> gpx_track_points(raw@) == Some(v@.map_values(|p: GpxPoint| track_point_view(p))),
        r matches Err(e) ==> if regex_compiles(far_time_pattern()) {
            starts_with(e@, invalid_gpx_prefix())
        } else {
            starts_with(e@, "Motif interne invalide : "@)
        },
{
    match far_time_in(raw) {
        Ok(false) => {},
        Ok(true) => {
            let m = invalid_gpx("date ou entité non prise en charge");
            assert(m@.subrange(0, invalid_gpx_prefix().len() as int) =~= invalid_gpx_prefix());
            return Err(m);
        },
        Err(e) => return Err(crate::export::pattern_error(&e)),
    }
    match gpx_points(raw) {
        Ok(p) => Ok(p),
        Err(e) => {
            let t = gpx_error_text(&e);
            let m = invalid_gpx(t.as_str());
            assert(m@.subrange(0, invalid_gpx_prefix().len() as int) =~= invalid_gpx_prefix());
            Err(m)
        },
    }
}

} // verus!
