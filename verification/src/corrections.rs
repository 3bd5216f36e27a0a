//! Correction engine of the working trace: realignment of the findings'
//! indices through stable point ids, deletion of a range, routing, nesting
//! guard, absorption of false positives, false-positive marking and undo.
//!
//! Every reference of a finding to a point goes through the point's stable
//! id; after an edit, indices are obtained by mapping ids back to positions, never by index
//! arithmetic.
use std::collections::HashMap;

use vstd::prelude::*;

use crate::text::{decimal, push_decimal, push_signed_decimal, signed_decimal};
use crate::types::{
    AuditPoint, AuditState, CorrectionType, Finding, FindingKind, FindingPart, FindingStatus,
    FindingView, LatLon, PairView, PartView, UndoDelete, UndoRecord, UndoRoute, finding_views,
};

verus! {

broadcast use vstd::seq_lib::group_seq_properties;

// ─── Generic search ──────────────────────────────────────────────────

/// Index of the first element of `s` satisfying `p`.
pub open spec fn first_match<A>(s: Seq<A>, p: spec_fn(A) -> bool) -> Option<int>
    decreases s.len(),
{
    if s.len() == 0 {
        None
    } else if p(s[0]) {
        Some(0)
    } else {
        match first_match(s.drop_first(), p) {
            Some(i) => Some(i + 1),
            None => None,
        }
    }
}

/// `first_match` is the least index whose element satisfies `p`.
pub proof fn lemma_first_match<A>(s: Seq<A>, p: spec_fn(A) -> bool)
    ensures
        match first_match(s, p) {
            Some(i) => 0 <= i < s.len() && p(s[i]) && forall|j: int| 0 <= j < i ==> !p(#[trigger] s[j]),
            None => forall|j: int| 0 <= j < s.len() ==> !p(#[trigger] s[j]),
        },
    decreases s.len(),
{
    if s.len() > 0 && !p(s[0]) {
        lemma_first_match(s.drop_first(), p);
        assert forall|j: int| 1 <= j < s.len() implies s[j] == s.drop_first()[j - 1] by {}
    }
}

/// The least index whose element satisfies `p` is what `first_match` gives.
pub proof fn lemma_first_match_at<A>(s: Seq<A>, p: spec_fn(A) -> bool, i: int)
    requires
        0 <= i < s.len(),
        p(s[i]),
        forall|j: int| 0 <= j < i ==> !p(#[trigger] s[j]),
    ensures
        first_match(s, p) == Some(i),
{
    lemma_first_match(s, p);
}

/// When no element satisfies `p`, `first_match` gives nothing.
pub proof fn lemma_first_match_none<A>(s: Seq<A>, p: spec_fn(A) -> bool)
    requires
        forall|j: int| 0 <= j < s.len() ==> !p(#[trigger] s[j]),
    ensures
        first_match(s, p) is None,
{
    lemma_first_match(s, p);
}

// ─── Id lookup in the working trace ──────────────────────────────────

/// Index of the point carrying `id` (the last such point when several do).
pub open spec fn index_of_id(points: Seq<AuditPoint>, id: u32) -> Option<int>
    decreases points.len(),
{
    if points.len() == 0 {
        None
    } else if points.last().id == id {
        Some(points.len() - 1)
    } else {
        index_of_id(points.drop_last(), id)
    }
}

pub proof fn lemma_index_of_id(points: Seq<AuditPoint>, id: u32)
    ensures
        match index_of_id(points, id) {
            Some(i) => 0 <= i < points.len() && points[i].id == id && forall|j: int|
                i < j < points.len() ==> (#[trigger] points[j]).id != id,
            None => forall|j: int| 0 <= j < points.len() ==> (#[trigger] points[j]).id != id,
        },
    decreases points.len(),
{
    if points.len() > 0 && points.last().id != id {
        lemma_index_of_id(points.drop_last(), id);
        assert forall|j: int| 0 <= j < points.len() - 1 implies points.drop_last()[j] == points[j] by {}
    }
}

/// Index of the point carrying `id`, as a `usize`.
pub open spec fn index_of_id_usize(points: Seq<AuditPoint>, id: u32) -> Option<usize> {
    match index_of_id(points, id) {
        Some(i) => Some(i as usize),
        None => None,
    }
}

/// Index of the point carrying the first id of `ids`.
pub open spec fn index_of_first_id(points: Seq<AuditPoint>, ids: Seq<u32>) -> Option<usize> {
    if ids.len() == 0 { None } else { index_of_id_usize(points, ids[0]) }
}

/// Index of the point carrying the last id of `ids`.
pub open spec fn index_of_last_id(points: Seq<AuditPoint>, ids: Seq<u32>) -> Option<usize> {
    if ids.len() == 0 { None } else { index_of_id_usize(points, ids.last()) }
}

/// Index of the point carrying `id`, when there is an id.
pub open spec fn index_of_opt_id(points: Seq<AuditPoint>, id: Option<u32>) -> Option<usize> {
    match id {
        Some(x) => index_of_id_usize(points, x),
        None => None,
    }
}

/// What `m` gives for `id`.
pub open spec fn lookup_of(m: Map<u32, usize>, id: u32) -> Option<usize> {
    if m.contains_key(id) {
        Some(m[id])
    } else {
        None
    }
}

/// `m` maps each id of `points` to the index of the point carrying it (the
/// last one when several do), and knows no other id.
pub open spec fn indexes(m: Map<u32, usize>, points: Seq<AuditPoint>) -> bool {
    forall|id: u32| #[trigger] lookup_of(m, id) == index_of_id_usize(points, id)
}

/// The map from each id of `points` to the index of the point carrying it.
fn index_points(points: &[AuditPoint]) -> (m: HashMap<u32, usize>)
    ensures
        indexes(m@, points@),
{
    broadcast use vstd::std_specs::hash::group_hash_axioms;
    let mut m: HashMap<u32, usize> = HashMap::new();
    let mut i: usize = 0;
    assert forall|id: u32| #[trigger] lookup_of(m@, id) == index_of_id_usize(points@.subrange(0, 0), id) by {
        assert(points@.subrange(0, 0).len() == 0);
    }
    while i < points.len()
        invariant
            0 <= i <= points@.len(),
            indexes(m@, points@.subrange(0, i as int)),
        decreases points.len() - i,
    {
        let x = points[i].id;
        let ghost pre = points@.subrange(0, i as int);
        let ghost nxt = points@.subrange(0, i + 1);
        let ghost mo = m@;
        m.insert(x, i);
        assert(m@ == mo.insert(x, i));
        assert(nxt.drop_last() =~= pre);
        assert(nxt.last() == points@[i as int]);
        assert forall|id: u32| #[trigger] lookup_of(m@, id) == index_of_id_usize(nxt, id) by {
            assert(lookup_of(mo, id) == index_of_id_usize(pre, id));
        }
        i = i + 1;
    }
    assert(points@.subrange(0, points@.len() as int) =~= points@);
    m
}

/// Index of the point of `points` carrying `id`, looked up in `index`.
fn found(index: &HashMap<u32, usize>, Ghost(points): Ghost<Seq<AuditPoint>>, id: u32) -> (r: Option<usize>)
    requires
        indexes(index@, points),
    ensures
        r == index_of_id_usize(points, id),
{
    let r = find_in(index, id);
    assert(lookup_of(index@, id) == index_of_id_usize(points, id));
    r
}

/// Index of the point carrying `id`, through the map of the trace's ids.
fn find_in(m: &HashMap<u32, usize>, id: u32) -> (r: Option<usize>)
    ensures
        r == lookup_of(m@, id),
{
    broadcast use vstd::std_specs::hash::group_hash_axioms;
    match m.get(&id) {
        Some(v) => Some(*v),
        None => None,
    }
}

// ─── Overlap of a finding with a range ───────────────────────────────

/// The zone of `g` (its first part) intersects `[zs, ze]`.
pub open spec fn overlaps(g: FindingView, zs: int, ze: int) -> bool {
    g.parts.len() > 0 && g.parts[0].e >= zs && g.parts[0].s <= ze
}

/// `g` is a pending finding, other than `current`, whose zone intersects
/// `[zs, ze]`.
pub open spec fn blocks(g: FindingView, current: Seq<char>, zs: int, ze: int) -> bool {
    g.id != current && g.status == FindingStatus::Pending && overlaps(g, zs, ze)
}

/// `g` is a false positive, other than `current`, whose zone intersects
/// `[zs, ze]`.
pub open spec fn absorbs(g: FindingView, current: Seq<char>, zs: int, ze: int) -> bool {
    g.id != current && g.status == FindingStatus::Fp && overlaps(g, zs, ze)
}

/// Id of the finding that refuses a correction of `current` over `[zs, ze]`:
/// the first pending finding other than `current` whose zone intersects the
/// range; none for an empty range.
pub open spec fn blocker(fs: Seq<FindingView>, current: Seq<char>, zs: int, ze: int) -> Option<Seq<char>> {
    if zs > ze {
        None
    } else {
        match first_match(fs, |g: FindingView| blocks(g, current, zs, ze)) {
            Some(i) => Some(fs[i].id),
            None => None,
        }
    }
}

/// Position of the first finding whose id is `id`.
pub open spec fn position_of(fs: Seq<FindingView>, id: Seq<char>) -> Option<int> {
    first_match(fs, |g: FindingView| g.id == id)
}

/// Nesting guard: the id of the first pending finding (other than
/// `current_id`) whose zone intersects `[zs, ze]`, if any. False positives
/// and corrected findings never block; an empty range never blocks.
pub fn nesting_guard(findings: &[Finding], current_id: &str, zs: usize, ze: usize) -> (r: Option<String>)
    ensures
        match r {
            Some(b) => blocker(finding_views(findings@), current_id@, zs as int, ze as int) == Some(b@),
            None => blocker(finding_views(findings@), current_id@, zs as int, ze as int) is None,
        },
{
    let ghost fs = finding_views(findings@);
    let ghost p = |g: FindingView| blocks(g, current_id@, zs as int, ze as int);
    if zs > ze {
        return None;
    }
    let current = current_id.to_owned();
    let mut i: usize = 0;
    while i < findings.len()
        invariant
            0 <= i <= findings.len(),
            fs == finding_views(findings@),
            current@ == current_id@,
            zs <= ze,
            p == (|g: FindingView| blocks(g, current_id@, zs as int, ze as int)),
            forall|j: int| 0 <= j < i ==> !p(#[trigger] fs[j]),
        decreases findings.len() - i,
    {
        let g = &findings[i];
        assert(fs[i as int] == g@);
        if !(g.id == current) && g.status == FindingStatus::Pending && g.parts.len() > 0 {
            let p0 = &g.parts[0];
            assert(g@.parts[0] == p0@);
            if p0.e >= zs && p0.s <= ze {
                proof {
                    lemma_first_match_at(fs, p, i as int);
                }
                return Some(g.id.clone());
            }
        }
        i = i + 1;
    }
    proof {
        lemma_first_match_none(fs, p);
    }
    None
}

/// Removes from `findings` the false positives (other than `current_id`)
/// whose zone intersects `[zs, ze]`, and returns them in their order. An
/// empty range absorbs nothing.
pub fn absorb_fp_findings(findings: &mut Vec<Finding>, current_id: &str, zs: usize, ze: usize) -> (absorbed: Vec<Finding>)
    ensures
        zs > ze ==> absorbed@.len() == 0 && final(findings)@ == old(findings)@,
        zs <= ze ==> finding_views(absorbed@) == finding_views(old(findings)@).filter(
            |g: FindingView| absorbs(g, current_id@, zs as int, ze as int),
        ),
        zs <= ze ==> finding_views(final(findings)@) == finding_views(old(findings)@).filter(
            |g: FindingView| !absorbs(g, current_id@, zs as int, ze as int),
        ),
{
    if zs > ze {
        return Vec::new();
    }
    let ghost old_fs = finding_views(findings@);
    let ghost n = findings@.len();
    let ghost p = |g: FindingView| absorbs(g, current_id@, zs as int, ze as int);
    let ghost q = |g: FindingView| !absorbs(g, current_id@, zs as int, ze as int);
    let current = current_id.to_owned();
    let mut absorbed: Vec<Finding> = Vec::new();
    let mut keep: Vec<Finding> = Vec::new();
    while findings.len() > 0
        invariant
            current@ == current_id@,
            zs <= ze,
            p == (|g: FindingView| absorbs(g, current_id@, zs as int, ze as int)),
            q == (|g: FindingView| !absorbs(g, current_id@, zs as int, ze as int)),
            findings@.len() <= n,
            n == old_fs.len(),
            finding_views(findings@) == old_fs.subrange(n - findings@.len(), n as int),
            finding_views(absorbed@) == old_fs.subrange(0, n - findings@.len()).filter(p),
            finding_views(keep@) == old_fs.subrange(0, n - findings@.len()).filter(q),
        decreases findings.len(),
    {
        let ghost k = n - findings@.len();
        let ghost before = findings@;
        assert(finding_views(before)[0] == old_fs[k]);
        let g = findings.remove(0);
        assert(g == before[0]);
        assert(g@ == old_fs[k]);
        assert(old_fs.subrange(0, k + 1) == old_fs.subrange(0, k).push(old_fs[k]));
        proof {
            old_fs.subrange(0, k).lemma_filter_push(old_fs[k], p);
            old_fs.subrange(0, k).lemma_filter_push(old_fs[k], q);
        }
        let mut inter = false;
        if g.parts.len() > 0 {
            assert(g@.parts[0] == g.parts@[0]@);
            inter = g.parts[0].e >= zs && g.parts[0].s <= ze;
        }
        assert(inter == overlaps(g@, zs as int, ze as int));
        if !(g.id == current) && g.status == FindingStatus::Fp && inter {
            assert(p(old_fs[k]));
            absorbed.push(g);
            assert(finding_views(absorbed@) =~= old_fs.subrange(0, k).filter(p).push(old_fs[k]));
            assert(finding_views(keep@) =~= old_fs.subrange(0, k + 1).filter(q));
        } else {
            assert(!p(old_fs[k]));
            keep.push(g);
            assert(finding_views(keep@) =~= old_fs.subrange(0, k).filter(q).push(old_fs[k]));
            assert(finding_views(absorbed@) =~= old_fs.subrange(0, k + 1).filter(p));
        }
        assert(finding_views(findings@) =~= old_fs.subrange(k + 1, n as int)) by {
            assert forall|j: int| 0 <= j < findings@.len() implies finding_views(findings@)[j] == old_fs.subrange(k + 1, n as int)[j] by {
                assert(findings@[j] == before[j + 1]);
                assert(finding_views(before)[j + 1] == old_fs[k + 1 + j]);
            }
        }
    }
    assert(old_fs.subrange(0, n as int) == old_fs);
    *findings = keep;
    absorbed
}

} // verus!

verus! {

// ─── Display texts of a finding ──────────────────────────────────────

/// `"s"` after a count greater than one.
pub open spec fn plural(k: nat) -> Seq<char> {
    if k > 1 { "s"@ } else { Seq::empty() }
}

/// Caption of one pair: `pts A↔B (D m)`, with 1-based point numbers.
pub open spec fn pair_item_text(p: PairView) -> Seq<char> {
    "pts "@ + decimal((p.a + 1) as nat) + "↔"@ + decimal((p.b + 1) as nat) + " ("@ + p.d.text + " m)"@
}

/// Captions of the pairs, separated by `" · "`.
pub open spec fn pairs_text(pairs: Seq<PairView>) -> Seq<char>
    decreases pairs.len(),
{
    if pairs.len() == 0 {
        Seq::empty()
    } else if pairs.len() == 1 {
        pair_item_text(pairs[0])
    } else {
        pairs_text(pairs.drop_last()) + " · "@ + pair_item_text(pairs.last())
    }
}

/// Heading gap shown in an AR summary (`0` when absent).
pub open spec fn ecart_text(f: FindingView) -> Seq<char> {
    match f.ecart {
        Some(m) => m.text,
        None => "0"@,
    }
}

/// Cumulated rotation of an RP (`0` when absent).
pub open spec fn total_of(f: FindingView) -> int {
    match f.total_angle {
        Some(t) => t as int,
        None => 0,
    }
}

/// Rotation caption of an RP (empty when absent).
pub open spec fn turn_of(f: FindingView) -> Seq<char> {
    match f.turn_text {
        Some(t) => t,
        None => Seq::empty(),
    }
}

/// Summary line of a finding.
pub open spec fn summary_text(f: FindingView) -> Seq<char> {
    let k = f.pairs.len();
    match f.kind {
        FindingKind::Rp => "jonction pt "@ + decimal((f.peak + 1) as nat) + " · "@ + signed_decimal(total_of(f))
            + "° ("@ + turn_of(f) + ") · "@ + decimal(k) + " paire"@ + plural(k),
        FindingKind::Ar => "sommet pt "@ + decimal((f.peak + 1) as nat) + " · "@ + decimal(k) + " paire"@
            + plural(k) + " · écart "@ + ecart_text(f) + "°"@,
    }
}

/// Caption of the zone part of a finding.
pub open spec fn zone_text(f: FindingView) -> Seq<char> {
    let k = f.pairs.len();
    match f.kind {
        FindingKind::Rp => if k > 0 {
            "superpositions : "@ + pairs_text(f.pairs)
        } else {
            "refermeture par croisement de trace"@
        },
        FindingKind::Ar => if k > 0 {
            "paires miroirs : "@ + pairs_text(f.pairs)
        } else {
            "retournement isolé, aucune paire miroir"@
        },
    }
}

/// Caption of the core part of an RP.
pub open spec fn core_text(f: FindingView) -> Seq<char> {
    "cœur : angle cumulé "@ + signed_decimal(total_of(f)) + "° ("@ + turn_of(f) + ")"@
}

/// `p` with its caption replaced.
pub open spec fn with_text(p: PartView, text: Seq<char>) -> PartView {
    PartView { text, ..p }
}

/// A finding whose texts carrying point numbers are rebuilt: the summary,
/// the zone caption and, for an RP, the core caption. Measures are never
/// recomputed; the core caption of an AR carries no number and is kept.
pub open spec fn with_texts(f: FindingView) -> FindingView {
    let parts = if f.parts.len() == 0 {
        f.parts
    } else {
        let p0 = f.parts.update(0, with_text(f.parts[0], zone_text(f)));
        if f.kind == FindingKind::Rp && p0.len() >= 2 {
            p0.update(1, with_text(p0[1], core_text(f)))
        } else {
            p0
        }
    };
    FindingView { summary: summary_text(f), parts, ..f }
}

fn push_succ(s: &mut String, n: usize)
    ensures
        final(s)@ == old(s)@ + decimal((n + 1) as nat),
{
    let m: u128 = n as u128 + 1;
    push_decimal(s, m);
}

fn push_pair_item(s: &mut String, p: &crate::types::FindingPair)
    ensures
        final(s)@ == old(s)@ + pair_item_text(p@),
{
    let ghost start = s@;
    s.append("pts ");
    push_succ(s, p.a);
    s.append("↔");
    push_succ(s, p.b);
    s.append(" (");
    s.append(p.d.text.as_str());
    s.append(" m)");
    assert(s@ =~= start + pair_item_text(p@));
}

fn push_pairs_text(s: &mut String, pairs: &Vec<crate::types::FindingPair>)
    ensures
        final(s)@ == old(s)@ + pairs_text(crate::types::pair_views(pairs@)),
{
    let ghost start = s@;
    let ghost pv = crate::types::pair_views(pairs@);
    let mut i: usize = 0;
    assert(pv.subrange(0, 0) =~= Seq::<PairView>::empty());
    while i < pairs.len()
        invariant
            0 <= i <= pairs.len(),
            pv == crate::types::pair_views(pairs@),
            s@ == start + pairs_text(pv.subrange(0, i as int)),
        decreases pairs.len() - i,
    {
        let ghost before = s@;
        let ghost pre = pv.subrange(0, i as int);
        let ghost next = pv.subrange(0, i + 1);
        assert(next.drop_last() =~= pre);
        assert(next.last() == pairs@[i as int]@);
        if i > 0 {
            s.append(" · ");
        }
        push_pair_item(s, &pairs[i]);
        if i == 0 {
            assert(next.len() == 1);
            assert(s@ =~= start + pairs_text(next));
        } else {
            assert(s@ =~= start + pairs_text(next));
        }
        i = i + 1;
    }
    assert(pv.subrange(0, pairs.len() as int) =~= pv);
}

/// Summary line of `f`.
fn summary_of(f: &Finding) -> (r: String)
    ensures
        r@ == summary_text(f@),
{
    let k = f.pairs.len();
    let mut s = String::new();
    match f.kind {
        FindingKind::Rp => {
            let total: i32 = match f.total_angle {
                Some(t) => t,
                None => 0,
            };
            s.append("jonction pt ");
            push_succ(&mut s, f.peak);
            s.append(" · ");
            push_signed_decimal(&mut s, total);
            s.append("° (");
            match &f.turn_text {
                Some(t) => s.append(t.as_str()),
                None => {},
            }
            s.append(") · ");
            push_decimal(&mut s, k as u128);
            s.append(" paire");
            if k > 1 {
                s.append("s");
            }
            assert(s@ =~= summary_text(f@));
        },
        FindingKind::Ar => {
            s.append("sommet pt ");
            push_succ(&mut s, f.peak);
            s.append(" · ");
            push_decimal(&mut s, k as u128);
            s.append(" paire");
            if k > 1 {
                s.append("s");
            }
            s.append(" · écart ");
            match &f.ecart {
                Some(m) => s.append(m.text.as_str()),
                None => s.append("0"),
            }
            s.append("°");
            assert(s@ =~= summary_text(f@));
        },
    }
    s
}

/// Caption of the zone part of `f`.
fn zone_text_of(f: &Finding) -> (r: String)
    ensures
        r@ == zone_text(f@),
{
    let mut s = String::new();
    match f.kind {
        FindingKind::Rp => {
            if f.pairs.len() > 0 {
                s.append("superpositions : ");
                push_pairs_text(&mut s, &f.pairs);
            } else {
                s.append("refermeture par croisement de trace");
            }
        },
        FindingKind::Ar => {
            if f.pairs.len() > 0 {
                s.append("paires miroirs : ");
                push_pairs_text(&mut s, &f.pairs);
            } else {
                s.append("retournement isolé, aucune paire miroir");
            }
        },
    }
    assert(s@ =~= zone_text(f@));
    s
}

/// Caption of the core part of an RP.
fn core_text_of(f: &Finding) -> (r: String)
    ensures
        r@ == core_text(f@),
{
    let total: i32 = match f.total_angle {
        Some(t) => t,
        None => 0,
    };
    let mut s = String::new();
    s.append("cœur : angle cumulé ");
    push_signed_decimal(&mut s, total);
    s.append("° (");
    match &f.turn_text {
        Some(t) => s.append(t.as_str()),
        None => {},
    }
    s.append(")");
    assert(s@ =~= core_text(f@));
    s
}

/// Rebuilds the texts of `f` that carry point numbers.
fn rebuild_texts(f: &mut Finding)
    ensures
        final(f)@ == with_texts(old(f)@),
{
    let ghost f0 = f@;
    let summary = summary_of(f);
    if f.parts.len() > 0 {
        let zone = zone_text_of(f);
        let core = core_text_of(f);
        let is_rp = f.kind == FindingKind::Rp;
        f.parts[0].text = zone;
        if is_rp && f.parts.len() >= 2 {
            f.parts[1].text = core;
        }
    }
    f.summary = summary;
    assert(f@.parts =~= with_texts(f0).parts);
    assert(f@ =~= with_texts(f0));
}

} // verus!

verus! {

// ─── Realignment ─────────────────────────────────────────────────────

/// A pair whose indices are recomputed from its ids; kept as is when one of
/// its points is gone.
pub open spec fn remapped_pair(points: Seq<AuditPoint>, p: PairView) -> PairView {
    match (index_of_id_usize(points, p.aid), index_of_id_usize(points, p.bid)) {
        (Some(a), Some(b)) => PairView { a, b, ..p },
        _ => p,
    }
}

/// `[a1, b1, a2, b2, ...]` of a list of pairs.
pub open spec fn pair_indices(pairs: Seq<PairView>) -> Seq<usize> {
    pairs.flat_map(|p: PairView| seq![p.a, p.b])
}

/// The zone, peak and (for an RP) core of `f` are found in `points`, and
/// `f` has a zone part.
pub open spec fn remappable(points: Seq<AuditPoint>, f: FindingView) -> bool {
    &&& index_of_first_id(points, f.zone_ids) is Some
    &&& index_of_last_id(points, f.zone_ids) is Some
    &&& index_of_id_usize(points, f.peak_id) is Some
    &&& f.parts.len() > 0
}

/// `n - 1`, or `0` for `0`.
pub open spec fn pred_sat(n: int) -> int {
    if n > 0 { n - 1 } else { 0 }
}

/// Core part of a finding after realignment: the core ids for an RP (kept
/// when one is gone or when there is no core part), the neighbourhood of the
/// peak for an AR.
pub open spec fn remapped_core(points: Seq<AuditPoint>, f: FindingView, pk: int, parts: Seq<PartView>) -> Seq<PartView> {
    if f.kind == FindingKind::Rp {
        match (index_of_first_id(points, f.core_ids), index_of_last_id(points, f.core_ids)) {
            (Some(cs), Some(ce)) => if parts.len() >= 2 {
                parts.update(1, PartView { s: cs, e: ce, ..parts[1] })
            } else {
                parts
            },
            _ => parts,
        }
    } else if parts.len() >= 2 {
        let e = if pk + 1 <= pred_sat(points.len() as int) { pk + 1 } else { pred_sat(points.len() as int) };
        parts.update(1, PartView { s: pred_sat(pk) as usize, e: e as usize, ..parts[1] })
    } else {
        parts
    }
}

/// Indices of a remappable finding recomputed from its stable ids.
pub open spec fn remapped(points: Seq<AuditPoint>, f: FindingView) -> FindingView {
    let s = index_of_first_id(points, f.zone_ids)->0;
    let e = index_of_last_id(points, f.zone_ids)->0;
    let pk = index_of_id_usize(points, f.peak_id)->0;
    let parts0 = f.parts.update(0, PartView { s, e, ..f.parts[0] });
    let pairs = f.pairs.map_values(|p: PairView| remapped_pair(points, p));
    FindingView {
        peak: pk,
        parts: remapped_core(points, f, pk as int, parts0),
        pairs,
        pair_idx: pair_indices(pairs),
        ctx: crate::types::FindingContext {
            up: index_of_opt_id(points, f.ctx_ids.up),
            dn: index_of_opt_id(points, f.ctx_ids.dn),
        },
        ..f
    }
}

/// A finding realigned on `points`: a corrected finding is never touched; a
/// finding whose zone, peak or zone part cannot be found is left unchanged;
/// otherwise its indices are recomputed from its ids and its texts rebuilt.
pub open spec fn sync_finding(points: Seq<AuditPoint>, f: FindingView) -> FindingView {
    if f.status == FindingStatus::Corrected || !remappable(points, f) {
        f
    } else {
        with_texts(remapped(points, f))
    }
}

/// Position key of a finding: the start of its zone part (0 without one).
pub open spec fn start_key(f: FindingView) -> usize {
    if f.parts.len() > 0 { f.parts[0].s } else { 0 }
}

/// Where `f` goes in `sorted`: after every finding whose key is not greater.
pub open spec fn insertion_point(sorted: Seq<FindingView>, key: usize) -> int {
    match first_match(sorted, |g: FindingView| start_key(g) > key) {
        Some(i) => i,
        None => sorted.len() as int,
    }
}

/// Stable sort of findings by position key: each finding is inserted, in
/// list order, after all findings already placed whose key is not greater.
pub open spec fn sorted_by_start(s: Seq<FindingView>) -> Seq<FindingView>
    decreases s.len(),
{
    if s.len() == 0 {
        Seq::empty()
    } else {
        let t = sorted_by_start(s.drop_last());
        t.insert(insertion_point(t, start_key(s.last())), s.last())
    }
}

/// Every finding realigned on `points`, then the list stably sorted by
/// position.
pub open spec fn synced(points: Seq<AuditPoint>, fs: Seq<FindingView>) -> Seq<FindingView> {
    sorted_by_start(fs.map_values(|f: FindingView| sync_finding(points, f)))
}

fn start_of(f: &Finding) -> (k: usize)
    ensures
        k == start_key(f@),
{
    if f.parts.len() > 0 {
        assert(f@.parts[0] == f.parts@[0]@);
        f.parts[0].s
    } else {
        0
    }
}

/// Stable sort of the findings by increasing position (`parts[0].s`).
pub fn sort_findings_by_position(findings: &mut Vec<Finding>)
    ensures
        finding_views(final(findings)@) == sorted_by_start(finding_views(old(findings)@)),
{
    let ghost s = finding_views(findings@);
    let ghost n = findings@.len();
    let mut out: Vec<Finding> = Vec::new();
    assert(s.subrange(0, 0) =~= Seq::<FindingView>::empty());
    while findings.len() > 0
        invariant
            n == s.len(),
            findings@.len() <= n,
            finding_views(findings@) == s.subrange(n - findings@.len(), n as int),
            finding_views(out@) == sorted_by_start(s.subrange(0, n - findings@.len())),
        decreases findings.len(),
    {
        let ghost k = n - findings@.len();
        let ghost before = findings@;
        assert(finding_views(before)[0] == s[k]);
        let f = findings.remove(0);
        assert(f@ == s[k]);
        let key = start_of(&f);
        let ghost t = finding_views(out@);
        let ghost p = |g: FindingView| start_key(g) > key;
        let mut j: usize = 0;
        while j < out.len()
            invariant
                0 <= j <= out.len(),
                t == finding_views(out@),
                p == (|g: FindingView| start_key(g) > key),
                forall|i: int| 0 <= i < j ==> !p(#[trigger] t[i]),
            ensures
                j < out.len() ==> p(t[j as int]),
            decreases out.len() - j,
        {
            let kj = start_of(&out[j]);
            assert(t[j as int] == out@[j as int]@);
            if kj > key {
                break;
            }
            j = j + 1;
        }
        proof {
            if j < out.len() {
                lemma_first_match_at(t, p, j as int);
            } else {
                lemma_first_match_none(t, p);
            }
            let next = s.subrange(0, k + 1);
            assert(next.drop_last() =~= s.subrange(0, k));
            assert(next.last() == s[k]);
        }
        out.insert(j, f);
        assert(finding_views(out@) =~= t.insert(j as int, s[k]));
        assert(finding_views(findings@) =~= s.subrange(k + 1, n as int)) by {
            assert forall|i: int| 0 <= i < findings@.len() implies finding_views(findings@)[i] == s.subrange(k + 1, n as int)[i] by {
                assert(findings@[i] == before[i + 1]);
                assert(finding_views(before)[i + 1] == s[k + 1 + i]);
            }
        }
    }
    assert(s.subrange(0, n as int) =~= s);
    *findings = out;
}

} // verus!

verus! {

proof fn lemma_locate_bound(points: Seq<AuditPoint>, id: u32)
    requires
        points.len() <= usize::MAX,
    ensures
        index_of_id_usize(points, id) matches Some(i) ==> i < points.len() && points[i as int].id == id,
{
    lemma_index_of_id(points, id);
}

/// Indices of the pairs recomputed from their ids.
fn remap_pairs(points: &[AuditPoint], index: &HashMap<u32, usize>, pairs: &Vec<crate::types::FindingPair>) -> (r: Vec<crate::types::FindingPair>)
    requires
        indexes(index@, points@),
    ensures
        crate::types::pair_views(r@) == crate::types::pair_views(pairs@).map_values(
            |p: PairView| remapped_pair(points@, p),
        ),
{
    let ghost pv = crate::types::pair_views(pairs@);
    let mut out: Vec<crate::types::FindingPair> = Vec::new();
    let mut i: usize = 0;
    while i < pairs.len()
        invariant
            0 <= i <= pairs.len(),
            pv == crate::types::pair_views(pairs@),
            indexes(index@, points@),
            out@.len() == i,
            forall|j: int| 0 <= j < i ==> (#[trigger] out@[j])@ == remapped_pair(points@, pv[j]),
        decreases pairs.len() - i,
    {
        let p = &pairs[i];
        assert(pv[i as int] == p@);
        let a = find_in(index, p.aid);
        let b = find_in(index, p.bid);
        assert(lookup_of(index@, p.aid) == index_of_id_usize(points@, p.aid));
        assert(lookup_of(index@, p.bid) == index_of_id_usize(points@, p.bid));
        let (na, nb) = match (a, b) {
            (Some(a), Some(b)) => (a, b),
            _ => (p.a, p.b),
        };
        let q = crate::types::FindingPair {
            aid: p.aid,
            bid: p.bid,
            a: na,
            b: nb,
            d: crate::types::Measure { value: p.d.value, text: p.d.text.clone() },
        };
        assert(q@ =~= remapped_pair(points@, pv[i as int]));
        out.push(q);
        i = i + 1;
    }
    assert(crate::types::pair_views(out@) =~= pv.map_values(|p: PairView| remapped_pair(points@, p)));
    out
}

/// `[a1, b1, a2, b2, ...]` of `pairs`.
fn pair_index_list(pairs: &Vec<crate::types::FindingPair>) -> (r: Vec<usize>)
    ensures
        r@ == pair_indices(crate::types::pair_views(pairs@)),
{
    let ghost pv = crate::types::pair_views(pairs@);
    let ghost f = |p: PairView| seq![p.a, p.b];
    let mut out: Vec<usize> = Vec::new();
    let mut i: usize = 0;
    assert(pv.take(0).flat_map(f) =~= Seq::<usize>::empty()) by {
        assert(pv.take(0) =~= Seq::<PairView>::empty());
        assert(Seq::<PairView>::empty().map_values(f) =~= Seq::<Seq<usize>>::empty());

    }
    while i < pairs.len()
        invariant
            0 <= i <= pairs.len(),
            pv == crate::types::pair_views(pairs@),
            f == (|p: PairView| seq![p.a, p.b]),
            out@ == pv.take(i as int).flat_map(f),
        decreases pairs.len() - i,
    {
        proof {
            pv.lemma_flat_map_take_append(f, i as int);
        }
        assert(pv[i as int] == pairs@[i as int]@);
        out.push(pairs[i].a);
        out.push(pairs[i].b);
        assert(out@ =~= pv.take(i + 1).flat_map(f));
        i = i + 1;
    }
    assert(pv.take(pairs.len() as int) =~= pv);
    out
}

/// Realigns one finding on `points` (see `sync_finding`).
fn sync_one(points: &[AuditPoint], index: &HashMap<u32, usize>, f: Finding) -> (g: Finding)
    requires
        indexes(index@, points@),
    ensures
        g@ == sync_finding(points@, f@),
{
    let mut f = f;
    let ghost f0 = f@;
    if f.status == FindingStatus::Corrected {
        return f;
    }
    let s = if f.zone_ids.len() > 0 { found(index, Ghost(points@), f.zone_ids[0]) } else { None };
    let e = if f.zone_ids.len() > 0 { found(index, Ghost(points@), f.zone_ids[f.zone_ids.len() - 1]) } else { None };
    let pk = found(index, Ghost(points@), f.peak_id);
    let m0 = points.len();
    proof {
        lemma_locate_bound(points@, f.peak_id);
    }
    let (s, e, pk) = match (s, e, pk) {
        (Some(s), Some(e), Some(pk)) => (s, e, pk),
        _ => {
            return f;
        },
    };
    if f.parts.len() == 0 {
        return f;
    }
    assert(remappable(points@, f0));
    f.parts[0].s = s;
    f.parts[0].e = e;
    f.peak = pk;
    let ghost parts0 = f0.parts.update(0, PartView { s, e, ..f0.parts[0] });
    assert(part_views_of(&f) =~= parts0);
    if f.kind == FindingKind::Rp {
        let cs = if f.core_ids.len() > 0 { found(index, Ghost(points@), f.core_ids[0]) } else { None };
        let ce = if f.core_ids.len() > 0 { found(index, Ghost(points@), f.core_ids[f.core_ids.len() - 1]) } else { None };
        match (cs, ce) {
            (Some(cs), Some(ce)) => {
                if f.parts.len() >= 2 {
                    f.parts[1].s = cs;
                    f.parts[1].e = ce;
                }
            },
            _ => {},
        }
    } else if f.parts.len() >= 2 {
        let m = points.len();
        let lo = if pk > 0 { pk - 1 } else { 0 };
        let cap = if m > 0 { m - 1 } else { 0 };
        let hi = if pk + 1 <= cap { pk + 1 } else { cap };
        f.parts[1].s = lo;
        f.parts[1].e = hi;
    }
    assert(part_views_of(&f) =~= remapped_core(points@, f0, pk as int, parts0));
    let pairs = remap_pairs(points, index, &f.pairs);
    let idx = pair_index_list(&pairs);
    f.pairs = pairs;
    f.pair_idx = idx;
    f.ctx.up = match f.ctx_ids.up {
        Some(id) => found(index, Ghost(points@), id),
        None => None,
    };
    f.ctx.dn = match f.ctx_ids.dn {
        Some(id) => found(index, Ghost(points@), id),
        None => None,
    };
    assert(f@ =~= remapped(points@, f0));
    rebuild_texts(&mut f);
    f
}

spec fn part_views_of(f: &Finding) -> Seq<PartView> {
    crate::types::part_views(f.parts@)
}

/// Realigns the indices of the findings on `points` and re-sorts them by
/// position (see `synced`). Corrected findings are never touched; a finding
/// whose zone, peak or zone part is lost keeps its indices; a pair whose
/// points are lost keeps its indices.
pub fn sync_indexes(points: &[AuditPoint], findings: &mut Vec<Finding>)
    ensures
        finding_views(final(findings)@) == synced(points@, finding_views(old(findings)@)),
{
    let ghost s = finding_views(findings@);
    let ghost n = findings@.len();
    let ghost sf = |f: FindingView| sync_finding(points@, f);
    let index = index_points(points);
    let mut out: Vec<Finding> = Vec::new();
    while findings.len() > 0
        invariant
            indexes(index@, points@),
            n == s.len(),
            findings@.len() <= n,
            sf == (|f: FindingView| sync_finding(points@, f)),
            finding_views(findings@) == s.subrange(n - findings@.len(), n as int),
            finding_views(out@) == s.subrange(0, n - findings@.len()).map_values(sf),
        decreases findings.len(),
    {
        let ghost k = n - findings@.len();
        let ghost before = findings@;
        assert(finding_views(before)[0] == s[k]);
        let f = findings.remove(0);
        assert(f@ == s[k]);
        let g = sync_one(points, &index, f);
        assert(g@ == sf(s[k]));
        let ghost prev = out@;
        out.push(g);
        assert(finding_views(out@) =~= finding_views(prev).push(sf(s[k])));
        assert(s.subrange(0, k + 1) =~= s.subrange(0, k).push(s[k]));
        assert(finding_views(out@) =~= s.subrange(0, k + 1).map_values(sf));
        assert(finding_views(findings@) =~= s.subrange(k + 1, n as int)) by {
            assert forall|i: int| 0 <= i < findings@.len() implies finding_views(findings@)[i] == s.subrange(k + 1, n as int)[i] by {
                assert(findings@[i] == before[i + 1]);
                assert(finding_views(before)[i + 1] == s[k + 1 + i]);
            }
        }
    }
    assert(s.subrange(0, n as int) =~= s);
    sort_findings_by_position(&mut out);
    *findings = out;
}

/// Post-edit chain: realignment of the findings and re-sort by position.
pub fn after_trace_edit(points: &[AuditPoint], findings: &mut Vec<Finding>)
    ensures
        finding_views(final(findings)@) == synced(points@, finding_views(old(findings)@)),
{
    sync_indexes(points, findings);
}

} // verus!

verus! {

// ─── Refusal messages ────────────────────────────────────────────────

pub open spec fn msg_unknown(id: Seq<char>) -> Seq<char> {
    "Anomalie inconnue : "@ + id + "."@
}

pub open spec fn msg_already_treated(label: Seq<char>) -> Seq<char> {
    "Anomalie « "@ + label + " » déjà traitée."@
}

pub open spec fn msg_nested(blocking: Seq<char>) -> Seq<char> {
    "Correction refusée : traitez d'abord « "@ + blocking
        + " », imbriquée dans cette zone (ou marquez-la faux positif)."@
}

fn unknown_message(id: &str) -> (r: String)
    ensures
        r@ == msg_unknown(id@),
{
    let mut s = String::from_str("Anomalie inconnue : ");
    s.append(id);
    s.append(".");
    assert(s@ =~= msg_unknown(id@));
    s
}

fn already_treated_message(label: &String) -> (r: String)
    ensures
        r@ == msg_already_treated(label@),
{
    let mut s = String::from_str("Anomalie « ");
    s.append(label.as_str());
    s.append(" » déjà traitée.");
    assert(s@ =~= msg_already_treated(label@));
    s
}

fn nested_message(blocking: &String) -> (r: String)
    ensures
        r@ == msg_nested(blocking@),
{
    let mut s = String::from_str("Correction refusée : traitez d'abord « ");
    s.append(blocking.as_str());
    s.append(" », imbriquée dans cette zone (ou marquez-la faux positif).");
    assert(s@ =~= msg_nested(blocking@));
    s
}

/// Position of the first finding whose id is `id`.
fn find_position(findings: &Vec<Finding>, id: &String) -> (r: Option<usize>)
    ensures
        match r {
            Some(i) => i < findings@.len() && position_of(finding_views(findings@), id@) == Some(i as int),
            None => position_of(finding_views(findings@), id@) is None,
        },
{
    let ghost fs = finding_views(findings@);
    let ghost p = |g: FindingView| g.id == id@;
    let mut i: usize = 0;
    while i < findings.len()
        invariant
            0 <= i <= findings.len(),
            fs == finding_views(findings@),
            p == (|g: FindingView| g.id == id@),
            forall|j: int| 0 <= j < i ==> !p(#[trigger] fs[j]),
        decreases findings.len() - i,
    {
        assert(fs[i as int] == findings@[i as int]@);
        if findings[i].id == *id {
            proof {
                lemma_first_match_at(fs, p, i as int);
            }
            return Some(i);
        }
        i = i + 1;
    }
    proof {
        lemma_first_match_none(fs, p);
    }
    None
}

/// A finding found by id survives the absorption of false positives for a
/// correction of that id, and stays the first one carrying it.
proof fn lemma_position_kept(fs: Seq<FindingView>, id: Seq<char>, zs: int, ze: int)
    requires
        position_of(fs, id) is Some,
    ensures
        position_of(fs.filter(|g: FindingView| !absorbs(g, id, zs, ze)), id) is Some,
        fs.filter(|g: FindingView| !absorbs(g, id, zs, ze))[position_of(
            fs.filter(|g: FindingView| !absorbs(g, id, zs, ze)),
            id,
        )->0] == fs[position_of(fs, id)->0],
    decreases fs.len(),
{
    let q = |g: FindingView| !absorbs(g, id, zs, ze);
    let p = |g: FindingView| g.id == id;
    lemma_first_match(fs, p);
    let i = position_of(fs, id)->0;
    let last = fs.last();
    let init = fs.drop_last();
    assert(fs =~= init.push(last));
    init.lemma_filter_push(last, q);
    if i == fs.len() - 1 {
        assert forall|j: int| 0 <= j < init.len() implies !p(#[trigger] init[j]) by {
            assert(init[j] == fs[j]);
        }
        lemma_first_match_none(init, p);
        let fi = init.filter(q);
        assert(forall|j: int| 0 <= j < fi.len() ==> !p(#[trigger] fi[j])) by {
            assert forall|j: int| 0 <= j < fi.len() implies !p(#[trigger] fi[j]) by {
                assert(fi.contains(fi[j]));
                init.lemma_filter_contains_rev(q, fi[j]);
                let k = choose|k: int| 0 <= k < init.len() && init[k] == fi[j];
                assert(!p(init[k]));
            }
        }
        assert(q(last));
        let ff = fi.push(last);
        assert(fs.filter(q) == ff);
        lemma_first_match_at(ff, p, fi.len() as int);
    } else {
        lemma_first_match_at(init, p, i);
        lemma_position_kept(init, id, zs, ze);
        let fi = init.filter(q);
        let k = position_of(fi, id)->0;
        lemma_first_match(fi, p);
        if q(last) {
            assert(fs.filter(q) == fi.push(last));
            assert forall|j: int| 0 <= j < k implies !p(#[trigger] fi.push(last)[j]) by {
                assert(fi.push(last)[j] == fi[j]);
            }
            lemma_first_match_at(fi.push(last), p, k);
        } else {
            assert(fs.filter(q) == fi);
        }
    }
}

/// The first finding carrying `id` is still the first one after the
/// absorption of false positives for a correction of `id`.
pub proof fn lemma_position_in_kept(fs: Seq<FindingView>, id: Seq<char>, zs: int, ze: int)
    requires
        position_of(fs, id) is Some,
    ensures
        position_of(kept_findings(fs, id, zs, ze), id) is Some,
        kept_findings(fs, id, zs, ze)[position_of(kept_findings(fs, id, zs, ze), id)->0] == fs[position_of(fs, id)->0],
{
    if zs <= ze {
        lemma_position_kept(fs, id, zs, ze);
    }
}

pub open spec fn msg_empty_range() -> Seq<char> {
    "Aucun point à supprimer entre les curseurs — écartez-les d'abord."@
}

pub open spec fn msg_delete_outside() -> Seq<char> {
    "Plage de suppression hors de la trace."@
}

pub open spec fn msg_degenerate() -> Seq<char> {
    "Suppression refusée : la trace deviendrait dégénérée."@
}

/// Why a deletion of `[ds..=de]` for finding `id` is refused, if it is. The
/// guards are evaluated in this order: empty range, unknown or already
/// treated finding, nesting, range outside the trace, degenerate result.
pub open spec fn delete_refusal(points: Seq<AuditPoint>, fs: Seq<FindingView>, id: Seq<char>, ds: int, de: int) -> Option<Seq<char>> {
    if ds > de {
        Some(msg_empty_range())
    } else {
        match position_of(fs, id) {
            None => Some(msg_unknown(id)),
            Some(i) => if fs[i].status != FindingStatus::Pending {
                Some(msg_already_treated(fs[i].label))
            } else {
                match blocker(fs, id, ds, de) {
                    Some(b) => Some(msg_nested(b)),
                    None => if de >= points.len() {
                        Some(msg_delete_outside())
                    } else if points.len() - (de - ds + 1) < 2 {
                        Some(msg_degenerate())
                    } else {
                        None
                    },
                }
            },
        }
    }
}

/// The findings that a correction of `id` over `[zs, ze]` keeps in the list.
pub open spec fn kept_findings(fs: Seq<FindingView>, id: Seq<char>, zs: int, ze: int) -> Seq<FindingView> {
    if zs > ze { fs } else { fs.filter(|g: FindingView| !absorbs(g, id, zs, ze)) }
}

/// The false positives that a correction of `id` over `[zs, ze]` absorbs.
pub open spec fn absorbed_findings(fs: Seq<FindingView>, id: Seq<char>, zs: int, ze: int) -> Seq<FindingView> {
    if zs > ze { Seq::empty() } else { fs.filter(|g: FindingView| absorbs(g, id, zs, ze)) }
}

/// The first finding with id `id` marked corrected, with its correction type
/// and undo record.
pub open spec fn mark_corrected(fs: Seq<FindingView>, id: Seq<char>, c: CorrectionType, undo: UndoRecord) -> Seq<FindingView> {
    let i = position_of(fs, id)->0;
    fs.update(i, FindingView { status: FindingStatus::Corrected, correction: Some(c), undo: Some(undo), ..fs[i] })
}

/// Snapshot of a deletion of `[ds..=de]`: copies of the deleted points, ids of
/// the kept points around them, 1-based number of the first deleted point and
/// the absorbed false positives.
pub open spec fn delete_snapshot(u: UndoDelete, points: Seq<AuditPoint>, fs: Seq<FindingView>, id: Seq<char>, ds: int, de: int) -> bool {
    &&& u.orig_pts@ == points.subrange(ds, de + 1)
    &&& u.anchor_left_id == (if ds > 0 { Some(points[ds - 1].id) } else { None })
    &&& u.anchor_right_id == (if de + 1 < points.len() { Some(points[de + 1].id) } else { None })
    &&& u.first_no == ds + 1
    &&& finding_views(u.absorbed_fp@) == absorbed_findings(fs, id, ds, de)
}

fn copy_points(points: &Vec<AuditPoint>, from: usize, to: usize) -> (r: Vec<AuditPoint>)
    requires
        from <= to <= points.len(),
    ensures
        r@ == points@.subrange(from as int, to as int),
{
    let mut out: Vec<AuditPoint> = Vec::new();
    let mut i = from;
    while i < to
        invariant
            from <= i <= to <= points.len(),
            out@ == points@.subrange(from as int, i as int),
        decreases to - i,
    {
        out.push(points[i]);
        assert(out@ =~= points@.subrange(from as int, i + 1));
        i = i + 1;
    }
    out
}

/// Deletion of the range `[ds..=de]` of the working trace for finding
/// `finding_id` (the refusals are those of `delete_refusal`). On success the
/// range is removed, the finding is marked corrected with its undo snapshot
/// taken before any change, the false positives overlapping the range are
/// absorbed into the snapshot, and the remaining findings are realigned.
/// `next_point_id` is not used: a deletion allocates no id.
pub fn apply_delete(
    points: Vec<AuditPoint>,
    findings: Vec<Finding>,
    finding_id: &str,
    ds: usize,
    de: usize,
    next_point_id: u32,
) -> (r: Result<AuditState, String>)
    ensures
        match r {
            Err(msg) => delete_refusal(points@, finding_views(findings@), finding_id@, ds as int, de as int)
                == Some(msg@),
            Ok(st) => {
                &&& delete_refusal(points@, finding_views(findings@), finding_id@, ds as int, de as int) is None
                &&& st.points@ == points@.subrange(0, ds as int) + points@.subrange(de + 1, points@.len() as int)
                &&& exists|u: UndoDelete|
                    #[trigger] delete_snapshot(u, points@, finding_views(findings@), finding_id@, ds as int, de as int)
                    && finding_views(st.findings@) == synced(
                        st.points@,
                        mark_corrected(
                            kept_findings(finding_views(findings@), finding_id@, ds as int, de as int),
                            finding_id@,
                            CorrectionType::Delete,
                            UndoRecord::Delete(u),
                        ),
                    )
            },
        },
{
    let ghost fs = finding_views(findings@);
    let ghost pts = points@;
    let mut points = points;
    let mut findings = findings;
    if ds > de {
        return Err(String::from_str("Aucun point à supprimer entre les curseurs — écartez-les d'abord."));
    }
    let fid = finding_id.to_owned();
    let pos = match find_position(&findings, &fid) {
        None => {
            return Err(unknown_message(finding_id));
        },
        Some(i) => i,
    };
    assert(fs[pos as int] == findings@[pos as int]@);
    if findings[pos].status != FindingStatus::Pending {
        return Err(already_treated_message(&findings[pos].label));
    }
    match nesting_guard(&findings, finding_id, ds, de) {
        Some(b) => {
            return Err(nested_message(&b));
        },
        None => {},
    }
    if de >= points.len() {
        return Err(String::from_str("Plage de suppression hors de la trace."));
    }
    let orig_pts = copy_points(&points, ds, de + 1);
    if points.len() - orig_pts.len() < 2 {
        return Err(String::from_str("Suppression refusée : la trace deviendrait dégénérée."));
    }
    let absorbed = absorb_fp_findings(&mut findings, finding_id, ds, de);
    let anchor_left_id = if ds > 0 { Some(points[ds - 1].id) } else { None };
    let anchor_right_id = if de + 1 < points.len() { Some(points[de + 1].id) } else { None };
    let undo = UndoDelete { orig_pts, anchor_left_id, anchor_right_id, first_no: ds + 1, absorbed_fp: absorbed };
    let ghost gu = undo;
    assert(delete_snapshot(gu, pts, fs, finding_id@, ds as int, de as int));

    let mut tail = points.split_off(de + 1);
    points.truncate(ds);
    points.append(&mut tail);

    let ghost kept = finding_views(findings@);
    proof {
        lemma_position_in_kept(fs, finding_id@, ds as int, de as int);
    }
    let j = match find_position(&findings, &fid) {
        Some(j) => j,
        None => {
            return Err(unknown_message(finding_id));
        },
    };
    findings[j].status = FindingStatus::Corrected;
    findings[j].correction = Some(CorrectionType::Delete);
    findings[j].undo = Some(UndoRecord::Delete(undo));
    assert(finding_views(findings@) =~= mark_corrected(kept, finding_id@, CorrectionType::Delete, UndoRecord::Delete(gu)));
    let ghost marked = finding_views(findings@);
    sync_indexes(&points, &mut findings);
    assert(points@ =~= pts.subrange(0, ds as int) + pts.subrange(de + 1, pts.len() as int));
    Ok(AuditState { points, findings })
}

} // verus!

verus! {

// ─── Routing ─────────────────────────────────────────────────────────

pub open spec fn msg_unknown_profile(profile: Seq<char>) -> Seq<char> {
    "Profil de routage inconnu : "@ + profile + "."@
}

pub open spec fn msg_route_too_short() -> Seq<char> {
    "Tracé ORS invalide (moins de 2 points)."@
}

pub open spec fn msg_route_anchors() -> Seq<char> {
    "Ancres de routage invalides."@
}

pub open spec fn msg_route_outside() -> Seq<char> {
    "Plage de routage hors de la trace."@
}

/// The two routing profiles: `driving-car` and `cycling-road`.
pub open spec fn known_profile(profile: Seq<char>) -> bool {
    profile == "driving-car"@ || profile == "cycling-road"@
}

/// Why a routing between anchors `start` and `end` for finding `id` is
/// refused, if it is. The guards are evaluated in this order: profile, route
/// length, anchor order, unknown or already treated finding, nesting over the
/// replaced interior `[start+1..end-1]`, anchors outside the trace.
pub open spec fn route_refusal(
    points: Seq<AuditPoint>,
    fs: Seq<FindingView>,
    id: Seq<char>,
    start: int,
    end: int,
    n_coords: int,
    profile: Seq<char>,
) -> Option<Seq<char>> {
    if !known_profile(profile) {
        Some(msg_unknown_profile(profile))
    } else if n_coords < 2 {
        Some(msg_route_too_short())
    } else if end < start + 1 {
        Some(msg_route_anchors())
    } else {
        match position_of(fs, id) {
            None => Some(msg_unknown(id)),
            Some(i) => if fs[i].status != FindingStatus::Pending {
                Some(msg_already_treated(fs[i].label))
            } else {
                match blocker(fs, id, start + 1, end - 1) {
                    Some(b) => Some(msg_nested(b)),
                    None => if start >= points.len() || end >= points.len() {
                        Some(msg_route_outside())
                    } else {
                        None
                    },
                }
            },
        }
    }
}

/// `a + b`, or `u32::MAX` when it does not fit.
pub open spec fn saturating_add_u32(a: u32, b: u32) -> u32 {
    if a + b > u32::MAX { u32::MAX } else { (a + b) as u32 }
}

/// Points inserted by a routing: the route without its two ends (the anchors
/// are kept, not duplicated), with fresh ids `next, next+1, ...` and no
/// elevation.
pub open spec fn route_mids(coords: Seq<LatLon>, next: u32) -> Seq<AuditPoint> {
    Seq::new(
        (coords.len() - 2) as nat,
        |k: int| AuditPoint {
            id: saturating_add_u32(next, k as u32),
            lat: coords[k + 1].lat,
            lon: coords[k + 1].lon,
            ele: None,
        },
    )
}

pub open spec fn lat_lon(p: AuditPoint) -> LatLon {
    LatLon { lat: p.lat, lon: p.lon }
}

/// Snapshot of a routing between anchors `start` and `end`.
pub open spec fn route_snapshot(
    u: UndoRoute,
    points: Seq<AuditPoint>,
    fs: Seq<FindingView>,
    id: Seq<char>,
    start: int,
    end: int,
    coords: Seq<LatLon>,
    next: u32,
) -> bool {
    let mids = route_mids(coords, next);
    &&& u.orig_pts@ == points.subrange(start + 1, end)
    &&& u.inserted_ids@ == mids.map_values(|p: AuditPoint| p.id)
    &&& u.route_pts@ == seq![lat_lon(points[start])] + mids.map_values(|p: AuditPoint| lat_lon(p))
        + seq![lat_lon(points[end])]
    &&& u.start_pt == lat_lon(points[start])
    &&& u.end_pt == lat_lon(points[end])
    &&& u.first_no == start + 2
    &&& finding_views(u.absorbed_fp@) == absorbed_findings(fs, id, start + 1, end - 1)
}

/// Correction type of a routing profile.
pub open spec fn route_correction(profile: Seq<char>) -> CorrectionType {
    if profile == "driving-car"@ { CorrectionType::RouteCar } else { CorrectionType::RouteBike }
}

fn str_eq(a: &str, b: &str) -> (r: bool)
    ensures
        r == (a@ == b@),
{
    let x = a.to_owned();
    let y = b.to_owned();
    x == y
}

fn profile_message(profile: &str) -> (r: String)
    ensures
        r@ == msg_unknown_profile(profile@),
{
    let mut s = String::from_str("Profil de routage inconnu : ");
    s.append(profile);
    s.append(".");
    assert(s@ =~= msg_unknown_profile(profile@));
    s
}

/// Points inserted by a routing, their ids and their coordinates.
fn route_points(coords: &Vec<LatLon>, next_point_id: u32) -> (r: (Vec<AuditPoint>, Vec<u32>, Vec<LatLon>))
    requires
        coords@.len() >= 2,
    ensures
        r.0@ == route_mids(coords@, next_point_id),
        r.1@ == route_mids(coords@, next_point_id).map_values(|p: AuditPoint| p.id),
        r.2@ == route_mids(coords@, next_point_id).map_values(|p: AuditPoint| lat_lon(p)),
{
    let ghost mids_spec = route_mids(coords@, next_point_id);
    let mut mids: Vec<AuditPoint> = Vec::new();
    let mut ids: Vec<u32> = Vec::new();
    let mut lls: Vec<LatLon> = Vec::new();
    let n_mids = coords.len() - 2;
    let mut k: usize = 0;
    while k < n_mids
        invariant
            0 <= k <= n_mids,
            n_mids == coords@.len() - 2,
            mids_spec == route_mids(coords@, next_point_id),
            mids@ == mids_spec.subrange(0, k as int),
            ids@ == mids_spec.subrange(0, k as int).map_values(|p: AuditPoint| p.id),
            lls@ == mids_spec.subrange(0, k as int).map_values(|p: AuditPoint| lat_lon(p)),
        decreases n_mids - k,
    {
        let c = coords[k + 1];
        let off: u32 = #[verifier::truncate] (k as u32);
        let p = AuditPoint { id: next_point_id.saturating_add(off), lat: c.lat, lon: c.lon, ele: None };
        assert(p == mids_spec[k as int]);
        mids.push(p);
        ids.push(p.id);
        lls.push(LatLon { lat: c.lat, lon: c.lon });
        assert(mids_spec.subrange(0, k + 1) =~= mids_spec.subrange(0, k as int).push(p));
        assert(mids@ =~= mids_spec.subrange(0, k + 1));
        assert(ids@ =~= mids_spec.subrange(0, k + 1).map_values(|p: AuditPoint| p.id));
        assert(lls@ =~= mids_spec.subrange(0, k + 1).map_values(|p: AuditPoint| lat_lon(p)));
        k = k + 1;
    }
    assert(mids_spec.subrange(0, n_mids as int) =~= mids_spec);
    (mids, ids, lls)
}

/// Routing of finding `finding_id` between the anchors `points[start]` and
/// `points[end]` (the refusals are those of `route_refusal`). On success the
/// interior `[start+1..end-1]` is replaced by the route `coords` without its
/// two ends, whose points get fresh ids from `next_point_id`; the finding is
/// marked corrected (`route-car` or `route-bike`) with its snapshot taken
/// before any change, the overlapping false positives are absorbed, and the
/// remaining findings are realigned.
#[verifier::rlimit(40)]
pub fn apply_route(
    points: Vec<AuditPoint>,
    findings: Vec<Finding>,
    finding_id: &str,
    start: usize,
    end: usize,
    coords: Vec<LatLon>,
    profile: &str,
    next_point_id: u32,
) -> (r: Result<AuditState, String>)
    requires
        start < usize::MAX,
    ensures
        match r {
            Err(msg) => route_refusal(points@, finding_views(findings@), finding_id@, start as int, end as int, coords@.len() as int, profile@)
                == Some(msg@),
            Ok(st) => {
                &&& route_refusal(points@, finding_views(findings@), finding_id@, start as int, end as int, coords@.len() as int, profile@) is None
                &&& st.points@ == points@.subrange(0, start + 1) + route_mids(coords@, next_point_id)
                    + points@.subrange(end as int, points@.len() as int)
                &&& exists|u: UndoRoute|
                    #[trigger] route_snapshot(u, points@, finding_views(findings@), finding_id@, start as int, end as int, coords@, next_point_id)
                    && finding_views(st.findings@) == synced(
                        st.points@,
                        mark_corrected(
                            kept_findings(finding_views(findings@), finding_id@, start + 1, end - 1),
                            finding_id@,
                            route_correction(profile@),
                            UndoRecord::Route(u),
                        ),
                    )
            },
        },
{
    let ghost fs = finding_views(findings@);
    let ghost pts = points@;
    let mut points = points;
    let mut findings = findings;
    let is_car = str_eq(profile, "driving-car");
    if !is_car && !str_eq(profile, "cycling-road") {
        return Err(profile_message(profile));
    }
    if coords.len() < 2 {
        return Err(String::from_str("Tracé ORS invalide (moins de 2 points)."));
    }
    if end < start + 1 {
        return Err(String::from_str("Ancres de routage invalides."));
    }
    let fid = finding_id.to_owned();
    let pos = match find_position(&findings, &fid) {
        None => {
            return Err(unknown_message(finding_id));
        },
        Some(i) => i,
    };
    assert(fs[pos as int] == findings@[pos as int]@);
    if findings[pos].status != FindingStatus::Pending {
        return Err(already_treated_message(&findings[pos].label));
    }
    match nesting_guard(&findings, finding_id, start + 1, end - 1) {
        Some(b) => {
            return Err(nested_message(&b));
        },
        None => {},
    }
    if start >= points.len() || end >= points.len() {
        return Err(String::from_str("Plage de routage hors de la trace."));
    }
    let start_ll = LatLon { lat: points[start].lat, lon: points[start].lon };
    let end_ll = LatLon { lat: points[end].lat, lon: points[end].lon };
    let inner = copy_points(&points, start + 1, end);
    let absorbed = absorb_fp_findings(&mut findings, finding_id, start + 1, end - 1);

    let ghost mids_spec = route_mids(coords@, next_point_id);
    let (mut mids, inserted_ids, mut mid_lls) = route_points(&coords, next_point_id);
    let mut route_pts: Vec<LatLon> = Vec::new();
    route_pts.push(start_ll);
    route_pts.append(&mut mid_lls);
    route_pts.push(end_ll);
    let undo = UndoRoute {
        orig_pts: inner,
        inserted_ids,
        route_pts,
        start_pt: start_ll,
        end_pt: end_ll,
        first_no: start + 2,
        absorbed_fp: absorbed,
    };
    let ghost gu = undo;
    assert(gu.route_pts@ =~= seq![lat_lon(pts[start as int])] + mids_spec.map_values(|p: AuditPoint| lat_lon(p))
        + seq![lat_lon(pts[end as int])]);
    assert(gu.orig_pts@ == pts.subrange(start + 1, end as int));
    assert(gu.inserted_ids@ == mids_spec.map_values(|p: AuditPoint| p.id));
    assert(finding_views(gu.absorbed_fp@) == absorbed_findings(fs, finding_id@, start + 1, end - 1));
    assert(route_snapshot(gu, pts, fs, finding_id@, start as int, end as int, coords@, next_point_id));

    let mut tail = points.split_off(end);
    points.truncate(start + 1);
    points.append(&mut mids);
    points.append(&mut tail);

    let ghost kept = finding_views(findings@);
    proof {
        lemma_position_in_kept(fs, finding_id@, start + 1, end - 1);
    }
    let j = match find_position(&findings, &fid) {
        Some(j) => j,
        None => {
            return Err(unknown_message(finding_id));
        },
    };
    let ct = if is_car { CorrectionType::RouteCar } else { CorrectionType::RouteBike };
    findings[j].status = FindingStatus::Corrected;
    findings[j].correction = Some(ct);
    findings[j].undo = Some(UndoRecord::Route(undo));
    assert(finding_views(findings@) =~= mark_corrected(kept, finding_id@, route_correction(profile@), UndoRecord::Route(gu)));
    sync_indexes(&points, &mut findings);
    assert(points@ =~= pts.subrange(0, start + 1) + mids_spec + pts.subrange(end as int, pts.len() as int));
    Ok(AuditState { points, findings })
}

} // verus!

verus! {

// ─── False positive ──────────────────────────────────────────────────

/// The first finding carrying `id` given status `st` and no correction.
pub open spec fn with_status(fs: Seq<FindingView>, id: Seq<char>, st: FindingStatus) -> Seq<FindingView> {
    let i = position_of(fs, id)->0;
    fs.update(i, FindingView { status: st, correction: None, ..fs[i] })
}

pub open spec fn msg_not_pending() -> Seq<char> {
    "Finding déjà traité."@
}

pub open spec fn msg_not_fp() -> Seq<char> {
    "Finding non marqué faux positif."@
}

/// Marks the finding `finding_id` as a false positive. The trace is
/// untouched; only a pending finding can be marked.
pub fn mark_fp(findings: Vec<Finding>, finding_id: &str) -> (r: Result<Vec<Finding>, String>)
    ensures
        match position_of(finding_views(findings@), finding_id@) {
            None => r is Err && r->Err_0@ == msg_unknown(finding_id@),
            Some(i) => if finding_views(findings@)[i].status != FindingStatus::Pending {
                r is Err && r->Err_0@ == msg_not_pending()
            } else {
                r is Ok && finding_views(r->Ok_0@) == with_status(finding_views(findings@), finding_id@, FindingStatus::Fp)
            },
        },
{
    let ghost fs = finding_views(findings@);
    let mut findings = findings;
    let fid = finding_id.to_owned();
    let i = match find_position(&findings, &fid) {
        None => {
            return Err(unknown_message(finding_id));
        },
        Some(i) => i,
    };
    assert(fs[i as int] == findings@[i as int]@);
    if findings[i].status != FindingStatus::Pending {
        return Err(String::from_str("Finding déjà traité."));
    }
    findings[i].status = FindingStatus::Fp;
    findings[i].correction = None;
    assert(finding_views(findings@) =~= with_status(fs, finding_id@, FindingStatus::Fp));
    Ok(findings)
}

/// Removes the false-positive mark of the finding `finding_id`: it is pending
/// again. Only a false positive can be unmarked.
pub fn unmark_fp(findings: Vec<Finding>, finding_id: &str) -> (r: Result<Vec<Finding>, String>)
    ensures
        match position_of(finding_views(findings@), finding_id@) {
            None => r is Err && r->Err_0@ == msg_unknown(finding_id@),
            Some(i) => if finding_views(findings@)[i].status != FindingStatus::Fp {
                r is Err && r->Err_0@ == msg_not_fp()
            } else {
                r is Ok && finding_views(r->Ok_0@) == with_status(finding_views(findings@), finding_id@, FindingStatus::Pending)
            },
        },
{
    let ghost fs = finding_views(findings@);
    let mut findings = findings;
    let fid = finding_id.to_owned();
    let i = match find_position(&findings, &fid) {
        None => {
            return Err(unknown_message(finding_id));
        },
        Some(i) => i,
    };
    assert(fs[i as int] == findings@[i as int]@);
    if findings[i].status != FindingStatus::Fp {
        return Err(String::from_str("Finding non marqué faux positif."));
    }
    findings[i].status = FindingStatus::Pending;
    findings[i].correction = None;
    assert(finding_views(findings@) =~= with_status(fs, finding_id@, FindingStatus::Pending));
    Ok(findings)
}

} // verus!

verus! {

// ─── Undo ────────────────────────────────────────────────────────────

/// Points replaced by a correction, whatever its type.
pub open spec fn orig_of(u: UndoRecord) -> Seq<AuditPoint> {
    match u {
        UndoRecord::Delete(d) => d.orig_pts@,
        UndoRecord::Route(r) => r.orig_pts@,
    }
}

/// False positives absorbed by a correction, whatever its type.
pub open spec fn absorbed_of(u: UndoRecord) -> Seq<FindingView> {
    match u {
        UndoRecord::Delete(d) => finding_views(d.absorbed_fp@),
        UndoRecord::Route(r) => finding_views(r.absorbed_fp@),
    }
}

/// `g`, another finding than `id`, holds a correction whose replaced points
/// include one of the points `inserted`.
pub open spec fn reuses(g: FindingView, id: Seq<char>, inserted: Seq<u32>) -> bool {
    g.id != id && match g.undo {
        Some(u) => exists|j: int| 0 <= j < orig_of(u).len() && inserted.contains(#[trigger] orig_of(u)[j].id),
        None => false,
    }
}

/// Index of the first point carrying `id`.
pub open spec fn first_index_of_id(points: Seq<AuditPoint>, id: u32) -> Option<int> {
    first_match(points, |p: AuditPoint| p.id == id)
}

pub open spec fn msg_route_reused() -> Seq<char> {
    "Annulation impossible : la zone routée a été réutilisée par une correction ultérieure."@
}

pub open spec fn msg_route_lost() -> Seq<char> {
    "Annulation impossible : points de routage introuvables."@
}

pub open spec fn msg_route_modified() -> Seq<char> {
    "Annulation impossible : la zone a été modifiée par une correction ultérieure."@
}

pub open spec fn msg_anchors_lost() -> Seq<char> {
    "Annulation impossible : points d'ancrage disparus (corrections ultérieures)."@
}

pub open spec fn msg_nothing_to_undo() -> Seq<char> {
    "Aucune correction à annuler."@
}

pub open spec fn msg_no_undo() -> Seq<char> {
    "Pas d'undo disponible."@
}

/// The inserted points of a routing are found, contiguous and in order,
/// from `pos`.
pub open spec fn inserted_at(points: Seq<AuditPoint>, inserted: Seq<u32>, pos: int) -> bool {
    pos + inserted.len() <= points.len() && forall|k: int| 0 <= k < inserted.len() ==> points[pos + k].id == #[trigger] inserted[k]
}

/// Why the undo of a routing is refused, if it is: the routed zone was the
/// origin of another correction; its inserted points are not found; they are
/// no longer contiguous and in order.
pub open spec fn route_undo_refusal(points: Seq<AuditPoint>, fs: Seq<FindingView>, id: Seq<char>, u: UndoRoute) -> Option<Seq<char>> {
    if exists|i: int| 0 <= i < fs.len() && reuses(#[trigger] fs[i], id, u.inserted_ids@) {
        Some(msg_route_reused())
    } else if u.inserted_ids@.len() == 0 {
        Some(msg_route_lost())
    } else {
        match first_index_of_id(points, u.inserted_ids@[0]) {
            None => Some(msg_route_lost()),
            Some(pos) => if !inserted_at(points, u.inserted_ids@, pos) {
                Some(msg_route_modified())
            } else {
                None
            },
        }
    }
}

/// The trace with the routed points replaced by the points they replaced.
pub open spec fn route_restored(points: Seq<AuditPoint>, u: UndoRoute) -> Seq<AuditPoint> {
    let pos = first_index_of_id(points, u.inserted_ids@[0])->0;
    points.subrange(0, pos) + u.orig_pts@ + points.subrange(pos + u.inserted_ids@.len(), points.len() as int)
}

/// Position just after the left anchor, if it is still in the trace.
pub open spec fn after_left_anchor(points: Seq<AuditPoint>, u: UndoDelete) -> Option<int> {
    match u.anchor_left_id {
        Some(l) => match first_index_of_id(points, l) {
            Some(i) => Some(i + 1),
            None => None,
        },
        None => None,
    }
}

/// Where deleted points go back: before the right anchor when it is still in
/// the trace, otherwise after the left anchor; nowhere when both are gone.
pub open spec fn delete_anchor(points: Seq<AuditPoint>, u: UndoDelete) -> Option<int> {
    match u.anchor_right_id {
        Some(r) => match first_index_of_id(points, r) {
            Some(i) => Some(i),
            None => after_left_anchor(points, u),
        },
        None => after_left_anchor(points, u),
    }
}

/// The trace with the deleted points put back at their anchor.
pub open spec fn delete_restored(points: Seq<AuditPoint>, u: UndoDelete) -> Seq<AuditPoint> {
    let pos = delete_anchor(points, u)->0;
    points.subrange(0, pos) + u.orig_pts@ + points.subrange(pos, points.len() as int)
}

/// Why the undo of the correction of `id` is refused, if it is.
pub open spec fn undo_refusal(points: Seq<AuditPoint>, fs: Seq<FindingView>, id: Seq<char>) -> Option<Seq<char>> {
    match position_of(fs, id) {
        None => Some(msg_unknown(id)),
        Some(i) => if fs[i].status != FindingStatus::Corrected {
            Some(msg_nothing_to_undo())
        } else {
            match fs[i].undo {
                None => Some(msg_no_undo()),
                Some(UndoRecord::Route(u)) => route_undo_refusal(points, fs, id, u),
                Some(UndoRecord::Delete(u)) => if delete_anchor(points, u) is None {
                    Some(msg_anchors_lost())
                } else {
                    None
                },
            }
        },
    }
}

/// The trace after the undo of the correction of `id`.
pub open spec fn undo_points(points: Seq<AuditPoint>, fs: Seq<FindingView>, id: Seq<char>) -> Seq<AuditPoint> {
    match fs[position_of(fs, id)->0].undo->0 {
        UndoRecord::Route(u) => route_restored(points, u),
        UndoRecord::Delete(u) => delete_restored(points, u),
    }
}

/// The findings after the undo of the correction of `id`, before
/// realignment: the finding pending again, without correction nor snapshot,
/// followed by the false positives its correction absorbed, marked false
/// positive again.
pub open spec fn undo_findings(fs: Seq<FindingView>, id: Seq<char>) -> Seq<FindingView> {
    let i = position_of(fs, id)->0;
    let u = fs[i].undo->0;
    fs.update(i, FindingView { status: FindingStatus::Pending, correction: None, undo: None, ..fs[i] })
        + absorbed_of(u).map_values(|g: FindingView| FindingView { status: FindingStatus::Fp, correction: None, ..g })
}

/// Index of the first point carrying `id`.
fn first_position(points: &Vec<AuditPoint>, id: u32) -> (r: Option<usize>)
    ensures
        match r {
            Some(i) => i < points@.len() && first_index_of_id(points@, id) == Some(i as int),
            None => first_index_of_id(points@, id) is None,
        },
{
    let ghost p = |q: AuditPoint| q.id == id;
    let mut i: usize = 0;
    while i < points.len()
        invariant
            0 <= i <= points.len(),
            p == (|q: AuditPoint| q.id == id),
            forall|j: int| 0 <= j < i ==> !p(#[trigger] points@[j]),
        decreases points.len() - i,
    {
        if points[i].id == id {
            proof {
                lemma_first_match_at(points@, p, i as int);
            }
            return Some(i);
        }
        i = i + 1;
    }
    proof {
        lemma_first_match_none(points@, p);
    }
    None
}

fn contains_id(ids: &Vec<u32>, id: u32) -> (r: bool)
    ensures
        r == ids@.contains(id),
{
    let mut i: usize = 0;
    while i < ids.len()
        invariant
            0 <= i <= ids.len(),
            forall|j: int| 0 <= j < i ==> ids@[j] != id,
        decreases ids.len() - i,
    {
        if ids[i] == id {
            assert(ids@[i as int] == id);
            return true;
        }
        i = i + 1;
    }
    false
}

fn orig_points_of(u: &UndoRecord) -> (r: &Vec<AuditPoint>)
    ensures
        r@ == orig_of(*u),
{
    match u {
        UndoRecord::Delete(d) => &d.orig_pts,
        UndoRecord::Route(r) => &r.orig_pts,
    }
}

/// Some point of `orig` carries one of the ids `inserted`.
fn hits_inserted(orig: &Vec<AuditPoint>, inserted: &Vec<u32>) -> (r: bool)
    ensures
        r == exists|j: int| 0 <= j < orig@.len() && inserted@.contains(#[trigger] orig@[j].id),
{
    let mut k: usize = 0;
    while k < orig.len()
        invariant
            0 <= k <= orig.len(),
            forall|j: int| 0 <= j < k ==> !inserted@.contains(#[trigger] orig@[j].id),
        decreases orig.len() - k,
    {
        if contains_id(inserted, orig[k].id) {
            return true;
        }
        k = k + 1;
    }
    false
}

/// Some finding other than `id` holds a correction whose replaced points
/// include an inserted point.
fn used_by_other(findings: &Vec<Finding>, id: &String, inserted: &Vec<u32>) -> (r: bool)
    ensures
        r == exists|i: int| 0 <= i < findings@.len() && reuses(#[trigger] finding_views(findings@)[i], id@, inserted@),
{
    let ghost fs = finding_views(findings@);
    let mut i: usize = 0;
    while i < findings.len()
        invariant
            0 <= i <= findings.len(),
            fs == finding_views(findings@),
            forall|j: int| 0 <= j < i ==> !reuses(#[trigger] fs[j], id@, inserted@),
        decreases findings.len() - i,
    {
        let g = &findings[i];
        assert(fs[i as int] == g@);
        if !(g.id == *id) {
            match &g.undo {
                Some(u) => {
                    if hits_inserted(orig_points_of(u), inserted) {
                        assert(reuses(fs[i as int], id@, inserted@));
                        return true;
                    }
                },
                None => {},
            }
        }
        i = i + 1;
    }
    false
}

fn message(text: &str) -> (r: String)
    ensures
        r@ == text@,
{
    String::from_str(text)
}

/// Undo of a routing: the routed points are replaced by the points they
/// replaced, unless one of the three guards refuses.
#[verifier::loop_isolation(false)]
fn undo_route(points: &mut Vec<AuditPoint>, findings: &Vec<Finding>, current_id: &String, undo: &UndoRoute) -> (r: Result<(), String>)
    ensures
        match r {
            Err(msg) => route_undo_refusal(old(points)@, finding_views(findings@), current_id@, *undo) == Some(msg@),
            Ok(()) => route_undo_refusal(old(points)@, finding_views(findings@), current_id@, *undo) is None
                && final(points)@ == route_restored(old(points)@, *undo),
        },
{
    if used_by_other(findings, current_id, &undo.inserted_ids) {
        return Err(message("Annulation impossible : la zone routée a été réutilisée par une correction ultérieure."));
    }
    if undo.inserted_ids.len() == 0 {
        return Err(message("Annulation impossible : points de routage introuvables."));
    }
    let pos = match first_position(points, undo.inserted_ids[0]) {
        None => {
            return Err(message("Annulation impossible : points de routage introuvables."));
        },
        Some(p) => p,
    };
    let n = undo.inserted_ids.len();
    let mut k: usize = 0;
    while k < n
        invariant
            0 <= k <= n,
            n == undo.inserted_ids@.len(),
            pos < points@.len(),
            forall|j: int| 0 <= j < k ==> pos + j < points@.len() && points@[pos + j].id == #[trigger] undo.inserted_ids@[j],
        decreases n - k,
    {
        if k >= points.len() - pos || points[pos + k].id != undo.inserted_ids[k] {
            assert(!inserted_at(points@, undo.inserted_ids@, pos as int));
            return Err(message("Annulation impossible : la zone a été modifiée par une correction ultérieure."));
        }
        k = k + 1;
    }
    assert(k == n);
    let last: usize = n - 1;
    assert(0 <= last < k);
    assert(points@[pos + last].id == undo.inserted_ids@[last as int]);
    assert(pos + last < points@.len());
    assert(inserted_at(points@, undo.inserted_ids@, pos as int));
    let ghost old_pts = points@;
    let mut restored = copy_points(&undo.orig_pts, 0, undo.orig_pts.len());
    assert(restored@ =~= undo.orig_pts@);
    let plen = points.len();
    assert(pos + n <= plen);
    let mut tail = points.split_off(pos + n);
    points.truncate(pos);
    points.append(&mut restored);
    points.append(&mut tail);
    assert(points@ =~= route_restored(old_pts, *undo));
    Ok(())
}

/// Undo of a deletion: the deleted points are put back before the right
/// anchor, or after the left anchor when there is no right anchor or it is
/// gone; refused only when both anchors are gone.
fn undo_delete(points: &mut Vec<AuditPoint>, undo: &UndoDelete) -> (r: Result<(), String>)
    ensures
        match r {
            Err(msg) => delete_anchor(old(points)@, *undo) is None && msg@ == msg_anchors_lost(),
            Ok(()) => delete_anchor(old(points)@, *undo) is Some && final(points)@ == delete_restored(old(points)@, *undo),
        },
{
    let len = points.len();
    let at_right = match undo.anchor_right_id {
        Some(right) => first_position(points, right),
        None => None,
    };
    let found = match at_right {
        Some(i) => Some(i),
        None => match undo.anchor_left_id {
            Some(left) => match first_position(points, left) {
                Some(i) => Some(i + 1),
                None => None,
            },
            None => None,
        },
    };
    let pos = match found {
        None => {
            return Err(message("Annulation impossible : points d'ancrage disparus (corrections ultérieures)."));
        },
        Some(p) => p,
    };
    let ghost old_pts = points@;
    let mut restored = copy_points(&undo.orig_pts, 0, undo.orig_pts.len());
    assert(restored@ =~= undo.orig_pts@);
    let mut tail = points.split_off(pos);
    points.append(&mut restored);
    points.append(&mut tail);
    assert(points@ =~= delete_restored(old_pts, *undo));
    Ok(())
}

} // verus!

verus! {

/// Undo of the correction of finding `finding_id` (the refusals are those of
/// `undo_refusal`). On success the trace gets back exactly the points the
/// correction removed, the finding is pending again without correction and
/// its snapshot is consumed, the false positives absorbed by the correction
/// come back as false positives, and the findings are realigned.
pub fn undo_correction(points: Vec<AuditPoint>, findings: Vec<Finding>, finding_id: &str) -> (r: Result<AuditState, String>)
    ensures
        match r {
            Err(msg) => undo_refusal(points@, finding_views(findings@), finding_id@) == Some(msg@),
            Ok(st) => {
                &&& undo_refusal(points@, finding_views(findings@), finding_id@) is None
                &&& st.points@ == undo_points(points@, finding_views(findings@), finding_id@)
                &&& finding_views(st.findings@) == synced(st.points@, undo_findings(finding_views(findings@), finding_id@))
            },
        },
{
    let ghost fs = finding_views(findings@);
    let ghost pts = points@;
    let mut points = points;
    let mut findings = findings;
    let fid = finding_id.to_owned();
    let pos = match find_position(&findings, &fid) {
        None => {
            return Err(unknown_message(finding_id));
        },
        Some(i) => i,
    };
    proof {
        lemma_first_match(fs, |g: FindingView| g.id == finding_id@);
    }
    assert(fs[pos as int] == findings@[pos as int]@);
    if findings[pos].status != FindingStatus::Corrected {
        return Err(message("Aucune correction à annuler."));
    }
    let mut taken: Option<UndoRecord> = None;
    std::mem::swap(&mut findings[pos].undo, &mut taken);
    let undo = match taken {
        None => {
            return Err(message("Pas d'undo disponible."));
        },
        Some(u) => u,
    };
    assert(fs[pos as int].undo == Some(undo));
    let ghost fs1 = finding_views(findings@);
    assert(fs1 =~= fs.update(pos as int, FindingView { undo: None, ..fs[pos as int] }));
    match &undo {
        UndoRecord::Route(u) => {
            assert forall|i: int| 0 <= i < fs.len() implies reuses(#[trigger] fs1[i], finding_id@, u.inserted_ids@)
                == reuses(fs[i], finding_id@, u.inserted_ids@) by {
                if i == pos {
                    assert(fs1[i].id == finding_id@);
                }
            }
            proof {
                if exists|i: int| 0 <= i < fs1.len() && reuses(#[trigger] fs1[i], finding_id@, u.inserted_ids@) {
                    let i = choose|i: int| 0 <= i < fs1.len() && reuses(#[trigger] fs1[i], finding_id@, u.inserted_ids@);
                    assert(reuses(fs[i], finding_id@, u.inserted_ids@));
                }
                if exists|i: int| 0 <= i < fs.len() && reuses(#[trigger] fs[i], finding_id@, u.inserted_ids@) {
                    let i = choose|i: int| 0 <= i < fs.len() && reuses(#[trigger] fs[i], finding_id@, u.inserted_ids@);
                    assert(reuses(fs1[i], finding_id@, u.inserted_ids@));
                }
            }
            match undo_route(&mut points, &findings, &fid, u) {
                Err(msg) => {
                    return Err(msg);
                },
                Ok(()) => {},
            }
        },
        UndoRecord::Delete(u) => {
            match undo_delete(&mut points, u) {
                Err(msg) => {
                    return Err(msg);
                },
                Ok(()) => {},
            }
        },
    }
    findings[pos].status = FindingStatus::Pending;
    findings[pos].correction = None;
    let ghost base = finding_views(findings@);
    assert(base =~= fs.update(
        pos as int,
        FindingView { status: FindingStatus::Pending, correction: None, undo: None, ..fs[pos as int] },
    ));
    let mut absorbed = match undo {
        UndoRecord::Delete(d) => d.absorbed_fp,
        UndoRecord::Route(r) => r.absorbed_fp,
    };
    let ghost ab = finding_views(absorbed@);
    let ghost fp = |g: FindingView| FindingView { status: FindingStatus::Fp, correction: None, ..g };
    let ghost n = absorbed@.len();
    while absorbed.len() > 0
        invariant
            absorbed@.len() <= n,
            n == ab.len(),
            fp == (|g: FindingView| FindingView { status: FindingStatus::Fp, correction: None, ..g }),
            finding_views(absorbed@) == ab.subrange(n - absorbed@.len(), n as int),
            finding_views(findings@) == base + ab.subrange(0, n - absorbed@.len()).map_values(fp),
        decreases absorbed.len(),
    {
        let ghost k = n - absorbed@.len();
        let ghost before = absorbed@;
        assert(finding_views(before)[0] == ab[k]);
        let mut g = absorbed.remove(0);
        assert(g@ == ab[k]);
        g.status = FindingStatus::Fp;
        g.correction = None;
        assert(g@ =~= fp(ab[k]));
        let ghost prevf = findings@;
        findings.push(g);
        assert(finding_views(findings@) =~= finding_views(prevf).push(fp(ab[k])));
        assert(ab.subrange(0, k + 1).map_values(fp) =~= ab.subrange(0, k).map_values(fp).push(fp(ab[k])));
        assert(finding_views(findings@) =~= base + ab.subrange(0, k + 1).map_values(fp));
        assert(finding_views(absorbed@) =~= ab.subrange(k + 1, n as int)) by {
            assert forall|i: int| 0 <= i < absorbed@.len() implies finding_views(absorbed@)[i] == ab.subrange(k + 1, n as int)[i] by {
                assert(absorbed@[i] == before[i + 1]);
                assert(finding_views(before)[i + 1] == ab[k + 1 + i]);
            }
        }
    }
    assert(ab.subrange(0, n as int) =~= ab);
    assert(finding_views(findings@) =~= undo_findings(fs, finding_id@));
    sync_indexes(&points, &mut findings);
    Ok(AuditState { points, findings })
}

} // verus!
