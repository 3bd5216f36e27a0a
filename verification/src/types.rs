//! Data model of the GPX audit: points of the working trace, findings and
//! their undo records.
//!
//! Real-valued quantities (coordinates, elevations, distances) are carried by
//! the audit unchanged, never computed with: they are held as the bit pattern
//! of their IEEE-754 binary64 value. A distance that appears in a finding's
//! texts also carries the text under which it is displayed.
use vstd::prelude::*;

verus! {

/// Family of a finding.
#[derive(Clone, Copy, Debug, PartialEq, Eq, Structural)]
pub enum FindingKind {
    /// Out-and-back (aller-retour).
    Ar,
    /// Roundabout loop (boucle giratoire).
    Rp,
}

/// Treatment status of a finding.
#[derive(Clone, Copy, Debug, PartialEq, Eq, Structural)]
pub enum FindingStatus {
    Pending,
    Corrected,
    /// False positive.
    Fp,
}

/// Kind of correction applied to a finding.
#[derive(Clone, Copy, Debug, PartialEq, Eq, Structural)]
pub enum CorrectionType {
    Delete,
    RouteCar,
    RouteBike,
}

/// Role of a highlighted part of a finding.
#[derive(Clone, Copy, Debug, PartialEq, Eq, Structural)]
pub enum PartRole {
    Warn,
    Info,
}

/// A real-valued measure: bit pattern of its binary64 value and its display
/// text.
#[derive(Clone, Debug)]
pub struct Measure {
    pub value: u64,
    pub text: String,
}

/// Mirror pair (AR) or overlap pair (RP) of a finding.
#[derive(Clone, Debug)]
pub struct FindingPair {
    /// Stable id of the upstream point.
    pub aid: u32,
    /// Stable id of the downstream point.
    pub bid: u32,
    /// Index of the upstream point in the working trace.
    pub a: usize,
    /// Index of the downstream point in the working trace.
    pub b: usize,
    /// Distance between the two points (metres).
    pub d: Measure,
}

/// Highlighted index range `[s..=e]` of a finding, with its caption.
#[derive(Clone, Debug)]
pub struct FindingPart {
    pub s: usize,
    pub e: usize,
    pub role: PartRole,
    pub text: String,
}

/// Indices of the points just before and just after a finding's zone.
#[derive(Clone, Copy, Debug)]
pub struct FindingContext {
    pub up: Option<usize>,
    pub dn: Option<usize>,
}

/// Stable ids of the points just before and just after a finding's zone.
#[derive(Clone, Copy, Debug)]
pub struct FindingContextIds {
    pub up: Option<u32>,
    pub dn: Option<u32>,
}

/// A point of the working trace: stable id, latitude, longitude and optional
/// elevation (bit patterns of binary64 values).
#[derive(Clone, Copy, Debug)]
pub struct AuditPoint {
    pub id: u32,
    pub lat: u64,
    pub lon: u64,
    pub ele: Option<u64>,
}

/// A latitude/longitude pair (bit patterns of binary64 values).
#[derive(Clone, Copy, Debug)]
pub struct LatLon {
    pub lat: u64,
    pub lon: u64,
}

/// A detected anomaly of the trace.
#[derive(Debug)]
pub struct Finding {
    /// `"ar-1"`, `"rp-2"`, ...
    pub id: String,
    pub kind: FindingKind,
    /// `"Aller-retour : 1"`, ...
    pub label: String,
    pub summary: String,
    pub peak: usize,
    pub peak_id: u32,
    pub pairs: Vec<FindingPair>,
    /// `[a1, b1, a2, b2, ...]`
    pub pair_idx: Vec<usize>,
    /// Heading gap at the peak (AR only, degrees).
    pub ecart: Option<Measure>,
    /// Branch lengths (AR only, metres).
    pub d1: Option<u64>,
    pub d2: Option<u64>,
    /// Cumulated rotation (RP only, degrees).
    pub total_angle: Option<i32>,
    pub turn_text: Option<String>,
    /// Stable ids of the loop core (RP only).
    pub core_ids: Vec<u32>,
    /// Stable ids of the finding's zone.
    pub zone_ids: Vec<u32>,
    pub ctx_ids: FindingContextIds,
    pub ctx: FindingContext,
    pub parts: Vec<FindingPart>,
    pub status: FindingStatus,
    pub correction: Option<CorrectionType>,
    /// Snapshot that undoes the correction of this finding.
    pub undo: Option<UndoRecord>,
}

/// Snapshot of a correction, enough to undo it.
#[derive(Debug)]
pub enum UndoRecord {
    Delete(UndoDelete),
    Route(UndoRoute),
}

/// Snapshot of a deletion.
#[derive(Debug)]
pub struct UndoDelete {
    /// The deleted points, in trace order.
    pub orig_pts: Vec<AuditPoint>,
    /// Id of the kept point just before the deleted range.
    pub anchor_left_id: Option<u32>,
    /// Id of the kept point just after the deleted range.
    pub anchor_right_id: Option<u32>,
    /// 1-based number of the first deleted point.
    pub first_no: usize,
    /// False positives absorbed by the deletion.
    pub absorbed_fp: Vec<Finding>,
}

/// Snapshot of a routing.
#[derive(Debug)]
pub struct UndoRoute {
    /// The replaced interior points, in trace order.
    pub orig_pts: Vec<AuditPoint>,
    /// Ids given to the inserted points, in trace order.
    pub inserted_ids: Vec<u32>,
    /// Rendered route, bounded by the two anchors.
    pub route_pts: Vec<LatLon>,
    pub start_pt: LatLon,
    pub end_pt: LatLon,
    /// 1-based number of the first replaced point.
    pub first_no: usize,
    /// False positives absorbed by the routing.
    pub absorbed_fp: Vec<Finding>,
}

/// Working trace and findings returned by the correction commands.
#[derive(Debug)]
pub struct AuditState {
    pub points: Vec<AuditPoint>,
    pub findings: Vec<Finding>,
}

// ─── Mathematical models ─────────────────────────────────────────────

#[verifier::ext_equal]
pub struct MeasureView {
    pub value: u64,
    pub text: Seq<char>,
}

#[verifier::ext_equal]
pub struct PairView {
    pub aid: u32,
    pub bid: u32,
    pub a: usize,
    pub b: usize,
    pub d: MeasureView,
}

#[verifier::ext_equal]
pub struct PartView {
    pub s: usize,
    pub e: usize,
    pub role: PartRole,
    pub text: Seq<char>,
}

/// Model of a finding: strings as character sequences, vectors as sequences.
/// The undo record is kept as is.
#[verifier::ext_equal]
pub struct FindingView {
    pub id: Seq<char>,
    pub kind: FindingKind,
    pub label: Seq<char>,
    pub summary: Seq<char>,
    pub peak: usize,
    pub peak_id: u32,
    pub pairs: Seq<PairView>,
    pub pair_idx: Seq<usize>,
    pub ecart: Option<MeasureView>,
    pub d1: Option<u64>,
    pub d2: Option<u64>,
    pub total_angle: Option<i32>,
    pub turn_text: Option<Seq<char>>,
    pub core_ids: Seq<u32>,
    pub zone_ids: Seq<u32>,
    pub ctx_ids: FindingContextIds,
    pub ctx: FindingContext,
    pub parts: Seq<PartView>,
    pub status: FindingStatus,
    pub correction: Option<CorrectionType>,
    pub undo: Option<UndoRecord>,
}

impl View for Measure {
    type V = MeasureView;

    open spec fn view(&self) -> MeasureView {
        MeasureView { value: self.value, text: self.text@ }
    }
}

impl View for FindingPair {
    type V = PairView;

    open spec fn view(&self) -> PairView {
        PairView { aid: self.aid, bid: self.bid, a: self.a, b: self.b, d: self.d@ }
    }
}

impl View for FindingPart {
    type V = PartView;

    open spec fn view(&self) -> PartView {
        PartView { s: self.s, e: self.e, role: self.role, text: self.text@ }
    }
}

pub open spec fn opt_measure_view(m: Option<Measure>) -> Option<MeasureView> {
    match m {
        Some(x) => Some(x@),
        None => None,
    }
}

pub open spec fn opt_string_view(s: Option<String>) -> Option<Seq<char>> {
    match s {
        Some(x) => Some(x@),
        None => None,
    }
}

pub open spec fn pair_views(v: Seq<FindingPair>) -> Seq<PairView> {
    v.map_values(|p: FindingPair| p@)
}

pub open spec fn part_views(v: Seq<FindingPart>) -> Seq<PartView> {
    v.map_values(|p: FindingPart| p@)
}

impl View for Finding {
    type V = FindingView;

    open spec fn view(&self) -> FindingView {
        FindingView {
            id: self.id@,
            kind: self.kind,
            label: self.label@,
            summary: self.summary@,
            peak: self.peak,
            peak_id: self.peak_id,
            pairs: pair_views(self.pairs@),
            pair_idx: self.pair_idx@,
            ecart: opt_measure_view(self.ecart),
            d1: self.d1,
            d2: self.d2,
            total_angle: self.total_angle,
            turn_text: opt_string_view(self.turn_text),
            core_ids: self.core_ids@,
            zone_ids: self.zone_ids@,
            ctx_ids: self.ctx_ids,
            ctx: self.ctx,
            parts: part_views(self.parts@),
            status: self.status,
            correction: self.correction,
            undo: self.undo,
        }
    }
}

/// Models of a sequence of findings.
pub open spec fn finding_views(v: Seq<Finding>) -> Seq<FindingView> {
    v.map_values(|f: Finding| f@)
}

} // verus!
