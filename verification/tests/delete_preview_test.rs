//! The deletion preview of a finding, as the library plans it: clamped
//! cursors, kept points, blue and red paths, cursor spots and counts. (The
//! routing anchors of a loop and the label offsets are measured by the
//! application; the plan takes the anchors as given and lists the points to
//! label.)

use visugps2::preview::{preview_ar, preview_rp, preview_span, DeletePlan};
use visugps2::types::{
    AuditPoint, Finding, FindingContext, FindingContextIds, FindingKind, FindingPart, FindingStatus,
    PartRole,
};

/// A regular trace of `n` points heading east, 30 m apart.
fn line_points(n: usize) -> Vec<AuditPoint> {
    (0..n)
        .map(|i| AuditPoint {
            id: (i + 1) as u32,
            lat: 45.0f64.to_bits(),
            lon: (2.0 + (i as f64) * 0.0004).to_bits(),
            ele: None,
        })
        .collect()
}

/// A circular loop of `n` points of radius `r` metres.
fn circle_points(n: usize, r: f64) -> Vec<AuditPoint> {
    let lat0 = 45.0;
    let lon0 = 2.0;
    let m_per_deg_lat = 110540.0;
    let m_per_deg_lon = (lat0 * std::f64::consts::PI / 180.0).cos() * 111320.0;
    (0..n)
        .map(|i| {
            let a = 2.0 * std::f64::consts::PI * (i as f64) / (n as f64);
            AuditPoint {
                id: (i + 1) as u32,
                lat: (lat0 + (r * a.sin()) / m_per_deg_lat).to_bits(),
                lon: (lon0 + (r * a.cos()) / m_per_deg_lon).to_bits(),
                ele: None,
            }
        })
        .collect()
}

fn finding(id: &str, kind: FindingKind, peak: usize, parts: Vec<(usize, usize)>) -> Finding {
    Finding {
        id: id.to_string(),
        kind,
        label: String::new(),
        summary: String::new(),
        peak,
        peak_id: (peak + 1) as u32,
        pairs: Vec::new(),
        pair_idx: Vec::new(),
        ecart: None,
        d1: None,
        d2: None,
        total_angle: None,
        turn_text: None,
        core_ids: Vec::new(),
        zone_ids: Vec::new(),
        ctx_ids: FindingContextIds { up: None, dn: None },
        ctx: FindingContext { up: None, dn: None },
        parts: parts.into_iter().map(|(s, e)| FindingPart { s, e, role: PartRole::Warn, text: String::new() }).collect(),
        status: FindingStatus::Pending,
        correction: None,
        undo: None,
    }
}

fn ar_finding(s: usize, e: usize, peak: usize) -> Finding {
    finding("ar-1", FindingKind::Ar, peak, vec![(s, e)])
}

fn rp_finding(s: usize, e: usize, cs: usize, ce: usize) -> Finding {
    finding("rp-1", FindingKind::Rp, cs, vec![(s, e), (cs, ce)])
}

/// The plan of a deletion preview of `finding`; a loop's anchors are taken
/// at its core bounds.
fn delete_plan(points: &[AuditPoint], finding: &Finding, start: usize, end: usize) -> Result<DeletePlan, String> {
    let (s0, e0, core) = preview_span(finding, points.len())?;
    Ok(match core {
        None => preview_ar(points, s0, e0, start, end),
        Some((cs, ce)) => preview_rp(points, s0, e0, start, end, cs, ce),
    })
}

fn kept_indices(p: &DeletePlan) -> Vec<usize> {
    p.points.iter().filter(|s| s.kept).map(|s| s.index).collect()
}

#[test]
fn test_ar_preview_open_state_keeps_nothing_inside() {
    let points = line_points(30);
    let p = delete_plan(&points, &ar_finding(10, 16, 13), 10, 16).expect("aperçu AR");
    assert_eq!(p.points.len(), 7);
    assert_eq!(kept_indices(&p).len(), 0, "aucun point conservé dans la plage");
    assert!(p.red.is_empty(), "l'aperçu AR n'a pas de trait rouge");
    assert!(p.kept.is_empty(), "les étiquettes AR sont gérées par la carte");
    assert_eq!(p.join.len(), 2);
    assert_eq!(p.join[0].lon, points[9].lon);
    assert_eq!(p.join[1].lon, points[17].lon);
    assert_eq!(p.count_start, "pt 11");
    assert_eq!(p.count_end, "pt 17");
}

#[test]
fn test_ar_preview_keeps_points_outside_range() {
    let points = line_points(30);
    let p = delete_plan(&points, &ar_finding(10, 16, 13), 12, 14).expect("aperçu AR");
    assert_eq!(kept_indices(&p), vec![10, 11, 15, 16]);
    assert!(p.points.iter().all(|s| !s.is_anchor));
}

#[test]
fn test_ar_preview_join_path_runs_from_context_to_context() {
    let points = line_points(30);
    let p = delete_plan(&points, &ar_finding(10, 16, 13), 12, 13).expect("aperçu AR");
    assert_eq!(p.join.len(), 3 + 4);
    assert_eq!(p.join[0].lon, points[9].lon);
    assert_eq!(p.join[2].lon, points[11].lon);
    assert_eq!(p.join[3].lon, points[14].lon);
    assert_eq!(p.join[6].lon, points[17].lon);
}

#[test]
fn test_ar_preview_clamps_single_point_and_reversed_range() {
    let points = line_points(30);
    let finding = ar_finding(10, 16, 13);
    let p = delete_plan(&points, &finding, 14, 12).expect("aperçu AR");
    assert_eq!(p.start, 12);
    assert_eq!(p.end, 12);
    assert_eq!(kept_indices(&p).len(), 6);
    let p2 = delete_plan(&points, &finding, 3, 40).expect("aperçu AR clampé");
    assert_eq!(p2.start, 10);
    assert_eq!(p2.end, 16);
}

#[test]
fn test_ar_preview_cursors_fall_back_on_trace_edges() {
    let points = line_points(30);
    let p = delete_plan(&points, &ar_finding(0, 4, 2), 0, 4).expect("aperçu AR en tête");
    assert_eq!(p.cursors[0].title, "bord de trace");
    assert_eq!(p.cursors[0].index, 0);
    assert_eq!(p.cursors[1].title, "conservé");
    assert_eq!(p.cursors[1].index, 5);
    assert!(p.join.is_empty(), "aucune polyligne pour un point isolé");
}

#[test]
fn test_rp_preview_open_state_keeps_only_the_bounds() {
    let points = circle_points(60, 40.0);
    let p = delete_plan(&points, &rp_finding(5, 50, 10, 45), 5, 50).expect("aperçu RP");
    assert_eq!(kept_indices(&p), vec![5, 50]);
    assert_eq!(p.red.len(), 44);
    assert_eq!(p.red[0].lon, points[6].lon);
    assert_eq!(p.join.len(), 2);
    assert_eq!(p.kept.len(), 2);
    assert_eq!(p.count_start, "Points conservés : [6 – 6]");
    assert_eq!(p.count_end, "Points conservés : [51 – 51]");
}

#[test]
fn test_rp_preview_sparing_points_shrinks_the_red_range() {
    let points = circle_points(60, 40.0);
    let p = delete_plan(&points, &rp_finding(5, 50, 10, 45), 5, 30).expect("aperçu RP");
    let kept = kept_indices(&p);
    assert_eq!(kept, vec![5, 30, 31, 32, 33, 34, 35, 36, 37, 38, 39, 40, 41, 42, 43, 44, 45, 46, 47, 48, 49, 50]);
    assert_eq!(p.red.len(), 24);
    assert_eq!(p.kept.len(), kept.len());
}

#[test]
fn test_rp_preview_clamp_never_crosses_cursors() {
    let points = circle_points(60, 40.0);
    let finding = rp_finding(5, 50, 10, 45);
    let p = delete_plan(&points, &finding, 20, 20).expect("aperçu RP clampé");
    assert!(p.end >= p.start + 1, "fin {} début {}", p.end, p.start);
    assert!(!p.red.is_empty() || p.red.len() < 2);
    let p2 = delete_plan(&points, &finding, 50, 5).expect("aperçu RP inversé");
    assert!(p2.start <= p2.end);
    assert!(p2.start >= 5 && p2.end <= 50);
}

#[test]
fn test_rp_preview_empty_red_range_when_nothing_to_delete() {
    let points = circle_points(60, 40.0);
    let p = delete_plan(&points, &rp_finding(5, 50, 10, 45), 20, 21).expect("aperçu RP vide");
    assert!(p.red.is_empty(), "aucun trait rouge pour une plage vide");
    assert!(p.join.len() >= 2);
}

#[test]
fn test_preview_rejects_empty_trace() {
    let err = delete_plan(&[], &ar_finding(0, 4, 2), 0, 1).expect_err("trace vide");
    assert!(err.contains("vide"), "message inattendu : {err}");
}

#[test]
fn test_preview_rejects_finding_without_zone() {
    let points = line_points(30);
    let mut finding = ar_finding(0, 4, 2);
    finding.parts.clear();
    let err = delete_plan(&points, &finding, 0, 1).expect_err("sans emprise");
    assert!(err.contains("emprise"), "message inattendu : {err}");
}

#[test]
fn test_preview_rejects_zone_out_of_trace() {
    let points = line_points(10);
    let err = delete_plan(&points, &ar_finding(0, 20, 2), 0, 1).expect_err("emprise hors trace");
    assert!(err.contains("hors de la trace"), "message inattendu : {err}");
}

#[test]
fn test_rp_preview_rejects_missing_core() {
    let points = circle_points(60, 40.0);
    let mut finding = rp_finding(5, 50, 10, 45);
    finding.parts.truncate(1);
    let err = delete_plan(&points, &finding, 5, 50).expect_err("RP sans cœur");
    assert!(err.contains("cœur"), "message inattendu : {err}");
}
