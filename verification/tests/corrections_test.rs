//! Correction engine: realignment and nesting, deletion of a range, routing,
//! false positives and undo.

use visugps2::corrections::{
    absorb_fp_findings, after_trace_edit, apply_delete, apply_route, mark_fp, nesting_guard,
    sync_indexes, undo_correction, unmark_fp,
};
use visugps2::migration::is_obsolete_registry;
use visugps2::types::{
    AuditPoint, AuditState, CorrectionType, Finding, FindingContext, FindingContextIds,
    FindingKind, FindingPair, FindingPart, FindingStatus, LatLon, Measure, PartRole, UndoDelete,
    UndoRecord, UndoRoute,
};

// ─── Test factories ───────────────────────────────────────────────────

fn f64_of(bits: u64) -> f64 {
    f64::from_bits(bits)
}

/// `n` points of ids `1..=n`, about 111 m apart towards the north.
fn make_points(n: usize) -> Vec<AuditPoint> {
    (1..=n)
        .map(|i| AuditPoint {
            id: i as u32,
            lat: (45.0 + (i as f64) * 0.001).to_bits(),
            lon: 3.0f64.to_bits(),
            ele: Some(100.0f64.to_bits()),
        })
        .collect()
}

/// `points` without the index range `[ds..=de]`.
fn delete_range(points: &[AuditPoint], ds: usize, de: usize) -> Vec<AuditPoint> {
    points
        .iter()
        .enumerate()
        .filter(|(i, _)| *i < ds || *i > de)
        .map(|(_, p)| *p)
        .collect()
}

/// A distance as shown in the texts: one decimal below 10 m, rounded above.
fn distance(d: f64) -> Measure {
    Measure {
        value: d.to_bits(),
        text: if d < 10.0 { format!("{:.1}", d) } else { format!("{}", d.round()) },
    }
}

/// An angle as shown in the texts: rounded.
fn degrees(e: f64) -> Measure {
    Measure { value: e.to_bits(), text: format!("{:.0}", e) }
}

/// Human wording of a cumulated rotation (as the RP detector writes it).
fn turn_text(total: f64) -> String {
    let k = (total / 360.0).round();
    if k >= 1.0 && (total - 360.0 * k).abs() <= 30.0 {
        return if k == 1.0 { "tour complet (1×)".to_string() } else { format!("{} tours complets", k) };
    }
    if total < 240.0 {
        return "demi-tour dépassé".to_string();
    }
    let base = (total / 360.0).floor();
    let q = ((total - 360.0 * base) / 90.0).round();
    let quart = ["", "1/4 de tour", "1/2 tour", "3/4 de tour", "tour complet"]
        .get(q as usize)
        .copied()
        .unwrap_or("");
    if base == 0.0 {
        return if quart.is_empty() { format!("{}°", total.round()) } else { quart.to_string() };
    }
    if q == 0.0 {
        return format!("{} tours complets", base);
    }
    let s = if base > 1.0 { "s" } else { "" };
    format!("{} tour{} complet{} + {}", base, s, s, quart)
}

fn pairs_of(ids: &[u32], pairs_at: &[(usize, usize, f64)]) -> Vec<FindingPair> {
    pairs_at
        .iter()
        .map(|&(a, b, d)| FindingPair { aid: ids[a], bid: ids[b], a, b, d: distance(d) })
        .collect()
}

/// Minimal AR finding: zone `[s..=e]`, peak, mirror pairs `(a, b, d)`.
fn ar_finding(id: &str, pts: &[AuditPoint], s: usize, e: usize, peak: usize, pairs_at: &[(usize, usize, f64)]) -> Finding {
    let ids: Vec<u32> = pts.iter().map(|p| p.id).collect();
    let pairs = pairs_of(&ids, pairs_at);
    let pair_idx = pairs.iter().flat_map(|p| [p.a, p.b]).collect();
    let (d1, d2) = (12.0_f64, 9.0_f64);
    Finding {
        id: id.to_string(),
        kind: FindingKind::Ar,
        label: format!("Aller-retour : {}", id),
        summary: String::new(),
        peak,
        peak_id: ids[peak],
        pairs,
        pair_idx,
        ecart: Some(degrees(40.0)),
        d1: Some(d1.to_bits()),
        d2: Some(d2.to_bits()),
        total_angle: None,
        turn_text: None,
        core_ids: Vec::new(),
        zone_ids: ids[s..=e].to_vec(),
        ctx_ids: FindingContextIds {
            up: if s >= 1 { Some(ids[s - 1]) } else { None },
            dn: if e + 1 < ids.len() { Some(ids[e + 1]) } else { None },
        },
        ctx: FindingContext {
            up: if s >= 1 { Some(s - 1) } else { None },
            dn: if e + 1 < ids.len() { Some(e + 1) } else { None },
        },
        parts: vec![
            FindingPart { s, e, role: PartRole::Warn, text: String::new() },
            FindingPart {
                s: peak - 1,
                e: peak + 1,
                role: PartRole::Info,
                text: format!("cœur : demi-tour · branches {:.0}/{:.0} m", d1, d2),
            },
        ],
        status: FindingStatus::Pending,
        correction: None,
        undo: None,
    }
}

/// Minimal RP finding: zone `[s..=e]`, core `[cs..=ce]`, junction at `cs`.
#[allow(clippy::too_many_arguments)]
fn rp_finding(
    id: &str,
    pts: &[AuditPoint],
    s: usize,
    e: usize,
    cs: usize,
    ce: usize,
    pairs_at: &[(usize, usize, f64)],
    total_angle: f64,
) -> Finding {
    let ids: Vec<u32> = pts.iter().map(|p| p.id).collect();
    let pairs = pairs_of(&ids, pairs_at);
    let pair_idx = pairs.iter().flat_map(|p| [p.a, p.b]).collect();
    let total = total_angle.round() as i32;
    let tt = turn_text(total_angle);
    Finding {
        id: id.to_string(),
        kind: FindingKind::Rp,
        label: format!("Tour de rond-point : {}", id),
        summary: String::new(),
        peak: cs,
        peak_id: ids[cs],
        pairs,
        pair_idx,
        ecart: None,
        d1: None,
        d2: None,
        total_angle: Some(total),
        turn_text: Some(tt),
        core_ids: ids[cs..=ce].to_vec(),
        zone_ids: ids[s..=e].to_vec(),
        ctx_ids: FindingContextIds {
            up: if s >= 1 { Some(ids[s - 1]) } else { None },
            dn: if e + 1 < ids.len() { Some(ids[e + 1]) } else { None },
        },
        ctx: FindingContext {
            up: if s >= 1 { Some(s - 1) } else { None },
            dn: if e + 1 < ids.len() { Some(e + 1) } else { None },
        },
        parts: vec![
            FindingPart { s, e, role: PartRole::Warn, text: String::new() },
            FindingPart { s: cs, e: ce, role: PartRole::Warn, text: String::new() },
        ],
        status: FindingStatus::Pending,
        correction: None,
        undo: None,
    }
}

/// A deep copy of a finding.
fn copy_finding(f: &Finding) -> Finding {
    Finding {
        id: f.id.clone(),
        kind: f.kind,
        label: f.label.clone(),
        summary: f.summary.clone(),
        peak: f.peak,
        peak_id: f.peak_id,
        pairs: f.pairs.clone(),
        pair_idx: f.pair_idx.clone(),
        ecart: f.ecart.clone(),
        d1: f.d1,
        d2: f.d2,
        total_angle: f.total_angle,
        turn_text: f.turn_text.clone(),
        core_ids: f.core_ids.clone(),
        zone_ids: f.zone_ids.clone(),
        ctx_ids: f.ctx_ids,
        ctx: f.ctx,
        parts: f.parts.clone(),
        status: f.status,
        correction: f.correction,
        undo: f.undo.as_ref().map(copy_undo),
    }
}

fn copy_undo(u: &UndoRecord) -> UndoRecord {
    match u {
        UndoRecord::Delete(d) => UndoRecord::Delete(UndoDelete {
            orig_pts: d.orig_pts.clone(),
            anchor_left_id: d.anchor_left_id,
            anchor_right_id: d.anchor_right_id,
            first_no: d.first_no,
            absorbed_fp: copy_findings(&d.absorbed_fp),
        }),
        UndoRecord::Route(r) => UndoRecord::Route(UndoRoute {
            orig_pts: r.orig_pts.clone(),
            inserted_ids: r.inserted_ids.clone(),
            route_pts: r.route_pts.clone(),
            start_pt: r.start_pt,
            end_pt: r.end_pt,
            first_no: r.first_no,
            absorbed_fp: copy_findings(&r.absorbed_fp),
        }),
    }
}

fn copy_findings(v: &[Finding]) -> Vec<Finding> {
    v.iter().map(copy_finding).collect()
}

fn ids_of(findings: &[Finding]) -> Vec<String> {
    findings.iter().map(|f| f.id.clone()).collect()
}

fn pt_ids(points: &[AuditPoint]) -> Vec<u32> {
    points.iter().map(|p| p.id).collect()
}

fn undo_delete_of(f: &Finding) -> &UndoDelete {
    match f.undo.as_ref() {
        Some(UndoRecord::Delete(u)) => u,
        other => panic!("undo attendu de type delete, obtenu {:?}", other),
    }
}

fn undo_route_of(f: &Finding) -> &UndoRoute {
    match f.undo.as_ref() {
        Some(UndoRecord::Route(u)) => u,
        other => panic!("undo attendu de type route, obtenu {:?}", other),
    }
}

/// A mock routed track: `n` points towards the north-east.
fn make_coords(n: usize) -> Vec<LatLon> {
    (0..n)
        .map(|k| LatLon {
            lat: (46.0 + (k as f64) * 0.001).to_bits(),
            lon: (4.0 + (k as f64) * 0.001).to_bits(),
        })
        .collect()
}

/// Point-by-point comparison of two traces (id, coordinates, elevation,
/// order).
fn assert_points_eq(actual: &[AuditPoint], expected: &[AuditPoint]) {
    assert_eq!(actual.len(), expected.len(), "nombre de points");
    for (k, (a, e)) in actual.iter().zip(expected.iter()).enumerate() {
        assert_eq!((a.id, a.lat, a.lon, a.ele), (e.id, e.lat, e.lon, e.ele), "point d'index {k}");
    }
}

// ─── Realignment ──────────────────────────────────────────────────────

#[test]
fn test_sync_indexes_after_delete_upstream() {
    let pts = make_points(12);
    let mut findings = vec![ar_finding("ar-1", &pts, 5, 8, 6, &[(5, 7, 40.0)])];

    let working = delete_range(&pts, 0, 1);
    sync_indexes(&working, &mut findings);
    let f = findings.remove(0);

    assert_eq!(f.parts[0].s, 3, "début d'emprise translaté");
    assert_eq!(f.parts[0].e, 6, "fin d'emprise translatée");
    assert_eq!(f.peak, 4, "sommet translaté");
    assert_eq!(f.parts[1].s, 3);
    assert_eq!(f.parts[1].e, 5);
    assert_eq!(f.ctx.up, Some(2));
    assert_eq!(f.ctx.dn, Some(7));
    assert_eq!(f.pairs.len(), 1);
    assert_eq!((f.pairs[0].a, f.pairs[0].b), (3, 5));
    assert_eq!(f64_of(f.pairs[0].d.value), 40.0, "la distance mesurée ne bouge pas");
    assert_eq!(f.pair_idx, vec![3, 5]);
    assert_eq!(f.summary, "sommet pt 5 · 1 paire · écart 40°");
    assert_eq!(f.parts[0].text, "paires miroirs : pts 4↔6 (40 m)");
}

#[test]
fn test_sync_indexes_after_delete_downstream() {
    let pts = make_points(12);
    let mut findings = vec![ar_finding("ar-1", &pts, 5, 8, 6, &[(5, 7, 40.0)])];

    let working = delete_range(&pts, 10, 11);
    sync_indexes(&working, &mut findings);

    let f = &findings[0];
    assert_eq!((f.parts[0].s, f.parts[0].e), (5, 8));
    assert_eq!(f.peak, 6);
    assert_eq!((f.parts[1].s, f.parts[1].e), (5, 7));
    assert_eq!((f.ctx.up, f.ctx.dn), (Some(4), Some(9)));
    assert_eq!((f.pairs[0].a, f.pairs[0].b), (5, 7));
    assert_eq!(f.summary, "sommet pt 7 · 1 paire · écart 40°");
}

#[test]
fn test_sync_indexes_skips_corrected() {
    let pts = make_points(20);

    let mut corrected = ar_finding("ar-1", &pts, 5, 8, 6, &[(5, 7, 40.0)]);
    corrected.status = FindingStatus::Corrected;
    corrected.parts[0].text = "texte figé".to_string();
    corrected.summary = "sommet pt 7 · 1 paire · écart 40°".to_string();

    let pending = ar_finding("ar-2", &pts, 12, 14, 13, &[(12, 14, 6.5)]);

    let mut findings = vec![copy_finding(&corrected), pending];
    let working = delete_range(&pts, 4, 7);

    sync_indexes(&working, &mut findings);

    let c = findings.iter().find(|f| f.id == "ar-1").expect("finding corrigé conservé");
    assert_eq!(c.status, FindingStatus::Corrected);
    assert_eq!((c.parts[0].s, c.parts[0].e, c.peak), (5, 8, 6));
    assert_eq!(c.parts[0].text, "texte figé");
    assert_eq!(c.summary, "sommet pt 7 · 1 paire · écart 40°");
    assert_eq!((c.pairs[0].a, c.pairs[0].b), (5, 7));

    let p = findings.iter().find(|f| f.id == "ar-2").expect("finding pending conservé");
    assert_eq!((p.parts[0].s, p.parts[0].e, p.peak), (8, 10, 9));
    assert_eq!((p.pairs[0].a, p.pairs[0].b), (8, 10));
    assert_eq!(p.summary, "sommet pt 10 · 1 paire · écart 40°");
    assert_eq!(p.parts[0].text, "paires miroirs : pts 9↔11 (6.5 m)");
}

#[test]
fn test_sync_indexes_rebuild_texts() {
    let pts = make_points(30);
    let mut findings = vec![rp_finding("rp-1", &pts, 8, 20, 12, 18, &[(10, 17, 3.5)], 270.0)];

    findings[0].summary = "jonction pt 13 · 270° (3/4 de tour) · 1 paire".to_string();
    findings[0].parts[0].text = "superpositions : pts 11↔18 (3.5 m)".to_string();

    let working = delete_range(&pts, 0, 2);
    sync_indexes(&working, &mut findings);

    let f = &findings[0];
    assert_eq!((f.parts[0].s, f.parts[0].e), (5, 17));
    assert_eq!(f.peak, 9);
    assert_eq!((f.parts[1].s, f.parts[1].e), (9, 15), "cœur translaté");
    assert_eq!(f.summary, "jonction pt 10 · 270° (3/4 de tour) · 1 paire");
    assert_eq!(f.parts[0].text, "superpositions : pts 8↔15 (3.5 m)");
    assert_eq!(f.parts[1].text, "cœur : angle cumulé 270° (3/4 de tour)");
}

#[test]
fn test_rebuild_texts_ar() {
    let pts = make_points(20);
    let mut findings = vec![
        ar_finding("ar-1", &pts, 5, 8, 6, &[(5, 7, 4.0)]),
        ar_finding("ar-2", &pts, 12, 14, 13, &[]),
    ];
    for f in findings.iter_mut() {
        f.parts[1].text = "cœur : demi-tour · branches 12/9 m".to_string();
    }

    sync_indexes(&pts, &mut findings);

    assert_eq!(findings[0].summary, "sommet pt 7 · 1 paire · écart 40°");
    assert_eq!(findings[0].parts[0].text, "paires miroirs : pts 6↔8 (4.0 m)");
    assert_eq!(
        findings[0].parts[1].text, "cœur : demi-tour · branches 12/9 m",
        "le cœur AR ne porte aucun numéro : il n'est pas régénéré"
    );

    assert_eq!(findings[1].summary, "sommet pt 14 · 0 paire · écart 40°");
    assert_eq!(findings[1].parts[0].text, "retournement isolé, aucune paire miroir");
}

#[test]
fn test_rebuild_texts_rp() {
    let pts = make_points(30);
    let mut findings = vec![
        rp_finding("rp-1", &pts, 8, 20, 12, 18, &[(10, 17, 3.5), (11, 16, 40.0)], 270.0),
        rp_finding("rp-2", &pts, 22, 28, 24, 27, &[], 720.0),
    ];

    sync_indexes(&pts, &mut findings);

    assert_eq!(findings[0].summary, "jonction pt 13 · 270° (3/4 de tour) · 2 paires");
    assert_eq!(findings[0].parts[0].text, "superpositions : pts 11↔18 (3.5 m) · pts 12↔17 (40 m)");
    assert_eq!(findings[0].parts[1].text, "cœur : angle cumulé 270° (3/4 de tour)");

    assert_eq!(findings[1].summary, "jonction pt 25 · 720° (2 tours complets) · 0 paire");
    assert_eq!(
        findings[1].parts[0].text, "refermeture par croisement de trace",
        "sans paire de superposition, le RP signale la refermeture"
    );
}

// ─── Nesting ──────────────────────────────────────────────────────────

#[test]
fn test_nesting_guard_refuses() {
    let pts = make_points(30);
    let mut fp = rp_finding("rp-1", &pts, 6, 7, 6, 7, &[], 300.0);
    fp.status = FindingStatus::Fp;
    let mut corrected = ar_finding("ar-3", &pts, 6, 7, 6, &[]);
    corrected.status = FindingStatus::Corrected;

    let findings = vec![
        ar_finding("ar-1", &pts, 5, 8, 6, &[(5, 7, 40.0)]),
        ar_finding("ar-2", &pts, 20, 24, 22, &[(20, 24, 8.0)]),
        fp,
        corrected,
    ];

    assert_eq!(nesting_guard(&findings, "ar-2", 6, 7).as_deref(), Some("ar-1"));
    assert_eq!(nesting_guard(&findings, "ar-2", 8, 8).as_deref(), Some("ar-1"));
    assert_eq!(nesting_guard(&findings, "ar-1", 5, 8), None);
    assert_eq!(nesting_guard(&findings, "ar-2", 9, 8), None);
    assert_eq!(nesting_guard(&findings, "ar-1", 12, 15), None);
}

#[test]
fn test_nesting_guard_allows_fp() {
    let pts = make_points(30);
    let mut fp = ar_finding("ar-1", &pts, 5, 8, 6, &[(5, 7, 40.0)]);
    fp.status = FindingStatus::Fp;

    let findings = vec![fp, ar_finding("ar-2", &pts, 20, 24, 22, &[])];

    assert_eq!(nesting_guard(&findings, "ar-2", 5, 8), None, "un faux positif n'est pas un obstacle");

    let mut corrected = ar_finding("ar-3", &pts, 12, 14, 13, &[]);
    corrected.status = FindingStatus::Corrected;
    let findings2 = vec![corrected, ar_finding("ar-2", &pts, 20, 24, 22, &[])];
    assert_eq!(nesting_guard(&findings2, "ar-2", 12, 14), None);
}

#[test]
fn test_absorb_fp_findings() {
    let pts = make_points(30);
    let mut fp_in = ar_finding("ar-fp1", &pts, 6, 7, 6, &[]);
    fp_in.status = FindingStatus::Fp;
    let mut fp_out = ar_finding("ar-fp2", &pts, 20, 24, 22, &[]);
    fp_out.status = FindingStatus::Fp;
    let mut self_fp = ar_finding("ar-1", &pts, 5, 8, 6, &[]);
    self_fp.status = FindingStatus::Fp;

    let mut findings = vec![self_fp, fp_in, fp_out, ar_finding("ar-2", &pts, 7, 7, 7, &[])];

    let absorbed = absorb_fp_findings(&mut findings, "ar-1", 5, 8);

    assert_eq!(absorbed.len(), 1);
    assert_eq!(absorbed[0].id, "ar-fp1");
    assert_eq!(absorbed[0].status, FindingStatus::Fp, "l'absorbé conserve son statut pour la restitution");
    assert_eq!(
        ids_of(&findings),
        vec!["ar-1", "ar-fp2", "ar-2"],
        "le courant et le fp hors plage sont conservés, le pending recouvert aussi"
    );

    let before = ids_of(&findings);
    let absorbed2 = absorb_fp_findings(&mut findings, "ar-1", 9, 8);
    assert!(absorbed2.is_empty());
    assert_eq!(ids_of(&findings), before);
}

#[test]
fn test_after_trace_edit_sorts_by_position() {
    let pts = make_points(30);
    let mut findings = vec![
        ar_finding("ar-3", &pts, 20, 24, 22, &[]),
        ar_finding("ar-1", &pts, 5, 8, 6, &[]),
        rp_finding("rp-2", &pts, 12, 18, 14, 16, &[], 270.0),
    ];

    after_trace_edit(&pts, &mut findings);

    assert_eq!(ids_of(&findings), vec!["ar-1", "rp-2", "ar-3"]);
    assert_eq!(findings[0].parts[0].s, 5);
    assert_eq!(findings[1].parts[0].s, 12);
    assert_eq!(findings[2].parts[0].s, 20);

    let mut tied = vec![rp_finding("rp-1", &pts, 5, 8, 6, 7, &[], 270.0), ar_finding("ar-1", &pts, 5, 8, 6, &[])];
    after_trace_edit(&pts, &mut tied);
    assert_eq!(ids_of(&tied), vec!["rp-1", "ar-1"]);
}

// ─── Deletion ─────────────────────────────────────────────────────────

#[test]
fn test_apply_delete_basic() {
    let pts = make_points(20);
    let findings = vec![
        ar_finding("ar-1", &pts, 5, 8, 6, &[(5, 7, 40.0)]),
        ar_finding("ar-2", &pts, 12, 14, 13, &[(12, 14, 6.5)]),
    ];

    let state = apply_delete(pts, findings, "ar-1", 5, 7, 100).expect("suppression acceptée");

    let mut expected: Vec<u32> = (1..=5).collect();
    expected.extend(9..=20);
    assert_eq!(pt_ids(&state.points), expected, "plage retirée, ordre conservé");

    let corrected = state.findings.iter().find(|f| f.id == "ar-1").expect("finding corrigé présent");
    assert_eq!(corrected.status, FindingStatus::Corrected);
    assert_eq!(corrected.correction, Some(CorrectionType::Delete));
    let undo = undo_delete_of(corrected);
    assert_eq!(pt_ids(&undo.orig_pts), vec![6, 7, 8]);
    assert_eq!(undo.anchor_left_id, Some(5));
    assert_eq!(undo.anchor_right_id, Some(9));
    assert_eq!(undo.first_no, 6);
    assert!(undo.absorbed_fp.is_empty());

    assert_eq!((corrected.parts[0].s, corrected.parts[0].e), (5, 8));
    let downstream = state.findings.iter().find(|f| f.id == "ar-2").expect("finding aval présent");
    assert_eq!(downstream.status, FindingStatus::Pending);
    assert_eq!((downstream.parts[0].s, downstream.parts[0].e, downstream.peak), (9, 11, 10));
    assert_eq!((downstream.pairs[0].a, downstream.pairs[0].b), (9, 11));
    assert_eq!(downstream.summary, "sommet pt 11 · 1 paire · écart 40°");
}

#[test]
fn test_apply_delete_nesting_refused() {
    let pts = make_points(20);
    let findings = vec![
        ar_finding("ar-1", &pts, 5, 8, 6, &[(5, 7, 40.0)]),
        ar_finding("ar-2", &pts, 7, 12, 9, &[]),
    ];
    let err = apply_delete(pts, findings, "ar-1", 5, 7, 100).expect_err("imbrication refusée");
    assert!(err.contains("ar-2"), "l'anomalie bloquante est nommée : {err}");
    assert!(err.contains("refusée"), "message de refus attendu : {err}");

    let small = make_points(4);
    let findings2 = vec![ar_finding("ar-1", &small, 0, 3, 1, &[]), ar_finding("ar-2", &small, 1, 2, 1, &[])];
    let err2 = apply_delete(small, findings2, "ar-1", 0, 3, 100).expect_err("imbrication prioritaire sur dégénérescence");
    assert!(err2.contains("ar-2"), "message d'imbrication attendu : {err2}");
    assert!(!err2.contains("dégénérée"), "la dégénérescence n'est pas évaluée : {err2}");
}

#[test]
fn test_apply_delete_degenerate_refused() {
    let pts = make_points(5);
    let findings = vec![ar_finding("ar-1", &pts, 0, 3, 1, &[])];
    let err = apply_delete(pts, findings, "ar-1", 0, 3, 100).expect_err("trace dégénérée");
    assert!(err.contains("dégénérée"), "message attendu : {err}");

    let pts2 = make_points(5);
    let findings2 = vec![ar_finding("ar-1", &pts2, 0, 3, 1, &[])];
    let state = apply_delete(pts2, findings2, "ar-1", 0, 2, 100).expect("2 points restants");
    assert_eq!(pt_ids(&state.points), vec![4, 5]);
}

#[test]
fn test_apply_delete_empty_range_refused() {
    let pts = make_points(12);
    let findings = vec![ar_finding("ar-1", &pts, 5, 8, 6, &[])];
    let err = apply_delete(pts, findings, "ar-1", 6, 5, 100).expect_err("plage vide refusée");
    assert!(err.contains("Aucun point à supprimer entre les curseurs"), "message attendu : {err}");
}

#[test]
fn test_apply_delete_single_point() {
    let pts = make_points(10);
    let findings = vec![ar_finding("ar-1", &pts, 2, 6, 4, &[])];

    let state = apply_delete(pts, findings, "ar-1", 4, 4, 100).expect("point isolé supprimé");

    assert_eq!(state.points.len(), 9);
    assert_eq!(pt_ids(&state.points), vec![1, 2, 3, 4, 6, 7, 8, 9, 10]);
    let corrected = state.findings.iter().find(|f| f.id == "ar-1").unwrap();
    let undo = undo_delete_of(corrected);
    assert_eq!(pt_ids(&undo.orig_pts), vec![5]);
    assert_eq!(undo.anchor_left_id, Some(4));
    assert_eq!(undo.anchor_right_id, Some(6));
    assert_eq!(undo.first_no, 5);
}

#[test]
fn test_apply_delete_undo_complete() {
    let pts = make_points(12);
    let findings = vec![ar_finding("ar-1", &pts, 3, 7, 5, &[])];

    let state = apply_delete(pts.clone(), findings, "ar-1", 4, 6, 100).expect("suppression");

    let corrected = state.findings.iter().find(|f| f.id == "ar-1").unwrap();
    let undo = undo_delete_of(corrected);
    assert_eq!(undo.orig_pts.len(), 3);
    for (k, p) in undo.orig_pts.iter().enumerate() {
        let src = &pts[4 + k];
        assert_eq!(p.id, src.id);
        assert_eq!(p.lat, src.lat);
        assert_eq!(p.lon, src.lon);
        assert_eq!(p.ele, src.ele);
    }
    assert_eq!(undo.first_no, 5);
    let mut expected = pt_ids(&pts);
    expected.drain(4..=6);
    assert_eq!(pt_ids(&state.points), expected);
}

#[test]
fn test_apply_delete_anchor_left_null() {
    let pts = make_points(10);
    let findings = vec![ar_finding("ar-1", &pts, 0, 3, 1, &[])];

    let state = apply_delete(pts, findings, "ar-1", 0, 1, 100).expect("tête supprimée");

    let corrected = state.findings.iter().find(|f| f.id == "ar-1").unwrap();
    let undo = undo_delete_of(corrected);
    assert_eq!(undo.anchor_left_id, None, "aucun point conservé en amont");
    assert_eq!(undo.anchor_right_id, Some(3));
    assert_eq!(pt_ids(&undo.orig_pts), vec![1, 2]);
    assert_eq!(pt_ids(&state.points), (3..=10).collect::<Vec<u32>>());
}

#[test]
fn test_apply_delete_anchor_right_null() {
    let pts = make_points(10);
    let findings = vec![ar_finding("ar-1", &pts, 5, 9, 7, &[])];

    let state = apply_delete(pts, findings, "ar-1", 8, 9, 100).expect("queue supprimée");

    let corrected = state.findings.iter().find(|f| f.id == "ar-1").unwrap();
    let undo = undo_delete_of(corrected);
    assert_eq!(undo.anchor_left_id, Some(8));
    assert_eq!(undo.anchor_right_id, None, "aucun point conservé en aval");
    assert_eq!(pt_ids(&undo.orig_pts), vec![9, 10]);
    assert_eq!(pt_ids(&state.points), (1..=8).collect::<Vec<u32>>());
}

#[test]
fn test_apply_delete_absorbs_fp() {
    let pts = make_points(20);
    let mut fp_in = ar_finding("ar-fp1", &pts, 6, 7, 6, &[]);
    fp_in.status = FindingStatus::Fp;
    let mut fp_out = ar_finding("ar-fp2", &pts, 15, 16, 15, &[]);
    fp_out.status = FindingStatus::Fp;

    let findings = vec![
        ar_finding("ar-1", &pts, 5, 8, 6, &[(5, 7, 40.0)]),
        fp_in,
        fp_out,
        ar_finding("ar-2", &pts, 12, 14, 13, &[]),
    ];

    let state = apply_delete(pts, findings, "ar-1", 5, 7, 100).expect("suppression avec absorption");

    assert_eq!(
        ids_of(&state.findings),
        vec!["ar-1", "ar-2", "ar-fp2"],
        "le faux positif recouvert quitte la liste, les autres restent"
    );
    let corrected = state.findings.iter().find(|f| f.id == "ar-1").unwrap();
    let undo = undo_delete_of(corrected);
    assert_eq!(undo.absorbed_fp.len(), 1);
    assert_eq!(undo.absorbed_fp[0].id, "ar-fp1");
    assert_eq!(undo.absorbed_fp[0].status, FindingStatus::Fp, "statut conservé pour la restitution");
}

#[test]
fn test_apply_delete_rejects_non_pending() {
    let pts = make_points(20);
    let mut corrected = ar_finding("ar-1", &pts, 5, 8, 6, &[(5, 7, 40.0)]);
    corrected.status = FindingStatus::Corrected;
    let mut fp = ar_finding("ar-2", &pts, 12, 14, 13, &[]);
    fp.status = FindingStatus::Fp;

    let err = apply_delete(pts.clone(), vec![copy_finding(&corrected), copy_finding(&fp)], "ar-1", 5, 7, 100)
        .expect_err("refus d'une anomalie déjà corrigée");
    assert!(err.contains("déjà traitée"), "message attendu : {err}");

    let err2 = apply_delete(pts.clone(), vec![corrected, fp], "ar-2", 12, 14, 100).expect_err("refus d'un faux positif");
    assert!(err2.contains("déjà traitée"), "message attendu : {err2}");

    let findings = vec![ar_finding("ar-1", &pts, 5, 8, 6, &[])];
    let err3 = apply_delete(pts, findings, "ar-9", 5, 7, 100).expect_err("refus d'une anomalie inconnue");
    assert!(err3.contains("inconnue"), "message attendu : {err3}");
}

// ─── Routing ──────────────────────────────────────────────────────────

/// The nested scenario (an AR in the approach of an RP loop) after both
/// corrections.
fn nested_corrected_state() -> AuditState {
    let pts = make_points(20);
    let findings = vec![
        ar_finding("ar-1", &pts, 5, 7, 6, &[(5, 7, 40.0)]),
        rp_finding("rp-1", &pts, 4, 14, 8, 12, &[(6, 13, 3.0)], 300.0),
    ];

    let err = apply_delete(pts.clone(), copy_findings(&findings), "rp-1", 5, 6, 100)
        .expect_err("plage morduant l'AR pending : refus attendu");
    assert!(err.contains("ar-1"), "l'anomalie bloquante est l'AR : {err}");

    let state = apply_delete(pts, findings, "rp-1", 9, 11, 100).expect("suppression du cœur RP");
    apply_delete(state.points, state.findings, "ar-1", 6, 6, 100).expect("suppression AR")
}

fn assert_d5_findings_pending(findings: &[Finding]) {
    let ar = findings.iter().find(|f| f.id == "ar-1").expect("ar-1");
    assert_eq!(ar.status, FindingStatus::Pending);
    assert_eq!(ar.correction, None);
    assert!(ar.undo.is_none(), "instantané consommé");
    assert_eq!((ar.parts[0].s, ar.parts[0].e, ar.peak), (5, 7, 6));

    let rp = findings.iter().find(|f| f.id == "rp-1").expect("rp-1");
    assert_eq!(rp.status, FindingStatus::Pending);
    assert_eq!(rp.correction, None);
    assert!(rp.undo.is_none(), "instantané consommé");
    assert_eq!((rp.parts[0].s, rp.parts[0].e), (4, 14));
    assert_eq!((rp.parts[1].s, rp.parts[1].e), (8, 12));
}

#[test]
fn test_apply_route_basic() {
    let pts = make_points(20);
    let findings = vec![
        ar_finding("ar-1", &pts, 5, 10, 7, &[]),
        ar_finding("ar-2", &pts, 12, 14, 13, &[(12, 14, 6.5)]),
    ];
    let coords = make_coords(4);

    let state = apply_route(pts, findings, "ar-1", 6, 8, coords.clone(), "driving-car", 100).expect("routage accepté");

    let mut expected: Vec<u32> = (1..=7).collect();
    expected.extend([100, 101]);
    expected.extend(9..=20);
    assert_eq!(pt_ids(&state.points), expected, "mids insérés entre les ancres");

    let corrected = state.findings.iter().find(|f| f.id == "ar-1").expect("finding corrigé présent");
    assert_eq!(corrected.status, FindingStatus::Corrected);
    assert_eq!(corrected.correction, Some(CorrectionType::RouteCar));

    let undo = undo_route_of(corrected);
    assert_eq!(pt_ids(&undo.orig_pts), vec![8], "points remplacés copiés");
    assert_eq!(undo.inserted_ids, vec![100, 101], "ordre amont → aval");
    assert_eq!(undo.first_no, 8);
    assert!(undo.absorbed_fp.is_empty());
    assert_eq!(f64_of(undo.start_pt.lat), 45.007);
    assert_eq!(f64_of(undo.end_pt.lat), 45.009);

    let anchor_start = state.points.iter().find(|p| p.id == 7).unwrap();
    assert_eq!((f64_of(anchor_start.lat), anchor_start.ele.map(f64_of)), (45.007, Some(100.0)));
    let anchor_end = state.points.iter().find(|p| p.id == 9).unwrap();
    assert_eq!((f64_of(anchor_end.lat), anchor_end.ele.map(f64_of)), (45.009, Some(100.0)));

    let mid = state.points.iter().find(|p| p.id == 100).unwrap();
    assert_eq!((f64_of(mid.lat), f64_of(mid.lon), mid.ele), (46.001, 4.001, None));

    let downstream = state.findings.iter().find(|f| f.id == "ar-2").unwrap();
    assert_eq!((downstream.parts[0].s, downstream.parts[0].e, downstream.peak), (13, 15, 14));
}

#[test]
fn test_apply_route_profile_invalid() {
    let pts = make_points(20);
    let findings = vec![ar_finding("ar-1", &pts, 5, 10, 7, &[])];

    let err = apply_route(pts, findings, "ar-1", 6, 8, make_coords(3), "walking", 100).expect_err("profil refusé");
    assert!(err.contains("Profil"), "message attendu : {err}");
}

#[test]
fn test_apply_route_coords_too_short() {
    let pts = make_points(20);
    let findings = vec![ar_finding("ar-1", &pts, 5, 10, 7, &[])];
    let err = apply_route(pts, findings, "ar-1", 6, 8, make_coords(1), "driving-car", 100).expect_err("tracé trop court");
    assert!(err.contains("Tracé ORS invalide (moins de 2 points)."), "message attendu : {err}");

    let pts2 = make_points(20);
    let findings2 = vec![ar_finding("ar-1", &pts2, 5, 10, 7, &[])];
    let state = apply_route(pts2, findings2, "ar-1", 6, 8, make_coords(2), "driving-car", 100).expect("routage à mids vide");
    let corrected = state.findings.iter().find(|f| f.id == "ar-1").unwrap();
    assert_eq!(undo_route_of(corrected).inserted_ids, Vec::<u32>::new());
    assert!(state.points.iter().all(|p| p.id <= 20), "aucun id alloué");
}

#[test]
fn test_apply_route_nesting_refused() {
    let pts = make_points(20);
    let findings = vec![ar_finding("ar-1", &pts, 5, 10, 7, &[]), ar_finding("ar-2", &pts, 7, 8, 7, &[])];
    let err = apply_route(pts, findings, "ar-1", 6, 8, make_coords(4), "driving-car", 100).expect_err("imbrication refusée");
    assert!(err.contains("ar-2"), "l'anomalie bloquante est nommée : {err}");
}

#[test]
fn test_apply_route_empty_inner() {
    let pts = make_points(20);
    let findings = vec![ar_finding("ar-1", &pts, 5, 10, 7, &[])];

    let state = apply_route(pts, findings, "ar-1", 5, 6, make_coords(3), "cycling-road", 100).expect("ancres adjacentes");

    let mut expected: Vec<u32> = (1..=6).collect();
    expected.push(100);
    expected.extend(7..=20);
    assert_eq!(pt_ids(&state.points), expected);

    let corrected = state.findings.iter().find(|f| f.id == "ar-1").unwrap();
    assert_eq!(corrected.correction, Some(CorrectionType::RouteBike));
    let undo = undo_route_of(corrected);
    assert!(undo.orig_pts.is_empty(), "aucun point remplacé");
    assert_eq!(undo.inserted_ids, vec![100]);
    assert_eq!(undo.first_no, 7);
    assert!(state.points.iter().any(|p| p.id == 100));
}

#[test]
fn test_apply_route_undo_route_pts() {
    let pts = make_points(20);
    let findings = vec![ar_finding("ar-1", &pts, 5, 10, 7, &[])];
    let coords = make_coords(5);

    let state = apply_route(pts, findings, "ar-1", 6, 9, coords.clone(), "driving-car", 100).expect("routage accepté");

    let corrected = state.findings.iter().find(|f| f.id == "ar-1").unwrap();
    let undo = undo_route_of(corrected);

    assert_eq!(undo.route_pts.len(), coords.len(), "|route_pts| = |coords|");
    assert_eq!(undo.inserted_ids.len(), coords.len() - 2, "|mids| = |coords| − 2 (ancres non dupliquées)");
    assert_eq!((f64_of(undo.route_pts[0].lat), f64_of(undo.route_pts[0].lon)), (45.007, 3.0));
    assert_eq!((undo.route_pts[0].lat, undo.route_pts[0].lon), (undo.start_pt.lat, undo.start_pt.lon));
    let last = undo.route_pts.last().unwrap();
    assert_eq!((f64_of(last.lat), f64_of(last.lon)), (45.01, 3.0));
    assert_eq!((last.lat, last.lon), (undo.end_pt.lat, undo.end_pt.lon));
    for (k, c) in coords[1..coords.len() - 1].iter().enumerate() {
        assert_eq!((undo.route_pts[k + 1].lat, undo.route_pts[k + 1].lon), (c.lat, c.lon));
    }
}

#[test]
fn test_apply_route_new_ids_allocated() {
    let pts = make_points(20);
    let findings = vec![ar_finding("ar-1", &pts, 5, 10, 7, &[])];

    let state = apply_route(pts, findings, "ar-1", 6, 8, make_coords(5), "driving-car", 1000).expect("routage accepté");

    let corrected = state.findings.iter().find(|f| f.id == "ar-1").unwrap();
    assert_eq!(undo_route_of(corrected).inserted_ids, vec![1000, 1001, 1002]);

    let inserted: Vec<u32> = state.points.iter().map(|p| p.id).filter(|id| *id >= 1000).collect();
    assert_eq!(inserted, vec![1000, 1001, 1002], "ordre amont → aval");
    assert_eq!(
        state.points.iter().filter(|p| p.id <= 20).count(),
        19,
        "les 20 points d'origine moins l'intérieur remplacé"
    );
}

#[test]
fn test_apply_route_absorbs_fp() {
    let pts = make_points(20);
    let mut fp_in = ar_finding("ar-fp1", &pts, 7, 8, 7, &[]);
    fp_in.status = FindingStatus::Fp;
    let mut fp_out = ar_finding("ar-fp2", &pts, 14, 15, 14, &[]);
    fp_out.status = FindingStatus::Fp;

    let findings = vec![ar_finding("ar-1", &pts, 5, 10, 7, &[]), fp_in, fp_out, ar_finding("ar-2", &pts, 12, 13, 12, &[])];

    let state = apply_route(pts, findings, "ar-1", 6, 8, make_coords(4), "driving-car", 100).expect("routage avec absorption");

    assert!(!state.findings.iter().any(|f| f.id == "ar-fp1"), "le faux positif recouvert quitte la liste");
    let corrected = state.findings.iter().find(|f| f.id == "ar-1").unwrap();
    let undo = undo_route_of(corrected);
    assert_eq!(undo.absorbed_fp.len(), 1);
    assert_eq!(undo.absorbed_fp[0].id, "ar-fp1");
    assert_eq!(undo.absorbed_fp[0].status, FindingStatus::Fp, "C9");

    assert!(state.findings.iter().any(|f| f.id == "ar-fp2"));
}

// ─── False positives and undo ─────────────────────────────────────────

#[test]
fn test_mark_fp_basic() {
    let pts = make_points(12);
    let findings = vec![ar_finding("ar-1", &pts, 5, 8, 6, &[(5, 7, 40.0)]), ar_finding("ar-2", &pts, 10, 11, 10, &[])];

    let out = mark_fp(findings, "ar-1").expect("marquage faux positif");

    let f = out.iter().find(|f| f.id == "ar-1").unwrap();
    assert_eq!(f.status, FindingStatus::Fp);
    assert_eq!(f.correction, None);
    assert!(f.undo.is_none(), "la trace est intacte : aucun instantané");
    assert_eq!(out.iter().find(|f| f.id == "ar-2").unwrap().status, FindingStatus::Pending);
}

#[test]
fn corrections_test_test_mark_fp_rejects_corrected() {
    let pts = make_points(12);
    let mut corrected = ar_finding("ar-1", &pts, 5, 8, 6, &[]);
    corrected.status = FindingStatus::Corrected;
    let mut fp = ar_finding("ar-2", &pts, 10, 11, 10, &[]);
    fp.status = FindingStatus::Fp;

    let err = mark_fp(vec![corrected], "ar-1").expect_err("refus d'un corrigé");
    assert!(err.contains("déjà traité"), "message attendu : {err}");

    let err2 = mark_fp(vec![fp], "ar-2").expect_err("refus d'un faux positif");
    assert!(err2.contains("déjà traité"), "message attendu : {err2}");

    let err3 = mark_fp(vec![ar_finding("ar-1", &pts, 5, 8, 6, &[])], "ar-9").expect_err("refus d'un id inconnu");
    assert!(err3.contains("inconnue"), "message attendu : {err3}");
}

#[test]
fn test_unmark_fp_basic() {
    let pts = make_points(12);
    let mut fp = ar_finding("ar-1", &pts, 5, 8, 6, &[]);
    fp.status = FindingStatus::Fp;
    fp.correction = Some(CorrectionType::Delete);

    let out = unmark_fp(vec![fp], "ar-1").expect("retrait du marqueur");
    let f = &out[0];
    assert_eq!(f.status, FindingStatus::Pending);
    assert_eq!(f.correction, None);

    let err = unmark_fp(out, "ar-1").expect_err("refus sur un pending");
    assert!(err.contains("non marqué"), "message attendu : {err}");
}

#[test]
fn test_undo_delete_anchor_right() {
    let pts = make_points(20);
    let findings = vec![ar_finding("ar-1", &pts, 5, 8, 6, &[(5, 7, 40.0)])];

    let del = apply_delete(pts.clone(), findings, "ar-1", 5, 7, 100).expect("suppression");
    let und = undo_correction(del.points, del.findings, "ar-1").expect("annulation");

    assert_points_eq(&und.points, &pts);
    let f = und.findings.iter().find(|f| f.id == "ar-1").unwrap();
    assert_eq!(f.status, FindingStatus::Pending);
    assert_eq!(f.correction, None);
    assert!(f.undo.is_none(), "instantané consommé une seule fois");
    assert_eq!((f.parts[0].s, f.parts[0].e, f.peak), (5, 8, 6));
}

#[test]
fn test_undo_delete_anchor_left_only() {
    let pts = make_points(10);
    let findings = vec![ar_finding("ar-1", &pts, 5, 9, 7, &[])];

    let del = apply_delete(pts.clone(), findings, "ar-1", 8, 9, 100).expect("suppression queue");
    let f = del.findings.iter().find(|f| f.id == "ar-1").unwrap();
    let undo = undo_delete_of(f);
    assert_eq!(undo.anchor_right_id, None);
    assert_eq!(undo.anchor_left_id, Some(8));

    let und = undo_correction(del.points, del.findings, "ar-1").expect("annulation");
    assert_points_eq(&und.points, &pts);
}

#[test]
fn test_undo_delete_anchors_lost() {
    let pts = make_points(20);
    let findings = vec![ar_finding("ar-1", &pts, 3, 9, 6, &[(5, 7, 40.0)])];

    let del = apply_delete(pts, findings, "ar-1", 5, 6, 100).expect("première suppression");
    let f = del.findings.iter().find(|f| f.id == "ar-1").unwrap();
    let undo = undo_delete_of(f);
    assert_eq!((undo.anchor_left_id, undo.anchor_right_id), (Some(5), Some(8)));

    let points: Vec<AuditPoint> = del.points.iter().filter(|p| p.id != 5 && p.id != 8).cloned().collect();
    assert_eq!(points.len(), del.points.len() - 2);

    let err = undo_correction(points, del.findings, "ar-1").expect_err("annulation refusée : ancres disparues");
    assert!(err.contains("ancrage disparus"), "message attendu : {err}");
}

#[test]
fn undo_delete_falls_back_to_the_left_anchor() {
    let pts = make_points(20);
    let findings = vec![ar_finding("ar-1", &pts, 3, 9, 6, &[(5, 7, 40.0)])];

    let del = apply_delete(pts.clone(), findings, "ar-1", 5, 6, 100).expect("suppression");
    // Only the right anchor (id 8) leaves the trace.
    let points: Vec<AuditPoint> = del.points.iter().filter(|p| p.id != 8).cloned().collect();

    let und = undo_correction(points, del.findings, "ar-1").expect("l'ancre gauche prend le relais");
    let expected: Vec<u32> = pts.iter().map(|p| p.id).filter(|&id| id != 8).collect();
    assert_eq!(pt_ids(&und.points), expected);
}

#[test]
fn test_undo_delete_restores_fp() {
    let pts = make_points(20);
    let mut fp = ar_finding("ar-fp1", &pts, 6, 7, 6, &[]);
    fp.status = FindingStatus::Fp;
    let findings = vec![ar_finding("ar-1", &pts, 5, 8, 6, &[]), fp];

    let del = apply_delete(pts.clone(), findings, "ar-1", 5, 7, 100).expect("suppression");
    assert!(!del.findings.iter().any(|f| f.id == "ar-fp1"), "le faux positif est absorbé");

    let und = undo_correction(del.points, del.findings, "ar-1").expect("annulation");
    assert_points_eq(&und.points, &pts);
    let restored = und.findings.iter().find(|f| f.id == "ar-fp1").expect("faux positif réinjecté");
    assert_eq!(restored.status, FindingStatus::Fp, "statut maintenu");
    assert_eq!(restored.correction, None);
    assert_eq!((restored.parts[0].s, restored.parts[0].e), (6, 7));
    assert_eq!(restored.summary, "sommet pt 7 · 0 paire · écart 40°");
}

#[test]
fn test_undo_route_basic() {
    let pts = make_points(20);
    let findings = vec![ar_finding("ar-1", &pts, 5, 10, 7, &[])];

    let rout = apply_route(pts.clone(), findings, "ar-1", 6, 8, make_coords(4), "driving-car", 100).expect("routage");
    assert!(rout.points.iter().any(|p| p.id >= 100));

    let und = undo_correction(rout.points, rout.findings, "ar-1").expect("annulation");

    assert_points_eq(&und.points, &pts);
    assert!(und.points.iter().all(|p| p.id < 100), "points routés retirés");
    let f = und.findings.iter().find(|f| f.id == "ar-1").unwrap();
    assert_eq!(f.status, FindingStatus::Pending);
    assert_eq!(f.correction, None);
    assert!(f.undo.is_none());
    assert_eq!((f.parts[0].s, f.parts[0].e, f.peak), (5, 10, 7));
}

#[test]
fn test_undo_route_used_by_other() {
    let pts = make_points(20);
    let findings = vec![ar_finding("ar-1", &pts, 5, 10, 7, &[]), ar_finding("ar-2", &pts, 12, 14, 13, &[])];

    let rout = apply_route(pts, findings, "ar-1", 6, 8, make_coords(5), "driving-car", 100).expect("routage");
    let del = apply_delete(rout.points, rout.findings, "ar-2", 7, 8, 200).expect("suppression chevauchante");
    let other = del.findings.iter().find(|f| f.id == "ar-2").unwrap();
    let other_undo = undo_delete_of(other);
    assert_eq!(pt_ids(&other_undo.orig_pts), vec![100, 101]);

    let err = undo_correction(del.points.clone(), copy_findings(&del.findings), "ar-1")
        .expect_err("annulation du routage refusée");
    assert!(err.contains("réutilisée"), "message attendu : {err}");

    let und = undo_correction(del.points, del.findings, "ar-2").expect("annulation de la suppression");
    assert!(und.points.iter().any(|p| p.id == 101));
}

#[test]
fn test_undo_route_contiguity_broken() {
    let pts = make_points(20);
    let findings = vec![ar_finding("ar-1", &pts, 5, 10, 7, &[])];
    let rout = apply_route(pts, findings, "ar-1", 6, 8, make_coords(5), "driving-car", 100).expect("routage");

    let mut points = rout.points.clone();
    let before = points.len();
    points.retain(|p| p.id != 101);
    assert_eq!(points.len(), before - 1);

    let err = undo_correction(points, rout.findings, "ar-1").expect_err("annulation refusée : séquence rompue");
    assert!(err.contains("modifiée par une correction ultérieure"), "message attendu : {err}");
}

#[test]
fn test_undo_route_pos_not_found() {
    let pts = make_points(20);
    let findings = vec![ar_finding("ar-1", &pts, 5, 10, 7, &[])];
    let rout = apply_route(pts.clone(), findings, "ar-1", 6, 8, make_coords(5), "driving-car", 100).expect("routage");

    let mut points = rout.points.clone();
    points.retain(|p| p.id < 100);
    let err = undo_correction(points, rout.findings, "ar-1").expect_err("annulation refusée : points introuvables");
    assert!(err.contains("introuvables"), "message attendu : {err}");

    let findings2 = vec![ar_finding("ar-1", &pts, 5, 10, 7, &[])];
    let rout2 = apply_route(pts, findings2, "ar-1", 6, 8, make_coords(2), "driving-car", 100).expect("routage sans point inséré");
    let err2 = undo_correction(rout2.points, rout2.findings, "ar-1").expect_err("annulation refusée : mids vide");
    assert!(err2.contains("introuvables"), "message attendu : {err2}");
}

#[test]
fn test_undo_route_restores_fp() {
    let pts = make_points(20);
    let mut fp = ar_finding("ar-fp1", &pts, 7, 8, 7, &[]);
    fp.status = FindingStatus::Fp;
    let findings = vec![ar_finding("ar-1", &pts, 5, 10, 7, &[]), fp];

    let rout = apply_route(pts.clone(), findings, "ar-1", 6, 8, make_coords(4), "driving-car", 100).expect("routage");
    assert!(!rout.findings.iter().any(|f| f.id == "ar-fp1"));

    let und = undo_correction(rout.points, rout.findings, "ar-1").expect("annulation");
    assert_points_eq(&und.points, &pts);
    let restored = und.findings.iter().find(|f| f.id == "ar-fp1").expect("faux positif réinjecté");
    assert_eq!(restored.status, FindingStatus::Fp);
}

#[test]
fn test_scenario_d5_nested_ar_in_rp_undos() {
    let initial = make_points(20);

    let s = nested_corrected_state();
    let s = undo_correction(s.points, s.findings, "rp-1").expect("annulation RP");
    let s = undo_correction(s.points, s.findings, "ar-1").expect("annulation AR");
    assert_points_eq(&s.points, &initial);
    assert_d5_findings_pending(&s.findings);

    let s = nested_corrected_state();
    let s = undo_correction(s.points, s.findings, "ar-1").expect("annulation AR");
    let s = undo_correction(s.points, s.findings, "rp-1").expect("annulation RP");
    assert_points_eq(&s.points, &initial);
    assert_d5_findings_pending(&s.findings);
}

// ─── Migration ────────────────────────────────────────────────────────

#[test]
fn test_is_obsolete_registry_true() {
    assert!(is_obsolete_registry(r#"[{"id":"a","cleaning_status":"clean"}]"#));
    assert!(is_obsolete_registry(r#"{"traces":[{"cleaning_status":"needs_review","name":"x"}]}"#));
}

#[test]
fn test_is_obsolete_registry_false() {
    assert!(!is_obsolete_registry(""));
    assert!(!is_obsolete_registry(r#"[{"id":"a","audit_status":"clean","cleaning_phase":""}]"#));
    assert!(
        !is_obsolete_registry("// ancien champ cleaning_status sans guillemets"),
        "une occurrence nue ne déclenche pas la détection"
    );
}
