//! Cleaning of a trace: application of the validated corrections, checks
//! before a phase is validated, working files.

use visugps2::cleaning::{
    apply_corrections, build_cleaned_gpx, check_phase_supported, default_marge_points,
    default_points_max, default_points_min, detection_for_phase, get_cleaning_path,
    get_decisions_path, has_changes, plan_phase_validation, remark_kept,
    remembered_cases, CleaningCase, CleaningCaseKind, CleaningState, Correction, GpxPoint,
    MovedPoint, PhaseDetection,
};

fn out_and_back_trace() -> Vec<(f64, f64)> {
    vec![
        (41.62250, 2.55200),
        (41.62250, 2.55250),
        (41.62250, 2.55300),
        (41.62250, 2.55350),
        (41.62226, 2.55421),
        (41.62200, 2.55380),
        (41.62193, 2.55421),
        (41.62200, 2.55380),
        (41.62226, 2.55421),
        (41.62250, 2.55350),
        (41.62250, 2.55300),
        (41.62250, 2.55250),
        (41.62250, 2.55200),
        (41.62250, 2.55150),
    ]
}

fn lat_of(p: &GpxPoint) -> f64 {
    f64::from_bits(p.lat)
}

/// The `<trkpt>` block of a point, as the cleaned GPX writes it.
fn point_block(p: &GpxPoint) -> String {
    let mut s = format!(
        "      <trkpt lat=\"{:.6}\" lon=\"{:.6}\">\n",
        f64::from_bits(p.lat),
        f64::from_bits(p.lon)
    );
    if let Some(ele) = p.ele {
        s.push_str(&format!("        <ele>{:.1}</ele>\n", f64::from_bits(ele)));
    }
    if let Some(t) = &p.time {
        s.push_str(&format!("        <time>{}</time>\n", t));
    }
    s.push_str("      </trkpt>\n");
    s
}

fn case(id: &str, state: &str, ranges: Vec<[usize; 2]>) -> CleaningCase {
    CleaningCase {
        id: id.to_string(),
        kind: CleaningCaseKind::OutAndBack,
        start_index: 0,
        end_index: 12,
        apex_indices: vec![6],
        bearing_delta_deg: 0.0f64.to_bits(),
        total_angle_deg: 0.0f64.to_bits(),
        suggested_delete_ranges: vec![[6, 12]],
        state: state.to_string(),
        correction: Correction { delete_ranges: ranges, moved_points: Vec::new() },
    }
}

#[test]
fn apply_corrections_and_build_gpx() {
    let raw: Vec<GpxPoint> = out_and_back_trace()
        .iter()
        .enumerate()
        .map(|(i, (lat, lon))| GpxPoint {
            lat: lat.to_bits(),
            lon: lon.to_bits(),
            ele: Some((100.0 + i as f64).to_bits()),
            time: Some(format!("2026-01-01T10:00:{:02}Z", i)),
        })
        .collect();

    let mut correction = Correction::default();
    correction.delete_ranges.push([6, 12]);
    let cases = vec![CleaningCase {
        id: "c1".to_string(),
        kind: CleaningCaseKind::OutAndBack,
        start_index: 0,
        end_index: 12,
        apex_indices: vec![6],
        bearing_delta_deg: 0.0f64.to_bits(),
        total_angle_deg: 0.0f64.to_bits(),
        suggested_delete_ranges: vec![[6, 12]],
        state: "corrected".to_string(),
        correction,
    }];

    let (final_points, removed) = apply_corrections(&raw, &cases).unwrap();
    assert_eq!(removed, 7);
    assert_eq!(final_points.len(), 7);
    assert_eq!(lat_of(&final_points[6]), 41.62250);

    let blocks: Vec<String> = final_points.iter().map(point_block).collect();
    let gpx_str = build_cleaned_gpx(&blocks, "Test trace");
    assert!(gpx_str.starts_with("<?xml"));
    assert!(gpx_str.contains("<name>Test trace</name>"));
    assert!(gpx_str.matches("<trkpt ").count() == 7);
    assert!(gpx_str.contains("<ele>105.0</ele>"));
    assert!(gpx_str.contains("<time>2026-01-01T10:00:05Z</time>"));

    let mut kept = cases.clone();
    kept[0].state = "kept".to_string();
    kept[0].correction = Correction::default();
    let (kept_points, kept_removed) = apply_corrections(&raw, &kept).unwrap();
    assert_eq!(kept_points.len(), raw.len());
    assert_eq!(kept_removed, 0);

    let mut moved = cases.clone();
    moved[0].correction.moved_points.push(MovedPoint { index: 3, lat: 41.62300f64.to_bits(), lon: 2.55310f64.to_bits() });
    let (moved_points, _) = apply_corrections(&raw, &moved).unwrap();
    assert_eq!(moved_points.len(), 7);
    assert_eq!(lat_of(&moved_points[3]), 41.62300);
    assert_eq!(f64::from_bits(moved_points[3].lon), 2.55310);
    assert_eq!(moved_points[0].lat, raw[0].lat);

    let mut both = cases.clone();
    both[0].correction.delete_ranges.push([3, 3]);
    both[0].correction.moved_points.push(MovedPoint { index: 3, lat: 41.62300f64.to_bits(), lon: 2.55310f64.to_bits() });
    let (both_points, _) = apply_corrections(&raw, &both).unwrap();
    assert!(
        !both_points.iter().any(|p| (lat_of(p) - 41.62300).abs() < 1e-9),
        "un point supprimé ne doit pas être déplacé"
    );
}

#[test]
fn finalize_refuses_pending_cases() {
    let state = CleaningState {
        trace_id: "t".to_string(),
        tolerance_deg: 5.0f64.to_bits(),
        phase: "spike".to_string(),
        cases: vec![CleaningCase {
            id: "c1".to_string(),
            kind: CleaningCaseKind::Spike,
            start_index: 0,
            end_index: 2,
            apex_indices: vec![1],
            bearing_delta_deg: 0.0f64.to_bits(),
            total_angle_deg: 0.0f64.to_bits(),
            suggested_delete_ranges: vec![],
            state: "pending".to_string(),
            correction: Correction::default(),
        }],
    };
    let pending = state.cases.iter().filter(|c| c.state == "pending").count();
    assert_eq!(pending, 1);
    assert!(!state.cases.iter().all(|c| c.state != "pending"));
    assert_eq!(
        plan_phase_validation("spike", &state),
        Err("Validation impossible : 1 cas restent à traiter.".to_string())
    );
}

fn points(n: usize) -> Vec<GpxPoint> {
    (0..n)
        .map(|i| GpxPoint { lat: (i as f64).to_bits(), lon: 0.0f64.to_bits(), ele: None, time: None })
        .collect()
}

#[test]
fn invalid_deletion_range_is_refused_with_its_case() {
    let pts = points(5);
    let cases = vec![case("c1", "corrected", vec![[0, 1]]), case("c2", "corrected", vec![[3, 2], [4, 9]])];
    assert_eq!(
        apply_corrections(&pts, &cases).err(),
        Some("Cas c2 : plage de suppression invalide [3, 2] (5 points).".to_string())
    );
    let cases = vec![case("c1", "corrected", vec![[2, 5]])];
    assert_eq!(
        apply_corrections(&pts, &cases).err(),
        Some("Cas c1 : plage de suppression invalide [2, 5] (5 points).".to_string())
    );
    // A kept case is not even checked.
    let cases = vec![case("c1", "kept", vec![[3, 2]])];
    assert_eq!(apply_corrections(&pts, &cases).map(|(p, n)| (p.len(), n)).ok(), Some((5, 0)));
}

#[test]
fn cleaning_below_two_points_is_refused() {
    let pts = points(4);
    let cases = vec![case("c1", "corrected", vec![[0, 2]])];
    assert_eq!(
        apply_corrections(&pts, &cases).err(),
        Some("Le nettoyage aboutirait à moins de 2 points : correction refusée.".to_string())
    );
    let cases = vec![case("c1", "corrected", vec![[0, 1], [1, 1]])];
    let (kept, removed) = apply_corrections(&pts, &cases).unwrap();
    assert_eq!((kept.len(), removed), (2, 2));
    assert_eq!(kept[0].lat, 2.0f64.to_bits());
}

#[test]
fn first_move_of_a_point_wins() {
    let pts = points(4);
    let mut c1 = case("c1", "corrected", vec![]);
    c1.correction.moved_points.push(MovedPoint { index: 1, lat: 7, lon: 8 });
    let mut c2 = case("c2", "corrected", vec![]);
    c2.correction.moved_points.push(MovedPoint { index: 1, lat: 9, lon: 9 });
    let mut c3 = case("c3", "kept", vec![]);
    c3.correction.moved_points.push(MovedPoint { index: 2, lat: 5, lon: 5 });
    let (kept, removed) = apply_corrections(&pts, &vec![c1, c2, c3]).unwrap();
    assert_eq!(removed, 0);
    assert_eq!((kept[1].lat, kept[1].lon), (7, 8));
    assert_eq!(kept[2].lat, 2.0f64.to_bits(), "a kept case moves nothing");
}

#[test]
fn phase_checks() {
    assert_eq!(
        check_phase_supported("out_and_back"),
        Err("Étape « Aller/Retour » non implémentée : elle produira un autre type de fichier (pas une modification du GPX).".to_string())
    );
    assert_eq!(check_phase_supported("spike"), Ok(()));

    let mut state = CleaningState { trace_id: "t".to_string(), tolerance_deg: 0, phase: "roundabout".to_string(), cases: vec![] };
    assert_eq!(
        plan_phase_validation("spike", &state),
        Err("Phase incohérente : état « roundabout », phase demandée « spike ».".to_string())
    );
    assert_eq!(plan_phase_validation("roundabout", &state), Ok("out_and_back".to_string()));
    state.phase = String::new();
    assert_eq!(plan_phase_validation("spike", &state), Ok("roundabout".to_string()));
    assert_eq!(plan_phase_validation("autre", &state), Err("Phase inconnue : autre".to_string()));
}

#[test]
fn changes_and_remembered_decisions() {
    let a = case("c1", "kept", vec![[1, 2]]);
    let b = case("c2", "corrected", vec![]);
    let c = case("c3", "corrected", vec![[1, 2]]);
    let d = case("c4", "pending", vec![]);
    assert!(!has_changes(&vec![case("c1", "kept", vec![[1, 2]]), case("c2", "corrected", vec![])]));
    assert!(has_changes(&vec![case("c3", "corrected", vec![[1, 2]])]));
    assert_eq!(remembered_cases(&vec![a, b, c, d]), vec![0, 1]);
}

#[test]
fn remarking_kept_cases() {
    let mut cases = vec![case("c1", "pending", vec![[1, 2]]), case("c2", "pending", vec![[3, 3]]), case("c3", "corrected", vec![[4, 4]])];
    remark_kept(&mut cases, &vec![true, false, true]);
    assert_eq!(cases[0].state, "kept");
    assert!(cases[0].correction.delete_ranges.is_empty());
    assert_eq!(cases[1].state, "pending");
    assert_eq!(cases[1].correction.delete_ranges, vec![[3, 3]]);
    assert_eq!(cases[2].state, "corrected");
}

#[test]
fn working_files_and_defaults() {
    assert_eq!(get_cleaning_path("/m", "t1", "spike"), "/m/traces/t1/cleaning.spike.json");
    assert_eq!(get_decisions_path("/m/", "t1", "roundabout"), "/m/traces/t1/cleaning.roundabout.decisions.json");
    assert_eq!((default_points_min(), default_points_max(), default_marge_points()), (5, 50, 5));
    assert_eq!(detection_for_phase("roundabout"), PhaseDetection::Roundabouts);
    assert_eq!(detection_for_phase("out_and_back"), PhaseDetection::OutAndBacks);
    assert_eq!(detection_for_phase("inconnue"), PhaseDetection::Combined);
}

#[test]
fn cleaned_gpx_document() {
    let doc = build_cleaned_gpx(&vec!["B1\n".to_string(), "B2\n".to_string()], "a<b");
    assert_eq!(
        doc,
        "<?xml version=\"1.0\" encoding=\"UTF-8\"?>\n<gpx creator=\"VisuGPS2 - Nettoyage de trace\" version=\"1.1\" xmlns=\"http://www.topografix.com/GPX/1/1\">\n  <trk>\n    <name>a&lt;b</name>\n    <trkseg>\nB1\nB2\n    </trkseg>\n  </trk>\n</gpx>\n"
    );
}
