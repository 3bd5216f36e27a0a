//! Detection bookkeeping: numbering of the trace, ordering and numbering of
//! the findings.

use visugps2::pipeline::{bare_label, number_points, order_findings, prepare_trace, raw_points, source_context, MIN_POINTS};
use visugps2::cleaning::track_points;
use visugps2::types::{
    AuditPoint, Finding, FindingContext, FindingContextIds, FindingKind, FindingPart, FindingStatus,
    PartRole,
};

fn raw(n: usize) -> Vec<AuditPoint> {
    (0..n).map(|i| AuditPoint { id: 0, lat: i as u64, lon: 0, ele: None }).collect()
}

fn finding(id: &str, kind: FindingKind, label: &str, s: usize) -> Finding {
    Finding {
        id: id.to_string(),
        kind,
        label: label.to_string(),
        summary: String::new(),
        peak: s,
        peak_id: 0,
        pairs: Vec::new(),
        pair_idx: Vec::new(),
        ecart: None,
        d1: None,
        d2: None,
        total_angle: None,
        turn_text: None,
        core_ids: Vec::new(),
        zone_ids: Vec::new(),
        ctx_ids: FindingContextIds { up: None, dn: None },
        ctx: FindingContext { up: None, dn: None },
        parts: vec![FindingPart { s, e: s + 1, role: PartRole::Warn, text: String::new() }],
        status: FindingStatus::Pending,
        correction: None,
        undo: None,
    }
}

#[test]
fn trace_numbering_and_minimum() {
    assert_eq!(MIN_POINTS, 5);
    assert_eq!(prepare_trace(raw(4)).err(), Some("Trace trop courte après consolidation.".to_string()));
    let p = prepare_trace(raw(5)).unwrap();
    assert_eq!(p.iter().map(|q| q.id).collect::<Vec<u32>>(), vec![1, 2, 3, 4, 5]);
    assert_eq!(p[4].lat, 4);
    let mut v = raw(3);
    number_points(&mut v);
    assert_eq!(v.iter().map(|q| q.id).collect::<Vec<u32>>(), vec![1, 2, 3]);
}

#[test]
fn bare_labels() {
    assert_eq!(bare_label("Aller-retour : 12"), "Aller-retour");
    assert_eq!(bare_label("Aller-retour : x"), "Aller-retour : x");
    assert_eq!(bare_label("a : 1 : 2"), "a : 1");
    assert_eq!(bare_label("Boucle"), "Boucle");
    assert_eq!(bare_label("a : "), "a");
}

#[test]
fn ordering_then_numbering() {
    let mut f = vec![
        finding("rp-1", FindingKind::Rp, "Tour de rond-point : 1", 20),
        finding("ar-1", FindingKind::Ar, "Aller-retour : 1", 30),
        finding("ar-2", FindingKind::Ar, "Aller-retour : 2", 5),
    ];
    order_findings(&mut f);
    let got: Vec<(String, String)> = f.iter().map(|g| (g.id.clone(), g.label.clone())).collect();
    assert_eq!(
        got,
        vec![
            ("ar-1".to_string(), "Aller-retour : 1".to_string()),
            ("rp-1".to_string(), "Tour de rond-point : 1".to_string()),
            ("ar-2".to_string(), "Aller-retour : 2".to_string()),
        ]
    );
    assert_eq!(f[0].parts[0].s, 5);
}

#[test]
fn unreadable_source_is_refused_with_its_path() {
    let err = source_context("<gpx><trk>", "/tmp/x.gpx").unwrap_err();
    assert!(err.starts_with("GPX illisible (/tmp/x.gpx): "), "{}", err);
}

#[test]
fn source_without_metadata_or_track_name() {
    let raw = "<?xml version=\"1.0\"?>\n<gpx version=\"1.1\" creator=\"x\"><trk><trkseg><trkpt lat=\"1\" lon=\"2\"></trkpt></trkseg></trk></gpx>";
    let ctx = source_context(raw, "a.gpx").unwrap();
    assert_eq!(ctx.attrs.as_deref(), Some("version=\"1.1\" creator=\"x\""));
    assert_eq!(ctx.meta_xml, None);
    assert_eq!(ctx.trk_name, None);
}

#[test]
fn source_with_a_time_past_year_9999_is_refused() {
    let raw = "<gpx version=\"1.1\" creator=\"x\"><metadata><time>9999-12-31T23:59:59-05:00</time></metadata><trk><trkseg></trkseg></trk></gpx>";
    let err = source_context(raw, "far.gpx").unwrap_err();
    assert_eq!(err, "GPX illisible (far.gpx): date ou entité non prise en charge");
    let ok = "<gpx version=\"1.1\" creator=\"x\"><metadata><time>2024-05-01T10:00:00Z</time></metadata><trk><name>n</name><trkseg></trkseg></trk></gpx>";
    assert_eq!(source_context(ok, "ok.gpx").unwrap().trk_name.as_deref(), Some("n"));
}

fn doc_with_time(time: &str) -> String {
    format!(
        "<gpx version=\"1.1\" creator=\"x\"><trk><trkseg><trkpt lat=\"45.5\" lon=\"3.25\"><ele>410.5</ele><time>{}</time></trkpt></trkseg></trk></gpx>",
        time
    )
}

#[test]
fn raw_points_of_a_document() {
    let raw = "<gpx version=\"1.1\" creator=\"x\"><trk><name>n</name>\
<trkseg><trkpt lat=\"45.5\" lon=\"3.25\"><ele>410.5</ele></trkpt><trkpt lat=\"45.6\" lon=\"3.26\"></trkpt></trkseg>\
<trkseg><trkpt lat=\"45.7\" lon=\"3.27\"></trkpt></trkseg></trk></gpx>";
    let pts = raw_points(raw, "a.gpx").unwrap();
    assert_eq!(pts.len(), 3);
    assert_eq!(pts.iter().map(|p| p.id).collect::<Vec<u32>>(), vec![0, 1, 2]);
    assert_eq!((pts[0].lat, pts[0].lon, pts[0].ele), (45.5f64.to_bits(), 3.25f64.to_bits(), Some(410.5f64.to_bits())));
    assert_eq!((pts[2].lat, pts[2].lon, pts[2].ele), (45.7f64.to_bits(), 3.27f64.to_bits(), None));
    let err = raw_points("<gpx><trk>", "b.gpx").unwrap_err();
    assert!(err.starts_with("GPX illisible (b.gpx): "), "{}", err);
}

#[test]
fn cleaning_points_keep_their_time() {
    let pts = track_points(&doc_with_time("2024-05-01T10:00:00Z")).unwrap();
    assert_eq!(pts.len(), 1);
    assert_eq!(pts[0].lat, 45.5f64.to_bits());
    assert!(pts[0].time.as_deref().unwrap().contains("2024-05-01T10:00:00"));
    assert!(track_points("pas du GPX").unwrap_err().starts_with("GPX invalide : "));
}

#[test]
fn times_the_reader_is_not_given() {
    // Past year 9999 once in UTC, or written through markup: refused.
    for t in ["9999-12-31T23:00:00-05:00", "<![CDATA[2024-05-01T10:00:00Z]]>", "&#50;024-05-01T10:00:00Z"] {
        assert_eq!(
            track_points(&doc_with_time(t)).unwrap_err(),
            "GPX invalide : date ou entité non prise en charge",
            "{}",
            t
        );
    }
    // Year 9999 that stays in year 9999 in UTC: read.
    assert_eq!(track_points(&doc_with_time("9999-12-31T23:00:00Z")).unwrap().len(), 1);
    assert_eq!(track_points(&doc_with_time("9999-12-31T23:00:00+02:00")).unwrap().len(), 1);
    // A `>` inside a quoted attribute does not end the tag.
    let quoted = "<gpx version=\"1.1\" creator=\"x\"><trk><trkseg><trkpt lat=\"1\" lon=\"2\"><time a=\">\">9999-12-31T23:00:00-05:00</time></trkpt></trkseg></trk></gpx>";
    assert_eq!(track_points(quoted).unwrap_err(), "GPX invalide : date ou entité non prise en charge");
    // An entity declaration: refused.
    let with_entity = "<!DOCTYPE gpx [<!ENTITY t \"x\">]><gpx version=\"1.1\" creator=\"x\"><trk><trkseg></trkseg></trk></gpx>";
    assert!(raw_points(with_entity, "e.gpx").unwrap_err().ends_with("date ou entité non prise en charge"));
}
