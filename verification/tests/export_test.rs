//! Texts of the rewritten GPX and the counters of its audit block.

use visugps2::export::{
    audit_block, audit_tool, audit_xml_at, build_audit_xml, build_gpx_xml, build_metadata_xml, check_validation,
    gpx_xml_at, metadata_xml_at,
    fresh_metadata, gpx_document, gpx_header_attrs, source_metadata, track_name, xml_escape,
    FindingsSummary,
};
use visugps2::patterns::utc_stamp_of;
use visugps2::types::{
    Finding, FindingContext, FindingContextIds, FindingKind, FindingPart, FindingStatus, PartRole,
};

const SOURCE_META: &str = "<metadata>\n    <name>Sortie du dimanche</name>\n    <desc>Trace d'origine</desc>\n    <author><name>JM</name></author>\n    <time>2026-01-01T08:00:00Z</time>\n  </metadata>";

fn finding(status: FindingStatus) -> Finding {
    Finding {
        id: "ar-1".to_string(),
        kind: FindingKind::Ar,
        label: "Aller-retour : 1".to_string(),
        summary: String::new(),
        peak: 1,
        peak_id: 1,
        pairs: Vec::new(),
        pair_idx: Vec::new(),
        ecart: None,
        d1: None,
        d2: None,
        total_angle: None,
        turn_text: None,
        core_ids: Vec::new(),
        zone_ids: Vec::new(),
        ctx_ids: FindingContextIds { up: None, dn: None },
        ctx: FindingContext { up: None, dn: None },
        parts: vec![FindingPart { s: 0, e: 2, role: PartRole::Warn, text: String::new() }],
        status,
        correction: None,
        undo: None,
    }
}

#[test]
fn escaping() {
    assert_eq!(xml_escape("a&b<c>\"d'"), "a&amp;b&lt;c&gt;&quot;d'");
    assert_eq!(xml_escape("&lt;"), "&amp;lt;");
    assert_eq!(xml_escape(""), "");
}

#[test]
fn audit_block_text() {
    let s = FindingsSummary { routes: 2, deletions: 3, false_positives: 1 };
    assert_eq!(
        audit_block("Outil <1>", s, "2026-01-01T00:00:00Z"),
        "  <extensions>\n    <audit xmlns=\"http://VérificationGPX.example/gpx/audit/1\">\n      <modified>2026-01-01T00:00:00Z</modified>\n      <tool>Outil &lt;1&gt;</tool>\n      <corrections total=\"6\" routes=\"2\" deletions=\"3\" falsePositives=\"1\"/>\n    </audit>\n  </extensions>\n"
    );
    let stamped = build_audit_xml("VérificationGPX", s).unwrap();
    assert!(stamped.contains("<corrections total=\"6\" routes=\"2\" deletions=\"3\" falsePositives=\"1\"/>\n"));
    let modified = stamped.split("<modified>").nth(1).unwrap().split("</modified>").next().unwrap();
    assert_eq!(modified.len(), 20, "AAAA-MM-JJThh:mm:ssZ attendu : {modified}");
    assert!(modified.ends_with('Z'));
    let d = FindingsSummary::default();
    assert_eq!((d.routes, d.deletions, d.false_positives), (0, 0, 0));
}

#[test]
fn metadata_texts() {
    assert_eq!(
        fresh_metadata("Ma <Trace>", "T", "2026-01-01T00:00:00Z", "AUDIT\n"),
        "  <metadata>\n    <name>Ma &lt;Trace&gt;</name>\n    <desc>Trace auditée et corrigée avec T</desc>\n    <time>2026-01-01T00:00:00Z</time>\nAUDIT\n  </metadata>\n"
    );
    let rewritten = source_metadata(SOURCE_META, "T", "AUDIT").unwrap();
    assert_eq!(
        rewritten,
        "<metadata>\n    <desc>Trace auditée et corrigée avec T</desc>\n    <name>Sortie du dimanche</name>\n    \n    <author><name>JM</name></author>\n    <time>2026-01-01T08:00:00Z</time>\n  AUDIT</metadata>\n"
    );
    assert!(!rewritten.contains("Trace d'origine"));
    let with_ext = source_metadata("<metadata><extensions><x/></extensions></metadata>", "T", "A").unwrap();
    assert_eq!(with_ext, "<metadata>\n    <desc>Trace auditée et corrigée avec T</desc>A</metadata>\n");

    let fresh = build_metadata_xml("n", "T", None, FindingsSummary::default()).unwrap();
    assert!(fresh.starts_with("  <metadata>\n    <name>n</name>\n"));
    assert!(fresh.contains("<corrections total=\"0\" routes=\"0\" deletions=\"0\" falsePositives=\"0\"/>"));
}

#[test]
fn header_tool_and_name() {
    assert_eq!(audit_tool("   "), "VérificationGPX");
    assert_eq!(audit_tool(""), "VérificationGPX");
    assert_eq!(audit_tool("  Mon outil \n"), "Mon outil");
    assert_eq!(
        gpx_header_attrs(None, "a&b"),
        "version=\"1.1\" creator=\"a&amp;b\" xmlns=\"http://www.topografix.com/GPX/1/1\""
    );
    assert_eq!(gpx_header_attrs(Some(""), "T"), "version=\"1.1\" creator=\"T\" xmlns=\"http://www.topografix.com/GPX/1/1\"");
    assert_eq!(gpx_header_attrs(Some("version=\"1.1\""), "T"), "version=\"1.1\"");
    assert_eq!(track_name(Some("Ma Trace"), Some("fichier")), "Ma Trace");
    assert_eq!(track_name(None, Some("fichier")), "fichier");
    assert_eq!(track_name(None, None), "trace");
}

#[test]
fn whole_document() {
    let lines = vec!["    <trkpt lat=\"45.0000000\" lon=\"3.0000000\"></trkpt>\n".to_string()];
    assert_eq!(
        gpx_document("A=\"1\"", "META\n", "n&m", &lines),
        "<?xml version=\"1.0\" encoding=\"UTF-8\"?>\n<gpx A=\"1\">\nMETA\n  <trk><name>n&amp;m</name><trkseg>\n    <trkpt lat=\"45.0000000\" lon=\"3.0000000\"></trkpt>\n  </trkseg></trk>\n</gpx>\n"
    );
    let doc = build_gpx_xml(&lines, "Ma Trace 2026", Some("version=\"1.1\""), Some(SOURCE_META), "VérificationGPX", FindingsSummary { routes: 1, deletions: 0, false_positives: 0 }).unwrap();
    assert!(doc.starts_with("<?xml version=\"1.0\" encoding=\"UTF-8\"?>\n<gpx version=\"1.1\">\n<metadata>\n    <desc>Trace auditée et corrigée avec VérificationGPX</desc>"));
    assert!(doc.contains("<tool>VérificationGPX</tool>"));
    assert!(doc.contains("  </extensions>\n</metadata>\n  <trk><name>Ma Trace 2026</name>"));
}

#[test]
fn validation_refusals() {
    let pending = vec![finding(FindingStatus::Pending), finding(FindingStatus::Fp)];
    assert_eq!(
        check_validation(10, &pending),
        Err("Toutes les anomalies doivent être traitées avant de valider l'audit (1 restante(s)).".to_string())
    );
    let done = vec![finding(FindingStatus::Corrected), finding(FindingStatus::Fp)];
    assert_eq!(check_validation(1, &done), Err("Trace dégénérée : moins de 2 points.".to_string()));
    assert_eq!(check_validation(2, &done), Ok(()));
}

#[test]
fn stamps_of_clock_readings() {
    assert_eq!(utc_stamp_of(Some(0)).as_deref(), Some("1970-01-01T00:00:00Z"));
    assert_eq!(utc_stamp_of(Some(1431648000)).as_deref(), Some("2015-05-15T00:00:00Z"));
    assert_eq!(utc_stamp_of(Some(253402300799)).as_deref(), Some("9999-12-31T23:59:59Z"));
    assert!(utc_stamp_of(Some(253402300800)).unwrap().starts_with("+10000-01-01T00:00:00"));
    assert_eq!(utc_stamp_of(Some(8210266876800)), None);
    assert_eq!(utc_stamp_of(None), None);
}

#[test]
fn blocks_at_a_clock_reading() {
    let s = FindingsSummary { routes: 1, deletions: 0, false_positives: 2 };
    assert_eq!(
        audit_xml_at("T", s, Some(0)),
        Ok(audit_block("T", s, "1970-01-01T00:00:00Z"))
    );
    assert_eq!(audit_xml_at("T", s, None), Err("Horloge système illisible.".to_string()));
    let audit = audit_block("T", s, "2015-05-15T00:00:00Z");
    assert_eq!(
        metadata_xml_at("n", "T", None, s, Some(1431648000)),
        Ok(fresh_metadata("n", "T", "2015-05-15T00:00:00Z", &audit))
    );
    assert_eq!(
        metadata_xml_at("n", "T", Some(SOURCE_META), s, Some(1431648000)),
        source_metadata(SOURCE_META, "T", &audit)
    );
    assert_eq!(
        metadata_xml_at("n", "T", Some(SOURCE_META), s, None),
        Err("Horloge système illisible.".to_string())
    );
    let lines = vec!["    <trkpt lat=\"1\" lon=\"2\"></trkpt>\n".to_string()];
    let meta = fresh_metadata("n", "T", "2015-05-15T00:00:00Z", &audit);
    assert_eq!(
        gpx_xml_at(&lines, "n", None, None, "T", s, Some(1431648000)),
        Ok(gpx_document(&gpx_header_attrs(None, "T"), &meta, "n", &lines))
    );
}
