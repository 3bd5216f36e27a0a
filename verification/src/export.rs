//! Texts of the GPX rewritten after an audit: the counters and the audit
//! block `<extensions><audit>`, the `<metadata>` element (the source's, with
//! its `<desc>` replaced and the audit block inserted as last child, or a
//! minimal one), the `<gpx>` attributes and the document around the points.
//!
//! The rewritten file is the working trace as it stands; the header of the
//! source is not rebuilt but emitted again.
use vstd::prelude::*;

use crate::patterns::{
    clock_error, clock_reading, regex_compiles, regex_error_text, regex_replace_all, regex_replace_first,
    regex_replaced_all, regex_replaced_first, stamp_of, utc_stamp_of,
};
use crate::text::{chars_of, decimal, joined, push_decimal, starts_with, trim_exec, trimmed};
use crate::types::{CorrectionType, Finding, FindingStatus, FindingView, finding_views};

verus! {

broadcast use vstd::seq_lib::group_seq_properties;

/// Counters carried by the audit block. The total is not stored: it is the
/// sum of the three counters.
#[derive(Clone, Copy, Debug)]
pub struct FindingsSummary {
    /// Findings corrected by a car or bike route.
    pub routes: usize,
    /// Findings corrected by a deletion.
    pub deletions: usize,
    /// Findings marked false positive.
    pub false_positives: usize,
}

impl Default for FindingsSummary {
    fn default() -> (r: Self)
        ensures
            r.routes == 0 && r.deletions == 0 && r.false_positives == 0,
    {
        FindingsSummary { routes: 0, deletions: 0, false_positives: 0 }
    }
}

/// The finding was corrected by a route (car or bike).
pub open spec fn is_routed(f: FindingView) -> bool {
    f.correction == Some(CorrectionType::RouteCar) || f.correction == Some(CorrectionType::RouteBike)
}

/// The finding was corrected by a deletion.
pub open spec fn is_deleted(f: FindingView) -> bool {
    f.correction == Some(CorrectionType::Delete)
}

/// The finding is marked false positive.
pub open spec fn is_false_positive(f: FindingView) -> bool {
    f.status == FindingStatus::Fp
}

/// The finding still waits for a treatment.
pub open spec fn is_pending(f: FindingView) -> bool {
    f.status == FindingStatus::Pending
}

/// Number of findings of `fs` satisfying `p`.
pub open spec fn count_of(fs: Seq<FindingView>, p: spec_fn(FindingView) -> bool) -> nat {
    fs.filter(p).len()
}

/// Counts the findings satisfying `p` among those of `findings`.
fn count_findings(findings: &[Finding], Ghost(p): Ghost<spec_fn(FindingView) -> bool>, which: u8) -> (n: usize)
    requires
        which < 4,
        which == 0 ==> p == (|f: FindingView| is_routed(f)),
        which == 1 ==> p == (|f: FindingView| is_deleted(f)),
        which == 2 ==> p == (|f: FindingView| is_false_positive(f)),
        which == 3 ==> p == (|f: FindingView| is_pending(f)),
    ensures
        n == count_of(finding_views(findings@), p),
{
    let ghost fs = finding_views(findings@);
    let mut n: usize = 0;
    let mut i: usize = 0;
    while i < findings.len()
        invariant
            0 <= i <= findings@.len(),
            fs == finding_views(findings@),
            n == fs.subrange(0, i as int).filter(p).len(),
            n <= i,
            which < 4,
            which == 0 ==> p == (|f: FindingView| is_routed(f)),
            which == 1 ==> p == (|f: FindingView| is_deleted(f)),
            which == 2 ==> p == (|f: FindingView| is_false_positive(f)),
            which == 3 ==> p == (|f: FindingView| is_pending(f)),
        decreases findings.len() - i,
    {
        let f = &findings[i];
        let hit = if which == 0 {
            match f.correction {
                Some(CorrectionType::RouteCar) => true,
                Some(CorrectionType::RouteBike) => true,
                _ => false,
            }
        } else if which == 1 {
            match f.correction {
                Some(CorrectionType::Delete) => true,
                _ => false,
            }
        } else if which == 2 {
            f.status == FindingStatus::Fp
        } else {
            f.status == FindingStatus::Pending
        };
        assert(fs[i as int] == findings@[i as int]@);
        assert(hit == p(fs[i as int]));
        assert(fs.subrange(0, i + 1) =~= fs.subrange(0, i as int).push(fs[i as int]));
        proof {
            fs.subrange(0, i as int).lemma_filter_push(fs[i as int], p);
        }
        if hit {
            n = n + 1;
        }
        i = i + 1;
    }
    assert(fs.subrange(0, findings@.len() as int) =~= fs);
    n
}

/// Counters of the audit block: routed findings, deleted findings, false
/// positives.
pub fn findings_summary(findings: &[Finding]) -> (r: FindingsSummary)
    ensures
        r.routes == count_of(finding_views(findings@), |f: FindingView| is_routed(f)),
        r.deletions == count_of(finding_views(findings@), |f: FindingView| is_deleted(f)),
        r.false_positives == count_of(finding_views(findings@), |f: FindingView| is_false_positive(f)),
{
    let routes = count_findings(findings, Ghost(|f: FindingView| is_routed(f)), 0);
    let deletions = count_findings(findings, Ghost(|f: FindingView| is_deleted(f)), 1);
    let false_positives = count_findings(findings, Ghost(|f: FindingView| is_false_positive(f)), 2);
    FindingsSummary { routes, deletions, false_positives }
}

/// The routes counter counts the findings corrected by a car route and
/// those corrected by a bike route: it is the number of the first plus the
/// number of the second. The deletions counter counts the findings corrected
/// by a deletion, the false positives counter those marked false positive,
/// and the count that refuses a validation those still pending.
pub proof fn law_routes_count_car_and_bike(fs: Seq<FindingView>)
    ensures
        count_of(fs, |f: FindingView| is_routed(f)) == fs.filter(
            |f: FindingView| f.correction == Some(CorrectionType::RouteCar),
        ).len() + fs.filter(|f: FindingView| f.correction == Some(CorrectionType::RouteBike)).len(),
        count_of(fs, |f: FindingView| is_deleted(f)) == fs.filter(
            |f: FindingView| f.correction == Some(CorrectionType::Delete),
        ).len(),
        count_of(fs, |f: FindingView| is_false_positive(f)) == fs.filter(
            |f: FindingView| f.status == FindingStatus::Fp,
        ).len(),
        count_of(fs, |f: FindingView| is_pending(f)) == fs.filter(
            |f: FindingView| f.status == FindingStatus::Pending,
        ).len(),
    decreases fs.len(),
{
    let routed = |f: FindingView| is_routed(f);
    let car = |f: FindingView| f.correction == Some(CorrectionType::RouteCar);
    let bike = |f: FindingView| f.correction == Some(CorrectionType::RouteBike);
    assert((|f: FindingView| is_deleted(f)) =~= (|f: FindingView| f.correction == Some(CorrectionType::Delete)));
    assert((|f: FindingView| is_false_positive(f)) =~= (|f: FindingView| f.status == FindingStatus::Fp));
    assert((|f: FindingView| is_pending(f)) =~= (|f: FindingView| f.status == FindingStatus::Pending));
    if fs.len() == 0 {
        assert(fs.filter(routed) =~= Seq::<FindingView>::empty());
        assert(fs.filter(car) =~= Seq::<FindingView>::empty());
        assert(fs.filter(bike) =~= Seq::<FindingView>::empty());
    } else {
        let d = fs.drop_last();
        let x = fs.last();
        law_routes_count_car_and_bike(d);
        assert(fs =~= d.push(x));
        d.lemma_filter_push(x, routed);
        d.lemma_filter_push(x, car);
        d.lemma_filter_push(x, bike);
    }
}

/// Why an audit cannot be validated: findings still pending, or a trace of
/// fewer than two points.
pub open spec fn validation_refusal(points_len: nat, fs: Seq<FindingView>) -> Option<Seq<char>> {
    let pending = count_of(fs, |f: FindingView| is_pending(f));
    if pending > 0 {
        Some("Toutes les anomalies doivent être traitées avant de valider l'audit ("@ + decimal(pending)
            + " restante(s))."@)
    } else if points_len < 2 {
        Some("Trace dégénérée : moins de 2 points."@)
    } else {
        None
    }
}

/// Checks that an audit can be validated: no finding left pending, and at
/// least two points in the working trace.
pub fn check_validation(points_len: usize, findings: &[Finding]) -> (r: Result<(), String>)
    ensures
        match validation_refusal(points_len as nat, finding_views(findings@)) {
            Some(m) => r matches Err(e) && e@ == m,
            None => r is Ok,
        },
{
    let pending = count_findings(findings, Ghost(|f: FindingView| is_pending(f)), 3);
    if pending > 0 {
        let mut m = String::from_str(
            "Toutes les anomalies doivent être traitées avant de valider l'audit (",
        );
        push_decimal(&mut m, pending as u128);
        m.append(" restante(s)).");
        return Err(m);
    }
    if points_len < 2 {
        return Err(String::from_str("Trace dégénérée : moins de 2 points."));
    }
    Ok(())
}

} // verus!

verus! {

/// XML text of one character: `&`, `<`, `>` and `"` become entities.
pub open spec fn escaped_char(c: char) -> Seq<char> {
    if c == '&' {
        "&amp;"@
    } else if c == '<' {
        "&lt;"@
    } else if c == '>' {
        "&gt;"@
    } else if c == '"' {
        "&quot;"@
    } else {
        seq![c]
    }
}

/// Minimal XML escaping of `s` (`&`, `<`, `>`, `"`), character by character.
pub open spec fn xml_escaped(s: Seq<char>) -> Seq<char>
    decreases s.len(),
{
    if s.len() == 0 {
        Seq::empty()
    } else {
        xml_escaped(s.drop_last()) + escaped_char(s.last())
    }
}

/// Minimal XML escaping (`&`, `<`, `>`, `"`).
pub fn xml_escape(s: &str) -> (r: String)
    ensures
        r@ == xml_escaped(s@),
{
    let cs = chars_of(s);
    let mut out = String::new();
    let mut i: usize = 0;
    proof {
        reveal_strlit("");
        assert(cs@.subrange(0, 0) =~= Seq::<char>::empty());
    }
    while i < cs.len()
        invariant
            0 <= i <= cs.len(),
            cs@ == s@,
            out@ == xml_escaped(cs@.subrange(0, i as int)),
        decreases cs.len() - i,
    {
        let c = cs[i];
        let ghost before = out@;
        if c == '&' {
            out.append("&amp;");
        } else if c == '<' {
            out.append("&lt;");
        } else if c == '>' {
            out.append("&gt;");
        } else if c == '"' {
            out.append("&quot;");
        } else {
            crate::text::push_char(&mut out, c);
        }
        assert(out@ == before + escaped_char(c));
        assert(cs@.subrange(0, i + 1).drop_last() =~= cs@.subrange(0, i as int));
        i = i + 1;
    }
    assert(cs@.subrange(0, cs.len() as int) =~= cs@);
    out
}

/// Namespace of the audit block.
pub open spec fn audit_ns() -> Seq<char> {
    "http://VérificationGPX.example/gpx/audit/1"@
}

/// The audit block `<extensions><audit>`: time of the change, tool, and the
/// counters with their total.
pub open spec fn audit_block_of(tool: Seq<char>, s: FindingsSummary, modified: Seq<char>) -> Seq<char> {
    "  <extensions>\n    <audit xmlns=\""@ + audit_ns() + "\">\n      <modified>"@ + modified
        + "</modified>\n      <tool>"@ + xml_escaped(tool) + "</tool>\n      <corrections total=\""@
        + decimal((s.routes + s.deletions + s.false_positives) as nat) + "\" routes=\""@ + decimal(
        s.routes as nat,
    ) + "\" deletions=\""@ + decimal(s.deletions as nat) + "\" falsePositives=\""@ + decimal(
        s.false_positives as nat,
    ) + "\"/>\n    </audit>\n  </extensions>\n"@
}

/// The audit block for a change made at `modified`.
pub fn audit_block(tool: &str, summary: FindingsSummary, modified: &str) -> (r: String)
    ensures
        r@ == audit_block_of(tool@, summary, modified@),
{
    let mut x = String::from_str("  <extensions>\n    <audit xmlns=\"");
    x.append("http://VérificationGPX.example/gpx/audit/1");
    x.append("\">\n      <modified>");
    x.append(modified);
    x.append("</modified>\n      <tool>");
    let t = xml_escape(tool);
    x.append(t.as_str());
    x.append("</tool>\n      <corrections total=\"");
    let total: u128 = summary.routes as u128 + summary.deletions as u128 + summary.false_positives as u128;
    push_decimal(&mut x, total);
    x.append("\" routes=\"");
    push_decimal(&mut x, summary.routes as u128);
    x.append("\" deletions=\"");
    push_decimal(&mut x, summary.deletions as u128);
    x.append("\" falsePositives=\"");
    push_decimal(&mut x, summary.false_positives as u128);
    x.append("\"/>\n    </audit>\n  </extensions>\n");
    x
}

/// Texts of a result.
pub open spec fn text_result(r: Result<String, String>) -> Result<Seq<char>, Seq<char>> {
    match r {
        Ok(x) => Ok(x@),
        Err(e) => Err(e@),
    }
}

/// The audit block stamped with the UTC time of a clock reading, or the
/// clock error when the reading gives no date.
pub open spec fn audit_xml_of(tool: Seq<char>, summary: FindingsSummary, reading: Option<u64>) -> Result<Seq<char>, Seq<char>> {
    match stamp_of(reading) {
        Some(t) => Ok(audit_block_of(tool, summary, t)),
        None => Err(clock_error()),
    }
}

/// The audit block stamped with the UTC time of the clock reading `reading`
/// (seconds since the epoch, `None` before it).
pub fn audit_xml_at(tool: &str, summary: FindingsSummary, reading: Option<u64>) -> (r: Result<String, String>)
    ensures
        text_result(r) == audit_xml_of(tool@, summary, reading),
{
    match utc_stamp_of(reading) {
        Some(now) => Ok(audit_block(tool, summary, now.as_str())),
        None => Err(String::from_str("Horloge système illisible.")),
    }
}

/// The audit block stamped with the current UTC time: what `audit_xml_at`
/// gives for the system clock's reading.
pub fn build_audit_xml(tool: &str, summary: FindingsSummary) -> (r: Result<String, String>)
    ensures
        exists|reading: Option<u64>| text_result(r) == #[trigger] audit_xml_of(tool@, summary, reading),
{
    let reading = clock_reading();
    let r = audit_xml_at(tool, summary, reading);
    assert(text_result(r) == audit_xml_of(tool@, summary, reading));
    r
}

} // verus!

verus! {

/// Pattern of a `<desc>` element.
pub open spec fn re_desc() -> Seq<char> {
    "(?is)<desc\\b.*?</desc\\s*>"@
}

/// Pattern of an `<extensions>` element.
pub open spec fn re_extensions() -> Seq<char> {
    "(?is)<extensions\\b.*?</extensions\\s*>"@
}

/// Pattern of the opening `<metadata>` tag at the start, captured.
pub open spec fn re_metadata_open() -> Seq<char> {
    "(?i)^(<metadata\\b[^>]*>)"@
}

/// Pattern of the closing `</metadata>` tag.
pub open spec fn re_metadata_close() -> Seq<char> {
    "(?i)</metadata\\s*>"@
}

/// Whether the four patterns of the metadata rewriting compile.
pub open spec fn metadata_patterns_compile() -> bool {
    &&& regex_compiles(re_desc())
    &&& regex_compiles(re_extensions())
    &&& regex_compiles(re_metadata_open())
    &&& regex_compiles(re_metadata_close())
}

/// The `<desc>` element naming the tool.
pub open spec fn desc_of(tool: Seq<char>) -> Seq<char> {
    "<desc>Trace auditée et corrigée avec "@ + xml_escaped(tool) + "</desc>"@
}

/// The source's `<metadata>` rewritten: its `<desc>` and `<extensions>`
/// removed, the new `<desc>` put right after the opening tag (the
/// replacement keeps the captured tag, `${1}`), the audit block put before
/// the closing tag.
pub open spec fn source_metadata_of(meta: Seq<char>, tool: Seq<char>, audit: Seq<char>) -> Seq<char> {
    let no_desc = regex_replaced_all(re_desc(), meta, ""@);
    let stripped = regex_replaced_all(re_extensions(), no_desc, ""@);
    let with_desc = regex_replaced_first(re_metadata_open(), stripped, "${1}\n    "@ + desc_of(tool));
    regex_replaced_first(re_metadata_close(), with_desc, audit + "</metadata>"@) + "\n"@
}

/// A minimal `<metadata>` element: name, description, time, audit block.
pub open spec fn fresh_metadata_of(trk_name: Seq<char>, tool: Seq<char>, time: Seq<char>, audit: Seq<char>) -> Seq<char> {
    "  <metadata>\n    <name>"@ + xml_escaped(trk_name) + "</name>\n    "@ + desc_of(tool)
        + "\n    <time>"@ + time + "</time>\n"@ + audit + "  </metadata>\n"@
}

/// Error text of a pattern that does not compile.
pub open spec fn pattern_error_prefix() -> Seq<char> {
    "Motif interne invalide : "@
}

/// `Motif interne invalide : ` followed by the pattern's compile error.
pub(crate) fn pattern_error(e: &regex::Error) -> (r: String)
    ensures
        r@.len() >= pattern_error_prefix().len(),
        r@.subrange(0, pattern_error_prefix().len() as int) == pattern_error_prefix(),
        starts_with(r@, "Motif interne invalide : "@),
{
    let mut m = String::from_str("Motif interne invalide : ");
    let t = regex_error_text(e);
    let ghost p = m@;
    m.append(t.as_str());
    assert(m@.subrange(0, p.len() as int) =~= p);
    m
}

/// The `<desc>` element naming the tool.
fn desc_text(tool: &str) -> (r: String)
    ensures
        r@ == desc_of(tool@),
{
    let mut x = String::from_str("<desc>Trace auditée et corrigée avec ");
    let t = xml_escape(tool);
    x.append(t.as_str());
    x.append("</desc>");
    x
}

/// The source's `<metadata>` with its `<desc>` replaced and `audit` inserted
/// as its last child.
pub fn source_metadata(meta: &str, tool: &str, audit: &str) -> (r: Result<String, String>)
    ensures
        r is Ok <==> metadata_patterns_compile(),
        r matches Ok(x) ==> x@ == source_metadata_of(meta@, tool@, audit@),
        r matches Err(e) ==> e@.len() >= pattern_error_prefix().len() && e@.subrange(
            0,
            pattern_error_prefix().len() as int,
        ) == pattern_error_prefix(),
{
    let no_desc = match regex_replace_all("(?is)<desc\\b.*?</desc\\s*>", meta, "") {
        Ok(s) => s,
        Err(e) => return Err(pattern_error(&e)),
    };
    let stripped = match regex_replace_all("(?is)<extensions\\b.*?</extensions\\s*>", no_desc.as_str(), "") {
        Ok(s) => s,
        Err(e) => return Err(pattern_error(&e)),
    };
    let mut rep = String::from_str("${1}\n    ");
    let d = desc_text(tool);
    rep.append(d.as_str());
    let with_desc = match regex_replace_first("(?i)^(<metadata\\b[^>]*>)", stripped.as_str(), rep.as_str()) {
        Ok(s) => s,
        Err(e) => return Err(pattern_error(&e)),
    };
    let mut close = String::from_str(audit);
    close.append("</metadata>");
    let mut with_audit = match regex_replace_first("(?i)</metadata\\s*>", with_desc.as_str(), close.as_str()) {
        Ok(s) => s,
        Err(e) => return Err(pattern_error(&e)),
    };
    with_audit.append("\n");
    Ok(with_audit)
}

/// A minimal `<metadata>` element stamped at `time`.
pub fn fresh_metadata(trk_name: &str, tool: &str, time: &str, audit: &str) -> (r: String)
    ensures
        r@ == fresh_metadata_of(trk_name@, tool@, time@, audit@),
{
    let mut x = String::from_str("  <metadata>\n    <name>");
    let n = xml_escape(trk_name);
    x.append(n.as_str());
    x.append("</name>\n    ");
    let d = desc_text(tool);
    x.append(d.as_str());
    x.append("\n    <time>");
    x.append(time);
    x.append("</time>\n");
    x.append(audit);
    x.append("  </metadata>\n");
    x
}

/// Optional text as an optional character sequence.
pub open spec fn opt_str_view(o: Option<&str>) -> Option<Seq<char>> {
    match o {
        Some(a) => Some(a@),
        None => None,
    }
}

/// The `<metadata>` of the rewritten GPX for a clock reading: the clock
/// error when the reading gives no date; else, stamped with its UTC time,
/// a minimal `<metadata>` when the source has none, the source's one
/// rewritten when the patterns compile, and a pattern error otherwise.
pub open spec fn metadata_xml_outcome(
    r: Result<Seq<char>, Seq<char>>,
    trk_name: Seq<char>,
    tool: Seq<char>,
    source: Option<Seq<char>>,
    summary: FindingsSummary,
    reading: Option<u64>,
) -> bool {
    match stamp_of(reading) {
        None => r == Err::<Seq<char>, Seq<char>>(clock_error()),
        Some(t) => match source {
            None => r == Ok::<Seq<char>, Seq<char>>(fresh_metadata_of(trk_name, tool, t, audit_block_of(tool, summary, t))),
            Some(src) => if metadata_patterns_compile() {
                r == Ok::<Seq<char>, Seq<char>>(source_metadata_of(src, tool, audit_block_of(tool, summary, t)))
            } else {
                r matches Err(e) && starts_with(e, pattern_error_prefix())
            },
        },
    }
}

/// The `<metadata>` of the rewritten GPX, stamped with the UTC time of the
/// clock reading `reading`.
pub fn metadata_xml_at(
    trk_name: &str,
    tool: &str,
    source_meta_xml: Option<&str>,
    summary: FindingsSummary,
    reading: Option<u64>,
) -> (r: Result<String, String>)
    ensures
        metadata_xml_outcome(text_result(r), trk_name@, tool@, opt_str_view(source_meta_xml), summary, reading),
{
    let now = match utc_stamp_of(reading) {
        Some(t) => t,
        None => return Err(String::from_str("Horloge système illisible.")),
    };
    let audit = audit_block(tool, summary, now.as_str());
    match source_meta_xml {
        Some(meta) => {
            let r = source_metadata(meta, tool, audit.as_str());
            proof {
                if !metadata_patterns_compile() {
                    assert(r is Err);
                }
            }
            r
        },
        None => Ok(fresh_metadata(trk_name, tool, now.as_str(), audit.as_str())),
    }
}

/// The `<metadata>` of the rewritten GPX, stamped with the current time:
/// what `metadata_xml_at` gives for the system clock's reading.
pub fn build_metadata_xml(trk_name: &str, tool: &str, source_meta_xml: Option<&str>, summary: FindingsSummary) -> (r: Result<String, String>)
    ensures
        exists|reading: Option<u64>| #[trigger] metadata_xml_outcome(
            text_result(r),
            trk_name@,
            tool@,
            opt_str_view(source_meta_xml),
            summary,
            reading,
        ),
{
    let reading = clock_reading();
    let r = metadata_xml_at(trk_name, tool, source_meta_xml, summary, reading);
    assert(metadata_xml_outcome(text_result(r), trk_name@, tool@, opt_str_view(source_meta_xml), summary, reading));
    r
}

} // verus!

verus! {

/// Application name used when none is set.
pub open spec fn default_app_name() -> Seq<char> {
    "VérificationGPX"@
}

/// Tool named in the audit block: the application name trimmed, or the
/// default name when it is blank.
pub open spec fn tool_of(app_name: Seq<char>) -> Seq<char> {
    if trimmed(app_name).len() == 0 {
        default_app_name()
    } else {
        trimmed(app_name)
    }
}

/// Tool named in the audit block.
pub fn audit_tool(app_name: &str) -> (r: String)
    ensures
        r@ == tool_of(app_name@),
{
    let cs = chars_of(app_name);
    let t = trim_exec(&cs);
    if t.len() == 0 {
        String::from_str("VérificationGPX")
    } else {
        crate::text::string_of(&t)
    }
}

/// Attributes of the `<gpx>` tag: the source's when it has some, else a
/// fallback naming the tool as creator.
pub open spec fn header_attrs_of(source: Option<Seq<char>>, tool: Seq<char>) -> Seq<char> {
    match source {
        Some(a) if a.len() > 0 => a,
        _ => "version=\"1.1\" creator=\""@ + xml_escaped(tool) + "\" "@
            + "xmlns=\"http://www.topografix.com/GPX/1/1\""@,
    }
}

/// Attributes of the `<gpx>` tag of the rewritten document.
pub fn gpx_header_attrs(source: Option<&str>, tool: &str) -> (r: String)
    ensures
        r@ == header_attrs_of(opt_str_view(source), tool@),
{
    if let Some(a) = source {
        if a.unicode_len() > 0 {
            return String::from_str(a);
        }
    }
    let mut x = String::from_str("version=\"1.1\" creator=\"");
    let t = xml_escape(tool);
    x.append(t.as_str());
    x.append("\" ");
    x.append("xmlns=\"http://www.topografix.com/GPX/1/1\"");
    x
}

/// Name of the rewritten track: the source's `<name>`, else the file name
/// without extension, else `trace`.
pub open spec fn track_name_of(source: Option<Seq<char>>, file_stem: Option<Seq<char>>) -> Seq<char> {
    match source {
        Some(n) => n,
        None => match file_stem {
            Some(s) => s,
            None => "trace"@,
        },
    }
}

/// Name of the rewritten track.
pub fn track_name(source: Option<&str>, file_stem: Option<&str>) -> (r: String)
    ensures
        r@ == track_name_of(opt_str_view(source), opt_str_view(file_stem)),
{
    match source {
        Some(n) => String::from_str(n),
        None => match file_stem {
            Some(s) => String::from_str(s),
            None => String::from_str("trace"),
        },
    }
}

/// The whole GPX document: XML declaration, `<gpx>` tag, metadata, one track
/// made of one segment holding the point lines.
pub open spec fn gpx_document_of(attrs: Seq<char>, metadata: Seq<char>, trk_name: Seq<char>, lines: Seq<Seq<char>>) -> Seq<char> {
    "<?xml version=\"1.0\" encoding=\"UTF-8\"?>\n"@ + "<gpx "@ + attrs + ">\n"@ + metadata
        + "  <trk><name>"@ + xml_escaped(trk_name) + "</name><trkseg>\n"@ + joined(lines)
        + "  </trkseg></trk>\n</gpx>\n"@
}

/// Views of a sequence of strings.
pub open spec fn string_views(v: Seq<String>) -> Seq<Seq<char>> {
    v.map_values(|s: String| s@)
}

/// The whole GPX document around the already written point lines.
pub fn gpx_document(attrs: &str, metadata: &str, trk_name: &str, point_lines: &Vec<String>) -> (r: String)
    ensures
        r@ == gpx_document_of(attrs@, metadata@, trk_name@, string_views(point_lines@)),
{
    let mut x = String::from_str("<?xml version=\"1.0\" encoding=\"UTF-8\"?>\n");
    x.append("<gpx ");
    x.append(attrs);
    x.append(">\n");
    x.append(metadata);
    x.append("  <trk><name>");
    let n = xml_escape(trk_name);
    x.append(n.as_str());
    x.append("</name><trkseg>\n");
    let ghost head = x@;
    let ghost lines = string_views(point_lines@);
    let mut i: usize = 0;
    assert(lines.subrange(0, 0) =~= Seq::<Seq<char>>::empty());
    while i < point_lines.len()
        invariant
            0 <= i <= point_lines@.len(),
            lines == string_views(point_lines@),
            x@ == head + joined(lines.subrange(0, i as int)),
        decreases point_lines.len() - i,
    {
        x.append(point_lines[i].as_str());
        assert(lines.subrange(0, i + 1).drop_last() =~= lines.subrange(0, i as int));
        assert(lines[i as int] == point_lines@[i as int]@);
        i = i + 1;
    }
    assert(lines.subrange(0, point_lines@.len() as int) =~= lines);
    x.append("  </trkseg></trk>\n</gpx>\n");
    x
}

/// The rewritten GPX document for a clock reading: the `<metadata>` outcome
/// of that reading, and when it is a `<metadata>`, the document around it.
pub open spec fn gpx_xml_outcome(
    r: Result<Seq<char>, Seq<char>>,
    lines: Seq<Seq<char>>,
    trk_name: Seq<char>,
    attrs: Option<Seq<char>>,
    source: Option<Seq<char>>,
    tool: Seq<char>,
    summary: FindingsSummary,
    reading: Option<u64>,
) -> bool {
    exists|m: Result<Seq<char>, Seq<char>>| #[trigger] metadata_xml_outcome(m, trk_name, tool, source, summary, reading)
        && match m {
        Ok(meta) => r == Ok::<Seq<char>, Seq<char>>(gpx_document_of(header_attrs_of(attrs, tool), meta, trk_name, lines)),
        Err(e) => r == Err::<Seq<char>, Seq<char>>(e),
    }
}

/// The rewritten GPX document stamped with the UTC time of the clock
/// reading `reading`: the source's header emitted again (or the fallback
/// attributes and a minimal metadata), the audit block, the track name and
/// the point lines of the working trace.
pub fn gpx_xml_at(
    point_lines: &Vec<String>,
    trk_name: &str,
    source_gpx_attrs: Option<&str>,
    source_meta_xml: Option<&str>,
    tool: &str,
    summary: FindingsSummary,
    reading: Option<u64>,
) -> (r: Result<String, String>)
    ensures
        gpx_xml_outcome(
            text_result(r),
            string_views(point_lines@),
            trk_name@,
            opt_str_view(source_gpx_attrs),
            opt_str_view(source_meta_xml),
            tool@,
            summary,
            reading,
        ),
{
    let attrs = gpx_header_attrs(source_gpx_attrs, tool);
    let m = metadata_xml_at(trk_name, tool, source_meta_xml, summary, reading);
    let r = match m {
        Ok(meta) => Ok(gpx_document(attrs.as_str(), meta.as_str(), trk_name, point_lines)),
        Err(e) => Err(e),
    };
    assert(metadata_xml_outcome(text_result(m), trk_name@, tool@, opt_str_view(source_meta_xml), summary, reading));
    r
}

/// The rewritten GPX document stamped with the current time: what
/// `gpx_xml_at` gives for the system clock's reading.
pub fn build_gpx_xml(
    point_lines: &Vec<String>,
    trk_name: &str,
    source_gpx_attrs: Option<&str>,
    source_meta_xml: Option<&str>,
    tool: &str,
    summary: FindingsSummary,
) -> (r: Result<String, String>)
    ensures
        exists|reading: Option<u64>| #[trigger] gpx_xml_outcome(
            text_result(r),
            string_views(point_lines@),
            trk_name@,
            opt_str_view(source_gpx_attrs),
            opt_str_view(source_meta_xml),
            tool@,
            summary,
            reading,
        ),
{
    let reading = clock_reading();
    let r = gpx_xml_at(point_lines, trk_name, source_gpx_attrs, source_meta_xml, tool, summary, reading);
    assert(gpx_xml_outcome(
        text_result(r),
        string_views(point_lines@),
        trk_name@,
        opt_str_view(source_gpx_attrs),
        opt_str_view(source_meta_xml),
        tool@,
        summary,
        reading,
    ));
    r
}

} // verus!
