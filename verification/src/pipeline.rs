//! Detection pipeline bookkeeping: stable numbering of the consolidated
//! trace, ordering and per-family numbering of the findings, and the source
//! header of a GPX kept for its rewriting.
use vstd::prelude::*;

use crate::corrections::{sort_findings_by_position, sorted_by_start};
use crate::export::pattern_error;
use crate::patterns::{
    far_time_in, far_time_pattern, gpx_error_text, gpx_first_track_name, gpx_points, gpx_read, gpx_track_name,
    gpx_track_points, regex_capture_group1,
    regex_compiles, regex_find, regex_first_match, regex_group1,
};
use crate::text::{chars_of, decimal, occurs_at, push_decimal, starts_with, string_of, trim_exec, trimmed};
use crate::types::{AuditPoint, Finding, FindingKind, FindingView, finding_views, opt_string_view};

verus! {

broadcast use vstd::seq_lib::group_seq_properties;

/// Minimal number of points after consolidation: below, the trace is
/// degenerate and no anomaly makes sense.
pub const MIN_POINTS: usize = 5;

/// Source context of a GPX, kept by its rewriting.
#[derive(Clone, Debug)]
pub struct SourceGpxContext {
    /// Attributes of the `<gpx>` tag.
    pub attrs: Option<String>,
    /// The `<metadata>` element, opening tag included.
    pub meta_xml: Option<String>,
    /// `<name>` of the first track.
    pub trk_name: Option<String>,
}

impl Default for SourceGpxContext {
    fn default() -> (r: Self)
        ensures
            r.attrs is None && r.meta_xml is None && r.trk_name is None,
    {
        SourceGpxContext { attrs: None, meta_xml: None, trk_name: None }
    }
}

/// The numbering separator `" : "`.
pub open spec fn number_sep() -> Seq<char> {
    " : "@
}

/// Position of the last occurrence of `" : "` in `s`.
pub open spec fn last_sep(s: Seq<char>) -> Option<int> {
    if exists|i: int| occurs_at(s, number_sep(), i) {
        Some(choose|i: int| occurs_at(s, number_sep(), i) && forall|j: int| occurs_at(s, number_sep(), j) ==> j <= i)
    } else {
        None
    }
}

/// Every character of `s` is an ASCII digit.
pub open spec fn all_digits(s: Seq<char>) -> bool {
    forall|i: int| 0 <= i < s.len() ==> '0' <= #[trigger] s[i] && s[i] <= '9'
}

/// A label without its numbering suffix `" : n"` (the text after the last
/// `" : "` made of ASCII digits only); unchanged without such a suffix.
pub open spec fn bare_label_of(s: Seq<char>) -> Seq<char> {
    match last_sep(s) {
        Some(i) => if all_digits(s.subrange(i + 3, s.len() as int)) { s.subrange(0, i) } else { s },
        None => s,
    }
}

/// A label without its numbering suffix `" : n"`.
pub fn bare_label(label: &str) -> (r: String)
    ensures
        r@ == bare_label_of(label@),
{
    proof {
        reveal_strlit(" : ");
    }
    let s = chars_of(label);
    let sep = chars_of(" : ");
    assert(sep@.len() == 3);
    if s.len() < 3 {
        proof {
            assert forall|j: int| !occurs_at(s@, number_sep(), j) by {}
        }
        return label.to_owned();
    }
    let mut i: usize = s.len() - 3;
    loop
        invariant
            i + 3 <= s.len(),
            s@ == label@,
            sep@ == number_sep(),
            forall|j: int| i < j ==> !occurs_at(s@, number_sep(), j),
        ensures
            occurs_at(s@, number_sep(), i as int),
            forall|j: int| i < j ==> !occurs_at(s@, number_sep(), j),
        decreases i,
    {
        let found = crate::text::occurs_at_exec(&s, &sep, i);
        if found {
            break;
        }
        if i == 0 {
            assert(!occurs_at(s@, number_sep(), 0));
            assert forall|j: int| !occurs_at(s@, number_sep(), j) by {
                if j > 0 {
                    assert(i < j);
                }
            }
            assert(s@ == label@);
            assert(!(exists|j: int| occurs_at(label@, number_sep(), j)));
            assert(last_sep(label@) is None);
            assert(bare_label_of(label@) == label@);
            return label.to_owned();
        }
        i = i - 1;
    }
    assert(occurs_at(s@, number_sep(), i as int));
    proof {
        let k = choose|k: int| occurs_at(s@, number_sep(), k) && forall|j: int| occurs_at(s@, number_sep(), j) ==> j <= k;
        assert(k <= i as int && i as int <= k);
    }
    let mut digits = true;
    let mut k = i + 3;
    while k < s.len()
        invariant
            i + 3 <= k <= s.len(),
            digits == forall|j: int| i + 3 <= j < k ==> '0' <= #[trigger] s@[j] && s@[j] <= '9',
        decreases s.len() - k,
    {
        digits = digits && '0' <= s[k] && s[k] <= '9';
        k = k + 1;
    }
    assert(digits == all_digits(s@.subrange(i + 3, s@.len() as int))) by {
        let t = s@.subrange(i + 3, s@.len() as int);
        assert forall|j: int| 0 <= j < t.len() implies t[j] == s@[i + 3 + j] by {}
        if digits {
            assert forall|j: int| 0 <= j < t.len() implies '0' <= #[trigger] t[j] && t[j] <= '9' by {
                assert(t[j] == s@[i + 3 + j]);
            }
        } else {
            let j = choose|j: int| !(i + 3 <= j < s.len() ==> '0' <= #[trigger] s@[j] && s@[j] <= '9');
            assert(t[j - i - 3] == s@[j]);
        }
    }
    if digits {
        let mut out: Vec<char> = Vec::new();
        let mut m: usize = 0;
        while m < i
            invariant
                0 <= m <= i,
                i <= s.len(),
                out@ == s@.subrange(0, m as int),
            decreases i - m,
        {
            out.push(s[m]);
            m = m + 1;
            assert(out@ =~= s@.subrange(0, m as int));
        }
        string_of(&out)
    } else {
        label.to_owned()
    }
}

/// Number of findings of family `k` in `s`.
pub open spec fn kind_count(s: Seq<FindingView>, k: FindingKind) -> nat {
    s.filter(|g: FindingView| g.kind == k).len()
}

/// Id prefix of a family.
pub open spec fn family_prefix(k: FindingKind) -> Seq<char> {
    match k {
        FindingKind::Ar => "ar-"@,
        FindingKind::Rp => "rp-"@,
    }
}

/// Finding `i` renumbered within its family: its rank `n` among the
/// findings of its family up to it gives the id `ar-n` / `rp-n` and the
/// label `bare : n`.
pub open spec fn renumbered_at(fs: Seq<FindingView>, i: int) -> FindingView {
    let n = kind_count(fs.subrange(0, i + 1), fs[i].kind);
    FindingView {
        id: family_prefix(fs[i].kind) + decimal(n),
        label: bare_label_of(fs[i].label) + number_sep() + decimal(n),
        ..fs[i]
    }
}

/// All findings renumbered within their family.
pub open spec fn renumbered(fs: Seq<FindingView>) -> Seq<FindingView> {
    Seq::new(fs.len(), |i: int| renumbered_at(fs, i))
}

proof fn lemma_kind_count_push(s: Seq<FindingView>, g: FindingView, k: FindingKind)
    ensures
        kind_count(s.push(g), k) == kind_count(s, k) + if g.kind == k { 1nat } else { 0nat },
{
    s.lemma_filter_push(g, |x: FindingView| x.kind == k);
}

/// Id and label of a finding numbered `n` within its family.
fn numbered_texts(kind: FindingKind, label: &str, n: usize) -> (r: (String, String))
    ensures
        r.0@ == family_prefix(kind) + decimal(n as nat),
        r.1@ == bare_label_of(label@) + number_sep() + decimal(n as nat),
{
    let mut id = match kind {
        FindingKind::Ar => String::from_str("ar-"),
        FindingKind::Rp => String::from_str("rp-"),
    };
    push_decimal(&mut id, n as u128);
    let mut text = bare_label(label);
    text.append(" : ");
    push_decimal(&mut text, n as u128);
    (id, text)
}

/// Renumbers the findings per family: each family (AR, RP) has its own
/// counter; the bare label gets the suffix `" : n"` and the id the prefix
/// `ar-` / `rp-`.
#[verifier::rlimit(40)]
pub fn renumber_findings(findings: &mut Vec<Finding>)
    ensures
        finding_views(final(findings)@) == renumbered(finding_views(old(findings)@)),
{
    let ghost fs = finding_views(findings@);
    let mut ar_n: usize = 0;
    let mut rp_n: usize = 0;
    let mut i: usize = 0;
    assert(fs.subrange(0, 0) =~= Seq::<FindingView>::empty());
    while i < findings.len()
        invariant
            0 <= i <= findings@.len(),
            fs.len() == findings@.len(),
            ar_n == kind_count(fs.subrange(0, i as int), FindingKind::Ar),
            rp_n == kind_count(fs.subrange(0, i as int), FindingKind::Rp),
            ar_n + rp_n <= i,
            forall|j: int| 0 <= j < i ==> (#[trigger] finding_views(findings@)[j]) == renumbered_at(fs, j),
            forall|j: int| i <= j < fs.len() ==> (#[trigger] finding_views(findings@)[j]) == fs[j],
        decreases findings.len() - i,
    {
        let ghost g = fs[i as int];
        assert(finding_views(findings@)[i as int] == g);
        assert(fs.subrange(0, i + 1) =~= fs.subrange(0, i as int).push(g));
        proof {
            lemma_kind_count_push(fs.subrange(0, i as int), g, FindingKind::Ar);
            lemma_kind_count_push(fs.subrange(0, i as int), g, FindingKind::Rp);
        }
        let n: usize = match findings[i].kind {
            FindingKind::Ar => {
                ar_n = ar_n + 1;
                ar_n
            },
            FindingKind::Rp => {
                rp_n = rp_n + 1;
                rp_n
            },
        };
        let (id, label) = numbered_texts(findings[i].kind, findings[i].label.as_str(), n);
        let ghost before = findings@;
        findings[i].id = id;
        findings[i].label = label;
        assert(finding_views(findings@)[i as int] =~= renumbered_at(fs, i as int));
        assert forall|j: int| 0 <= j < findings@.len() && j != i implies (#[trigger] finding_views(findings@)[j]) == finding_views(before)[j] by {
            assert(findings@[j] == before[j]);
        }
        i = i + 1;
    }
    assert(finding_views(findings@) =~= renumbered(fs));
}

/// Final ordering of the detected findings: stable sort by zone start, so
/// that each detector's order within its family is kept, then numbering per
/// family.
pub fn order_findings(findings: &mut Vec<Finding>)
    ensures
        finding_views(final(findings)@) == renumbered(sorted_by_start(finding_views(old(findings)@))),
{
    sort_findings_by_position(findings);
    renumber_findings(findings);
}

/// Stable ids `1..N` given to the points of the consolidated trace.
pub fn number_points(points: &mut Vec<AuditPoint>)
    requires
        old(points)@.len() <= u32::MAX,
    ensures
        final(points)@.len() == old(points)@.len(),
        forall|i: int| 0 <= i < old(points)@.len() ==> (#[trigger] final(points)@[i]) == (AuditPoint {
            id: (i + 1) as u32,
            ..old(points)@[i]
        }),
{
    let ghost p0 = points@;
    let mut i: usize = 0;
    while i < points.len()
        invariant
            0 <= i <= points@.len(),
            points@.len() == p0.len(),
            p0.len() <= u32::MAX,
            forall|j: int| 0 <= j < i ==> (#[trigger] points@[j]) == (AuditPoint { id: (j + 1) as u32, ..p0[j] }),
            forall|j: int| i <= j < p0.len() ==> (#[trigger] points@[j]) == p0[j],
        decreases points.len() - i,
    {
        let mut p = points[i];
        p.id = (i + 1) as u32;
        points.set(i, p);
        i = i + 1;
    }
}

} // verus!

verus! {

proof fn lemma_decimal_digits(n: nat)
    ensures
        all_digits(decimal(n)),
        decimal(n).len() >= 1,
    decreases n,
{
    if n >= 10 {
        lemma_decimal_digits(n / 10);
        let d = decimal(n / 10);
        assert forall|i: int| 0 <= i < decimal(n).len() implies '0' <= #[trigger] decimal(n)[i] && decimal(n)[i] <= '9' by {
            if i < d.len() {
                assert(decimal(n)[i] == d[i]);
            }
        }
    }
}

/// A bare label numbered again gives back the bare label.
proof fn lemma_bare_of_numbered(b: Seq<char>, n: nat)
    ensures
        bare_label_of(b + number_sep() + decimal(n)) == b,
{
    reveal_strlit(" : ");
    lemma_decimal_digits(n);
    let d = decimal(n);
    let s = b + number_sep() + d;
    let k = b.len() as int;
    assert(s.subrange(k, k + 3) =~= number_sep());
    assert(occurs_at(s, number_sep(), k));
    assert forall|j: int| occurs_at(s, number_sep(), j) implies j <= k by {
        if j > k {
            let w = s.subrange(j, j + 3);
            assert(w[0] == s[j]);
            assert(w[1] == s[j + 1]);
            if j == k + 1 {
                assert(s[j] == ':');
            } else if j == k + 2 {
                assert(s[j + 1] == d[0]);
            } else {
                assert(s[j] == d[j - k - 3]);
            }
        }
    }
    let c = choose|c: int| occurs_at(s, number_sep(), c) && forall|j: int| occurs_at(s, number_sep(), j) ==> j <= c;
    assert(c == k);
    assert(s.subrange(k + 3, s.len() as int) =~= d);
    assert(s.subrange(0, k) =~= b);
}

proof fn lemma_kind_count_same(s1: Seq<FindingView>, s2: Seq<FindingView>, k: FindingKind)
    requires
        s1.len() == s2.len(),
        forall|i: int| 0 <= i < s1.len() ==> (#[trigger] s1[i]).kind == s2[i].kind,
    ensures
        kind_count(s1, k) == kind_count(s2, k),
    decreases s1.len(),
{
    if s1.len() > 0 {
        let d1 = s1.drop_last();
        let d2 = s2.drop_last();
        assert forall|i: int| 0 <= i < d1.len() implies (#[trigger] d1[i]).kind == d2[i].kind by {
            assert(s1[i] == d1[i] && s2[i] == d2[i]);
        }
        lemma_kind_count_same(d1, d2, k);
        assert(s1 =~= d1.push(s1.last()));
        assert(s2 =~= d2.push(s2.last()));
        lemma_kind_count_push(d1, s1.last(), k);
        lemma_kind_count_push(d2, s2.last(), k);
    }
}

/// Renumbering is idempotent: numbering already numbered findings changes
/// nothing.
pub proof fn law_renumber_idempotent(fs: Seq<FindingView>)
    ensures
        renumbered(renumbered(fs)) == renumbered(fs),
{
    let r = renumbered(fs);
    assert forall|i: int| 0 <= i < fs.len() implies #[trigger] renumbered(r)[i] == r[i] by {
        let p1 = r.subrange(0, i + 1);
        let p0 = fs.subrange(0, i + 1);
        assert forall|j: int| 0 <= j < p1.len() implies (#[trigger] p1[j]).kind == p0[j].kind by {
            assert(p1[j] == r[j]);
            assert(r[j] == renumbered_at(fs, j));
        }
        lemma_kind_count_same(p1, p0, fs[i].kind);
        let n = kind_count(p0, fs[i].kind);
        lemma_bare_of_numbered(bare_label_of(fs[i].label), n);
        assert(r[i] == renumbered_at(fs, i));
        assert(renumbered(r)[i] == renumbered_at(r, i));
        assert(renumbered_at(r, i) =~= r[i]);
    }
    assert(renumbered(r) =~= r);
}

} // verus!

verus! {

/// Pattern of the opening `<gpx>` tag, its attributes captured.
pub open spec fn re_gpx_open() -> Seq<char> {
    "(?is)<gpx\\b([^>]*)>"@
}

/// Pattern of the `<metadata>` element.
pub open spec fn re_metadata() -> Seq<char> {
    "(?is)<metadata\\b.*?</metadata\\s*>"@
}

/// Attributes of the source's `<gpx>` tag, trimmed; none when blank.
pub open spec fn source_attrs_of(raw: Seq<char>) -> Option<Seq<char>> {
    match regex_group1(re_gpx_open(), raw) {
        Some(g) => if trimmed(g).len() > 0 { Some(trimmed(g)) } else { None },
        None => None,
    }
}

/// Error text of a GPX document that cannot be read.
pub open spec fn unreadable_prefix(path: Seq<char>) -> Seq<char> {
    "GPX illisible ("@ + path + "): "@
}

/// Whether the three patterns read from the source compile.
pub open spec fn source_patterns_compile() -> bool {
    regex_compiles(re_gpx_open()) && regex_compiles(re_metadata()) && regex_compiles(far_time_pattern())
}

/// Reason given for a document that `far_time_pattern` leaves out (a time
/// the reader cannot take, or an entity declaration).
pub open spec fn far_time_message() -> Seq<char> {
    "date ou entité non prise en charge"@
}

/// Header of the source GPX `raw` (read from `path`), to be emitted again
/// when it is rewritten: the attributes of `<gpx>`, the `<metadata>`
/// element, the `<name>` of the first track (read by the GPX reader). A
/// document that `far_time_pattern` leaves out is refused as unreadable.
pub fn source_context(raw: &str, path: &str) -> (r: Result<SourceGpxContext, String>)
    ensures
        r matches Ok(c) ==> {
            &&& opt_string_view(c.attrs) == source_attrs_of(raw@)
            &&& opt_string_view(c.meta_xml) == regex_first_match(re_metadata(), raw@)
            &&& gpx_first_track_name(raw@) == Some(opt_string_view(c.trk_name))
        },
        r is Ok <==> (source_patterns_compile() && regex_first_match(far_time_pattern(), raw@) is None
            && gpx_first_track_name(raw@) is Some),
        r matches Err(e) ==> if source_patterns_compile() {
            starts_with(e@, unreadable_prefix(path@))
        } else {
            starts_with(e@, "Motif interne invalide : "@)
        },
        source_patterns_compile() && regex_first_match(far_time_pattern(), raw@) is Some ==> (r matches Err(e)
            && e@ == unreadable_prefix(path@) + far_time_message()),
{
    let group = match regex_capture_group1("(?is)<gpx\\b([^>]*)>", raw) {
        Ok(g) => g,
        Err(e) => return Err(pattern_error(&e)),
    };
    let attrs = match group {
        Some(g) => {
            let cs = chars_of(g.as_str());
            let t = trim_exec(&cs);
            if t.len() > 0 {
                Some(string_of(&t))
            } else {
                None
            }
        },
        None => None,
    };
    let meta_xml = match regex_find("(?is)<metadata\\b.*?</metadata\\s*>", raw) {
        Ok(m) => m,
        Err(e) => return Err(pattern_error(&e)),
    };
    match far_time_in(raw) {
        Ok(false) => {},
        Ok(true) => {
            let mut m = String::from_str("GPX illisible (");
            m.append(path);
            m.append("): ");
            let ghost p = m@;
            m.append("date ou entité non prise en charge");
            assert(m@.subrange(0, p.len() as int) =~= p);
            return Err(m);
        },
        Err(e) => return Err(pattern_error(&e)),
    }
    let trk_name = match gpx_track_name(raw) {
        Ok(n) => n,
        Err(e) => {
            let mut m = String::from_str("GPX illisible (");
            m.append(path);
            m.append("): ");
            let ghost p = m@;
            let t = gpx_error_text(&e);
            m.append(t.as_str());
            assert(m@.subrange(0, p.len() as int) =~= p);
            return Err(m);
        },
    };
    Ok(SourceGpxContext { attrs, meta_xml, trk_name })
}

/// `GPX illisible (path): ` followed by `detail`.
fn unreadable(path: &str, detail: &str) -> (r: String)
    ensures
        r@ == unreadable_prefix(path@) + detail@,
{
    let mut m = String::from_str("GPX illisible (");
    m.append(path);
    m.append("): ");
    m.append(detail);
    m
}

/// The points of the GPX text `raw` (read from `path`) as raw points of the
/// detection: every point of every segment of every track, in file order,
/// with its position as id (cast to `u32`) and without its time. A document
/// the GPX reader cannot read, or that `far_time_pattern` leaves out, is
/// refused as unreadable.
pub fn raw_points(raw: &str, path: &str) -> (r: Result<Vec<AuditPoint>, String>)
    ensures
        r is Ok <==> (regex_compiles(far_time_pattern()) && regex_first_match(far_time_pattern(), raw@) is None
            && gpx_read(raw@) is Some),
        r matches Ok(v) ==> v@.len() == gpx_track_points(raw@)->0.len() && forall|i: int|
            0 <= i < v@.len() ==> #[trigger] v@[i] == (AuditPoint {
                id: i as u32,
                lat: gpx_track_points(raw@)->0[i].lat,
                lon: gpx_track_points(raw@)->0[i].lon,
                ele: gpx_track_points(raw@)->0[i].ele,
            }),
        r matches Err(e) ==> if regex_compiles(far_time_pattern()) {
            starts_with(e@, unreadable_prefix(path@))
        } else {
            starts_with(e@, "Motif interne invalide : "@)
        },
{
    match far_time_in(raw) {
        Ok(false) => {},
        Ok(true) => {
            let m = unreadable(path, "date ou entité non prise en charge");
            assert(m@.subrange(0, unreadable_prefix(path@).len() as int) =~= unreadable_prefix(path@));
            return Err(m);
        },
        Err(e) => return Err(pattern_error(&e)),
    }
    let pts = match gpx_points(raw) {
        Ok(p) => p,
        Err(e) => {
            let t = gpx_error_text(&e);
            let m = unreadable(path, t.as_str());
            assert(m@.subrange(0, unreadable_prefix(path@).len() as int) =~= unreadable_prefix(path@));
            return Err(m);
        },
    };
    let ghost tp = gpx_track_points(raw@)->0;
    let mut out: Vec<AuditPoint> = Vec::new();
    let mut i: usize = 0;
    while i < pts.len()
        invariant
            0 <= i <= pts@.len(),
            tp == pts@.map_values(|p: crate::cleaning::GpxPoint| crate::patterns::track_point_view(p)),
            out@.len() == i,
            forall|k: int| 0 <= k < i ==> #[trigger] out@[k] == (AuditPoint {
                id: k as u32,
                lat: tp[k].lat,
                lon: tp[k].lon,
                ele: tp[k].ele,
            }),
        decreases pts.len() - i,
    {
        let p = &pts[i];
        let id: u32 = i as u32;
        out.push(AuditPoint { id, lat: p.lat, lon: p.lon, ele: p.ele });
        i = i + 1;
    }
    Ok(out)
}

/// Error text of a trace too short after consolidation.
pub open spec fn too_short_message() -> Seq<char> {
    "Trace trop courte après consolidation."@
}

/// The consolidated trace made ready for detection: its points get the
/// stable ids `1..N`; a trace of fewer than `MIN_POINTS` points is refused.
pub fn prepare_trace(kept: Vec<AuditPoint>) -> (r: Result<Vec<AuditPoint>, String>)
    requires
        kept@.len() <= u32::MAX,
    ensures
        kept@.len() < MIN_POINTS ==> (r matches Err(e) && e@ == too_short_message()),
        kept@.len() >= MIN_POINTS ==> (r matches Ok(p) && p@.len() == kept@.len() && forall|i: int|
            0 <= i < kept@.len() ==> (#[trigger] p@[i]) == (AuditPoint { id: (i + 1) as u32, ..kept@[i] })),
{
    let mut points = kept;
    number_points(&mut points);
    if points.len() < MIN_POINTS {
        return Err(String::from_str("Trace trop courte après consolidation."));
    }
    Ok(points)
}

} // verus!
