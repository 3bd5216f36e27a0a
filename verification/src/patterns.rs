//! Regular-expression services of the `regex` crate, the GPX reader of the
//! `gpx` crate, and the system clock formatted by the `chrono` crate.
//!
//! What a regular expression does to a text is named, not stated: each name
//! below stands for the result of compiling `pattern` with `regex::Regex::new`
//! and applying one operation to `hay`. These results depend on their
//! arguments alone.
use vstd::prelude::*;

use crate::types::opt_string_view;

verus! {

/// Text given by `Regex::replace_all`: every non-overlapping match of
/// `pattern` in `hay` replaced by `rep` (with `$` group expansion).
pub uninterp spec fn regex_replaced_all(pattern: Seq<char>, hay: Seq<char>, rep: Seq<char>) -> Seq<char>;

/// Text given by `Regex::replace`: the first match of `pattern` in `hay`
/// replaced by `rep` (with `$` group expansion).
pub uninterp spec fn regex_replaced_first(pattern: Seq<char>, hay: Seq<char>, rep: Seq<char>) -> Seq<char>;

/// Text of the first capture group of the first match of `pattern` in `hay`
/// (`Regex::captures`, group 1), if any.
pub uninterp spec fn regex_group1(pattern: Seq<char>, hay: Seq<char>) -> Option<Seq<char>>;

/// Text of the first match of `pattern` in `hay` (`Regex::find`), if any.
pub uninterp spec fn regex_first_match(pattern: Seq<char>, hay: Seq<char>) -> Option<Seq<char>>;

/// Whether `regex::Regex::new` accepts `pattern` (with the builder's default
/// limits, which do not vary).
pub uninterp spec fn regex_compiles(pattern: Seq<char>) -> bool;

/// Compile errors of `regex::Regex::new`.
#[verifier::external_type_specification]
#[verifier::external_body]
pub struct ExRegexError(regex::Error);

/// Read errors of `gpx::read`.
#[verifier::external_type_specification]
#[verifier::external_body]
pub struct ExGpxError(gpx::errors::GpxError);

/// `regex::Regex::new(pattern)` then `Regex::replace_all(hay, rep)`. The
/// compiled pattern is only carried from the one call to the other; an error
/// comes from compiling the pattern, and only then.
#[verifier::external_body]
pub(crate) fn regex_replace_all(pattern: &str, hay: &str, rep: &str) -> (r: Result<String, regex::Error>)
    ensures
        r is Ok <==> regex_compiles(pattern@),
        r matches Ok(s) ==> s@ == regex_replaced_all(pattern@, hay@, rep@),
{
    let re = regex::Regex::new(pattern)?;
    Ok(re.replace_all(hay, rep).into_owned())
}

/// `regex::Regex::new(pattern)` then `Regex::replace(hay, rep)` (first match
/// only); an error comes from compiling the pattern, and only then.
#[verifier::external_body]
pub(crate) fn regex_replace_first(pattern: &str, hay: &str, rep: &str) -> (r: Result<String, regex::Error>)
    ensures
        r is Ok <==> regex_compiles(pattern@),
        r matches Ok(s) ==> s@ == regex_replaced_first(pattern@, hay@, rep@),
{
    let re = regex::Regex::new(pattern)?;
    Ok(re.replace(hay, rep).into_owned())
}

/// `regex::Regex::new(pattern)` then `Regex::captures(hay)`, group 1; an
/// error comes from compiling the pattern, and only then.
#[verifier::external_body]
pub(crate) fn regex_capture_group1(pattern: &str, hay: &str) -> (r: Result<Option<String>, regex::Error>)
    ensures
        r is Ok <==> regex_compiles(pattern@),
        r matches Ok(o) ==> regex_group1(pattern@, hay@) == opt_string_view(o),
{
    let re = regex::Regex::new(pattern)?;
    Ok(re.captures(hay).and_then(|c| c.get(1)).map(|m| m.as_str().to_string()))
}

/// `regex::Regex::new(pattern)` then `Regex::find(hay)`; an error comes from
/// compiling the pattern, and only then.
#[verifier::external_body]
pub(crate) fn regex_find(pattern: &str, hay: &str) -> (r: Result<Option<String>, regex::Error>)
    ensures
        r is Ok <==> regex_compiles(pattern@),
        r matches Ok(o) ==> regex_first_match(pattern@, hay@) == opt_string_view(o),
{
    let re = regex::Regex::new(pattern)?;
    Ok(re.find(hay).map(|m| m.as_str().to_string()))
}

/// Message of a compile error (`Display` of `regex::Error`); its text is not
/// stated.
#[verifier::external_body]
pub(crate) fn regex_error_text(e: &regex::Error) -> String {
    e.to_string()
}

/// A point of a track segment as the GPX reader gives it: latitude,
/// longitude and elevation as bit patterns of binary64 values, and the time
/// in ISO 8601 when it has one and it formats.
pub struct TrackPointView {
    pub lat: u64,
    pub lon: u64,
    pub ele: Option<u64>,
    pub time: Option<Seq<char>>,
}

/// What the library reads of a GPX document: the `<name>` of its first
/// track, and the points of all its track segments in file order.
pub struct GpxContent {
    pub first_track_name: Option<Seq<char>>,
    pub points: Seq<TrackPointView>,
}

/// Result of `gpx::read` on the bytes of `raw`, reduced to what the library
/// reads of it: `None` when the document cannot be read.
pub uninterp spec fn gpx_read(raw: Seq<char>) -> Option<GpxContent>;

/// The `<name>` of the first track of the document, when it can be read.
pub open spec fn gpx_first_track_name(raw: Seq<char>) -> Option<Option<Seq<char>>> {
    match gpx_read(raw) {
        Some(c) => Some(c.first_track_name),
        None => None,
    }
}

/// The track points of the document, when it can be read.
pub open spec fn gpx_track_points(raw: Seq<char>) -> Option<Seq<TrackPointView>> {
    match gpx_read(raw) {
        Some(c) => Some(c.points),
        None => None,
    }
}

/// Model of a point handed out by the reader.
pub open spec fn track_point_view(p: crate::cleaning::GpxPoint) -> TrackPointView {
    TrackPointView { lat: p.lat, lon: p.lon, ele: p.ele, time: opt_string_view(p.time) }
}

/// Pattern of what the GPX reader is not given: an entity declaration
/// (`<!ENTITY`, through which an element can be written without its tags
/// appearing in the text), and a `<time>` element (any namespace prefix, any
/// attributes, quoted values read whole) whose text holds a character
/// reference, an entity reference, a comment, a processing instruction or a
/// CDATA section before its first `<`, or opens with a date of 9999-12-30 or
/// -31 (calendar, ordinal or week form, the year also written `+009999`)
/// followed later by a `-` (a negative offset can take it past year 9999),
/// or with a date of -9999-01-01 or -02 followed later by a `+`.
/// Outside such documents, the text of every time the reader reads is the
/// literal text of its element, and its conversion to UTC stays within
/// years -9999 to 9999.
pub open spec fn far_time_pattern() -> Seq<char> {
    "<!ENTITY|<(?:[^\\s<>/]*:)?time(?:\\s(?:[^>\"']|\"[^\"]*\"|'[^']*')*)?>(?:[^<&]*(?:&|<[!?])|(?:9999|\\+009999)-?(?:12-?3[01]|36[45]|W52-?[45])[^<&]*-|-009999-?(?:01-?0[12]|00[12]|W01-?[1-7])[^<&]*\\+)"@
}

/// Whether `far_time_pattern` finds a match in `raw`; the compile error when
/// the pattern does not compile.
pub(crate) fn far_time_in(raw: &str) -> (r: Result<bool, regex::Error>)
    ensures
        r is Ok <==> regex_compiles(far_time_pattern()),
        r matches Ok(b) ==> b == (regex_first_match(far_time_pattern(), raw@) is Some),
{
    match regex_find("<!ENTITY|<(?:[^\\s<>/]*:)?time(?:\\s(?:[^>\"']|\"[^\"]*\"|'[^']*')*)?>(?:[^<&]*(?:&|<[!?])|(?:9999|\\+009999)-?(?:12-?3[01]|36[45]|W52-?[45])[^<&]*-|-009999-?(?:01-?0[12]|00[12]|W01-?[1-7])[^<&]*\\+)", raw) {
        Ok(m) => Ok(m.is_some()),
        Err(e) => Err(e),
    }
}

/// `gpx::read` on the bytes of `raw`, then the name of the first track
/// (`tracks.first()` and its `name`). The reader converts every `<time>` it
/// reads to UTC, which panics outside years -9999 to 9999; the documents
/// where `far_time_pattern` matches, which hold all such times, are left
/// out.
#[verifier::external_body]
pub(crate) fn gpx_track_name(raw: &str) -> (r: Result<Option<String>, gpx::errors::GpxError>)
    requires
        regex_first_match(far_time_pattern(), raw@) is None,
    ensures
        r is Ok <==> gpx_read(raw@) is Some,
        r matches Ok(o) ==> gpx_first_track_name(raw@) == Some(opt_string_view(o)),
{
    let doc = gpx::read(raw.as_bytes())?;
    Ok(doc.tracks.first().and_then(|t| t.name.clone()))
}

/// `gpx::read` on the bytes of `raw`, then every point of every segment of
/// every track, in file order: latitude (`y`), longitude (`x`) and
/// elevation as bit patterns (`f64::to_bits`), and the time formatted by
/// `Time::format` (none when it has none or it does not format). The
/// documents where `far_time_pattern` matches are left out, as for
/// `gpx_track_name`.
#[verifier::external_body]
pub(crate) fn gpx_points(raw: &str) -> (r: Result<Vec<crate::cleaning::GpxPoint>, gpx::errors::GpxError>)
    requires
        regex_first_match(far_time_pattern(), raw@) is None,
    ensures
        r is Ok <==> gpx_read(raw@) is Some,
        r matches Ok(v) ==> gpx_track_points(raw@) == Some(v@.map_values(|p: crate::cleaning::GpxPoint| track_point_view(p))),
{
    let doc = gpx::read(raw.as_bytes())?;
    let segments = doc.tracks.iter().flat_map(|t| t.segments.iter());
    Ok(segments.flat_map(|s| s.points.iter()).map(|w| crate::cleaning::GpxPoint {
        lat: w.point().y().to_bits(),
        lon: w.point().x().to_bits(),
        ele: w.elevation.map(|e| e.to_bits()),
        time: w.time.and_then(|t| t.format().ok()),
    }).collect())
}

/// Message of a read error (`Display` of `gpx::errors::GpxError`); its text
/// is not stated.
#[verifier::external_body]
pub(crate) fn gpx_error_text(e: &gpx::errors::GpxError) -> String {
    e.to_string()
}

/// The system clock (`std::time::SystemTime`).
#[verifier::external_type_specification]
#[verifier::external_body]
pub struct ExSystemTime(std::time::SystemTime);

/// `std::time::SystemTime::now`: the current reading of the system clock,
/// of which nothing is stated.
#[verifier::external_body]
pub(crate) fn system_now() -> std::time::SystemTime {
    std::time::SystemTime::now()
}

/// `SystemTime::duration_since(UNIX_EPOCH)`, `None` when `t` is before the
/// epoch (the error becomes `None`). `t` is opaque: nothing is stated of the
/// duration.
#[verifier::external_body]
pub(crate) fn duration_since_epoch(t: &std::time::SystemTime) -> Option<core::time::Duration> {
    t.duration_since(std::time::UNIX_EPOCH).ok()
}

/// `Duration::as_secs`: the whole seconds of `d`. `d` is opaque: nothing is
/// stated of the number.
#[verifier::external_body]
pub(crate) fn whole_secs(d: &core::time::Duration) -> u64 {
    d.as_secs()
}

/// Seconds since the epoch of 262143-01-01T00:00:00Z: `DateTime::from_timestamp`
/// gives a time for every count of seconds from 0 up to this one, excluded
/// (chrono's last year is 262142).
pub const UTC_SECS_LIMIT: u64 = 8210266876800;

/// Seconds since the epoch of 10000-01-01T00:00:00Z: below, the year has four
/// digits.
pub const FOUR_DIGIT_YEAR_SECS: u64 = 253402300800;

/// A decimal digit.
pub open spec fn is_digit(c: char) -> bool {
    '0' <= c && c <= '9'
}

/// `YYYY-MM-DDTHH:MM:SSZ`.
pub open spec fn is_utc_stamp(s: Seq<char>) -> bool {
    &&& s.len() == 20
    &&& s[4] == '-' && s[7] == '-' && s[10] == 'T' && s[13] == ':' && s[16] == ':' && s[19] == 'Z'
    &&& forall|i: int| 0 <= i < 19 && i != 4 && i != 7 && i != 10 && i != 13 && i != 16 ==> is_digit(#[trigger] s[i])
}

/// Text of `chrono::DateTime::from_timestamp(secs, 0)` (UTC) formatted with
/// `%Y-%m-%dT%H:%M:%SZ`.
pub uninterp spec fn utc_stamp(secs: int) -> Seq<char>;

/// Proleptic Gregorian date `(year, month, day)` of the day `z` counted from
/// 1970-01-01 (`z >= 0`).
pub open spec fn civil_from_days(z: int) -> (int, int, int) {
    let z2 = z + 719468;
    let era = z2 / 146097;
    let doe = z2 - era * 146097;
    let yoe = (doe - doe / 1460 + doe / 36524 - doe / 146096) / 365;
    let doy = doe - (365 * yoe + yoe / 4 - yoe / 100);
    let mp = (5 * doy + 2) / 153;
    let d = doy - (153 * mp + 2) / 5 + 1;
    let m = if mp < 10 { mp + 3 } else { mp - 9 };
    (yoe + era * 400 + (if m <= 2 { 1int } else { 0int }), m, d)
}

/// `n` (below 100) on two digits.
pub open spec fn two_digits(n: int) -> Seq<char> {
    seq![crate::text::digit_char((n / 10) as nat), crate::text::digit_char((n % 10) as nat)]
}

/// `YYYY-MM-DDTHH:MM:SSZ` of `secs` seconds after 1970-01-01T00:00:00Z
/// (years below 10000).
pub open spec fn civil_stamp(secs: int) -> Seq<char> {
    let (y, mo, d) = civil_from_days(secs / 86400);
    let rem = secs % 86400;
    two_digits(y / 100) + two_digits(y % 100) + seq!['-'] + two_digits(mo) + seq!['-'] + two_digits(d)
        + seq!['T'] + two_digits(rem / 3600) + seq![':'] + two_digits(rem % 3600 / 60) + seq![':']
        + two_digits(rem % 60) + seq!['Z']
}

/// `chrono::DateTime::from_timestamp(secs, 0)` formatted with
/// `%Y-%m-%dT%H:%M:%SZ`. `from_timestamp` gives a time for every `secs` of
/// the range required, on the proleptic Gregorian calendar without leap
/// seconds; chrono pads `%Y` to four digits for years 0 to 9999 and the
/// other fields to two.
#[verifier::external_body]
pub(crate) fn utc_text(secs: i64) -> (r: Option<String>)
    requires
        0 <= secs < UTC_SECS_LIMIT,
    ensures
        r is Some,
        r matches Some(s) ==> s@ == utc_stamp(secs as int),
        r matches Some(s) ==> (secs < FOUR_DIGIT_YEAR_SECS ==> s@ == civil_stamp(secs as int)),
{
    chrono::DateTime::from_timestamp(secs, 0).map(|t| t.format("%Y-%m-%dT%H:%M:%SZ").to_string())
}

/// A civil stamp has the `YYYY-MM-DDTHH:MM:SSZ` shape.
proof fn lemma_civil_stamp_shape(secs: int)
    ensures
        is_utc_stamp(civil_stamp(secs)),
{
    let c = civil_stamp(secs);
    assert(c.len() == 20);
    assert forall|i: int| 0 <= i < 19 && i != 4 && i != 7 && i != 10 && i != 13 && i != 16 implies is_digit(#[trigger] c[i]) by {
        assert(forall|n: nat| #[trigger] is_digit(crate::text::digit_char(n)));
    }
}

/// The UTC stamp of a clock reading (seconds since the epoch, `None` before
/// the epoch): none when there is no reading or when it is past chrono's
/// last year.
pub open spec fn stamp_of(reading: Option<u64>) -> Option<Seq<char>> {
    match reading {
        Some(x) => if x < UTC_SECS_LIMIT { Some(utc_stamp(x as int)) } else { None },
        None => None,
    }
}

/// Optional text as an optional character sequence.
pub open spec fn opt_text(o: Option<String>) -> Option<Seq<char>> {
    match o {
        Some(s) => Some(s@),
        None => None,
    }
}

/// The UTC stamp `YYYY-MM-DDTHH:MM:SSZ` of a clock reading.
pub fn utc_stamp_of(reading: Option<u64>) -> (r: Option<String>)
    ensures
        opt_text(r) == stamp_of(reading),
        (reading matches Some(x) && x < FOUR_DIGIT_YEAR_SECS) ==> (r matches Some(s) && s@ == civil_stamp(
            reading->0 as int,
        ) && is_utc_stamp(s@)),
{
    match reading {
        Some(x) => if x < UTC_SECS_LIMIT {
            proof {
                lemma_civil_stamp_shape(x as int);
            }
            utc_text(x as i64)
        } else {
            None
        },
        None => None,
    }
}

/// The system clock read in whole seconds since the epoch; `None` when it
/// reads before the epoch.
pub(crate) fn clock_reading() -> Option<u64> {
    let t = system_now();
    match duration_since_epoch(&t) {
        Some(d) => Some(whole_secs(&d)),
        None => None,
    }
}

/// Error text of a system clock that cannot be read as a date.
pub open spec fn clock_error() -> Seq<char> {
    "Horloge système illisible."@
}

} // verus!

