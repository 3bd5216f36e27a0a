//! File layout of a mode, audit archive, registry migration, keyframe files.

use visugps2::archive::{archive_matches, archive_path, ARCHIVE_VERSION};
use visugps2::edition::{keyframe_files, keyframes_file_path, ReferenceViewport};
use visugps2::migration::is_obsolete_cleaning_file;
use visugps2::paths::join_path;

#[test]
fn test_archive_path_follows_trace_folder() {
    let mode_dir = "/tmp/vg2_mode";
    assert_eq!(archive_path(mode_dir, "abc"), "/tmp/vg2_mode/traces/abc/audit.json");
}

#[test]
fn archive_taken_back_only_for_its_trace_and_version() {
    assert!(archive_matches(ARCHIVE_VERSION, "abc", "abc"));
    assert!(!archive_matches(ARCHIVE_VERSION + 1, "abc", "abc"));
    assert!(!archive_matches(ARCHIVE_VERSION, "abd", "abc"));
}

#[test]
fn joining_paths() {
    assert_eq!(join_path("/a", "b"), "/a/b");
    assert_eq!(join_path("/a/", "b"), "/a/b");
    assert_eq!(join_path("", "b"), "b");
    assert_eq!(join_path("/a", "/b"), "/b");
}

#[test]
fn keyframe_file_paths() {
    assert_eq!(keyframes_file_path("/m", "t1", "raw_keyframes"), "/m/keyframes/t1_raw_keyframes.json");
    assert_eq!(
        keyframe_files("/m", "t1"),
        vec![
            "/m/keyframes/t1_raw_keyframes.json".to_string(),
            "/m/keyframes/t1_montage_overrides.json".to_string(),
            "/m/keyframes/t1_final_keyframes.json".to_string(),
        ]
    );
    let v = ReferenceViewport { width: 1920, height: 1080 };
    assert_eq!((v.width, v.height), (1920, 1080));
}

#[test]
fn obsolete_cleaning_files() {
    assert!(is_obsolete_cleaning_file("cleaning.json"));
    assert!(is_obsolete_cleaning_file("cleaning.spike.json"));
    assert!(is_obsolete_cleaning_file("cleaning.roundabout.decisions.json"));
    assert!(!is_obsolete_cleaning_file("audit.json"));
    assert!(!is_obsolete_cleaning_file("cleaning.spike.json.tmp"));
    assert!(!is_obsolete_cleaning_file("trace.gpx"));
}
