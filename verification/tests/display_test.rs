//! Choice of the screen of the second window.

use visugps2::display::{find_monitor_by_criteria, MonitorPlace};

fn screen(x: i32, y: i32, is_builtin: bool) -> MonitorPlace {
    MonitorPlace { position: (x, y), is_builtin }
}

#[test]
fn choosing_a_screen_by_criterion() {
    let screens = vec![screen(1920, 0, false), screen(0, 0, true), screen(-1280, 0, false)];
    assert_eq!(find_monitor_by_criteria(&screens, "origin"), Some(1));
    assert_eq!(find_monitor_by_criteria(&screens, "other"), Some(0));
    assert_eq!(find_monitor_by_criteria(&screens, "builtin"), Some(1));
    assert_eq!(find_monitor_by_criteria(&screens, "external"), Some(0));
    assert_eq!(find_monitor_by_criteria(&screens, "left"), None);
    assert_eq!(find_monitor_by_criteria(&vec![screen(0, 0, true)], "other"), None);
    assert_eq!(find_monitor_by_criteria(&vec![], "origin"), None);
}
