use sunbird::helper::{country_flag, format_duration, strip_spacer_prefix};

#[test]
fn durations() {
    assert_eq!(format_duration(0), "1 h");
    assert_eq!(format_duration(3599), "1 h");
    assert_eq!(format_duration(3600), "2 h");
    assert_eq!(format_duration(23 * 3600), "0 h");
    assert_eq!(format_duration(86400 + 2 * 3600), "1 d, 3 h");
    assert_eq!(format_duration(9 * 86400), "1 w, 2 d, 1 h");
    assert_eq!(format_duration(53 * 7 * 86400 + 5 * 3600), "1 y, 1 w, 6 h");
    assert_eq!(format_duration(-5 * 3600), "-4 h");
    assert_eq!(format_duration(9_223_372_036_854_775), "293274701 y, 3 d, 8 h");
}

#[test]
fn spacer_names() {
    assert_eq!(strip_spacer_prefix("[spacer]  Games"), "Games");
    assert_eq!(strip_spacer_prefix("[cspacer]\u{a0}\tCentered"), "Centered");
    assert_eq!(strip_spacer_prefix("[spacer]---"), "---");
    assert_eq!(strip_spacer_prefix("[spacer]"), "");
    assert_eq!(strip_spacer_prefix("Lobby [spacer]"), "Lobby [spacer]");
    assert_eq!(strip_spacer_prefix("[rspacer] x"), "[rspacer] x");
    assert_eq!(strip_spacer_prefix(" [spacer]x"), " [spacer]x");
}

#[test]
fn country_flags() {
    assert_eq!(country_flag("de"), "\u{1f1e9}\u{1f1ea}");
    assert_eq!(country_flag("US"), "\u{1f1fa}\u{1f1f8}");
    assert_eq!(country_flag(""), "");
    assert_eq!(country_flag("\u{f0e5b}"), "\u{f0e5b}");
}
