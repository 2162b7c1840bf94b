use activity_tracker::category::{categorize_app, categorize_lowered};
use activity_tracker::duration::format_duration;
use activity_tracker::report::progress_bar;
use activity_tracker::text::{contains_str, decimal_string, escape_pipes_str, starts_with_str, str_equal, trim_str};

#[test]
fn duration_under_a_minute() {
    assert_eq!(format_duration(0), "0d");
    assert_eq!(format_duration(5), "5d");
    assert_eq!(format_duration(59), "59d");
}

#[test]
fn duration_under_an_hour() {
    assert_eq!(format_duration(60), "1m 0d");
    assert_eq!(format_duration(125), "2m 5d");
    assert_eq!(format_duration(3599), "59m 59d");
}

#[test]
fn duration_hours_drop_seconds() {
    assert_eq!(format_duration(3600), "1j 0m");
    assert_eq!(format_duration(3725), "1j 2m");
    assert_eq!(format_duration(90061), "25j 1m");
    assert_eq!(format_duration(u64::MAX), format!("{}j {}m", u64::MAX / 3600, (u64::MAX / 60) % 60));
}

#[test]
fn categories_by_keyword() {
    assert_eq!(categorize_app("Firefox"), "🌐 Browser & Web");
    assert_eq!(categorize_app("zen-browser"), "🌐 Browser & Web");
    assert_eq!(categorize_app("code-oss"), "💻 Coding & Development");
    assert_eq!(categorize_app("steam_app_570"), "🎮 Gaming");
    assert_eq!(categorize_app("kitty"), "⚡ Terminal & CLI");
    assert_eq!(categorize_app("Spotify"), "🎨 Media & Productivity");
    assert_eq!(categorize_app("Desktop / Idle"), "💤 Idle / Rest");
    assert_eq!(categorize_app("org.kde.dolphin"), "📦 Aplikasi Lainnya");
    assert_eq!(categorize_app(""), "📦 Aplikasi Lainnya");
}

#[test]
fn categories_first_group_wins() {
    // "game" (gaming) is checked before "code" (coding).
    assert_eq!(categorize_app("GameCode"), "🎮 Gaming");
    // "studio" is a coding keyword, checked before "obs" (media).
    assert_eq!(categorize_app("com.obsproject.Studio"), "💻 Coding & Development");
    assert_eq!(categorize_app("obsidian"), "🎨 Media & Productivity");
}

#[test]
fn categories_of_lowered_names_are_case_sensitive() {
    assert_eq!(categorize_lowered("FIREFOX"), "📦 Aplikasi Lainnya");
    assert_eq!(categorize_lowered("firefox"), "🌐 Browser & Web");
}

#[test]
fn text_helpers() {
    assert_eq!(trim_str("  a b \t\n"), "a b");
    assert_eq!(trim_str("\u{3000}x\u{2003}"), "x");
    assert_eq!(trim_str("   "), "");
    assert_eq!(escape_pipes_str("a|b||c"), "a\\|b\\|\\|c");
    assert_eq!(decimal_string(0), "0");
    assert_eq!(decimal_string(1234567890), "1234567890");
    assert!(contains_str("hyprland_123", "_"));
    assert!(!contains_str("abc", "abcd"));
    assert!(contains_str("abc", ""));
    assert!(starts_with_str("/api/activity?date=1", "/api/activity"));
    assert!(!starts_with_str("/api", "/api/activity"));
    assert!(str_equal("é", "é"));
    assert!(!str_equal("e", "é"));
}

#[test]
fn progress_bars() {
    assert_eq!(progress_bar(3, 5), "███░░");
    assert_eq!(progress_bar(0, 4), "░░░░");
    assert_eq!(progress_bar(10, 5), "█████");
    assert_eq!(progress_bar(0, 0), "");
}

#[test]
fn ascii_names_ignore_case() {
    assert_eq!(categorize_app("Steam"), "🎮 Gaming");
    assert_eq!(categorize_app("STEAM"), categorize_app("steam"));
    assert_eq!(categorize_app("KITTY"), "⚡ Terminal & CLI");
}

#[test]
fn fuller_bars_have_more_full_cells() {
    for len in [0usize, 5, 10, 15] {
        for f in 0..20usize {
            let a = progress_bar(f, len).matches('█').count();
            let b = progress_bar(f + 1, len).matches('█').count();
            assert!(a <= b);
            assert_eq!(a, f.min(len));
            assert_eq!(progress_bar(f, len).chars().count(), len);
        }
    }
}
