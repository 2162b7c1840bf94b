use activity_tracker::routes::{parse_command, requested_date, route_request, Command, Route};
use activity_tracker::window::{active_window_from, instance_signature_index, runtime_dir_for, shorten_title, user_id_from};

fn s(x: &str) -> String {
    x.to_string()
}

#[test]
fn window_identity_trims_and_defaults() {
    assert_eq!(active_window_from(Some(s("  kitty ")), Some(s(" zsh  "))), (s("kitty"), s("zsh")));
    assert_eq!(active_window_from(Some(s("firefox")), None), (s("firefox"), s("firefox")));
    assert_eq!(active_window_from(Some(s(" firefox ")), None), (s("firefox"), s("firefox")));
    assert_eq!(active_window_from(Some(s("   ")), Some(s("x"))), (s("Desktop / Idle"), s("Desktop")));
    assert_eq!(active_window_from(None, Some(s("x"))), (s("Desktop / Idle"), s("Desktop")));
}

#[test]
fn long_titles_are_cut() {
    let long = "a".repeat(130);
    let expected = format!("{}...", "a".repeat(117));
    assert_eq!(shorten_title(&long), expected);
    assert_eq!(active_window_from(Some(s("c")), Some(long.clone())).1, expected);
    let exact = "b".repeat(120);
    assert_eq!(shorten_title(&exact), exact);
    // Two-byte characters: 117 bytes end on a boundary when 1 + 58 * 2 = 117.
    let mixed = format!("x{}", "é".repeat(70));
    assert_eq!(shorten_title(&mixed), format!("x{}...", "é".repeat(58)));
    // A title whose cut leaves trailing spaces is trimmed after cutting.
    let spaced = format!("{}{}", "a".repeat(116), " ".repeat(10));
    assert_eq!(active_window_from(Some(s("c")), Some(spaced)).1, format!("{} ...", "a".repeat(116)));
}

#[test]
fn user_ids() {
    assert_eq!(user_id_from(Some(s("1001\n"))), "1001");
    assert_eq!(user_id_from(Some(s("  \n"))), "1000");
    assert_eq!(user_id_from(None), "1000");
    assert_eq!(runtime_dir_for("1001"), "/run/user/1001");
}

#[test]
fn instance_signatures() {
    let names = vec![s("abc"), s("v0_123_456"), s("x_y")];
    assert_eq!(instance_signature_index(&names), Some(1));
    assert_eq!(instance_signature_index(&vec![s("abc")]), None);
    assert_eq!(instance_signature_index(&vec![]), None);
}

#[test]
fn routes() {
    match route_request("/api/activity?date=2024-01-02&x=1") {
        Route::Activity(d) => assert_eq!(d, Some(s("2024-01-02"))),
        _ => panic!("wrong route"),
    }
    match route_request("/api/activity") {
        Route::Activity(d) => assert_eq!(d, None),
        _ => panic!("wrong route"),
    }
    match route_request("/api/open_md?date=") {
        Route::OpenReport(d) => assert_eq!(d, None),
        _ => panic!("wrong route"),
    }
    match route_request("/api/open_md?x=1&date=2024-05-05") {
        Route::OpenReport(d) => assert_eq!(d, Some(s("2024-05-05"))),
        _ => panic!("wrong route"),
    }
    assert!(matches!(route_request("/chart.umd.js"), Route::ChartScript));
    assert!(matches!(route_request("/chart.umd.js?v=2"), Route::Page));
    assert!(matches!(route_request("/"), Route::Page));
    assert!(matches!(route_request("/index.html"), Route::Page));
}

#[test]
fn date_parameters() {
    assert_eq!(requested_date("/x?date=a&date=b"), Some(s("a")));
    assert_eq!(requested_date("/x?mydate=q"), Some(s("q")));
    assert_eq!(requested_date("/x?date=&y"), None);
    assert_eq!(requested_date("/x"), None);
}

#[test]
fn commands() {
    assert!(matches!(parse_command(&vec![s("gui"), s("--daemon")]), Command::Daemon));
    match parse_command(&vec![s("gui"), s("--generate-md"), s("2024-01-01")]) {
        Command::GenerateReport(d) => assert_eq!(d, Some(s("2024-01-01"))),
        _ => panic!("wrong command"),
    }
    match parse_command(&vec![s("gui"), s("--generate-md")]) {
        Command::GenerateReport(d) => assert_eq!(d, None),
        _ => panic!("wrong command"),
    }
    assert!(matches!(parse_command(&vec![s("gui")]), Command::Dashboard));
    assert!(matches!(parse_command(&vec![s("gui"), s("--other")]), Command::Dashboard));
}

#[test]
fn shortened_titles_fit_in_120_bytes() {
    for n in [0usize, 50, 120, 121, 200] {
        assert!(shorten_title(&"q".repeat(n)).len() <= 120);
    }
    assert!(shorten_title(&format!("x{}", "é".repeat(100))).len() <= 120);
}

#[test]
fn recorded_titles_are_trimmed_and_short() {
    let long = format!("  {}   ", "w ".repeat(100));
    let (app, title) = active_window_from(Some(s(" app ")), Some(long));
    assert_eq!(app, "app");
    assert_eq!(title, title.trim());
    assert!(title.len() <= 120);
}
