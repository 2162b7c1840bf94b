use activity_tracker::keymap::{KeyMap, Slot};
use activity_tracker::log::{AppData, DailyLog, TICK_SECONDS};
use activity_tracker::rank::rank;
use activity_tracker::report::{markdown_report, rank_apps, rank_categories, rank_counts, report_lines, tally_categories};

fn s(x: &str) -> String {
    x.to_string()
}

fn entries(m: &KeyMap<u64>) -> Vec<(String, u64)> {
    m.entries().clone()
}

#[test]
fn keymap_keeps_key_order() {
    let mut m: KeyMap<u64> = KeyMap::new();
    m.add(s("b"), 2);
    m.add(s("a"), 1);
    m.add(s("c"), 3);
    m.add(s("b"), 10);
    assert_eq!(entries(&m), vec![(s("a"), 1), (s("b"), 12), (s("c"), 3)]);
    assert_eq!(m.count_of("b"), 12);
    assert_eq!(m.count_of("z"), 0);
    assert_eq!(m.slot("b"), Slot::Found(1));
    assert_eq!(m.slot("bb"), Slot::Vacant(2));
    assert_eq!(m.slot(""), Slot::Vacant(0));
    m.set(s("a"), 7);
    assert_eq!(m.count_of("a"), 7);
    assert_eq!(m.len(), 3);
}

#[test]
fn keymap_orders_by_code_point() {
    let mut m: KeyMap<u64> = KeyMap::new();
    m.add(s("é"), 1);
    m.add(s("z"), 1);
    m.add(s("Z"), 1);
    m.add(s("za"), 1);
    let keys: Vec<String> = m.entries().iter().map(|e| e.0.clone()).collect();
    assert_eq!(keys, vec![s("Z"), s("z"), s("za"), s("é")]);
}

#[test]
fn record_accumulates_every_counter() {
    let mut log = DailyLog::new(s("2024-03-01"));
    log.record(s("09"), s("firefox"), s("Docs"), TICK_SECONDS);
    log.record(s("09"), s("firefox"), s("Docs"), TICK_SECONDS);
    log.record(s("10"), s("firefox"), s("Mail"), TICK_SECONDS);
    log.record(s("10"), s("kitty"), s("zsh"), TICK_SECONDS);
    assert_eq!(log.date, "2024-03-01");
    assert_eq!(log.total_seconds, 20);
    assert_eq!(entries(&log.hourly), vec![(s("09"), 10), (s("10"), 10)]);
    assert_eq!(log.apps.len(), 2);
    let (name, ff) = log.apps.entry(0);
    assert_eq!(name, "firefox");
    assert_eq!(ff.total_seconds, 15);
    assert_eq!(entries(&ff.titles), vec![(s("Docs"), 10), (s("Mail"), 5)]);
    let (name, k) = log.apps.entry(1);
    assert_eq!(name, "kitty");
    assert_eq!(k.total_seconds, 5);
}

#[test]
fn record_refuses_nothing_that_fits() {
    let mut log = DailyLog::new(s("d"));
    assert!(log.fits("00", "a", "t", u64::MAX));
    log.record(s("00"), s("a"), s("t"), u64::MAX - 1);
    assert!(log.fits("00", "a", "t", 1));
    assert!(!log.fits("00", "a", "t", 2));
    assert!(!log.fits("01", "b", "u", 2));
}

#[test]
fn ranking_by_count_then_name() {
    let items = vec![(s("a"), 5), (s("b"), 9), (s("c"), 5), (s("d"), 0)];
    assert_eq!(rank(items), vec![(s("b"), 9), (s("a"), 5), (s("c"), 5), (s("d"), 0)]);
    assert_eq!(rank(vec![]), vec![]);
}

fn sample_log() -> DailyLog {
    let mut log = DailyLog::new(s("2024-03-01"));
    log.record(s("09"), s("kitty"), s("zsh"), 30);
    log.record(s("09"), s("firefox"), s("Docs | Home"), 120);
    log.record(s("10"), s("code"), s("main.rs"), 3600);
    log.record(s("10"), s("firefox"), s("Mail"), 30);
    log
}

#[test]
fn rankings_of_a_log() {
    let log = sample_log();
    assert_eq!(rank_apps(&log), vec![(s("code"), 3600), (s("firefox"), 150), (s("kitty"), 30)]);
    let cats = rank_categories(&log);
    assert_eq!(
        cats,
        vec![
            (s("💻 Coding & Development"), 3600),
            (s("🌐 Browser & Web"), 150),
            (s("⚡ Terminal & CLI"), 30),
        ]
    );
    let t = tally_categories(&log).unwrap();
    let sum: u64 = t.entries().iter().map(|e| e.1).sum();
    assert_eq!(sum, log.total_seconds);
    let (_, ff) = log.apps.entry(1);
    assert_eq!(rank_counts(&ff.titles), vec![(s("Docs | Home"), 120), (s("Mail"), 30)]);
}

#[test]
fn categories_that_overflow_are_refused() {
    let mut log = DailyLog::new(s("d"));
    log.record(s("00"), s("firefox"), s("t"), u64::MAX - 1);
    log.apps.set(s("chrome"), AppData { total_seconds: 2, titles: KeyMap::new() });
    assert!(tally_categories(&log).is_none());
}

#[test]
fn report_of_an_empty_day() {
    let log = DailyLog::new(s("2024-01-01"));
    let text = markdown_report("2024-01-01", &log, &vec![], &vec![]);
    let expected = [
        "# 📅 Rekapan Aktivitas PC (2024-01-01)\n",
        "> **Tanggal Laporan:** `2024-01-01`  ",
        "> **Total Waktu Aktif:** `0d`  ",
        "> **Aplikasi Utama:** `Tidak Ada`\n",
        "---\n## 📊 Ringkasan Kategori Aktivitas\n",
        "| Kategori | Durasi | Persentase | Visual Ratio |",
        "| :--- | :---: | :---: | :--- |",
        "\n---\n## 🏆 Peringkat Penggunaan Aplikasi\n",
        "| No | Aplikasi | Durasi | Proporsi | Status |",
        "| :-: | :--- | :---: | :---: | :--- |",
        "\n---\n## 📑 Rincian Judul & Aktivitas Spesifik\n",
        "\n---\n*Laporan dibuat secara otomatis oleh Pure Rust Activity Tracker.*",
    ]
    .join("\n");
    assert_eq!(text, expected);
}

#[test]
fn report_of_a_day() {
    let log = sample_log();
    let cat_cells = vec![
        (s("94.3"), s("██████████████░")),
        (s("3.9"), s("█░░░░░░░░░░░░░░")),
        (s("0.8"), s("░░░░░░░░░░░░░░░")),
    ];
    let app_cells = vec![
        (s("94.3"), s("█████████░")),
        (s("3.9"), s("░░░░░░░░░░")),
        (s("0.8"), s("░░░░░░░░░░")),
    ];
    let lines = report_lines("2024-03-01", &log, &cat_cells, &app_cells);
    let expected: Vec<&str> = vec![
        "# 📅 Rekapan Aktivitas PC (2024-03-01)\n",
        "> **Tanggal Laporan:** `2024-03-01`  ",
        "> **Total Waktu Aktif:** `1j 3m`  ",
        "> **Aplikasi Utama:** `code` (`1j 0m`)\n",
        "---\n## 📊 Ringkasan Kategori Aktivitas\n",
        "| Kategori | Durasi | Persentase | Visual Ratio |",
        "| :--- | :---: | :---: | :--- |",
        "| **💻 Coding & Development** | `1j 0m` | `94.3%` | `██████████████░` |",
        "| **🌐 Browser & Web** | `2m 30d` | `3.9%` | `█░░░░░░░░░░░░░░` |",
        "| **⚡ Terminal & CLI** | `30d` | `0.8%` | `░░░░░░░░░░░░░░░` |",
        "\n---\n## 🏆 Peringkat Penggunaan Aplikasi\n",
        "| No | Aplikasi | Durasi | Proporsi | Status |",
        "| :-: | :--- | :---: | :---: | :--- |",
        "| 1 | **code** | `1j 0m` | `94.3%` | `█████████░` |",
        "| 2 | **firefox** | `2m 30d` | `3.9%` | `░░░░░░░░░░` |",
        "| 3 | **kitty** | `30d` | `0.8%` | `░░░░░░░░░░` |",
        "\n---\n## 📑 Rincian Judul & Aktivitas Spesifik\n",
        "### 🔹 code (`1j 0m`)\n",
        "| Aktivitas / Window Title | Durasi |",
        "| :--- | :---: |",
        "| `main.rs` | `1j 0m` |",
        "",
        "### 🔹 firefox (`2m 30d`)\n",
        "| Aktivitas / Window Title | Durasi |",
        "| :--- | :---: |",
        "| `Docs \\| Home` | `2m 0d` |",
        "| `Mail` | `30d` |",
        "",
        "### 🔹 kitty (`30d`)\n",
        "| Aktivitas / Window Title | Durasi |",
        "| :--- | :---: |",
        "| `zsh` | `30d` |",
        "",
        "\n---\n*Laporan dibuat secara otomatis oleh Pure Rust Activity Tracker.*",
    ];
    assert_eq!(lines, expected);
    let text = markdown_report("2024-03-01", &log, &cat_cells, &app_cells);
    assert_eq!(text, expected.join("\n"));
}

#[test]
fn report_lists_at_most_fifteen_titles() {
    let mut log = DailyLog::new(s("d"));
    for i in 0..20u64 {
        log.record(s("00"), s("app"), format!("t{:02}", i), i + 1);
    }
    let cats = rank_categories(&log);
    let cells: Vec<(String, String)> = cats.iter().map(|_| (s("0"), s(""))).collect();
    let lines = report_lines("d", &log, &cells, &vec![(s("0"), s(""))]);
    let rows: Vec<&String> = lines.iter().filter(|l| l.starts_with("| `t")).collect();
    assert_eq!(rows.len(), 15);
    assert_eq!(rows[0], "| `t19` | `20d` |");
    assert_eq!(rows[14], "| `t05` | `6d` |");
}

fn snapshot(log: &DailyLog) -> (u64, Vec<(String, u64)>, Vec<(String, u64, Vec<(String, u64)>)>) {
    let apps = log
        .apps
        .entries()
        .iter()
        .map(|(k, a)| (k.clone(), a.total_seconds, entries(&a.titles)))
        .collect();
    (log.total_seconds, entries(&log.hourly), apps)
}

#[test]
fn records_in_either_order_agree() {
    let mut a = DailyLog::new(s("d"));
    a.record(s("08"), s("x"), s("one"), 5);
    a.record(s("09"), s("y"), s("two"), 7);
    let mut b = DailyLog::new(s("d"));
    b.record(s("09"), s("y"), s("two"), 7);
    b.record(s("08"), s("x"), s("one"), 5);
    assert_eq!(snapshot(&a), snapshot(&b));
}

#[test]
fn recorded_totals_agree() {
    let log = sample_log();
    let hours: u64 = log.hourly.entries().iter().map(|e| e.1).sum();
    let apps: u64 = log.apps.entries().iter().map(|e| e.1.total_seconds).sum();
    assert_eq!(hours, log.total_seconds);
    assert_eq!(apps, log.total_seconds);
    for (_, a) in log.apps.entries() {
        let titles: u64 = a.titles.entries().iter().map(|e| e.1).sum();
        assert_eq!(titles, a.total_seconds);
    }
}

#[test]
fn count_after_add() {
    let mut m: KeyMap<u64> = KeyMap::new();
    m.add(s("k"), 3);
    m.add(s("j"), 1);
    m.add(s("k"), 4);
    assert_eq!(m.count_of("k"), 7);
    assert_eq!(m.count_of("j"), 1);
}
