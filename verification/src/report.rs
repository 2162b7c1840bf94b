use vstd::prelude::*;
use vstd::utf8::is_ascii_chars;
use crate::category::{app_category, categorize_app, category_label, ascii_lower};
use crate::duration::{duration_text, format_duration};
use crate::keymap::{KeyMap, Slot, count_in, as_map, keys_ordered, sum_by, sum_counts, lemma_key_index, key_index,
    has_key};
use crate::log::{AppData, DailyLog, app_seconds};
use crate::rank::{Tallied, map_ranking, rank, tallied_view, lemma_map_ranking, lemma_ordered_distinct,
    ranked_strictly, map_has_entry, ranks_before};
use crate::text::{decimal, escape_pipes, trim, push_str_chars, push_decimal, escape_pipes_str,
    trim_str, push_char, lemma_chars_less_irreflexive};

verus! {

// ---------------------------------------------------------------------------
// Rankings of a day's log
// ---------------------------------------------------------------------------

/// Each application's total seconds, by application name.
pub open spec fn app_totals(apps: Seq<(Seq<char>, AppData)>) -> Map<Seq<char>, u64> {
    as_map(apps).map_values(|a: AppData| a.total_seconds)
}

/// The applications' totals in ranking order.
pub fn rank_apps(log: &DailyLog) -> (r: Vec<(String, u64)>)
    ensures
        tallied_view(r@) == map_ranking(app_totals(log.apps@)),
        ranked_strictly(tallied_view(r@)),
        forall|x: Tallied| tallied_view(r@).contains(x) <==> map_has_entry(app_totals(log.apps@), x),
{
    let entries = log.apps.entries();
    let ghost apps = log.apps@;
    let mut items: Vec<(String, u64)> = Vec::new();
    let mut i: usize = 0;
    while i < entries.len()
        invariant
            i <= entries@.len(),
            apps == entries@.map_values(|e: (String, AppData)| (e.0@, e.1)),
            keys_ordered(apps),
            tallied_view(items@) == apps.take(i as int).map_values(
                |e: (Seq<char>, AppData)| (e.0, e.1.total_seconds),
            ),
        decreases entries@.len() - i,
    {
        let e = &entries[i];
        assert(apps[i as int] == (e.0@, e.1));
        let name = e.0.clone();
        let ghost before = tallied_view(items@);
        items.push((name, e.1.total_seconds));
        assert(tallied_view(items@) =~= before.push((e.0@, e.1.total_seconds)));
        assert(apps.take(i + 1) == apps.take(i as int).push(apps[i as int]));
        assert(tallied_view(items@) =~= apps.take(i + 1).map_values(
            |e: (Seq<char>, AppData)| (e.0, e.1.total_seconds),
        ));
        i += 1;
    }
    let ghost s = tallied_view(items@);
    proof {
        assert(apps.take(apps.len() as int) == apps);
        assert forall|a: int, b: int| 0 <= a < b < s.len() implies crate::text::chars_less(#[trigger] s[a].0, #[trigger] s[b].0) by {
            assert(s[a].0 == apps[a].0 && s[b].0 == apps[b].0);
        }
        lemma_ordered_distinct(s);
    }
    let r = rank(items);
    proof {
        lemma_map_ranking(tallied_view(r@), s);
        assert forall|k: Seq<char>| #[trigger] as_map(s).dom().contains(k) == app_totals(apps).dom().contains(k) by {
            if has_key(s, k) {
                let j = choose|j: int| 0 <= j < s.len() && #[trigger] s[j].0 == k;
                assert(apps[j].0 == k);
            }
            if has_key(apps, k) {
                let j = choose|j: int| 0 <= j < apps.len() && #[trigger] apps[j].0 == k;
                assert(s[j].0 == k);
            }
        }
        assert forall|k: Seq<char>| #[trigger] as_map(s).dom().contains(k) implies as_map(s)[k] == app_totals(apps)[k] by {
            let j = key_index(s, k);
            lemma_key_index(s, j);
            lemma_key_index(apps, j);
        }
        assert(as_map(s) =~= app_totals(apps));
    }
    r
}

/// The counts of `m` (kept in key order) in ranking order.
pub fn rank_counts(m: &KeyMap<u64>) -> (r: Vec<(String, u64)>)
    ensures
        tallied_view(r@) == map_ranking(m.map()),
        ranked_strictly(tallied_view(r@)),
        forall|x: Tallied| tallied_view(r@).contains(x) <==> map_has_entry(m.map(), x),
{
    let entries = m.entries();
    let mut items: Vec<(String, u64)> = Vec::new();
    let mut i: usize = 0;
    while i < entries.len()
        invariant
            i <= entries@.len(),
            tallied_view(entries@) == m@,
            tallied_view(items@) == m@.take(i as int),
        decreases entries@.len() - i,
    {
        let name = entries[i].0.clone();
        let ghost before = tallied_view(items@);
        items.push((name, entries[i].1));
        assert(tallied_view(items@) =~= before.push(m@[i as int]));
        assert(m@.take(i + 1) == m@.take(i as int).push(m@[i as int]));
        i += 1;
    }
    proof {
        assert(m@.take(m@.len() as int) == m@);
        lemma_ordered_distinct(m@);
    }
    let r = rank(items);
    proof {
        lemma_map_ranking(tallied_view(r@), m@);
    }
    r
}

// ---------------------------------------------------------------------------
// Categories
// ---------------------------------------------------------------------------

/// The seconds of the applications of `apps` whose category is `label`.
pub open spec fn category_sum(apps: Seq<(Seq<char>, AppData)>, label: Seq<char>) -> int
    decreases apps.len(),
{
    if apps.len() == 0 {
        0
    } else {
        category_sum(apps.drop_last(), label) + if app_category(apps.last().0) == label {
            apps.last().1.total_seconds as int
        } else {
            0
        }
    }
}

/// Some application of `apps` has the category `label`.
pub open spec fn has_category(apps: Seq<(Seq<char>, AppData)>, label: Seq<char>) -> bool {
    exists|i: int| 0 <= i < apps.len() && #[trigger] app_category(apps[i].0) == label
}

/// The seconds per category of the applications `apps`.
pub open spec fn category_totals(apps: Seq<(Seq<char>, AppData)>) -> Map<Seq<char>, u64> {
    Map::new(|l: Seq<char>| has_category(apps, l), |l: Seq<char>| category_sum(apps, l) as u64)
}

/// No category's seconds pass `u64::MAX`.
pub open spec fn categories_fit(apps: Seq<(Seq<char>, AppData)>) -> bool {
    forall|l: Seq<char>| #[trigger] category_sum(apps, l) <= u64::MAX
}

proof fn lemma_category_sum_prefix(apps: Seq<(Seq<char>, AppData)>, i: int, l: Seq<char>)
    requires
        0 <= i <= apps.len(),
    ensures
        0 <= category_sum(apps.take(i), l) <= category_sum(apps, l),
    decreases apps.len(),
{
    if i == apps.len() {
        assert(apps.take(i) == apps);
        if apps.len() > 0 {
            lemma_category_sum_prefix(apps.drop_last(), i - 1, l);
            assert(apps.drop_last().take(i - 1) == apps.drop_last());
        }
    } else {
        lemma_category_sum_prefix(apps.drop_last(), i, l);
        assert(apps.drop_last().take(i) == apps.take(i));
    }
}

proof fn lemma_category_sum_absent(apps: Seq<(Seq<char>, AppData)>, l: Seq<char>)
    requires
        !has_category(apps, l),
    ensures
        category_sum(apps, l) == 0,
    decreases apps.len(),
{
    if apps.len() > 0 {
        let d = apps.drop_last();
        assert(!has_category(d, l)) by {
            if has_category(d, l) {
                let j = choose|j: int| 0 <= j < d.len() && #[trigger] app_category(d[j].0) == l;
                assert(apps[j] == d[j]);
            }
        }
        assert(app_category(apps[apps.len() - 1].0) != l);
        lemma_category_sum_absent(d, l);
    }
}

/// The seconds per category of the day's applications, or `None` where some
/// category's seconds pass `u64::MAX`. Summed over the categories they give
/// the sum over the applications.
pub fn tally_categories(log: &DailyLog) -> (r: Option<KeyMap<u64>>)
    ensures
        r.is_some() == categories_fit(log.apps@),
        r matches Some(t) ==> t.map() == category_totals(log.apps@),
        r matches Some(t) ==> sum_counts(t@) == sum_by(log.apps@, |a: AppData| app_seconds(a)),
        r is Some ==> forall|i: int|
            0 <= i < log.apps@.len() && is_ascii_chars(#[trigger] log.apps@[i].0) ==> app_category(
                log.apps@[i].0,
            ) == category_label(ascii_lower(log.apps@[i].0)),
{
    let entries = log.apps.entries();
    let ghost apps = log.apps@;
    let mut t: KeyMap<u64> = KeyMap::new();
    proof {
        assert(apps.take(0) =~= Seq::<(Seq<char>, AppData)>::empty());
        assert(sum_counts(t@) == 0);
        assert(sum_by(apps.take(0), |a: AppData| app_seconds(a)) == 0);
        assert forall|l: Seq<char>| #[trigger] category_sum(apps.take(0), l) == count_in(t.map(), l) by {}
    }
    let mut i: usize = 0;
    while i < entries.len()
        invariant
            i <= entries@.len(),
            apps == entries@.map_values(|e: (String, AppData)| (e.0@, e.1)),
            apps == log.apps@,
            forall|l: Seq<char>| t.map().dom().contains(l) == has_category(apps.take(i as int), l),
            forall|l: Seq<char>| #[trigger] category_sum(apps.take(i as int), l) == count_in(t.map(), l),
            sum_counts(t@) == sum_by(apps.take(i as int), |a: AppData| app_seconds(a)),
            forall|j: int|
                0 <= j < i && is_ascii_chars(#[trigger] apps[j].0) ==> app_category(apps[j].0)
                    == category_label(ascii_lower(apps[j].0)),
        decreases entries@.len() - i,
    {
        let e = &entries[i];
        assert(apps[i as int] == (e.0@, e.1));
        let label = categorize_app(e.0.as_str());
        let mut key = String::new();
        push_str_chars(&mut key, label);
        assert(key@ == app_category(apps[i as int].0));
        let ghost prev = apps.take(i as int);
        let ghost next = apps.take(i + 1);
        assert(next.drop_last() == prev);
        assert(next.last() == apps[i as int]);
        assert(category_sum(next, key@) == category_sum(prev, key@) + e.1.total_seconds);
        let cur = t.count_of(key.as_str());
        if cur > u64::MAX - e.1.total_seconds {
            proof {
                assert(category_sum(prev, key@) == count_in(t.map(), key@));
                lemma_category_sum_prefix(apps, i + 1, key@);
                assert(category_sum(apps, key@) > u64::MAX);
            }
            return None;
        }
        let ghost tm = t.map();
        t.add(key, e.1.total_seconds);
        proof {
            assert forall|l: Seq<char>| #[trigger] has_category(next, l) == (has_category(prev, l) || l == key@) by {
                if has_category(next, l) {
                    let j = choose|j: int| 0 <= j < next.len() && #[trigger] app_category(next[j].0) == l;
                    if j < i {
                        assert(prev[j] == next[j]);
                    }
                }
                if has_category(prev, l) {
                    let j = choose|j: int| 0 <= j < prev.len() && #[trigger] app_category(prev[j].0) == l;
                    assert(prev[j] == next[j]);
                }
                assert(app_category(next[i as int].0) == key@);
            }
            assert forall|l: Seq<char>| t.map().dom().contains(l) == has_category(next, l) by {
                assert(has_category(next, l) == (has_category(prev, l) || l == key@));
            }
            assert forall|l: Seq<char>| #[trigger] category_sum(next, l) == count_in(t.map(), l) by {
                assert(next.drop_last() == prev);
                assert(category_sum(prev, l) == count_in(tm, l));
                if l != key@ {
                    assert(category_sum(next, l) == category_sum(prev, l));
                }
            }
        }
        i += 1;
    }
    proof {
        assert(apps.take(apps.len() as int) == apps);
        assert forall|l: Seq<char>| #[trigger] category_sum(apps, l) <= u64::MAX by {
            assert(category_sum(apps.take(apps.len() as int), l) == count_in(t.map(), l));
        }
        assert forall|l: Seq<char>| #[trigger] t.map().dom().contains(l) implies t.map()[l] == category_totals(apps)[l] by {
            assert(category_sum(apps.take(apps.len() as int), l) == count_in(t.map(), l));
        }
        assert forall|l: Seq<char>| #[trigger] t.map().dom().contains(l) == category_totals(apps).dom().contains(l) by {
        }
        assert(t.map() =~= category_totals(apps));
    }
    Some(t)
}

/// The categories' seconds in ranking order.
pub fn rank_categories(log: &DailyLog) -> (r: Vec<(String, u64)>)
    requires
        categories_fit(log.apps@),
    ensures
        tallied_view(r@) == map_ranking(category_totals(log.apps@)),
        ranked_strictly(tallied_view(r@)),
        forall|x: Tallied| tallied_view(r@).contains(x) <==> map_has_entry(category_totals(log.apps@), x),
{
    let t = tally_categories(log).unwrap();
    rank_counts(&t)
}

// ---------------------------------------------------------------------------
// Progress bars
// ---------------------------------------------------------------------------

/// A bar of `len` cells, the first `filled` of them (at most `len`) full.
pub open spec fn bar_text(filled: nat, len: nat) -> Seq<char> {
    let f = if filled < len { filled } else { len };
    Seq::new(f, |i: int| '█') + Seq::new((len - f) as nat, |i: int| '░')
}

/// The number of times `c` occurs in `s`.
pub open spec fn occurrences(s: Seq<char>, c: char) -> nat
    decreases s.len(),
{
    if s.len() == 0 {
        0
    } else {
        occurrences(s.drop_last(), c) + if s.last() == c {
            1nat
        } else {
            0nat
        }
    }
}

proof fn lemma_occurrences_concat(a: Seq<char>, b: Seq<char>, c: char)
    ensures
        occurrences(a + b, c) == occurrences(a, c) + occurrences(b, c),
    decreases b.len(),
{
    if b.len() == 0 {
        assert(a + b == a);
    } else {
        lemma_occurrences_concat(a, b.drop_last(), c);
        assert((a + b).drop_last() == a + b.drop_last());
    }
}

proof fn lemma_occurrences_repeat(n: nat, d: char, c: char)
    ensures
        occurrences(Seq::new(n, |i: int| d), c) == if d == c { n } else { 0 },
    decreases n,
{
    if n > 0 {
        lemma_occurrences_repeat((n - 1) as nat, d, c);
        assert(Seq::new(n, |i: int| d).drop_last() =~= Seq::new((n - 1) as nat, |i: int| d));
    }
}

/// A bar has `len` cells; its full cells are its first `min(filled, len)`
/// ones, and there are that many of them.
pub proof fn lemma_bar_cells(filled: nat, len: nat)
    ensures
        bar_text(filled, len).len() == len,
        forall|i: int| 0 <= i < len ==> (#[trigger] bar_text(filled, len)[i] == '█') == (i < filled),
        occurrences(bar_text(filled, len), '█') == if filled < len { filled } else { len },
{
    let f = if filled < len { filled } else { len };
    let full = Seq::new(f, |i: int| '█');
    let empty = Seq::new((len - f) as nat, |i: int| '░');
    assert(bar_text(filled, len) == full + empty);
    assert forall|i: int| 0 <= i < len implies (#[trigger] bar_text(filled, len)[i] == '█') == (i < filled) by {
        if i < f {
            assert((full + empty)[i] == full[i]);
        } else {
            assert((full + empty)[i] == empty[i - f]);
        }
    }
    lemma_occurrences_concat(full, empty, '█');
    lemma_occurrences_repeat(f, '█', '█');
    lemma_occurrences_repeat((len - f) as nat, '░', '█');
}

/// More fill never gives fewer full cells: every cell full in the bar of
/// `f1` is full in the bar of `f2 >= f1`, and it has at least as many.
pub proof fn lemma_bar_monotone(f1: nat, f2: nat, len: nat)
    requires
        f1 <= f2,
    ensures
        forall|i: int| 0 <= i < len && bar_text(f1, len)[i] == '█' ==> #[trigger] bar_text(f2, len)[i] == '█',
        occurrences(bar_text(f1, len), '█') <= occurrences(bar_text(f2, len), '█'),
{
    lemma_bar_cells(f1, len);
    lemma_bar_cells(f2, len);
}

/// A bar of `len` cells with `filled` of them full, as `bar_text` describes.
pub fn progress_bar(filled: usize, len: usize) -> (r: String)
    ensures
        r@ == bar_text(filled as nat, len as nat),
{
    let f = if filled < len { filled } else { len };
    let ghost full = Seq::new(f as nat, |i: int| '█');
    let ghost empty = Seq::new((len - f) as nat, |i: int| '░');
    assert(bar_text(filled as nat, len as nat) == full + empty);
    let mut r = String::new();
    let mut i: usize = 0;
    while i < len
        invariant
            f <= len,
            i <= len,
            bar_text(filled as nat, len as nat) == full + empty,
            full == Seq::new(f as nat, |i: int| '█'),
            empty == Seq::new((len - f) as nat, |i: int| '░'),
            r@ == bar_text(filled as nat, len as nat).take(i as int),
        decreases len - i,
    {
        let c = if i < f { '█' } else { '░' };
        assert((full + empty)[i as int] == c) by {
            if i < f {
                assert(full[i as int] == c);
            } else {
                assert(empty[i - f] == c);
            }
        }
        push_char(&mut r, c);
        assert(bar_text(filled as nat, len as nat).take(i + 1) == bar_text(filled as nat, len as nat).take(i as int).push(c));
        i += 1;
    }
    assert(bar_text(filled as nat, len as nat).take(len as int) == bar_text(filled as nat, len as nat));
    r
}

} // verus!

verus! {

// ---------------------------------------------------------------------------
// The Markdown report
// ---------------------------------------------------------------------------

/// The characters of each line.
pub open spec fn lines_view(v: Seq<String>) -> Seq<Seq<char>> {
    v.map_values(|s: String| s@)
}

/// The text of each cell pair: the percentage (as the number to print before
/// `%`) and the progress bar of a row.
pub open spec fn cells_view(v: Seq<(String, String)>) -> Seq<(Seq<char>, Seq<char>)> {
    v.map_values(|c: (String, String)| (c.0@, c.1@))
}

/// How the most used application is named in the summary.
pub open spec fn most_used_text(apps_ranked: Seq<Tallied>) -> Seq<char> {
    if apps_ranked.len() > 0 {
        "`"@ + apps_ranked[0].0 + "` (`"@ + duration_text(apps_ranked[0].1 as nat) + "`)"@
    } else {
        "`Tidak Ada`"@
    }
}

/// The title, the summary and the head of the category table.
pub open spec fn summary_lines(date: Seq<char>, total: u64, apps_ranked: Seq<Tallied>) -> Seq<Seq<char>> {
    seq![
        "# 📅 Rekapan Aktivitas PC ("@ + date + ")\n"@,
        "> **Tanggal Laporan:** `"@ + date + "`  "@,
        "> **Total Waktu Aktif:** `"@ + duration_text(total as nat) + "`  "@,
        "> **Aplikasi Utama:** "@ + most_used_text(apps_ranked) + "\n"@,
        "---\n## 📊 Ringkasan Kategori Aktivitas\n"@,
        "| Kategori | Durasi | Persentase | Visual Ratio |"@,
        "| :--- | :---: | :---: | :--- |"@,
    ]
}

/// A row of the category table.
pub open spec fn category_row(c: Tallied, cell: (Seq<char>, Seq<char>)) -> Seq<char> {
    "| **"@ + c.0 + "** | `"@ + duration_text(c.1 as nat) + "` | `"@ + cell.0 + "%` | `"@ + cell.1
        + "` |"@
}

/// The head of the application ranking.
pub open spec fn ranking_head() -> Seq<Seq<char>> {
    seq![
        "\n---\n## 🏆 Peringkat Penggunaan Aplikasi\n"@,
        "| No | Aplikasi | Durasi | Proporsi | Status |"@,
        "| :-: | :--- | :---: | :---: | :--- |"@,
    ]
}

/// The row of the application ranked `place` (counting from 1).
pub open spec fn app_row(place: nat, a: Tallied, cell: (Seq<char>, Seq<char>)) -> Seq<char> {
    "| "@ + decimal(place) + " | **"@ + a.0 + "** | `"@ + duration_text(a.1 as nat) + "` | `"@
        + cell.0 + "%` | `"@ + cell.1 + "` |"@
}

/// The head of the per-application details.
pub open spec fn details_head() -> Seq<Seq<char>> {
    seq!["\n---\n## 📑 Rincian Judul & Aktivitas Spesifik\n"@]
}

/// The row of one window title: the title with `|` escaped and trimmed.
pub open spec fn title_row(t: Tallied) -> Seq<char> {
    "| `"@ + trim(escape_pipes(t.0)) + "` | `"@ + duration_text(t.1 as nat) + "` |"@
}

/// The most titles an application's details list.
pub open spec fn titles_shown() -> nat {
    15
}

/// The first `titles_shown()` elements of `s` (all of them where there are fewer).
pub open spec fn shown(s: Seq<Tallied>) -> Seq<Tallied> {
    if s.len() <= titles_shown() {
        s
    } else {
        s.take(titles_shown() as int)
    }
}

/// The details of one application: its heading, the head of its title table,
/// a row for each of its first titles in ranking order, and an empty line.
pub open spec fn app_section(a: Tallied, titles_ranked: Seq<Tallied>) -> Seq<Seq<char>> {
    seq![
        "### 🔹 "@ + a.0 + " (`"@ + duration_text(a.1 as nat) + "`)\n"@,
        "| Aktivitas / Window Title | Durasi |"@,
        "| :--- | :---: |"@,
    ] + shown(titles_ranked).map_values(|t: Tallied| title_row(t)) + seq![Seq::<char>::empty()]
}

/// The details of the applications `apps_ranked`, whose records are `apps`.
pub open spec fn app_sections(apps_ranked: Seq<Tallied>, apps: Map<Seq<char>, AppData>) -> Seq<Seq<char>>
    decreases apps_ranked.len(),
{
    if apps_ranked.len() == 0 {
        Seq::empty()
    } else {
        app_sections(apps_ranked.drop_last(), apps) + app_section(
            apps_ranked.last(),
            map_ranking(apps[apps_ranked.last().0].titles.map()),
        )
    }
}

/// The closing line.
pub open spec fn footer_lines() -> Seq<Seq<char>> {
    seq!["\n---\n*Laporan dibuat secara otomatis oleh Pure Rust Activity Tracker.*"@]
}

/// The lines of the day's report, given the percentage and bar texts of the
/// category rows and of the application rows, in ranking order.
pub open spec fn report_spec(
    date: Seq<char>,
    log: DailyLog,
    category_cells: Seq<(Seq<char>, Seq<char>)>,
    app_cells: Seq<(Seq<char>, Seq<char>)>,
) -> Seq<Seq<char>> {
    let ar = map_ranking(app_totals(log.apps@));
    let cr = map_ranking(category_totals(log.apps@));
    summary_lines(date, log.total_seconds, ar) + Seq::new(
        cr.len(),
        |i: int| category_row(cr[i], category_cells[i]),
    ) + ranking_head() + Seq::new(ar.len(), |i: int| app_row((i + 1) as nat, ar[i], app_cells[i]))
        + details_head() + app_sections(ar, as_map(log.apps@)) + footer_lines()
}

/// Appends a line.
fn push_line(lines: &mut Vec<String>, s: String)
    ensures
        lines_view(final(lines)@) == lines_view(old(lines)@).push(s@),
{
    let ghost before = lines_view(lines@);
    let ghost sv = s@;
    lines.push(s);
    assert(lines_view(lines@) =~= before.push(sv));
}

/// Appends lines.
fn push_lines(lines: &mut Vec<String>, more: Vec<String>)
    ensures
        lines_view(final(lines)@) == lines_view(old(lines)@) + lines_view(more@),
{
    let mut more = more;
    let ghost m = more@;
    lines.append(&mut more);
    assert(lines_view(lines@) =~= lines_view(old(lines)@) + lines_view(m));
}

/// `a` followed by `b` followed by `c`.
fn concat3(a: &str, b: &str, c: &str) -> (r: String)
    ensures
        r@ == a@ + b@ + c@,
{
    let mut r = String::new();
    push_str_chars(&mut r, a);
    push_str_chars(&mut r, b);
    push_str_chars(&mut r, c);
    assert(r@ =~= a@ + b@ + c@);
    r
}

/// The text naming the most used application.
fn most_used(apps_ranked: &Vec<(String, u64)>) -> (r: String)
    ensures
        r@ == most_used_text(tallied_view(apps_ranked@)),
{
    if apps_ranked.len() > 0 {
        let first = &apps_ranked[0];
        let d = format_duration(first.1);
        let mut r = concat3("`", first.0.as_str(), "` (`");
        push_str_chars(&mut r, d.as_str());
        push_str_chars(&mut r, "`)");
        assert(tallied_view(apps_ranked@)[0] == (first.0@, first.1));
        r
    } else {
        let mut r = String::new();
        push_str_chars(&mut r, "`Tidak Ada`");
        assert(r@ =~= "`Tidak Ada`"@);
        r
    }
}

/// The title, the summary and the head of the category table.
fn summary(date: &str, total: u64, apps_ranked: &Vec<(String, u64)>) -> (v: Vec<String>)
    ensures
        lines_view(v@) == summary_lines(date@, total, tallied_view(apps_ranked@)),
{
    let mut v: Vec<String> = Vec::new();
    push_line(&mut v, concat3("# 📅 Rekapan Aktivitas PC (", date, ")\n"));
    push_line(&mut v, concat3("> **Tanggal Laporan:** `", date, "`  "));
    let d = format_duration(total);
    push_line(&mut v, concat3("> **Total Waktu Aktif:** `", d.as_str(), "`  "));
    let m = most_used(apps_ranked);
    push_line(&mut v, concat3("> **Aplikasi Utama:** ", m.as_str(), "\n"));
    push_line(&mut v, concat3("---\n## 📊 Ringkasan Kategori Aktivitas\n", "", ""));
    push_line(&mut v, concat3("| Kategori | Durasi | Persentase | Visual Ratio |", "", ""));
    push_line(&mut v, concat3("| :--- | :---: | :---: | :--- |", "", ""));
    proof {
        reveal_strlit("");
    }
    assert(lines_view(v@) =~= summary_lines(date@, total, tallied_view(apps_ranked@)));
    v
}

/// A row of the category table.
fn category_row_text(c: &(String, u64), cell: &(String, String)) -> (r: String)
    ensures
        r@ == category_row((c.0@, c.1), (cell.0@, cell.1@)),
{
    let d = format_duration(c.1);
    let mut r = concat3("| **", c.0.as_str(), "** | `");
    push_str_chars(&mut r, d.as_str());
    push_str_chars(&mut r, "` | `");
    push_str_chars(&mut r, cell.0.as_str());
    push_str_chars(&mut r, "%` | `");
    push_str_chars(&mut r, cell.1.as_str());
    push_str_chars(&mut r, "` |");
    r
}

/// The rows of the category table.
fn category_rows(cats: &Vec<(String, u64)>, cells: &Vec<(String, String)>) -> (v: Vec<String>)
    requires
        cells@.len() == cats@.len(),
    ensures
        lines_view(v@) == Seq::new(
            cats@.len(),
            |i: int| category_row(tallied_view(cats@)[i], cells_view(cells@)[i]),
        ),
{
    let ghost want = Seq::new(
        cats@.len(),
        |i: int| category_row(tallied_view(cats@)[i], cells_view(cells@)[i]),
    );
    let mut v: Vec<String> = Vec::new();
    let mut i: usize = 0;
    while i < cats.len()
        invariant
            i <= cats@.len(),
            cells@.len() == cats@.len(),
            want == Seq::new(
                cats@.len(),
                |i: int| category_row(tallied_view(cats@)[i], cells_view(cells@)[i]),
            ),
            lines_view(v@) == want.take(i as int),
        decreases cats@.len() - i,
    {
        push_line(&mut v, category_row_text(&cats[i], &cells[i]));
        assert(want.take(i + 1) == want.take(i as int).push(want[i as int]));
        i += 1;
    }
    assert(want.take(cats@.len() as int) == want);
    v
}

/// The row of the application ranked `place`.
fn app_row_text(place: u64, a: &(String, u64), cell: &(String, String)) -> (r: String)
    ensures
        r@ == app_row(place as nat, (a.0@, a.1), (cell.0@, cell.1@)),
{
    let d = format_duration(a.1);
    let mut r = String::new();
    push_str_chars(&mut r, "| ");
    push_decimal(&mut r, place);
    push_str_chars(&mut r, " | **");
    push_str_chars(&mut r, a.0.as_str());
    push_str_chars(&mut r, "** | `");
    push_str_chars(&mut r, d.as_str());
    push_str_chars(&mut r, "` | `");
    push_str_chars(&mut r, cell.0.as_str());
    push_str_chars(&mut r, "%` | `");
    push_str_chars(&mut r, cell.1.as_str());
    push_str_chars(&mut r, "` |");
    assert(r@ =~= app_row(place as nat, (a.0@, a.1), (cell.0@, cell.1@)));
    r
}

/// The rows of the application ranking.
fn app_rows(apps: &Vec<(String, u64)>, cells: &Vec<(String, String)>) -> (v: Vec<String>)
    requires
        cells@.len() == apps@.len(),
    ensures
        lines_view(v@) == Seq::new(
            apps@.len(),
            |i: int| app_row((i + 1) as nat, tallied_view(apps@)[i], cells_view(cells@)[i]),
        ),
{
    let ghost want = Seq::new(
        apps@.len(),
        |i: int| app_row((i + 1) as nat, tallied_view(apps@)[i], cells_view(cells@)[i]),
    );
    let mut v: Vec<String> = Vec::new();
    let mut i: usize = 0;
    while i < apps.len()
        invariant
            i <= apps@.len(),
            cells@.len() == apps@.len(),
            want == Seq::new(
                apps@.len(),
                |i: int| app_row((i + 1) as nat, tallied_view(apps@)[i], cells_view(cells@)[i]),
            ),
            lines_view(v@) == want.take(i as int),
        decreases apps@.len() - i,
    {
        let place = (i as u64) + 1;
        push_line(&mut v, app_row_text(place, &apps[i], &cells[i]));
        assert(want.take(i + 1) == want.take(i as int).push(want[i as int]));
        i += 1;
    }
    assert(want.take(apps@.len() as int) == want);
    v
}

/// The row of one window title.
fn title_row_text(t: &(String, u64)) -> (r: String)
    ensures
        r@ == title_row((t.0@, t.1)),
{
    let escaped = escape_pipes_str(t.0.as_str());
    let cleaned = trim_str(escaped.as_str());
    let d = format_duration(t.1);
    let mut r = concat3("| `", cleaned.as_str(), "` | `");
    push_str_chars(&mut r, d.as_str());
    push_str_chars(&mut r, "` |");
    r
}

/// The details of one application, whose record is `data`.
fn app_section_lines(a: &(String, u64), data: &AppData) -> (v: Vec<String>)
    ensures
        lines_view(v@) == app_section((a.0@, a.1), map_ranking(data.titles.map())),
{
    let titles = rank_counts(&data.titles);
    let ghost tv = tallied_view(titles@);
    let mut v: Vec<String> = Vec::new();
    let d = format_duration(a.1);
    let mut head = concat3("### 🔹 ", a.0.as_str(), " (`");
    push_str_chars(&mut head, d.as_str());
    push_str_chars(&mut head, "`)\n");
    push_line(&mut v, head);
    push_line(&mut v, concat3("| Aktivitas / Window Title | Durasi |", "", ""));
    push_line(&mut v, concat3("| :--- | :---: |", "", ""));
    proof {
        reveal_strlit("");
    }
    let ghost head_lines = lines_view(v@);
    assert(head_lines =~= seq![
        "### 🔹 "@ + a.0@ + " (`"@ + duration_text(a.1 as nat) + "`)\n"@,
        "| Aktivitas / Window Title | Durasi |"@,
        "| :--- | :---: |"@,
    ]);
    let n: usize = if titles.len() < 15 { titles.len() } else { 15 };
    let ghost rows = shown(tv).map_values(|t: Tallied| title_row(t));
    assert(shown(tv).len() == n);
    let mut i: usize = 0;
    while i < n
        invariant
            i <= n <= titles@.len(),
            tv == tallied_view(titles@),
            shown(tv).len() == n,
            n <= titles_shown(),
            rows == shown(tv).map_values(|t: Tallied| title_row(t)),
            lines_view(v@) == head_lines + rows.take(i as int),
        decreases n - i,
    {
        push_line(&mut v, title_row_text(&titles[i]));
        assert(shown(tv)[i as int] == tv[i as int]);
        assert(rows.take(i + 1) == rows.take(i as int).push(rows[i as int]));
        i += 1;
    }
    assert(rows.take(n as int) == rows);
    push_line(&mut v, String::new());
    assert(lines_view(v@) =~= app_section((a.0@, a.1), map_ranking(data.titles.map())));
    v
}

/// The details of the ranked applications `apps_ranked` of `log`.
fn app_sections_lines(apps_ranked: &Vec<(String, u64)>, log: &DailyLog) -> (v: Vec<String>)
    requires
        forall|x: Tallied| tallied_view(apps_ranked@).contains(x) ==> map_has_entry(app_totals(log.apps@), x),
    ensures
        lines_view(v@) == app_sections(tallied_view(apps_ranked@), as_map(log.apps@)),
{
    let ghost ar = tallied_view(apps_ranked@);
    let ghost apps = log.apps@;
    let mut v: Vec<String> = Vec::new();
    let mut i: usize = 0;
    assert(ar.take(0) =~= Seq::<Tallied>::empty());
    while i < apps_ranked.len()
        invariant
            i <= apps_ranked@.len(),
            ar == tallied_view(apps_ranked@),
            apps == log.apps@,
            forall|x: Tallied| ar.contains(x) ==> map_has_entry(app_totals(apps), x),
            lines_view(v@) == app_sections(ar.take(i as int), as_map(apps)),
        decreases apps_ranked@.len() - i,
    {
        let a = &apps_ranked[i];
        assert(ar[i as int] == (a.0@, a.1));
        assert(ar.contains(ar[i as int]));
        assert(as_map(apps).dom().contains(a.0@));
        match log.apps.slot(a.0.as_str()) {
            Slot::Found(j) => {
                let (_, data) = log.apps.entry(j);
                proof {
                    lemma_key_index(apps, j as int);
                }
                let section = app_section_lines(a, data);
                push_lines(&mut v, section);
                assert(ar.take(i + 1).drop_last() == ar.take(i as int));
                assert(ar.take(i + 1).last() == ar[i as int]);
            },
            Slot::Vacant(_) => {
                proof {
                    let k = key_index(apps, a.0@);
                    assert(apps[k].0 == a.0@);
                    lemma_chars_less_irreflexive(a.0@);
                    assert(false);
                }
            },
        }
        i += 1;
    }
    assert(ar.take(apps_ranked@.len() as int) == ar);
    v
}

/// The lines of the day's report for `date`, given the percentage and bar
/// texts of the category rows and of the application rows (in ranking order),
/// as `report_spec` lays them out.
pub fn report_lines(
    date: &str,
    log: &DailyLog,
    category_cells: &Vec<(String, String)>,
    app_cells: &Vec<(String, String)>,
) -> (lines: Vec<String>)
    requires
        categories_fit(log.apps@),
        category_cells@.len() == map_ranking(category_totals(log.apps@)).len(),
        app_cells@.len() == map_ranking(app_totals(log.apps@)).len(),
    ensures
        lines_view(lines@) == report_spec(date@, *log, cells_view(category_cells@), cells_view(app_cells@)),
{
    let ar = rank_apps(log);
    let cr = rank_categories(log);
    let mut lines = summary(date, log.total_seconds, &ar);
    push_lines(&mut lines, category_rows(&cr, category_cells));
    let mut head: Vec<String> = Vec::new();
    push_line(&mut head, concat3("\n---\n## 🏆 Peringkat Penggunaan Aplikasi\n", "", ""));
    push_line(&mut head, concat3("| No | Aplikasi | Durasi | Proporsi | Status |", "", ""));
    push_line(&mut head, concat3("| :-: | :--- | :---: | :---: | :--- |", "", ""));
    proof {
        reveal_strlit("");
    }
    assert(lines_view(head@) =~= ranking_head());
    push_lines(&mut lines, head);
    push_lines(&mut lines, app_rows(&ar, app_cells));
    push_line(&mut lines, concat3("\n---\n## 📑 Rincian Judul & Aktivitas Spesifik\n", "", ""));
    push_lines(&mut lines, app_sections_lines(&ar, log));
    push_line(&mut lines, concat3("\n---\n*Laporan dibuat secara otomatis oleh Pure Rust Activity Tracker.*", "", ""));
    assert(lines_view(lines@) =~= report_spec(date@, *log, cells_view(category_cells@), cells_view(app_cells@)));
    lines
}

/// The lines `ls` joined by line breaks (`[String]::join("\n")`).
pub open spec fn joined(ls: Seq<Seq<char>>) -> Seq<char>
    decreases ls.len(),
{
    if ls.len() == 0 {
        Seq::empty()
    } else if ls.len() == 1 {
        ls[0]
    } else {
        joined(ls.drop_last()).push('\n') + ls.last()
    }
}

/// The lines joined by line breaks.
pub fn join_lines(lines: &Vec<String>) -> (r: String)
    ensures
        r@ == joined(lines_view(lines@)),
{
    let ghost lv = lines_view(lines@);
    let mut r = String::new();
    let mut i: usize = 0;
    while i < lines.len()
        invariant
            i <= lines@.len(),
            lv == lines_view(lines@),
            r@ == joined(lv.take(i as int)),
        decreases lines@.len() - i,
    {
        if i > 0 {
            push_char(&mut r, '\n');
        }
        push_str_chars(&mut r, lines[i].as_str());
        assert(lv.take(i + 1).drop_last() == lv.take(i as int));
        assert(lv.take(i + 1).last() == lv[i as int]);
        if i == 0 {
            assert(lv.take(1)[0] == lv[0]);
            assert(joined(lv.take(0)) == Seq::<char>::empty());
            assert(r@ =~= lv[0]);
        }
        i += 1;
    }
    assert(lv.take(lines@.len() as int) == lv);
    r
}

/// The day's report as Markdown text: `report_spec`'s lines joined by line breaks.
pub fn markdown_report(
    date: &str,
    log: &DailyLog,
    category_cells: &Vec<(String, String)>,
    app_cells: &Vec<(String, String)>,
) -> (r: String)
    requires
        categories_fit(log.apps@),
        category_cells@.len() == map_ranking(category_totals(log.apps@)).len(),
        app_cells@.len() == map_ranking(app_totals(log.apps@)).len(),
    ensures
        r@ == joined(report_spec(date@, *log, cells_view(category_cells@), cells_view(app_cells@))),
{
    let lines = report_lines(date, log, category_cells, app_cells);
    join_lines(&lines)
}

// ---------------------------------------------------------------------------
// Laws of the report
// ---------------------------------------------------------------------------

/// The applications' totals, one entry per application, in key order.
pub open spec fn app_pairs(apps: Seq<(Seq<char>, AppData)>) -> Seq<Tallied> {
    apps.map_values(|e: (Seq<char>, AppData)| (e.0, e.1.total_seconds))
}

proof fn lemma_app_pairs(apps: Seq<(Seq<char>, AppData)>)
    requires
        keys_ordered(apps),
    ensures
        keys_ordered(app_pairs(apps)),
        as_map(app_pairs(apps)) == app_totals(apps),
{
    let s = app_pairs(apps);
    assert forall|a: int, b: int| 0 <= a < b < s.len() implies crate::text::chars_less(#[trigger] s[a].0, #[trigger] s[b].0) by {
        assert(s[a].0 == apps[a].0 && s[b].0 == apps[b].0);
    }
    assert forall|k: Seq<char>| #[trigger] as_map(s).dom().contains(k) == app_totals(apps).dom().contains(k) by {
        if has_key(s, k) {
            let j = choose|j: int| 0 <= j < s.len() && #[trigger] s[j].0 == k;
            assert(apps[j].0 == k);
        }
        if has_key(apps, k) {
            let j = choose|j: int| 0 <= j < apps.len() && #[trigger] apps[j].0 == k;
            assert(s[j].0 == k);
        }
    }
    assert forall|k: Seq<char>| #[trigger] as_map(s).dom().contains(k) implies as_map(s)[k] == app_totals(apps)[k] by {
        let j = key_index(s, k);
        lemma_key_index(s, j);
        lemma_key_index(apps, j);
    }
    assert(as_map(s) =~= app_totals(apps));
}

/// The ranking of the applications orders exactly the applications and their
/// totals: by seconds, largest first, equal ones by name.
pub proof fn lemma_app_ranking(apps: Seq<(Seq<char>, AppData)>)
    requires
        keys_ordered(apps),
    ensures
        ranked_strictly(map_ranking(app_totals(apps))),
        forall|x: Tallied| map_ranking(app_totals(apps)).contains(x) <==> map_has_entry(app_totals(apps), x),
{
    lemma_app_pairs(apps);
    lemma_ordered_distinct(app_pairs(apps));
    let r = crate::rank::lemma_ranking_exists(app_pairs(apps));
    lemma_map_ranking(r, app_pairs(apps));
}

/// The summary names the most used application: an application of the day
/// whose seconds no other application exceeds, with its time.
pub proof fn lemma_summary_names_most_used(
    date: Seq<char>,
    log: DailyLog,
    category_cells: Seq<(Seq<char>, Seq<char>)>,
    app_cells: Seq<(Seq<char>, Seq<char>)>,
)
    requires
        keys_ordered(log.apps@),
        log.apps@.len() > 0,
    ensures
        exists|name: Seq<char>, secs: u64|
            {
                &&& report_spec(date, log, category_cells, app_cells)[3] == "> **Aplikasi Utama:** "@
                    + "`"@ + name + "` (`"@ + duration_text(secs as nat) + "`)"@ + "\n"@
                &&& map_has_entry(app_totals(log.apps@), (name, secs))
                &&& forall|y: Tallied| #[trigger] map_has_entry(app_totals(log.apps@), y) ==> y.1 <= secs
            },
{
    let apps = log.apps@;
    let m = app_totals(apps);
    let ar = map_ranking(m);
    let cr = map_ranking(category_totals(apps));
    lemma_app_ranking(apps);
    lemma_key_index(apps, 0);
    assert(map_has_entry(m, (apps[0].0, apps[0].1.total_seconds)));
    assert(ar.contains((apps[0].0, apps[0].1.total_seconds)));
    assert(ar.len() > 0);
    let top = ar[0];
    assert(ar.contains(top));
    assert forall|y: Tallied| #[trigger] map_has_entry(m, y) implies y.1 <= top.1 by {
        assert(ar.contains(y));
        let k = choose|k: int| 0 <= k < ar.len() && #[trigger] ar[k] == y;
        if k > 0 {
            assert(ranks_before(ar[0], ar[k]));
        }
    }
    let summary = summary_lines(date, log.total_seconds, ar);
    let rest1 = Seq::new(cr.len(), |i: int| category_row(cr[i], category_cells[i]));
    let rest2 = Seq::new(ar.len(), |i: int| app_row((i + 1) as nat, ar[i], app_cells[i]));
    let whole = report_spec(date, log, category_cells, app_cells);
    assert(whole == summary + rest1 + ranking_head() + rest2 + details_head() + app_sections(ar, as_map(apps)) + footer_lines());
    assert(whole[3] == summary[3]);
    assert(summary[3] =~= "> **Aplikasi Utama:** "@ + "`"@ + top.0 + "` (`"@ + duration_text(top.1 as nat) + "`)"@ + "\n"@);
}

/// The number of lines of the details of application `a`.
pub open spec fn section_len(a: Tallied, apps: Map<Seq<char>, AppData>) -> nat {
    app_section(a, map_ranking(apps[a.0].titles.map())).len()
}

/// The number of detail lines of the first `k` applications of `ar`.
pub open spec fn sections_before(ar: Seq<Tallied>, apps: Map<Seq<char>, AppData>, k: nat) -> nat
    decreases k,
{
    if k == 0 {
        0
    } else {
        sections_before(ar, apps, (k - 1) as nat) + section_len(ar[k - 1], apps)
    }
}

/// The heading of the details of application `a`.
pub open spec fn section_heading(a: Tallied) -> Seq<char> {
    "### 🔹 "@ + a.0 + " (`"@ + duration_text(a.1 as nat) + "`)\n"@
}

proof fn lemma_sections_before_prefix(ar: Seq<Tallied>, apps: Map<Seq<char>, AppData>, n: int, k: nat)
    requires
        0 <= k <= n <= ar.len(),
    ensures
        sections_before(ar.take(n), apps, k) == sections_before(ar, apps, k),
    decreases k,
{
    if k > 0 {
        lemma_sections_before_prefix(ar, apps, n, (k - 1) as nat);
        assert(ar.take(n)[k - 1] == ar[k - 1]);
    }
}

proof fn lemma_sections_before_grows(ar: Seq<Tallied>, apps: Map<Seq<char>, AppData>, j: nat, k: nat)
    requires
        j < k,
    ensures
        sections_before(ar, apps, j) < sections_before(ar, apps, k),
    decreases k,
{
    assert(section_len(ar[k - 1], apps) >= 4);
    if j < k - 1 {
        lemma_sections_before_grows(ar, apps, j, (k - 1) as nat);
    }
}

proof fn lemma_app_sections_heading(ar: Seq<Tallied>, apps: Map<Seq<char>, AppData>, k: int)
    requires
        0 <= k < ar.len(),
    ensures
        app_sections(ar, apps).len() == sections_before(ar, apps, ar.len()),
        sections_before(ar, apps, k as nat) < app_sections(ar, apps).len(),
        app_sections(ar, apps)[sections_before(ar, apps, k as nat) as int] == section_heading(ar[k]),
    decreases ar.len(),
{
    let n = ar.len() - 1;
    let d = ar.drop_last();
    assert(d == ar.take(n));
    let last = app_section(ar.last(), map_ranking(apps[ar.last().0].titles.map()));
    assert(app_sections(ar, apps) == app_sections(d, apps) + last);
    lemma_sections_before_prefix(ar, apps, n, n as nat);
    if n > 0 {
        lemma_app_sections_heading(d, apps, 0);
    } else {
        assert(app_sections(d, apps) =~= Seq::<Seq<char>>::empty());
    }
    assert(app_sections(d, apps).len() == sections_before(ar, apps, n as nat));
    assert(last[0] == section_heading(ar.last()));
    if k < n {
        lemma_app_sections_heading(d, apps, k);
        lemma_sections_before_prefix(ar, apps, n, k as nat);
        assert(d[k] == ar[k]);
    }
}

/// The details come in the order of the ranking table: for every `k`, the
/// `k`-th row of the application table and the `k`-th section of the details
/// are about the same application, the `k`-th of the applications ranked by
/// seconds (largest first, equal ones by name).
pub proof fn lemma_details_follow_ranking(
    date: Seq<char>,
    log: DailyLog,
    category_cells: Seq<(Seq<char>, Seq<char>)>,
    app_cells: Seq<(Seq<char>, Seq<char>)>,
)
    requires
        keys_ordered(log.apps@),
    ensures
        ({
            let ar = map_ranking(app_totals(log.apps@));
            let cr = map_ranking(category_totals(log.apps@));
            let rows = 7 + cr.len() + 3;
            let details = rows + ar.len() + 1;
            &&& ranked_strictly(ar)
            &&& forall|x: Tallied| ar.contains(x) <==> map_has_entry(app_totals(log.apps@), x)
            &&& forall|k: int|
                0 <= k < ar.len() ==> {
                    &&& report_spec(date, log, category_cells, app_cells)[rows + k] == app_row(
                        (k + 1) as nat,
                        ar[k],
                        app_cells[k],
                    )
                    &&& report_spec(date, log, category_cells, app_cells)[(details + sections_before(
                        ar,
                        as_map(log.apps@),
                        k as nat,
                    )) as int] == section_heading(#[trigger] ar[k])
                }
        }),
{
    let apps = log.apps@;
    let ar = map_ranking(app_totals(apps));
    let cr = map_ranking(category_totals(apps));
    lemma_app_ranking(apps);
    let summary = summary_lines(date, log.total_seconds, ar);
    let rest1 = Seq::new(cr.len(), |i: int| category_row(cr[i], category_cells[i]));
    let rest2 = Seq::new(ar.len(), |i: int| app_row((i + 1) as nat, ar[i], app_cells[i]));
    let secs = app_sections(ar, as_map(apps));
    let pre = summary + rest1 + ranking_head() + rest2 + details_head();
    let whole = report_spec(date, log, category_cells, app_cells);
    assert(whole == pre + secs + footer_lines());
    assert(pre.len() == 7 + cr.len() + 3 + ar.len() + 1);
    assert forall|k: int| 0 <= k < ar.len() implies {
        &&& whole[7 + cr.len() + 3 + k] == app_row((k + 1) as nat, ar[k], app_cells[k])
        &&& whole[(7 + cr.len() + 3 + ar.len() + 1 + sections_before(ar, as_map(apps), k as nat)) as int]
            == section_heading(#[trigger] ar[k])
    } by {
        assert(whole[7 + cr.len() + 3 + k] == pre[7 + cr.len() + 3 + k]);
        assert((summary + rest1 + ranking_head() + rest2)[7 + cr.len() + 3 + k] == rest2[k]);
        lemma_app_sections_heading(ar, as_map(apps), k);
        let off = sections_before(ar, as_map(apps), k as nat);
        assert(whole[(pre.len() + off) as int] == (pre + secs)[(pre.len() + off) as int]);
        assert((pre + secs)[(pre.len() + off) as int] == secs[off as int]);
    }
}

proof fn lemma_category_sum_nonneg(apps: Seq<(Seq<char>, AppData)>, l: Seq<char>)
    ensures
        category_sum(apps, l) >= 0,
    decreases apps.len(),
{
    if apps.len() > 0 {
        lemma_category_sum_nonneg(apps.drop_last(), l);
    }
}

proof fn lemma_category_sum_includes(apps: Seq<(Seq<char>, AppData)>, i: int)
    requires
        0 <= i < apps.len(),
    ensures
        category_sum(apps, app_category(apps[i].0)) >= apps[i].1.total_seconds,
    decreases apps.len(),
{
    let l = app_category(apps[i].0);
    if i == apps.len() - 1 {
        lemma_category_sum_nonneg(apps.drop_last(), l);
    } else {
        lemma_category_sum_includes(apps.drop_last(), i);
        assert(apps.drop_last()[i] == apps[i]);
    }
}

/// Every application is counted under the category `categorize_app` gives
/// its name: that category is among the day's categories and its seconds
/// are at least the application's.
pub proof fn lemma_category_totals_cover(apps: Seq<(Seq<char>, AppData)>, i: int)
    requires
        categories_fit(apps),
        0 <= i < apps.len(),
    ensures
        category_totals(apps).dom().contains(app_category(apps[i].0)),
        category_totals(apps)[app_category(apps[i].0)] >= apps[i].1.total_seconds,
{
    let l = app_category(apps[i].0);
    assert(has_category(apps, l));
    lemma_category_sum_includes(apps, i);
    assert(category_sum(apps, l) <= u64::MAX);
}

} // verus!
