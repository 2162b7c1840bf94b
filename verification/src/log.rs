use vstd::prelude::*;
use crate::keymap::{KeyMap, Slot, count_in, sum_by, sum_counts,
    lemma_key_index, lemma_reinsert, lemma_sum_by_update, lemma_sum_by_insert, has_key};
use crate::text::lemma_chars_less_irreflexive;

verus! {

/// The time spent in one application on one day.
pub struct AppData {
    /// Seconds spent in the application.
    pub total_seconds: u64,
    /// Seconds spent per window title.
    pub titles: KeyMap<u64>,
}

/// What an application's record holds: its total and its seconds per title.
pub type AppUsage = (u64, Map<Seq<char>, u64>);

impl View for AppData {
    type V = AppUsage;

    open spec fn view(&self) -> AppUsage {
        (self.total_seconds, self.titles.map())
    }
}

impl AppData {
    /// An application with no time recorded.
    pub fn new() -> (a: Self)
        ensures
            a.total_seconds == 0,
            a.titles@ == Seq::<(Seq<char>, u64)>::empty(),
            a@ == (0u64, Map::<Seq<char>, u64>::empty()),
    {
        let a = AppData { total_seconds: 0, titles: KeyMap::new() };
        assert(a.titles.map() =~= Map::<Seq<char>, u64>::empty());
        a
    }
}

/// The seconds an application record counts, as summed over a log's applications.
pub open spec fn app_seconds(a: AppData) -> int {
    a.total_seconds as int
}

/// The record of application `app` in `usage`, or an empty one where it has none.
pub open spec fn usage_of(usage: Map<Seq<char>, AppUsage>, app: Seq<char>) -> AppUsage {
    if usage.dom().contains(app) {
        usage[app]
    } else {
        (0u64, Map::empty())
    }
}

/// The seconds that one poll of the active window accounts for.
pub const TICK_SECONDS: u64 = 5;

/// The counts `m` with `seconds` added to key `k` (an absent key counting from `0`).
pub open spec fn with_seconds(m: Map<Seq<char>, u64>, k: Seq<char>, seconds: u64) -> Map<Seq<char>, u64> {
    m.insert(k, (count_in(m, k) + seconds) as u64)
}

/// The application records `u` with `seconds` added to application `app`
/// and to its window `title`.
pub open spec fn usage_after(
    u: Map<Seq<char>, AppUsage>,
    app: Seq<char>,
    title: Seq<char>,
    seconds: u64,
) -> Map<Seq<char>, AppUsage> {
    u.insert(app, ((usage_of(u, app).0 + seconds) as u64, with_seconds(usage_of(u, app).1, title, seconds)))
}

/// One day of tracked activity.
pub struct DailyLog {
    /// The day, as `YYYY-MM-DD`.
    pub date: String,
    /// Seconds tracked on the day.
    pub total_seconds: u64,
    /// Time per application (window class).
    pub apps: KeyMap<AppData>,
    /// Seconds per hour of the day (`"00"` to `"23"`).
    pub hourly: KeyMap<u64>,
}

impl DailyLog {
    /// Each application's record, by application name.
    pub open spec fn usage(self) -> Map<Seq<char>, AppUsage> {
        self.apps.map().map_values(|a: AppData| a@)
    }

    /// The totals agree: the day's total is the sum of the hours and the sum
    /// of the applications, and each application's total is the sum of its titles.
    pub open spec fn consistent(self) -> bool {
        &&& sum_counts(self.hourly@) == self.total_seconds
        &&& sum_by(self.apps@, |a: AppData| app_seconds(a)) == self.total_seconds
        &&& forall|i: int|
            0 <= i < self.apps@.len() ==> sum_counts(#[trigger] self.apps@[i].1.titles@)
                == self.apps@[i].1.total_seconds
    }

    /// The log of a day with nothing recorded yet.
    pub fn new(date: String) -> (log: Self)
        ensures
            log.date == date,
            log.total_seconds == 0,
            log.apps@ == Seq::<(Seq<char>, AppData)>::empty(),
            log.hourly@ == Seq::<(Seq<char>, u64)>::empty(),
            log.usage() == Map::<Seq<char>, AppUsage>::empty(),
            log.consistent(),
    {
        let log = DailyLog { date, total_seconds: 0, apps: KeyMap::new(), hourly: KeyMap::new() };
        assert(log.usage() =~= Map::<Seq<char>, AppUsage>::empty());
        log
    }

    /// Whether `record` may add `seconds` for this hour, application and
    /// title without a counter passing `u64::MAX`.
    pub open spec fn can_record(self, hour: Seq<char>, app: Seq<char>, title: Seq<char>, seconds: u64) -> bool {
        &&& self.total_seconds + seconds <= u64::MAX
        &&& count_in(self.hourly.map(), hour) + seconds <= u64::MAX
        &&& usage_of(self.usage(), app).0 + seconds <= u64::MAX
        &&& count_in(usage_of(self.usage(), app).1, title) + seconds <= u64::MAX
    }

    /// Whether `record` may add `seconds` for this hour, application and
    /// title (`can_record`).
    pub fn fits(&self, hour: &str, app: &str, title: &str, seconds: u64) -> (b: bool)
        ensures
            b == self.can_record(hour@, app@, title@, seconds),
    {
        if self.total_seconds > u64::MAX - seconds {
            return false;
        }
        if self.hourly.count_of(hour) > u64::MAX - seconds {
            return false;
        }
        let ghost apps = self.apps@;
        match self.apps.slot(app) {
            Slot::Found(i) => {
                let (_, data) = self.apps.entry(i);
                proof {
                    lemma_key_index(apps, i as int);
                    assert(usage_of(self.usage(), app@) == data@);
                }
                data.total_seconds <= u64::MAX - seconds && data.titles.count_of(title) <= u64::MAX
                    - seconds
            },
            Slot::Vacant(_) => {
                proof {
                    if has_key(apps, app@) {
                        let j = choose|j: int| 0 <= j < apps.len() && #[trigger] apps[j].0 == app@;
                        lemma_chars_less_irreflexive(app@);
                    }
                    assert(!self.usage().dom().contains(app@));
                }
                true
            },
        }
    }

    /// Records `seconds` spent in window `title` of application `app` during
    /// `hour`: the day's total, the hour's, the application's and the
    /// title's counters each grow by `seconds`, absent ones starting at `0`.
    pub fn record(&mut self, hour: String, app: String, title: String, seconds: u64)
        requires
            old(self).can_record(hour@, app@, title@, seconds),
        ensures
            final(self).date == old(self).date,
            final(self).total_seconds == old(self).total_seconds + seconds,
            final(self).hourly.map() == with_seconds(old(self).hourly.map(), hour@, seconds),
            final(self).usage() == usage_after(old(self).usage(), app@, title@, seconds),
            old(self).consistent() ==> final(self).consistent(),
    {
        let ghost pre = *self;
        let ghost t = title@;
        let ghost a = app@;
        self.total_seconds = self.total_seconds + seconds;
        self.hourly.add(hour, seconds);
        let ghost old_apps = self.apps@;
        assert(old_apps == pre.apps@);
        match self.apps.slot(app.as_str()) {
            Slot::Found(i) => {
                proof {
                    lemma_key_index(old_apps, i as int);
                }
                let (k, mut data) = self.apps.remove_at(i);
                let ghost old_data = data;
                proof {
                    assert(pre.usage()[a] == old_data@);
                    if pre.consistent() {
                        assert(pre.apps@[i as int] == old_apps[i as int]);
                        assert(sum_counts(old_data.titles@) == old_data.total_seconds);
                    }
                }
                data.total_seconds = data.total_seconds + seconds;
                data.titles.add(title, seconds);
                proof {
                    lemma_reinsert(old_apps, i as int, data);
                    lemma_sum_by_update(old_apps, i as int, (k@, data), |d: AppData| app_seconds(d));
                }
                self.apps.insert_at(i, k, data);
                proof {
                    assert(self.usage() =~= pre.usage().insert(a, data@));
                    if pre.consistent() {
                        assert forall|j: int| 0 <= j < self.apps@.len() implies sum_counts(#[trigger] self.apps@[j].1.titles@)
                            == self.apps@[j].1.total_seconds by {
                            if j != i {
                                assert(self.apps@[j] == old_apps[j]);
                                assert(sum_counts(pre.apps@[j].1.titles@) == pre.apps@[j].1.total_seconds);
                            } else {
                                assert(self.apps@[j].1 == data);
                            }
                        }
                    }
                }
            },
            Slot::Vacant(p) => {
                let mut data = AppData::new();
                data.total_seconds = seconds;
                data.titles.add(title, seconds);
                proof {
                    if has_key(old_apps, a) {
                        let j = choose|j: int| 0 <= j < old_apps.len() && #[trigger] old_apps[j].0 == a;
                        lemma_chars_less_irreflexive(a);
                    }
                    assert(!pre.usage().dom().contains(a));
                    assert(data.titles.map() =~= Map::<Seq<char>, u64>::empty().insert(t, seconds));
                    assert(sum_counts(Seq::<(Seq<char>, u64)>::empty()) == 0);
                    lemma_sum_by_insert(old_apps, p as int, (a, data), |d: AppData| app_seconds(d));
                }
                self.apps.insert_at(p, app, data);
                proof {
                    assert(self.usage() =~= pre.usage().insert(a, data@));
                    if pre.consistent() {
                        assert forall|j: int| 0 <= j < self.apps@.len() implies sum_counts(#[trigger] self.apps@[j].1.titles@)
                            == self.apps@[j].1.total_seconds by {
                            if j < p {
                                assert(self.apps@[j] == old_apps[j]);
                                assert(sum_counts(pre.apps@[j].1.titles@) == pre.apps@[j].1.total_seconds);
                            } else if j > p {
                                assert(self.apps@[j] == old_apps[j - 1]);
                                assert(sum_counts(pre.apps@[j - 1].1.titles@) == pre.apps@[j - 1].1.total_seconds);
                            } else {
                                assert(self.apps@[j].1 == data);
                            }
                        }
                    }
                }
            },
        }
    }
}

/// Adding seconds to two keys gives the same counts in either order.
pub proof fn lemma_with_seconds_commute(m: Map<Seq<char>, u64>, k1: Seq<char>, s1: u64, k2: Seq<char>, s2: u64)
    requires
        count_in(m, k1) + s1 + s2 <= u64::MAX,
        count_in(m, k2) + s1 + s2 <= u64::MAX,
    ensures
        with_seconds(with_seconds(m, k1, s1), k2, s2) == with_seconds(with_seconds(m, k2, s2), k1, s1),
{
    assert(with_seconds(with_seconds(m, k1, s1), k2, s2) =~= with_seconds(with_seconds(m, k2, s2), k1, s1));
}

/// Two polls recorded in either order leave the same day: the same hours and
/// the same application records (each counter is a sum, whatever the order
/// of its terms), where no counter passes `u64::MAX`.
pub proof fn lemma_records_commute(
    hours: Map<Seq<char>, u64>,
    usage: Map<Seq<char>, AppUsage>,
    h1: Seq<char>,
    a1: Seq<char>,
    t1: Seq<char>,
    s1: u64,
    h2: Seq<char>,
    a2: Seq<char>,
    t2: Seq<char>,
    s2: u64,
)
    requires
        count_in(hours, h1) + s1 + s2 <= u64::MAX,
        count_in(hours, h2) + s1 + s2 <= u64::MAX,
        usage_of(usage, a1).0 + s1 + s2 <= u64::MAX,
        usage_of(usage, a2).0 + s1 + s2 <= u64::MAX,
        count_in(usage_of(usage, a1).1, t1) + s1 + s2 <= u64::MAX,
        count_in(usage_of(usage, a1).1, t2) + s1 + s2 <= u64::MAX,
        count_in(usage_of(usage, a2).1, t1) + s1 + s2 <= u64::MAX,
        count_in(usage_of(usage, a2).1, t2) + s1 + s2 <= u64::MAX,
    ensures
        with_seconds(with_seconds(hours, h1, s1), h2, s2) == with_seconds(with_seconds(hours, h2, s2), h1, s1),
        usage_after(usage_after(usage, a1, t1, s1), a2, t2, s2) == usage_after(usage_after(usage, a2, t2, s2), a1, t1, s1),
{
    lemma_with_seconds_commute(hours, h1, s1, h2, s2);
    if a1 == a2 {
        lemma_with_seconds_commute(usage_of(usage, a1).1, t1, s1, t2, s2);
        assert(usage_of(usage, a1).1 == usage_of(usage, a2).1);
    }
    assert(usage_after(usage_after(usage, a1, t1, s1), a2, t2, s2) =~= usage_after(usage_after(usage, a2, t2, s2), a1, t1, s1));
}

} // verus!
