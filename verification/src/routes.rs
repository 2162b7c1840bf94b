use vstd::prelude::*;
use crate::text::{has_substring, first_index, lemma_first_index, starts_with, starts_with_str,
    str_equal, chars_of, find_chars, string_of_range};
use crate::window::opt_view;

verus! {

/// What a request to the dashboard's server asks for.
pub enum Route {
    /// `/api/activity…`: the log of a day as JSON (`None`: today).
    Activity(Option<String>),
    /// `/api/open_md…`: write and open the report of a day (`None`: today).
    OpenReport(Option<String>),
    /// `/chart.umd.js`: the chart script.
    ChartScript,
    /// Anything else: the dashboard page.
    Page,
}

/// The value of the `date` parameter of `url`: what follows the first
/// `date=` up to the first `&` after it, or to the end; empty where there is
/// no `date=`.
pub open spec fn date_param(url: Seq<char>) -> Seq<char> {
    if has_substring(url, "date="@) {
        let rest = url.skip(first_index(url, "date="@) + 5);
        if has_substring(rest, "&"@) {
            rest.take(first_index(rest, "&"@))
        } else {
            rest
        }
    } else {
        Seq::empty()
    }
}

/// The day a request names: its `date` parameter, `None` (today) where that is empty.
pub open spec fn requested_day(url: Seq<char>) -> Option<Seq<char>> {
    if date_param(url).len() == 0 {
        None
    } else {
        Some(date_param(url))
    }
}

/// The `date` parameter of `url`, as `requested_day` describes.
pub fn requested_date(url: &str) -> (r: Option<String>)
    ensures
        opt_view(r) == requested_day(url@),
{
    let u = chars_of(url);
    let key = chars_of("date=");
    let amp = chars_of("&");
    proof {
        reveal_strlit("date=");
    }
    match find_chars(&u, &key) {
        None => None,
        Some(i) => {
            proof {
                lemma_first_index(u@, key@, i as int);
            }
            assert(key@.len() == 5);
            let ulen = u.len();
            assert(i + 5 <= ulen);
            let start = i + 5;
            let rest = string_of_range(&u, start, u.len());
            let rv = chars_of(rest.as_str());
            assert(rv@ == url@.skip(start as int));
            let end = match find_chars(&rv, &amp) {
                Some(j) => {
                    proof {
                        lemma_first_index(rv@, amp@, j as int);
                    }
                    j
                },
                None => rv.len(),
            };
            assert(rv@.take(rv@.len() as int) == rv@);
            let value = string_of_range(&rv, 0, end);
            assert(value@ == date_param(url@));
            if value.as_str().is_empty() {
                None
            } else {
                Some(value)
            }
        },
    }
}

/// Where the server sends a request for `url`.
pub fn route_request(url: &str) -> (r: Route)
    ensures
        match r {
            Route::Activity(d) => starts_with(url@, "/api/activity"@) && opt_view(d) == requested_day(url@),
            Route::OpenReport(d) => !starts_with(url@, "/api/activity"@) && starts_with(url@, "/api/open_md"@)
                && opt_view(d) == requested_day(url@),
            Route::ChartScript => !starts_with(url@, "/api/activity"@) && !starts_with(url@, "/api/open_md"@)
                && url@ == "/chart.umd.js"@,
            Route::Page => !starts_with(url@, "/api/activity"@) && !starts_with(url@, "/api/open_md"@)
                && url@ != "/chart.umd.js"@,
        },
{
    if starts_with_str(url, "/api/activity") {
        Route::Activity(requested_date(url))
    } else if starts_with_str(url, "/api/open_md") {
        Route::OpenReport(requested_date(url))
    } else if str_equal(url, "/chart.umd.js") {
        Route::ChartScript
    } else {
        Route::Page
    }
}

/// How the program was asked to run.
pub enum Command {
    /// `--daemon`: serve the dashboard's data and track the active window.
    Daemon,
    /// `--generate-md [date]`: write the report of a day (`None`: today).
    GenerateReport(Option<String>),
    /// Anything else: open the dashboard window.
    Dashboard,
}

/// The command the arguments `args` (the program's name first) ask for.
pub fn parse_command(args: &Vec<String>) -> (r: Command)
    ensures
        match r {
            Command::Daemon => args@.len() > 1 && args@[1]@ == "--daemon"@,
            Command::GenerateReport(d) => args@.len() > 1 && args@[1]@ != "--daemon"@ && args@[1]@
                == "--generate-md"@ && opt_view(d) == (if args@.len() > 2 {
                Some(args@[2]@)
            } else {
                None
            }),
            Command::Dashboard => !(args@.len() > 1 && (args@[1]@ == "--daemon"@ || args@[1]@
                == "--generate-md"@)),
        },
{
    if args.len() > 1 && str_equal(args[1].as_str(), "--daemon") {
        Command::Daemon
    } else if args.len() > 1 && str_equal(args[1].as_str(), "--generate-md") {
        if args.len() > 2 {
            Command::GenerateReport(Some(args[2].clone()))
        } else {
            Command::GenerateReport(None)
        }
    } else {
        Command::Dashboard
    }
}

} // verus!
