# activity_tracker

A daily application-activity tracker for Hyprland. The library (`src/`,
verified with Verus) holds the logic:

- `log`: the log of a day (seconds per application, per window title and per
  hour) and how one poll of the active window is recorded; the totals stay
  consistent and polls recorded in either order agree.
- `keymap`: a string-keyed map kept in key order, as the log's maps are.
- `category`: the category of an application by keywords of its name.
- `duration`: how seconds read in reports (`5d`, `2m 30d`, `1j 3m`).
- `rank`, `report`: the rankings by time and the Markdown report of a day.
- `window`, `routes`: the identity a window is recorded under, the routing of
  the dashboard's HTTP requests and the command line.
- `text`: character-level string helpers (search, trim, escaping, order).

`app/` is the program around it: polling `hyprctl`, the JSON files, the
embedded HTTP server, the dashboard window, and the report's percentages,
which are floating point.
