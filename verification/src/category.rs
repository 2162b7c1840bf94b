use vstd::prelude::*;
use vstd::utf8::is_ascii_chars;
use crate::text::{has_substring, contains_str};

verus! {

/// What `str::to_lowercase` returns for a string with the characters `s`.
pub uninterp spec fn lowercase(s: Seq<char>) -> Seq<char>;

/// `c` with an ASCII capital letter `A`..`Z` turned into `a`..`z`.
pub open spec fn ascii_lower_char(c: char) -> char {
    if 'A' <= c <= 'Z' {
        ((c as int) + 32) as char
    } else {
        c
    }
}

/// `s` with each ASCII capital letter turned into its small letter.
pub open spec fn ascii_lower(s: Seq<char>) -> Seq<char> {
    s.map_values(|c: char| ascii_lower_char(c))
}

/// `str::to_lowercase`: the string lowercased by Unicode's rules. Its result
/// is named: the contract claims that it is a function of the characters of
/// `s`, and, for a string of ASCII characters only, what the documentation
/// says of ASCII letters (`A`..`Z` become `a`..`z`, every other character
/// stays). What it does to other strings is left unsaid.
#[verifier::external_body]
fn to_lowercase(s: &str) -> (r: String)
    ensures
        r@ == lowercase(s@),
        is_ascii_chars(s@) ==> r@ == ascii_lower(s@),
{
    s.to_lowercase()
}

/// Some keyword of `keys` occurs in `name`.
pub open spec fn mentions_any(name: Seq<char>, keys: Seq<Seq<char>>) -> bool {
    exists|i: int| 0 <= i < keys.len() && has_substring(name, #[trigger] keys[i])
}

pub open spec fn gaming_keys() -> Seq<Seq<char>> {
    seq![
        "steam"@, "gamescope"@, "lutris"@, "heroic"@, "dota"@, "cs2"@, "csgo"@, "minecraft"@,
        "roblox"@, "proton"@, "wine"@, "emulator"@, "ryujinx"@, "yuzu"@, "retroarch"@, "game"@,
    ]
}

pub open spec fn coding_keys() -> Seq<Seq<char>> {
    seq!["code"@, "nvim"@, "neovim"@, "sublime"@, "antigravity"@, "idea"@, "studio"@]
}

pub open spec fn terminal_keys() -> Seq<Seq<char>> {
    seq!["kitty"@, "foot"@, "alacritty"@, "wezterm"@, "terminal"@, "bash"@, "zsh"@]
}

pub open spec fn browser_keys() -> Seq<Seq<char>> {
    seq!["chrome"@, "chromium"@, "firefox"@, "brave"@, "zen"@, "vivaldi"@, "browser"@]
}

pub open spec fn media_keys() -> Seq<Seq<char>> {
    seq!["spotify"@, "vlc"@, "mpv"@, "gimp"@, "inkscape"@, "obs"@, "discord"@, "telegram"@]
}

/// The category label of an application whose lowercased name is `name`:
/// the first group, in this order, one of whose keywords occurs in it.
pub open spec fn category_label(name: Seq<char>) -> Seq<char> {
    if mentions_any(name, gaming_keys()) {
        "🎮 Gaming"@
    } else if mentions_any(name, coding_keys()) {
        "💻 Coding & Development"@
    } else if mentions_any(name, terminal_keys()) {
        "⚡ Terminal & CLI"@
    } else if mentions_any(name, browser_keys()) {
        "🌐 Browser & Web"@
    } else if mentions_any(name, media_keys()) {
        "🎨 Media & Productivity"@
    } else if has_substring(name, "desktop"@) || has_substring(name, "idle"@) {
        "💤 Idle / Rest"@
    } else {
        "📦 Aplikasi Lainnya"@
    }
}

/// The category label of an application, from its name: `category_label` of
/// the name lowercased.
pub open spec fn app_category(app_name: Seq<char>) -> Seq<char> {
    category_label(lowercase(app_name))
}

/// Whether some keyword of `keys` occurs in `name`.
fn mentions_any_exec(name: &str, keys: &Vec<&'static str>) -> (b: bool)
    ensures
        b == mentions_any(name@, keys@.map_values(|k: &'static str| k@)),
{
    let ghost ks = keys@.map_values(|k: &'static str| k@);
    let mut i: usize = 0;
    while i < keys.len()
        invariant
            i <= keys.len(),
            ks == keys@.map_values(|k: &'static str| k@),
            forall|j: int| 0 <= j < i ==> !has_substring(name@, #[trigger] ks[j]),
        decreases keys.len() - i,
    {
        if contains_str(name, keys[i]) {
            assert(has_substring(name@, ks[i as int]));
            return true;
        }
        i += 1;
    }
    false
}

/// The category label of an application whose name is already lowercase.
pub fn categorize_lowered(name: &str) -> (r: &'static str)
    ensures
        r@ == category_label(name@),
{
    let gaming = vec![
        "steam", "gamescope", "lutris", "heroic", "dota", "cs2", "csgo", "minecraft", "roblox",
        "proton", "wine", "emulator", "ryujinx", "yuzu", "retroarch", "game",
    ];
    assert(gaming@.map_values(|k: &'static str| k@) == gaming_keys());
    let coding = vec!["code", "nvim", "neovim", "sublime", "antigravity", "idea", "studio"];
    assert(coding@.map_values(|k: &'static str| k@) == coding_keys());
    let terminal = vec!["kitty", "foot", "alacritty", "wezterm", "terminal", "bash", "zsh"];
    assert(terminal@.map_values(|k: &'static str| k@) == terminal_keys());
    let browser = vec!["chrome", "chromium", "firefox", "brave", "zen", "vivaldi", "browser"];
    assert(browser@.map_values(|k: &'static str| k@) == browser_keys());
    let media = vec!["spotify", "vlc", "mpv", "gimp", "inkscape", "obs", "discord", "telegram"];
    assert(media@.map_values(|k: &'static str| k@) == media_keys());
    if mentions_any_exec(name, &gaming) {
        "🎮 Gaming"
    } else if mentions_any_exec(name, &coding) {
        "💻 Coding & Development"
    } else if mentions_any_exec(name, &terminal) {
        "⚡ Terminal & CLI"
    } else if mentions_any_exec(name, &browser) {
        "🌐 Browser & Web"
    } else if mentions_any_exec(name, &media) {
        "🎨 Media & Productivity"
    } else if contains_str(name, "desktop") || contains_str(name, "idle") {
        "💤 Idle / Rest"
    } else {
        "📦 Aplikasi Lainnya"
    }
}

/// The category label of an application: its name is lowercased, then
/// matched against the keyword groups as `category_label` describes.
pub fn categorize_app(app_name: &str) -> (r: &'static str)
    ensures
        r@ == app_category(app_name@),
        is_ascii_chars(app_name@) ==> r@ == category_label(ascii_lower(app_name@)),
{
    let lowered = to_lowercase(app_name);
    categorize_lowered(lowered.as_str())
}

/// Lowercasing ASCII letters twice changes nothing more, so an ASCII name is
/// put in the category of its lowercase form whatever the case of its letters.
pub proof fn lemma_ascii_lower_idempotent(s: Seq<char>)
    ensures
        ascii_lower(ascii_lower(s)) == ascii_lower(s),
        category_label(ascii_lower(ascii_lower(s))) == category_label(ascii_lower(s)),
{
    assert forall|i: int| 0 <= i < s.len() implies #[trigger] ascii_lower(ascii_lower(s))[i] == ascii_lower(s)[i] by {
        let c = s[i];
        if 'A' <= c <= 'Z' {
            assert(!('A' <= ascii_lower_char(c) <= 'Z'));
        }
    }
    assert(ascii_lower(ascii_lower(s)) =~= ascii_lower(s));
}

/// Which category a lowercase name gets: the groups are tried in the order
/// gaming, coding, terminal, browser, media, and the first with a keyword in
/// the name decides; a name with none of their keywords is idle when it holds
/// `desktop` or `idle`, and other otherwise.
pub proof fn lemma_category_precedence(name: Seq<char>)
    ensures
        ({
            let gaming = seq![
                "steam"@, "gamescope"@, "lutris"@, "heroic"@, "dota"@, "cs2"@, "csgo"@,
                "minecraft"@, "roblox"@, "proton"@, "wine"@, "emulator"@, "ryujinx"@, "yuzu"@,
                "retroarch"@, "game"@,
            ];
            let coding = seq!["code"@, "nvim"@, "neovim"@, "sublime"@, "antigravity"@, "idea"@, "studio"@];
            let terminal = seq!["kitty"@, "foot"@, "alacritty"@, "wezterm"@, "terminal"@, "bash"@, "zsh"@];
            let browser = seq!["chrome"@, "chromium"@, "firefox"@, "brave"@, "zen"@, "vivaldi"@, "browser"@];
            let media = seq!["spotify"@, "vlc"@, "mpv"@, "gimp"@, "inkscape"@, "obs"@, "discord"@, "telegram"@];
            let g = mentions_any(name, gaming);
            let c = mentions_any(name, coding);
            let t = mentions_any(name, terminal);
            let b = mentions_any(name, browser);
            let m = mentions_any(name, media);
            let rest = has_substring(name, "desktop"@) || has_substring(name, "idle"@);
            &&& g ==> category_label(name) == "🎮 Gaming"@
            &&& !g && c ==> category_label(name) == "💻 Coding & Development"@
            &&& !g && !c && t ==> category_label(name) == "⚡ Terminal & CLI"@
            &&& !g && !c && !t && b ==> category_label(name) == "🌐 Browser & Web"@
            &&& !g && !c && !t && !b && m ==> category_label(name) == "🎨 Media & Productivity"@
            &&& (category_label(name) == "💤 Idle / Rest"@) == (!g && !c && !t && !b && !m && rest)
            &&& (category_label(name) == "📦 Aplikasi Lainnya"@) == (!g && !c && !t && !b && !m && !rest)
        }),
{
    reveal_strlit("🎮 Gaming");
    reveal_strlit("💻 Coding & Development");
    reveal_strlit("⚡ Terminal & CLI");
    reveal_strlit("🌐 Browser & Web");
    reveal_strlit("🎨 Media & Productivity");
    reveal_strlit("💤 Idle / Rest");
    reveal_strlit("📦 Aplikasi Lainnya");
    let idle = "💤 Idle / Rest"@;
    let other = "📦 Aplikasi Lainnya"@;
    assert(idle[0] != "🎮 Gaming"@[0] && idle[0] != "💻 Coding & Development"@[0] && idle[0] != "⚡ Terminal & CLI"@[0]
        && idle[0] != "🌐 Browser & Web"@[0] && idle[0] != "🎨 Media & Productivity"@[0] && idle[0] != other[0]);
    assert(other[0] != "🎮 Gaming"@[0] && other[0] != "💻 Coding & Development"@[0] && other[0] != "⚡ Terminal & CLI"@[0]
        && other[0] != "🌐 Browser & Web"@[0] && other[0] != "🎨 Media & Productivity"@[0]);
}

} // verus!
