use vstd::prelude::*;
use vstd::utf8::{encode_utf8, decode_utf8, is_char_boundary, encode_utf8_decode_utf8,
    decode_utf8_encode_utf8, valid_utf8_split, encode_utf8_valid_utf8};
use crate::text::{is_space, lemma_trim_shape, trim, trim_str, push_str_chars, push_char, has_substring, contains_str};

verus! {

/// The characters of an optional string.
pub open spec fn opt_view(o: Option<String>) -> Option<Seq<char>> {
    match o {
        Some(s) => Some(s@),
        None => None,
    }
}

/// The longest title, in UTF-8 bytes, that is kept whole.
pub open spec fn title_limit() -> nat {
    120
}

/// Where, in UTF-8 bytes, a longer title is cut before `...` is added.
pub open spec fn title_cut() -> nat {
    117
}

/// A title of more than `title_limit()` bytes cut to its first `title_cut()`
/// bytes followed by `...`; a shorter one as it is.
pub open spec fn shortened_title(t: Seq<char>) -> Seq<char> {
    if encode_utf8(t).len() > title_limit() {
        decode_utf8(encode_utf8(t).subrange(0, title_cut() as int)) + seq!['.', '.', '.']
    } else {
        t
    }
}

/// Cutting `t` (where it is long enough to be cut) falls between two characters.
pub open spec fn title_cut_ok(t: Seq<char>) -> bool {
    encode_utf8(t).len() > title_limit() ==> is_char_boundary(encode_utf8(t), title_cut() as int)
}

/// The class is present and not blank.
pub open spec fn class_usable(class: Option<Seq<char>>) -> bool {
    class matches Some(c) && trim(c).len() > 0
}

/// The title the window is recorded under, before shortening: its own or,
/// where it has none, its class.
pub open spec fn raw_title(class: Seq<char>, title: Option<Seq<char>>) -> Seq<char> {
    match title {
        Some(t) => t,
        None => class,
    }
}

/// The application and title a window is recorded under: the trimmed class
/// and the trimmed, shortened title; where there is no usable class,
/// `("Desktop / Idle", "Desktop")`.
pub open spec fn window_identity(class: Option<Seq<char>>, title: Option<Seq<char>>) -> (Seq<char>, Seq<char>) {
    if class_usable(class) {
        (trim(class->0), trim(shortened_title(raw_title(class->0, title))))
    } else {
        ("Desktop / Idle"@, "Desktop"@)
    }
}

/// Shortens a title as `shortened_title` describes.
pub fn shorten_title(t: &str) -> (r: String)
    requires
        title_cut_ok(t@),
    ensures
        r@ == shortened_title(t@),
{
    let n = t.as_bytes().len();
    if n > 120 {
        let (head, _) = t.split_at(117);
        proof {
            encode_utf8_decode_utf8(head@);
        }
        let mut r = String::new();
        push_str_chars(&mut r, head);
        push_char(&mut r, '.');
        push_char(&mut r, '.');
        push_char(&mut r, '.');
        assert(r@ =~= head@ + seq!['.', '.', '.']);
        r
    } else {
        let mut r = String::new();
        push_str_chars(&mut r, t);
        assert(r@ =~= t@);
        r
    }
}

/// The application and title a window with this class and title is recorded
/// under, as `window_identity` describes.
pub fn active_window_from(class: Option<String>, title: Option<String>) -> (r: (String, String))
    requires
        class_usable(opt_view(class)) ==> title_cut_ok(raw_title(opt_view(class)->0, opt_view(title))),
    ensures
        (r.0@, r.1@) == window_identity(opt_view(class), opt_view(title)),
{
    match class {
        Some(cls) => {
            let trimmed = trim_str(cls.as_str());
            if !trimmed.as_str().is_empty() {
                let raw = match title {
                    Some(t) => t,
                    None => cls.clone(),
                };
                let short = shorten_title(raw.as_str());
                let cleaned = trim_str(short.as_str());
                return (trimmed, cleaned);
            }
        },
        None => {},
    }
    (String::from_str("Desktop / Idle"), String::from_str("Desktop"))
}

/// The user id printed by `id -u` (its output trimmed), or `"1000"` where
/// there was no output or it was blank.
pub open spec fn user_id(output: Option<Seq<char>>) -> Seq<char> {
    if output matches Some(o) && trim(o).len() > 0 {
        trim(output->0)
    } else {
        "1000"@
    }
}

/// The user id from the output of `id -u`, as `user_id` describes.
pub fn user_id_from(output: Option<String>) -> (r: String)
    ensures
        r@ == user_id(opt_view(output)),
{
    if let Some(o) = output {
        let t = trim_str(o.as_str());
        if !t.as_str().is_empty() {
            return t;
        }
    }
    String::from_str("1000")
}

/// The runtime directory of the user with id `uid`: `/run/user/<uid>`.
pub fn runtime_dir_for(uid: &str) -> (r: String)
    ensures
        r@ == "/run/user/"@ + uid@,
{
    let mut r = String::new();
    push_str_chars(&mut r, "/run/user/");
    push_str_chars(&mut r, uid);
    r
}

/// The position of the Hyprland instance among the directory names `names`
/// (in the order they were listed): the first name holding `_`.
pub fn instance_signature_index(names: &Vec<String>) -> (r: Option<usize>)
    ensures
        match r {
            Some(i) => i < names@.len() && has_substring(names@[i as int]@, seq!['_']) && forall|j: int|
                0 <= j < i ==> !has_substring(#[trigger] names@[j]@, seq!['_']),
            None => forall|j: int| 0 <= j < names@.len() ==> !has_substring(#[trigger] names@[j]@, seq!['_']),
        },
{
    let mut i: usize = 0;
    proof {
        reveal_strlit("_");
    }
    while i < names.len()
        invariant
            i <= names@.len(),
            "_"@ == seq!['_'],
            forall|j: int| 0 <= j < i ==> !has_substring(#[trigger] names@[j]@, seq!['_']),
        decreases names@.len() - i,
    {
        if contains_str(names[i].as_str(), "_") {
            return Some(i);
        }
        i += 1;
    }
    None
}

/// UTF-8 encoding maps concatenation to concatenation.
pub proof fn lemma_encode_concat(a: Seq<char>, b: Seq<char>)
    ensures
        encode_utf8(a + b) == encode_utf8(a) + encode_utf8(b),
    decreases a.len(),
{
    if a.len() == 0 {
        assert(a + b == b);
        assert(encode_utf8(a) =~= Seq::<u8>::empty());
        assert(encode_utf8(a) + encode_utf8(b) == encode_utf8(b));
    } else {
        assert((a + b).drop_first() == a.drop_first() + b);
        assert((a + b)[0] == a[0]);
        lemma_encode_concat(a.drop_first(), b);
    }
}

/// A recorded title is never longer than `title_limit()` bytes before trimming:
/// a longer one is cut to `title_cut()` bytes and `...` (three bytes) added.
pub proof fn lemma_shortened_title_fits(t: Seq<char>)
    requires
        title_cut_ok(t),
    ensures
        encode_utf8(shortened_title(t)).len() <= title_limit(),
{
    let bytes = encode_utf8(t);
    if bytes.len() > 120 {
        let head = bytes.subrange(0, 117);
        encode_utf8_valid_utf8(t);
        valid_utf8_split(bytes, 117);
        decode_utf8_encode_utf8(head);
        let dots = seq!['.', '.', '.'];
        lemma_encode_concat(decode_utf8(head), dots);
        assert(dots.drop_first().drop_first().drop_first() =~= Seq::<char>::empty());
        reveal_with_fuel(encode_utf8, 4);
        assert(encode_utf8(dots).len() == 3);
    }
}

/// A stretch of a string never takes more UTF-8 bytes than the string.
pub proof fn lemma_encode_subrange(s: Seq<char>, a: int, b: int)
    requires
        0 <= a <= b <= s.len(),
    ensures
        encode_utf8(s.subrange(a, b)).len() <= encode_utf8(s).len(),
{
    assert(s == s.subrange(0, a) + s.subrange(a, b) + s.subrange(b, s.len() as int));
    lemma_encode_concat(s.subrange(0, a) + s.subrange(a, b), s.subrange(b, s.len() as int));
    lemma_encode_concat(s.subrange(0, a), s.subrange(a, b));
}

/// What a window is recorded under is trimmed: the application name is not
/// empty and neither it nor a non-empty title begins or ends with whitespace;
/// and the title takes at most `title_limit()` UTF-8 bytes.
pub proof fn lemma_recorded_window(class: Option<Seq<char>>, title: Option<Seq<char>>)
    requires
        class_usable(class),
        title_cut_ok(raw_title(class->0, title)),
    ensures
        ({
            let (app, t) = window_identity(class, title);
            &&& app.len() > 0 && !is_space(app[0]) && !is_space(app.last())
            &&& t.len() > 0 ==> !is_space(t[0]) && !is_space(t.last())
            &&& encode_utf8(t).len() <= title_limit()
        }),
{
    let c = class->0;
    lemma_trim_shape(c);
    let short = shortened_title(raw_title(c, title));
    lemma_shortened_title_fits(raw_title(c, title));
    let (a, b) = lemma_trim_shape(short);
    lemma_encode_subrange(short, a, b);
}

} // verus!
