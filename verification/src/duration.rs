use vstd::prelude::*;
use crate::text::{decimal, push_decimal, push_char};

verus! {

/// How a number of seconds reads in the reports: `"<s>d"` under a minute,
/// `"<m>m <s>d"` under an hour, else `"<h>j <m>m"` (the remaining seconds dropped).
pub open spec fn duration_text(seconds: nat) -> Seq<char> {
    if seconds < 60 {
        decimal(seconds).push('d')
    } else if seconds / 60 < 60 {
        decimal(seconds / 60) + seq!['m', ' '] + decimal(seconds % 60).push('d')
    } else {
        decimal(seconds / 60 / 60) + seq!['j', ' '] + decimal(seconds / 60 % 60).push('m')
    }
}

/// Renders a number of seconds as `duration_text` describes.
pub fn format_duration(seconds: u64) -> (r: String)
    ensures
        r@ == duration_text(seconds as nat),
{
    let mut r = String::new();
    if seconds < 60 {
        push_decimal(&mut r, seconds);
        push_char(&mut r, 'd');
        return r;
    }
    let minutes = seconds / 60;
    if minutes < 60 {
        push_decimal(&mut r, minutes);
        push_char(&mut r, 'm');
        push_char(&mut r, ' ');
        push_decimal(&mut r, seconds % 60);
        push_char(&mut r, 'd');
        assert(r@ == decimal(minutes as nat) + seq!['m', ' '] + decimal((seconds % 60) as nat).push('d'));
        return r;
    }
    let hours = minutes / 60;
    let rem_min = minutes % 60;
    push_decimal(&mut r, hours);
    push_char(&mut r, 'j');
    push_char(&mut r, ' ');
    push_decimal(&mut r, rem_min);
    push_char(&mut r, 'm');
    assert(r@ == decimal(hours as nat) + seq!['j', ' '] + decimal(rem_min as nat).push('m'));
    r
}

/// A duration reads back as the seconds it stands for: `<s>d` is the seconds
/// themselves; `<m>m <s>d` has `m * 60 + s` seconds with `s < 60`; and
/// `<h>j <m>m` is the seconds rounded down to the minute, `h * 3600 + m * 60`,
/// with `m < 60`.
pub proof fn lemma_duration_reads_back(seconds: nat)
    ensures
        seconds < 60 ==> duration_text(seconds) == decimal(seconds) + seq!['d'],
        60 <= seconds < 3600 ==> exists|m: nat, s: nat|
            {
                &&& duration_text(seconds) == decimal(m) + seq!['m', ' '] + decimal(s) + seq!['d']
                &&& m * 60 + s == seconds
                &&& s < 60
            },
        3600 <= seconds ==> exists|h: nat, m: nat|
            {
                &&& duration_text(seconds) == decimal(h) + seq!['j', ' '] + decimal(m) + seq!['m']
                &&& h * 3600 + m * 60 <= seconds < h * 3600 + m * 60 + 60
                &&& m < 60
            },
{
    let q = seconds / 60;
    let r = seconds % 60;
    assert(seconds == q * 60 + r && r < 60) by (nonlinear_arith)
        requires
            q == seconds / 60,
            r == seconds % 60,
    ;
    if seconds < 60 {
        assert(duration_text(seconds) =~= decimal(seconds) + seq!['d']);
    } else if seconds < 3600 {
        assert(q < 60) by (nonlinear_arith)
            requires
                seconds == q * 60 + r,
                seconds < 3600,
                r >= 0,
        ;
        assert(duration_text(seconds) =~= decimal(q) + seq!['m', ' '] + decimal(r) + seq!['d']);
    } else {
        let h = q / 60;
        let m = q % 60;
        assert(q == h * 60 + m && m < 60) by (nonlinear_arith)
            requires
                h == q / 60,
                m == q % 60,
        ;
        assert(h * 3600 + m * 60 <= seconds < h * 3600 + m * 60 + 60) by (nonlinear_arith)
            requires
                seconds == q * 60 + r,
                q == h * 60 + m,
                0 <= r < 60,
        ;
        assert(q >= 60) by (nonlinear_arith)
            requires
                seconds == q * 60 + r,
                seconds >= 3600,
                r < 60,
        ;
        assert(duration_text(seconds) =~= decimal(h) + seq!['j', ' '] + decimal(m) + seq!['m']);
    }
}

} // verus!
