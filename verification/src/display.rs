//! The text shown on the dashboard: truncated labels, temperature bars, the clock, and the
//! small status texts.
use vstd::prelude::*;
use crate::text::{chars_of, decimal, digit, digit_char, push_char, push_decimal, push_str};

verus! {

/// `s` cut to at most `max` characters, the cut marked by a trailing `…`.
pub open spec fn truncated(s: Seq<char>, max: nat) -> Seq<char> {
    if max == 0 {
        Seq::empty()
    } else if s.len() <= max {
        s
    } else {
        s.take(max - 1).push('…')
    }
}

/// Shortens `s` to fit in `max` columns.
pub fn truncate(s: &str, max: usize) -> (r: String)
    ensures
        r@ == truncated(s@, max as nat),
        r@.len() <= max,
{
    if max == 0 {
        return String::new();
    }
    let v = chars_of(s);
    if v.len() <= max {
        let mut r = String::new();
        push_str(&mut r, s);
        return r;
    }
    let mut r = String::new();
    let mut i: usize = 0;
    while i < max - 1
        invariant
            0 < max < v@.len(),
            i <= max - 1,
            r@ == v@.take(i as int),
        decreases max - 1 - i,
    {
        assert(v@.take(i + 1) == v@.take(i as int).push(v@[i as int]));
        push_char(&mut r, v[i]);
        i += 1;
    }
    push_char(&mut r, '…');
    r
}

/// A bar of `width` cells: `·` throughout when the temperature is unknown, otherwise the
/// first `filled` cells full (`█`) and the rest empty (`░`).
pub open spec fn bar_cells(filled: Option<usize>, width: nat) -> Seq<char> {
    match filled {
        None => Seq::new(width, |i: int| '·'),
        Some(f) => Seq::new(width, |i: int| if i < f { '█' } else { '░' }),
    }
}

pub fn temp_bar_text(filled: Option<usize>, width: usize) -> (bar: String)
    ensures
        bar@ == bar_cells(filled, width as nat),
{
    let mut bar = String::new();
    let mut i: usize = 0;
    while i < width
        invariant
            i <= width,
            bar@ == bar_cells(filled, width as nat).take(i as int),
        decreases width - i,
    {
        let c = match filled {
            None => '·',
            Some(f) => if i < f {
                '█'
            } else {
                '░'
            },
        };
        assert(bar_cells(filled, width as nat).take(i + 1) == bar_cells(filled, width as nat).take(
            i as int,
        ).push(c));
        push_char(&mut bar, c);
        i += 1;
    }
    assert(bar_cells(filled, width as nat).take(width as int) == bar_cells(filled, width as nat));
    bar
}

/// `n` (below 100) as two digits, zero-padded.
pub open spec fn two_digits(n: nat) -> Seq<char> {
    seq![digit(n / 10), digit(n % 10)]
}

/// The wall-clock time of day, `HH:MM:SS` (UTC), `secs` seconds after the epoch.
pub open spec fn clock_of(secs: nat) -> Seq<char> {
    let t = secs % 86400;
    two_digits(t / 3600) + seq![':'] + two_digits((t % 3600) / 60) + seq![':'] + two_digits(t % 60)
}

fn push_two_digits(s: &mut String, n: u64)
    requires
        n < 100,
    ensures
        final(s)@ == old(s)@ + two_digits(n as nat),
{
    push_char(s, digit_char(n / 10));
    push_char(s, digit_char(n % 10));
}

/// The header clock.
pub fn clock_text(secs: u64) -> (text: String)
    ensures
        text@ == clock_of(secs as nat),
        text@.len() == 8,
{
    let t = secs % 86400;
    let mut text = String::new();
    push_two_digits(&mut text, t / 3600);
    push_char(&mut text, ':');
    push_two_digits(&mut text, (t % 3600) / 60);
    push_char(&mut text, ':');
    push_two_digits(&mut text, t % 60);
    text
}

/// The clock's three fields give back the time of day.
pub proof fn lemma_clock_fields_recompose(secs: nat)
    ensures
        ({
            let t = secs % 86400;
            &&& t / 3600 < 24
            &&& (t % 3600) / 60 < 60
            &&& 3600 * (t / 3600) + 60 * ((t % 3600) / 60) + t % 60 == t
        }),
{
}

/// `VRAM used/total MB`, or `VRAM —` unless both are known.
pub open spec fn vram_label_of(used: Option<u64>, total: Option<u64>) -> Seq<char> {
    match (used, total) {
        (Some(u), Some(t)) => "VRAM "@ + decimal(u as nat) + seq!['/'] + decimal(t as nat)
            + " MB"@,
        _ => "VRAM —"@,
    }
}

pub fn vram_label(used: Option<u64>, total: Option<u64>) -> (label: String)
    ensures
        label@ == vram_label_of(used, total),
{
    let mut label = String::new();
    match (used, total) {
        (Some(u), Some(t)) => {
            push_str(&mut label, "VRAM ");
            push_decimal(&mut label, u);
            push_char(&mut label, '/');
            push_decimal(&mut label, t);
            push_str(&mut label, " MB");
        },
        _ => push_str(&mut label, "VRAM —"),
    }
    label
}

/// The GPU fan duty, `N%`, or `N/A`.
pub open spec fn fan_text_of(fan: Option<u32>) -> Seq<char> {
    match fan {
        Some(p) => decimal(p as nat) + seq!['%'],
        None => "N/A"@,
    }
}

pub fn fan_text(fan: Option<u32>) -> (text: String)
    ensures
        text@ == fan_text_of(fan),
{
    let mut text = String::new();
    match fan {
        Some(p) => {
            push_decimal(&mut text, p as u64);
            push_char(&mut text, '%');
        },
        None => push_str(&mut text, "N/A"),
    }
    text
}

/// The heartbeat glyph of the header: it alternates with every refresh.
pub fn pulse_glyph(tick: u64) -> (glyph: &'static str)
    ensures
        glyph@ == if tick % 2 == 0 {
            "●"@
        } else {
            "◆"@
        },
{
    if tick % 2 == 0 {
        "●"
    } else {
        "◆"
    }
}

/// The dot and the tag of a status chip: `●`/`OK` when the source works, `○`/`--` otherwise.
pub fn chip_marks(ok: bool) -> (marks: (&'static str, &'static str))
    ensures
        marks.0@ == if ok {
            "●"@
        } else {
            "○"@
        },
        marks.1@ == if ok {
            "OK"@
        } else {
            "--"@
        },
{
    if ok {
        ("●", "OK")
    } else {
        ("○", "--")
    }
}

/// Truncation, stated directly: the text never exceeds `max` characters; a text that fits is
/// kept whole; a longer one keeps its first `max - 1` characters followed by `…`.
pub proof fn lemma_truncation_rule(s: Seq<char>, max: nat)
    ensures
        truncated(s, max).len() <= max,
        s.len() <= max && max > 0 ==> truncated(s, max) == s,
        s.len() > max && max > 0 ==> truncated(s, max).len() == max && truncated(s, max)[max
            - 1] == '…' && forall|i: int| 0 <= i < max - 1 ==> #[trigger] truncated(s, max)[i]
            == s[i],
{
}

/// The value of the two decimal digits at `t[i]`, `t[i + 1]`.
pub open spec fn two_digit_value(t: Seq<char>, i: int) -> int {
    ((t[i] as u32) - 48) * 10 + ((t[i + 1] as u32) - 48)
}

/// The clock, stated directly: `HH:MM:SS` with hours below 24 and minutes and seconds below 60,
/// all digits, reading back as the time of day `secs % 86400` in seconds.
pub proof fn lemma_clock_reads_back(secs: nat)
    ensures
        ({
            let t = clock_of(secs);
            &&& t.len() == 8
            &&& t[2] == ':' && t[5] == ':'
            &&& forall|i: int|
                0 <= i < 8 && i != 2 && i != 5 ==> 48 <= #[trigger] (t[i] as u32) <= 57
            &&& two_digit_value(t, 0) < 24
            &&& two_digit_value(t, 3) < 60
            &&& two_digit_value(t, 6) < 60
            &&& two_digit_value(t, 0) * 3600 + two_digit_value(t, 3) * 60 + two_digit_value(t, 6)
                == secs % 86400
        }),
{
    let day = secs % 86400;
    let h = day / 3600;
    let m = (day % 3600) / 60;
    let sec = day % 60;
    assert(h < 24 && m < 60 && sec < 60);
    let t = clock_of(secs);
    assert(t == two_digits(h) + seq![':'] + two_digits(m) + seq![':'] + two_digits(sec));
    assert(t[0] == digit(h / 10) && t[1] == digit(h % 10));
    assert(t[3] == digit(m / 10) && t[4] == digit(m % 10));
    assert(t[6] == digit(sec / 10) && t[7] == digit(sec % 10));
    assert((digit(h / 10) as u32) == 48 + h / 10);
    assert((digit(h % 10) as u32) == 48 + h % 10);
    assert((digit(m / 10) as u32) == 48 + m / 10);
    assert((digit(m % 10) as u32) == 48 + m % 10);
    assert((digit(sec / 10) as u32) == 48 + sec / 10);
    assert((digit(sec % 10) as u32) == 48 + sec % 10);
    assert(two_digit_value(t, 0) == h);
    assert(two_digit_value(t, 3) == m);
    assert(two_digit_value(t, 6) == sec);
}

} // verus!
