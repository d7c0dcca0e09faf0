use vstd::prelude::*;
use vstd::string::{StrSliceExecFns, StringExecFns};
use crate::augmentation::occurs_at;
use crate::naming::{decimal_of, decimal_string, push_char};

verus! {

/// A channel as the dashboard shows it.
pub struct Channel {
    pub id: i32,
    pub name: String,
    pub parent_id: i32,
    pub talk_power: i32,
    pub is_augmented: bool,
    pub augmentation_id: Option<String>,
    pub highlight_color: Option<String>,
    pub indent_level: i32,
}

/// A connected client as the dashboard shows it.
pub struct Client {
    pub id: i32,
    pub name: String,
    pub channel: i32,
    pub is_query: bool,
    pub talk_power: i32,
    pub can_talk: bool,
    pub badges: Vec<String>,
    pub country: Option<String>,
}

/// Division rounding toward zero, as Rust's `/` on integers does.
pub open spec fn div_toward_zero(a: int, b: int) -> int {
    if a >= 0 { a / b } else { -((-a) / b) }
}

/// The remainder that goes with `div_toward_zero`, as Rust's `%` does.
pub open spec fn rem_toward_zero(a: int, b: int) -> int {
    a - b * div_toward_zero(a, b)
}

/// The largest magnitude of seconds that chrono's `TimeDelta::seconds` takes.
pub const MAX_DURATION_SECONDS: i64 = 9_223_372_036_854_775;

/// Relies on chrono's TimeDelta::seconds and num_weeks: whole days of
/// 86400 seconds, then whole weeks of seven days, both rounded toward zero.
#[verifier::external_body]
fn whole_weeks(seconds: i64) -> (r: i64)
    requires
        -MAX_DURATION_SECONDS <= seconds <= MAX_DURATION_SECONDS,
    ensures
        r == div_toward_zero(div_toward_zero(seconds as int, 86400), 7),
{
    chrono::Duration::seconds(seconds).num_weeks()
}

/// Relies on chrono's TimeDelta::seconds and num_days: whole days of 86400
/// seconds, rounded toward zero.
#[verifier::external_body]
fn whole_days(seconds: i64) -> (r: i64)
    requires
        -MAX_DURATION_SECONDS <= seconds <= MAX_DURATION_SECONDS,
    ensures
        r == div_toward_zero(seconds as int, 86400),
{
    chrono::Duration::seconds(seconds).num_days()
}

/// Relies on chrono's TimeDelta::seconds and num_hours: whole hours of 3600
/// seconds, rounded toward zero.
#[verifier::external_body]
fn whole_hours(seconds: i64) -> (r: i64)
    requires
        -MAX_DURATION_SECONDS <= seconds <= MAX_DURATION_SECONDS,
    ensures
        r == div_toward_zero(seconds as int, 3600),
{
    chrono::Duration::seconds(seconds).num_hours()
}

/// An integer in decimal, with a leading minus sign when negative.
pub open spec fn signed_text(n: int) -> Seq<char> {
    if n < 0 { seq!['-'] + decimal_of((-n) as nat) } else { decimal_of(n as nat) }
}

fn signed_string(n: i64) -> (r: String)
    ensures
        r@ == signed_text(n as int),
{
    if n < 0 {
        let magnitude: u64 = if n == i64::MIN { 0x8000_0000_0000_0000 } else { (-n) as u64 };
        let mut s = String::new();
        push_char(&mut s, '-');
        let digits = decimal_string(magnitude);
        s.append(digits.as_str());
        s
    } else {
        decimal_string(n as u64)
    }
}

fn trunc_div(a: i64, b: i64) -> (r: i64)
    requires
        b > 0,
    ensures
        r == div_toward_zero(a as int, b as int),
{
    if a >= 0 {
        a / b
    } else {
        let m: u64 = if a == i64::MIN { 0x8000_0000_0000_0000 } else { (-a) as u64 };
        let q = m / (b as u64);
        assert(q <= 0x8000_0000_0000_0000) by (nonlinear_arith)
            requires q == m / (b as u64), m <= 0x8000_0000_0000_0000, b >= 1;
        if q == 0x8000_0000_0000_0000 { i64::MIN } else { -(q as i64) }
    }
}

fn trunc_rem(a: i64, b: i64) -> (r: i64)
    requires
        b > 0,
    ensures
        r == rem_toward_zero(a as int, b as int),
{
    let q = trunc_div(a, b);
    proof {
        let m: int = if a >= 0 { a as int } else { -(a as int) };
        let d: int = b as int;
        assert(0 <= m - d * (m / d) < d) by (nonlinear_arith)
            requires m >= 0, d > 0;
        assert(0 <= d * (m / d) <= m) by (nonlinear_arith)
            requires m >= 0, d > 0;
        if a < 0 {
            assert(d * (q as int) == -(d * (m / d))) by (nonlinear_arith)
                requires q as int == -(m / d);
        }
    }
    let r = (a as i128) - (b as i128) * (q as i128);
    r as i64
}

/// What the dashboard shows for a duration of `seconds`: years of 52 weeks,
/// weeks and days where they are positive, then the hour of the day rounded
/// up, as "1 y, 2 w, 3 d, 4 h".
pub open spec fn duration_text(seconds: int) -> Seq<char> {
    let weeks = div_toward_zero(div_toward_zero(seconds, 86400), 7);
    let years = div_toward_zero(weeks, 52);
    let week_part = rem_toward_zero(weeks, 52);
    let day_part = rem_toward_zero(div_toward_zero(seconds, 86400), 7);
    let hour_part = rem_toward_zero(div_toward_zero(seconds, 3600) + 1, 24);
    (if years > 0 { signed_text(years) + seq![' ', 'y', ',', ' '] } else { seq![] })
        + (if week_part > 0 { signed_text(week_part) + seq![' ', 'w', ',', ' '] } else { seq![] })
        + (if day_part > 0 { signed_text(day_part) + seq![' ', 'd', ',', ' '] } else { seq![] })
        + signed_text(hour_part) + seq![' ', 'h']
}

fn push_unit(s: &mut String, n: i64, unit: char, comma: bool)
    ensures
        final(s)@ == old(s)@ + signed_text(n as int) + (if comma { seq![' ', unit, ',', ' '] } else { seq![' ', unit] }),
{
    let digits = signed_string(n);
    s.append(digits.as_str());
    push_char(s, ' ');
    push_char(s, unit);
    if comma {
        push_char(s, ',');
        push_char(s, ' ');
    }
    assert(s@ =~= old(s)@ + signed_text(n as int) + (if comma { seq![' ', unit, ',', ' '] } else { seq![' ', unit] }));
}

/// Writes a duration the way the dashboard shows it; see `duration_text`.
pub fn format_duration(seconds: i64) -> (r: String)
    requires
        -MAX_DURATION_SECONDS <= seconds <= MAX_DURATION_SECONDS,
    ensures
        r@ == duration_text(seconds as int),
{
    let weeks = whole_weeks(seconds);
    let years = trunc_div(weeks, 52);
    let week_part = trunc_rem(weeks, 52);
    let day_part = trunc_rem(whole_days(seconds), 7);
    let hours = whole_hours(seconds);
    let hour_part = trunc_rem(hours + 1, 24);
    let mut result = String::new();
    if years > 0 {
        push_unit(&mut result, years, 'y', true);
    }
    if week_part > 0 {
        push_unit(&mut result, week_part, 'w', true);
    }
    if day_part > 0 {
        push_unit(&mut result, day_part, 'd', true);
    }
    push_unit(&mut result, hour_part, 'h', false);
    assert(result@ =~= duration_text(seconds as int));
    result
}

/// The characters with Unicode's White_Space property.
pub open spec fn is_white_space(c: char) -> bool {
    ||| '\t' <= c <= '\r'
    ||| c == ' '
    ||| c == '\u{85}'
    ||| c == '\u{a0}'
    ||| c == '\u{1680}'
    ||| '\u{2000}' <= c <= '\u{200a}'
    ||| c == '\u{2028}'
    ||| c == '\u{2029}'
    ||| c == '\u{202f}'
    ||| c == '\u{205f}'
    ||| c == '\u{3000}'
}

fn white_space(c: char) -> (r: bool)
    ensures
        r == is_white_space(c),
{
    ('\t' <= c && c <= '\r') || c == ' ' || c == '\u{85}' || c == '\u{a0}' || c == '\u{1680}'
        || ('\u{2000}' <= c && c <= '\u{200a}') || c == '\u{2028}' || c == '\u{2029}' || c == '\u{202f}'
        || c == '\u{205f}' || c == '\u{3000}'
}

/// The length of the spacer tag `name` starts with: "[spacer]" or
/// "[cspacer]"; none is 0.
pub open spec fn spacer_tag_len(name: Seq<char>) -> int {
    if name.len() >= 8 && name.subrange(0, 8) == "[spacer]"@ {
        8
    } else if name.len() >= 9 && name.subrange(0, 9) == "[cspacer]"@ {
        9
    } else {
        0
    }
}

/// Where the white space that starts at `from` ends.
pub open spec fn white_space_end(name: Seq<char>, from: int) -> int
    decreases name.len() - from,
{
    if from < 0 || from >= name.len() || !is_white_space(name[from]) {
        from
    } else {
        white_space_end(name, from + 1)
    }
}

/// A spacer's display name: without a leading spacer tag and the white space
/// after it; other names are left as they are.
pub open spec fn spacer_display_name(name: Seq<char>) -> Seq<char> {
    let tag = spacer_tag_len(name);
    if tag == 0 {
        name
    } else {
        name.subrange(white_space_end(name, tag), name.len() as int)
    }
}

/// The display name of a spacer channel; see `spacer_display_name`.
pub fn strip_spacer_prefix(name: &str) -> (r: String)
    ensures
        r@ == spacer_display_name(name@),
{
    proof {
        reveal_strlit("[spacer]");
        reveal_strlit("[cspacer]");
    }
    let n = name.unicode_len();
    let tag: usize = if n >= 8 && occurs_at(name, "[spacer]", 0) {
        8
    } else if n >= 9 && occurs_at(name, "[cspacer]", 0) {
        9
    } else {
        0
    };
    if tag == 0 {
        return String::from_str(name);
    }
    let mut i = tag;
    while i < n && white_space(name.get_char(i))
        invariant
            n == name@.len(),
            tag <= i <= n,
            white_space_end(name@, tag as int) == white_space_end(name@, i as int),
        decreases n - i,
    {
        i = i + 1;
    }
    String::from_str(name.substring_char(i, n))
}

/// What `str::to_uppercase` makes of a text.
pub uninterp spec fn upper_of(s: Seq<char>) -> Seq<char>;

/// Relies on str::to_uppercase: the result depends on the characters alone.
#[verifier::external_body]
fn uppercase(s: &str) -> (r: String)
    ensures
        r@ == upper_of(s@),
{
    s.to_uppercase()
}

/// Relies on char::from_u32: `Some` exactly for Unicode scalar values,
/// holding the character with that code.
#[verifier::external_body]
fn char_from_u32(v: u32) -> (r: Option<char>)
    ensures
        r is Some <==> (v <= 0x10ffff && !(0xd800 <= v <= 0xdfff)),
        r matches Some(c) ==> c as u32 == v,
{
    char::from_u32(v)
}

/// The flag character for one letter of a country code: the code point
/// 0x1f1a5 above it (an uppercase ASCII letter lands on its regional
/// indicator), or the letter itself where that is no character.
pub open spec fn flag_char_of(c: char, out: char) -> bool {
    let v = c as u32 + 0x1f1a5;
    if v <= 0x10ffff { out as u32 == v } else { out == c }
}

/// A country code written as flag characters, after upper-casing it.
pub fn country_flag(code: &str) -> (r: String)
    ensures
        r@.len() == upper_of(code@).len(),
        forall|i: int| 0 <= i < r@.len() ==> flag_char_of(upper_of(code@)[i], #[trigger] r@[i]),
{
    let upper = uppercase(code);
    let text = upper.as_str();
    let n = text.unicode_len();
    let mut r = String::new();
    let mut i: usize = 0;
    while i < n
        invariant
            n == text@.len(),
            text@ == upper_of(code@),
            i <= n,
            r@.len() == i,
            forall|j: int| 0 <= j < i ==> flag_char_of(text@[j], #[trigger] r@[j]),
        decreases n - i,
    {
        let c = text.get_char(i);
        let code_point = c as u32 + 0x1f1a5;
        let out = if code_point <= 0x10ffff {
            match char_from_u32(code_point) {
                Some(flag) => flag,
                None => c,
            }
        } else {
            c
        };
        push_char(&mut r, out);
        i = i + 1;
    }
    r
}

} // verus!
