use vstd::prelude::*;
use vstd::utf8::{decode_utf8, valid_utf8};

verus! {

/// Why a badge list could not be read.
#[derive(PartialEq, Eq, Structural, Clone, Copy, Debug)]
pub enum ParseError {
    /// The bytes ended inside a value, or a number ran past ten bytes.
    Io,
    /// A text field is not valid UTF-8.
    Utf8,
}

/// The published list of badges.
pub struct BadgesFile {
    pub badges: Vec<Badge>,
    pub last_change: u64,
}

pub struct Badge {
    pub uuid: String,
    pub name: String,
    pub icon_url: String,
    pub description: String,
    pub time: u64,
}

pub struct BadgeView {
    pub uuid: Seq<char>,
    pub name: Seq<char>,
    pub icon_url: Seq<char>,
    pub description: Seq<char>,
    pub time: u64,
}

impl View for Badge {
    type V = BadgeView;

    open spec fn view(&self) -> BadgeView {
        BadgeView {
            uuid: self.uuid@,
            name: self.name@,
            icon_url: self.icon_url@,
            description: self.description@,
            time: self.time,
        }
    }
}

pub open spec fn pow128(n: nat) -> nat
    decreases n,
{
    if n == 0 { 1 } else { 128 * pow128((n - 1) as nat) }
}

/// The number the first `count` bytes from `pos` spell, seven bits each,
/// least significant group first.
pub open spec fn varint_value(bytes: Seq<u8>, pos: int, count: nat) -> nat
    decreases count,
{
    if count == 0 {
        0
    } else {
        varint_value(bytes, pos, (count - 1) as nat) + (bytes[pos + count - 1] % 128) as nat * pow128((count - 1) as nat)
    }
}

/// How many bytes the number at `pos` takes, counting on from `count`: it
/// ends at the first byte below 128, within ten bytes and within the input.
pub open spec fn varint_len_from(bytes: Seq<u8>, pos: int, count: nat) -> Option<nat>
    decreases 11 - count,
{
    if count > 10 || pos + count > bytes.len() || count == 0 {
        None
    } else if bytes[pos + count - 1] < 128 {
        Some(count)
    } else {
        varint_len_from(bytes, pos, count + 1)
    }
}

/// The number at `pos` and the position after it. Bits past the 64th are dropped.
pub open spec fn varint_at(bytes: Seq<u8>, pos: int) -> Result<(u64, int), ParseError> {
    match varint_len_from(bytes, pos, 1) {
        Some(c) => Ok(((varint_value(bytes, pos, c) % 0x1_0000_0000_0000_0000) as u64, pos + c)),
        None => Err(ParseError::Io),
    }
}

/// A text at `pos`: its length in bytes as a number, then that many bytes of UTF-8.
pub open spec fn text_at(bytes: Seq<u8>, pos: int) -> Result<(Seq<char>, int), ParseError> {
    match varint_at(bytes, pos) {
        Err(e) => Err(e),
        Ok((n, p)) => if n > bytes.len() - p {
            Err(ParseError::Io)
        } else if valid_utf8(bytes.subrange(p, p + n)) {
            Ok((decode_utf8(bytes.subrange(p, p + n)), p + n))
        } else {
            Err(ParseError::Utf8)
        },
    }
}

/// A field: a number giving its offset, which is skipped, then a text.
pub open spec fn text_field_at(bytes: Seq<u8>, pos: int) -> Result<(Seq<char>, int), ParseError> {
    match varint_at(bytes, pos) {
        Err(e) => Err(e),
        Ok((_, p)) => text_at(bytes, p),
    }
}

/// A field: a number giving its offset, which is skipped, then a number.
pub open spec fn number_field_at(bytes: Seq<u8>, pos: int) -> Result<(u64, int), ParseError> {
    match varint_at(bytes, pos) {
        Err(e) => Err(e),
        Ok((_, p)) => varint_at(bytes, p),
    }
}

/// A badge record at `pos` and where the next record starts: a tag, the
/// length of its content, then uuid, name, icon url, description, time and
/// one more number. The next record starts where the stated length ends,
/// however many bytes the fields took; a position past what `usize` holds
/// is an error.
#[verifier::opaque]
pub open spec fn badge_at(bytes: Seq<u8>, pos: int) -> Result<(BadgeView, int), ParseError> {
    match varint_at(bytes, pos) {
        Err(e) => Err(e),
        Ok((_, after_tag)) => match varint_at(bytes, after_tag) {
            Err(e) => Err(e),
            Ok((len, start)) => match text_field_at(bytes, start) {
                Err(e) => Err(e),
                Ok((uuid, after_uuid)) => match text_field_at(bytes, after_uuid) {
                    Err(e) => Err(e),
                    Ok((name, after_name)) => match text_field_at(bytes, after_name) {
                        Err(e) => Err(e),
                        Ok((icon_url, after_icon)) => match text_field_at(bytes, after_icon) {
                            Err(e) => Err(e),
                            Ok((description, after_description)) => match number_field_at(bytes, after_description) {
                                Err(e) => Err(e),
                                Ok((time, after_time)) => match number_field_at(bytes, after_time) {
                                    Err(e) => Err(e),
                                    Ok(_) => if start + len > usize::MAX {
                                        Err(ParseError::Io)
                                    } else {
                                        Ok((BadgeView { uuid, name, icon_url, description, time }, start + len))
                                    },
                                },
                            },
                        },
                    },
                },
            },
        },
    }
}

/// The records from `pos` to the end of the input; the list ends once a
/// record's stated length reaches the end.
pub open spec fn badges_from(bytes: Seq<u8>, pos: int) -> Result<Seq<BadgeView>, ParseError>
    decreases bytes.len() - pos,
{
    if pos < 0 || pos >= bytes.len() {
        Ok(seq![])
    } else {
        match badge_at(bytes, pos) {
            Err(e) => Err(e),
            Ok((badge, next)) => if next <= pos {
                Err(ParseError::Io)
            } else if next >= bytes.len() {
                Ok(seq![badge])
            } else {
                match badges_from(bytes, next) {
                    Err(e) => Err(e),
                    Ok(rest) => Ok(seq![badge] + rest),
                }
            },
        }
    }
}

/// A whole badge list: a skipped field, the time of the last change as a
/// number field, then badge records up to the end.
pub open spec fn badges_file(bytes: Seq<u8>) -> Result<(Seq<BadgeView>, u64), ParseError> {
    match number_field_at(bytes, 0) {
        Err(e) => Err(e),
        Ok((_, after_first)) => match number_field_at(bytes, after_first) {
            Err(e) => Err(e),
            Ok((last_change, records)) => match badges_from(bytes, records) {
                Err(e) => Err(e),
                Ok(badges) => Ok((badges, last_change)),
            },
        },
    }
}

/// Relies on String::from_utf8: it accepts exactly the valid UTF-8 byte
/// strings and decodes them.
#[verifier::external_body]
fn string_from_utf8(bytes: Vec<u8>) -> (r: Option<String>)
    ensures
        r is Some <==> valid_utf8(bytes@),
        r matches Some(s) ==> s@ == decode_utf8(bytes@),
{
    String::from_utf8(bytes).ok()
}

/// Reads the number at `pos`; see `varint_at`.
pub fn read_var_int(bytes: &[u8], pos: usize) -> (r: Result<(u64, usize), ParseError>)
    requires
        pos <= bytes@.len(),
    ensures
        match r {
            Ok((v, next)) => varint_at(bytes@, pos as int) == Ok::<(u64, int), ParseError>((v, next as int)),
            Err(e) => varint_at(bytes@, pos as int) == Err::<(u64, int), ParseError>(e),
        },
{
    let len = bytes.len();
    let mut acc: u128 = 0;
    let mut scale: u128 = 1;
    let mut c: usize = 0;
    proof {
        lemma_pow128_mono(0, 10);
    }
    loop
        invariant
            len == bytes@.len(),
            pos <= len,
            c <= 10,
            acc == varint_value(bytes@, pos as int, c as nat),
            scale == pow128(c as nat),
            acc < scale,
            scale <= pow128(10),
            varint_len_from(bytes@, pos as int, 1) == varint_len_from(bytes@, pos as int, (c + 1) as nat),
        decreases 10 - c,
    {
        if c == 10 || c >= len - pos {
            return Err(ParseError::Io);
        }
        let b = bytes[pos + c];
        let part = (b % 128) as u128;
        proof {
            reveal_with_fuel(pow128, 11);
            assert(pow128(10) == 0x40_0000_0000_0000_0000);
            assert(part * scale + acc < 128 * scale) by (nonlinear_arith)
                requires part < 128, acc < scale;
        }
        acc = acc + part * scale;
        c = c + 1;
        if b < 128 {
            proof {
                assert(varint_value(bytes@, pos as int, c as nat) == acc);
            }
            let value = (acc % 0x1_0000_0000_0000_0000) as u64;
            return Ok((value, pos + c));
        }
        proof {
            assert(pow128(c as nat) == 128 * pow128((c - 1) as nat));
            lemma_pow128_mono((c - 1) as nat, 9);
            reveal_with_fuel(pow128, 11);
            assert(pow128(9) * 128 == pow128(10));
        }
        scale = scale * 128;
    }
}

/// Reads the text at `pos`; see `text_at`.
pub fn read_string(bytes: &[u8], pos: usize) -> (r: Result<(String, usize), ParseError>)
    requires
        pos <= bytes@.len(),
    ensures
        match r {
            Ok((s, next)) => text_at(bytes@, pos as int) == Ok::<(Seq<char>, int), ParseError>((s@, next as int)),
            Err(e) => text_at(bytes@, pos as int) == Err::<(Seq<char>, int), ParseError>(e),
        },
{
    let (n, start) = match read_var_int(bytes, pos) {
        Ok(found) => found,
        Err(e) => return Err(e),
    };
    proof {
        lemma_varint_in_bounds(bytes@, pos as int);
    }
    if n > (bytes.len() - start) as u64 {
        return Err(ParseError::Io);
    }
    let end = start + n as usize;
    let mut raw: Vec<u8> = Vec::new();
    for i in start..end
        invariant
            start <= end <= bytes@.len(),
            raw@ == bytes@.subrange(start as int, i as int),
    {
        raw.push(bytes[i]);
        assert(raw@ =~= bytes@.subrange(start as int, i + 1));
    }
    match string_from_utf8(raw) {
        Some(text) => Ok((text, end)),
        None => Err(ParseError::Utf8),
    }
}

/// Reads a text field at `pos`; see `text_field_at`.
fn read_text_field(bytes: &[u8], pos: usize) -> (r: Result<(String, usize), ParseError>)
    requires
        pos <= bytes@.len(),
    ensures
        match r {
            Ok((s, next)) => text_field_at(bytes@, pos as int) == Ok::<(Seq<char>, int), ParseError>((s@, next as int))
                && next <= bytes@.len(),
            Err(e) => text_field_at(bytes@, pos as int) == Err::<(Seq<char>, int), ParseError>(e),
        },
{
    match read_var_int(bytes, pos) {
        Ok((_, p)) => {
            proof {
                lemma_varint_in_bounds(bytes@, pos as int);
            }
            let r = read_string(bytes, p);
            proof {
                lemma_text_in_bounds(bytes@, p as int);
            }
            r
        },
        Err(e) => Err(e),
    }
}

/// Reads a number field at `pos`; see `number_field_at`.
fn read_number_field(bytes: &[u8], pos: usize) -> (r: Result<(u64, usize), ParseError>)
    requires
        pos <= bytes@.len(),
    ensures
        match r {
            Ok((v, next)) => number_field_at(bytes@, pos as int) == Ok::<(u64, int), ParseError>((v, next as int))
                && next <= bytes@.len(),
            Err(e) => number_field_at(bytes@, pos as int) == Err::<(u64, int), ParseError>(e),
        },
{
    match read_var_int(bytes, pos) {
        Ok((_, p)) => {
            proof {
                lemma_varint_in_bounds(bytes@, pos as int);
            }
            let r = read_var_int(bytes, p);
            proof {
                lemma_varint_in_bounds(bytes@, p as int);
            }
            r
        },
        Err(e) => Err(e),
    }
}

proof fn lemma_varint_len_from(bytes: Seq<u8>, pos: int, count: nat)
    ensures
        varint_len_from(bytes, pos, count) matches Some(c) ==> count <= c && pos + c <= bytes.len() && c >= 1,
    decreases 11 - count,
{
    if !(count > 10 || pos + count > bytes.len() || count == 0) && bytes[pos + count - 1] >= 128 {
        lemma_varint_len_from(bytes, pos, count + 1);
    }
}

proof fn lemma_varint_in_bounds(bytes: Seq<u8>, pos: int)
    ensures
        varint_at(bytes, pos) matches Ok((_, next)) ==> pos < next <= bytes.len(),
{
    lemma_varint_len_from(bytes, pos, 1);
}

proof fn lemma_text_in_bounds(bytes: Seq<u8>, pos: int)
    ensures
        text_at(bytes, pos) matches Ok((_, next)) ==> pos < next <= bytes.len(),
{
    lemma_varint_in_bounds(bytes, pos);
}

impl Badge {
    /// Reads the badge record at `pos`; returns it with the position where
    /// the next record starts. See `badge_at`.
    pub fn read(bytes: &[u8], pos: usize) -> (r: Result<(Badge, usize), ParseError>)
        requires
            pos <= bytes@.len(),
        ensures
            match r {
                Ok((b, next)) => badge_at(bytes@, pos as int) == Ok::<(BadgeView, int), ParseError>((b@, next as int)),
                Err(e) => badge_at(bytes@, pos as int) == Err::<(BadgeView, int), ParseError>(e),
            },
    {
        reveal(badge_at);
        let (_, after_tag) = match read_var_int(bytes, pos) {
            Ok(found) => found,
            Err(e) => return Err(e),
        };
        proof {
            lemma_varint_in_bounds(bytes@, pos as int);
        }
        let (content_len, start) = match read_var_int(bytes, after_tag) {
            Ok(found) => found,
            Err(e) => return Err(e),
        };
        proof {
            lemma_varint_in_bounds(bytes@, after_tag as int);
        }
        let (uuid, after_uuid) = match read_text_field(bytes, start) {
            Ok(found) => found,
            Err(e) => return Err(e),
        };
        let (name, after_name) = match read_text_field(bytes, after_uuid) {
            Ok(found) => found,
            Err(e) => return Err(e),
        };
        let (icon_url, after_icon) = match read_text_field(bytes, after_name) {
            Ok(found) => found,
            Err(e) => return Err(e),
        };
        let (description, after_description) = match read_text_field(bytes, after_icon) {
            Ok(found) => found,
            Err(e) => return Err(e),
        };
        let (time, after_time) = match read_number_field(bytes, after_description) {
            Ok(found) => found,
            Err(e) => return Err(e),
        };
        match read_number_field(bytes, after_time) {
            Ok(_) => {},
            Err(e) => return Err(e),
        }
        if content_len > (usize::MAX - start) as u64 {
            return Err(ParseError::Io);
        }
        let next = start + content_len as usize;
        Ok((Badge { uuid, name, icon_url, description, time }, next))
    }
}

proof fn lemma_badge_in_bounds(bytes: Seq<u8>, pos: int)
    ensures
        badge_at(bytes, pos) matches Ok((_, next)) ==> pos < next,
{
    reveal(badge_at);
    lemma_varint_in_bounds(bytes, pos);
    if let Ok((_, after_tag)) = varint_at(bytes, pos) {
        lemma_varint_in_bounds(bytes, after_tag);
    }
}

/// Puts `first` in front of the records of `rest`, or passes its error on.
pub open spec fn prepend(first: Seq<BadgeView>, rest: Result<Seq<BadgeView>, ParseError>) -> Result<Seq<BadgeView>, ParseError> {
    match rest {
        Ok(r) => Ok(first + r),
        Err(e) => Err(e),
    }
}

pub open spec fn badge_views(badges: Seq<Badge>) -> Seq<BadgeView> {
    badges.map_values(|b: Badge| b@)
}

impl BadgesFile {
    /// Reads a whole badge list; see `badges_file`.
    pub fn parse(bytes: &[u8]) -> (r: Result<BadgesFile, ParseError>)
        ensures
            match r {
                Ok(file) => badges_file(bytes@) == Ok::<(Seq<BadgeView>, u64), ParseError>(
                    (badge_views(file.badges@), file.last_change),
                ),
                Err(e) => badges_file(bytes@) == Err::<(Seq<BadgeView>, u64), ParseError>(e),
            },
    {
        let (_, after_first) = match read_number_field(bytes, 0) {
            Ok(found) => found,
            Err(e) => return Err(e),
        };
        let (last_change, records) = match read_number_field(bytes, after_first) {
            Ok(found) => found,
            Err(e) => return Err(e),
        };
        let len = bytes.len();
        let mut pos = records;
        let mut badges: Vec<Badge> = Vec::new();
        assert(badge_views(badges@) =~= Seq::<BadgeView>::empty());
        assert(prepend(Seq::<BadgeView>::empty(), badges_from(bytes@, records as int)) =~= badges_from(bytes@, records as int)) by {
            if let Ok(r) = badges_from(bytes@, records as int) {
                assert(Seq::<BadgeView>::empty() + r =~= r);
            }
        }
        while pos < len
            invariant
                len == bytes@.len(),
                records <= pos <= len,
                badges_file(bytes@) == match badges_from(bytes@, records as int) {
                    Err(e) => Err(e),
                    Ok(b) => Ok::<(Seq<BadgeView>, u64), ParseError>((b, last_change)),
                },
                badges_from(bytes@, records as int) == prepend(badge_views(badges@), badges_from(bytes@, pos as int)),
            decreases len - pos,
        {
            proof {
                lemma_badge_in_bounds(bytes@, pos as int);
            }
            match Badge::read(bytes, pos) {
                Ok((badge, next)) => {
                    let ghost before = badge_views(badges@);
                    let ghost rest = badges_from(bytes@, next as int);
                    assert(badges_from(bytes@, pos as int) == prepend(seq![badge@], rest)) by {
                        if next >= len {
                            assert(seq![badge@] + Seq::<BadgeView>::empty() =~= seq![badge@]);
                        }
                    }
                    badges.push(badge);
                    assert(badge_views(badges@) =~= before + seq![badge@]);
                    assert(prepend(before, prepend(seq![badge@], rest)) == prepend(badge_views(badges@), rest)) by {
                        if let Ok(r) = rest {
                            assert(before + (seq![badge@] + r) =~= badge_views(badges@) + r);
                        }
                    }
                    pos = if next >= len { len } else { next };
                },
                Err(e) => {
                    assert(badges_from(bytes@, pos as int) == Err::<Seq<BadgeView>, ParseError>(e));
                    assert(badges_from(bytes@, records as int) == Err::<Seq<BadgeView>, ParseError>(e));
                    assert(badges_file(bytes@) == Err::<(Seq<BadgeView>, u64), ParseError>(e));
                    return Err(e);
                },
            }
        }
        assert(badges_from(bytes@, pos as int) == Ok::<Seq<BadgeView>, ParseError>(seq![]));
        assert(badge_views(badges@) + seq![] =~= badge_views(badges@));
        Ok(BadgesFile { badges, last_change })
    }
}

proof fn lemma_pow128_mono(a: nat, b: nat)
    requires
        a <= b,
    ensures
        pow128(a) <= pow128(b),
    decreases b,
{
    if a < b {
        lemma_pow128_mono(a, (b - 1) as nat);
    }
}

} // verus!
