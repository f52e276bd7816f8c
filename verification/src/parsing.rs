//! Reading numbers, and the day of an EXIF date-time, out of text.
use vstd::prelude::*;
use vstd::utf8::{encode_utf8, is_char_boundary};
use crate::calendar::{valid_ymd, Date};
use crate::text::{trim, trim_white};

verus! {

pub open spec fn is_digit(b: u8) -> bool {
    48 <= b <= 57
}

/// The number written by the decimal digits `b`; none unless `b` is one or
/// more digits.
pub open spec fn digits_value(b: Seq<u8>) -> Option<nat>
    decreases b.len(),
{
    if b.len() == 0 || !is_digit(b.last()) {
        None
    } else if b.len() == 1 {
        Some((b[0] - 48) as nat)
    } else {
        match digits_value(b.drop_last()) {
            Some(v) => Some(v * 10 + (b.last() - 48) as nat),
            None => None,
        }
    }
}

/// What `i32::from_str` gives for the text `b`: an optional `+` or `-`,
/// then digits, within the range of `i32`.
pub open spec fn parse_i32(b: Seq<u8>) -> Option<int> {
    let v = if b.len() > 0 && b[0] == 43 {
        match digits_value(b.drop_first()) {
            Some(n) => Some(n as int),
            None => None,
        }
    } else if b.len() > 0 && b[0] == 45 {
        match digits_value(b.drop_first()) {
            Some(n) => Some(-n),
            None => None,
        }
    } else {
        match digits_value(b) {
            Some(n) => Some(n as int),
            None => None,
        }
    };
    match v {
        Some(n) if i32::MIN <= n <= i32::MAX => Some(n),
        _ => None,
    }
}

/// What `u32::from_str` gives for the text `b`: an optional `+`, then
/// digits, within the range of `u32`.
pub open spec fn parse_u32(b: Seq<u8>) -> Option<int> {
    let v = if b.len() > 0 && b[0] == 43 {
        digits_value(b.drop_first())
    } else {
        digits_value(b)
    };
    match v {
        Some(n) if n <= u32::MAX => Some(n as int),
        _ => None,
    }
}

/// The bytes of the trimmed text.
pub open spec fn trimmed_bytes(s: Seq<char>) -> Seq<u8> {
    encode_utf8(trim_white(s))
}

/// Year, month and day read from `YYYY:MM:DD…` (bytes 0..4, 5..7 and 8..10
/// of the trimmed text); none when the text is shorter than ten bytes or a
/// field is not a number.
pub open spec fn exif_fields(s: Seq<char>) -> Option<(int, int, int)> {
    let b = trimmed_bytes(s);
    if b.len() < 10 {
        None
    } else {
        match (
            parse_i32(b.subrange(0, 4)),
            parse_u32(b.subrange(5, 7)),
            parse_u32(b.subrange(8, 10)),
        ) {
            (Some(y), Some(m), Some(d)) => Some((y, m, d)),
            _ => None,
        }
    }
}

/// The text can be cut into its fields: each cut that is reached falls on
/// a character boundary. (A field that is not a number ends the reading
/// before the later cuts.)
pub open spec fn exif_cuts_valid(s: Seq<char>) -> bool {
    let b = trimmed_bytes(s);
    b.len() < 10 || (is_char_boundary(b, 4) && (parse_i32(b.subrange(0, 4)) is None || (
    is_char_boundary(b, 5) && is_char_boundary(b, 7) && (parse_u32(b.subrange(5, 7)) is None || (
    is_char_boundary(b, 8) && is_char_boundary(b, 10))))))
}

/// Reads the digits of `b[from..to]`.
fn digits_of(b: &[u8], from: usize, to: usize) -> (r: Option<u32>)
    requires
        from <= to <= b@.len(),
        to - from <= 9,
    ensures
        match r {
            Some(v) => digits_value(b@.subrange(from as int, to as int)) == Some(v as nat),
            None => digits_value(b@.subrange(from as int, to as int)) is None,
        },
{
    if from == to {
        return None;
    }
    let mut v: u32 = 0;
    let mut i = from;
    while i < to
        invariant
            from <= i <= to <= b@.len(),
            to - from <= 9,
            from < to,
            i > from ==> digits_value(b@.subrange(from as int, i as int)) == Some(v as nat),
            v < pow10((i - from) as nat),
        decreases to - i,
    {
        let c = b[i];
        let ghost prefix = b@.subrange(from as int, i as int + 1);
        assert(prefix.drop_last() =~= b@.subrange(from as int, i as int));
        if c < 48 || c > 57 {
            proof {
                lemma_digits_stop(b@.subrange(from as int, to as int), (i - from) as int);
            }
            return None;
        }
        proof {
            lemma_pow10_bound((i - from) as nat);
        }
        v = v * 10 + (c - 48) as u32;
        i = i + 1;
    }
    Some(v)
}

pub open spec fn pow10(n: nat) -> nat
    decreases n,
{
    if n == 0 {
        1
    } else {
        10 * pow10((n - 1) as nat)
    }
}

proof fn lemma_pow10_bound(n: nat)
    requires
        n <= 8,
    ensures
        pow10(n) <= 100_000_000,
        pow10(n + 1) == 10 * pow10(n),
{
    reveal_with_fuel(pow10, 9);
}

/// A non-digit anywhere in a text makes it no number.
proof fn lemma_digits_stop(b: Seq<u8>, k: int)
    requires
        0 <= k < b.len(),
        !is_digit(b[k]),
    ensures
        digits_value(b) is None,
    decreases b.len(),
{
    if k < b.len() - 1 {
        lemma_digits_stop(b.drop_last(), k);
    }
}

/// Reads `b[from..to]` as `i32::from_str` would, for at most four bytes.
fn parse_i32_of(b: &[u8], from: usize, to: usize) -> (r: Option<i32>)
    requires
        from <= to <= b@.len(),
        to - from <= 4,
    ensures
        match r {
            Some(v) => parse_i32(b@.subrange(from as int, to as int)) == Some(v as int),
            None => parse_i32(b@.subrange(from as int, to as int)) is None,
        },
{
    let ghost t = b@.subrange(from as int, to as int);
    if from < to && (b[from] == 43 || b[from] == 45) {
        assert(t.drop_first() =~= b@.subrange(from + 1, to as int));
        match digits_of(b, from + 1, to) {
            Some(v) => {
                proof {
                    lemma_digits_small(b@.subrange(from + 1, to as int));
                }
                if b[from] == 45 {
                    Some(-(v as i32))
                } else {
                    Some(v as i32)
                }
            },
            None => None,
        }
    } else {
        match digits_of(b, from, to) {
            Some(v) => {
                proof {
                    lemma_digits_small(t);
                }
                Some(v as i32)
            },
            None => None,
        }
    }
}

/// Reads `b[from..to]` as `u32::from_str` would, for at most four bytes.
fn parse_u32_of(b: &[u8], from: usize, to: usize) -> (r: Option<u32>)
    requires
        from <= to <= b@.len(),
        to - from <= 4,
    ensures
        match r {
            Some(v) => parse_u32(b@.subrange(from as int, to as int)) == Some(v as int),
            None => parse_u32(b@.subrange(from as int, to as int)) is None,
        },
{
    let ghost t = b@.subrange(from as int, to as int);
    if from < to && b[from] == 43 {
        assert(t.drop_first() =~= b@.subrange(from + 1, to as int));
        let r = digits_of(b, from + 1, to);
        proof {
            lemma_digits_small(b@.subrange(from + 1, to as int));
        }
        r
    } else {
        let r = digits_of(b, from, to);
        proof {
            lemma_digits_small(t);
        }
        r
    }
}

/// At most four digits write a number below 10000.
proof fn lemma_digits_small(b: Seq<u8>)
    requires
        b.len() <= 4,
    ensures
        digits_value(b) matches Some(v) ==> v < pow10(b.len()) && v < 10000,
    decreases b.len(),
{
    if b.len() > 1 {
        lemma_digits_small(b.drop_last());
    }
    reveal_with_fuel(pow10, 5);
}

/// The year, month and day an EXIF date-time text gives, when its fields
/// are cut at characters, are numbers and name an existing day.
pub open spec fn spec_exif_day(s: Seq<char>) -> Option<(int, int, int)> {
    if !exif_cuts_valid(s) {
        None
    } else {
        match exif_fields(s) {
            Some((y, m, d)) => if valid_ymd(y, m, d) {
                Some((y, m, d))
            } else {
                None
            },
            None => None,
        }
    }
}

/// The day of an EXIF date-time text such as `2026:04:15 10:20:30`: the
/// text is trimmed, and its bytes 0..4, 5..7 and 8..10 are read as year,
/// month and day. None when the text is too short, a field is no number, a
/// field's bytes do not start and end at characters, or the day does not
/// exist.
pub fn parse_exif_datetime(s: &str) -> (r: Option<Date>)
    ensures
        match r {
            Some(d) => exif_cuts_valid(s@) && exif_fields(s@) == Some((d.y(), d.m(), d.d())) && valid_ymd(
                d.y(),
                d.m(),
                d.d(),
            ),
            None => !exif_cuts_valid(s@) || match exif_fields(s@) {
                Some((y, m, d)) => !valid_ymd(y, m, d),
                None => true,
            },
        },
{
    let t = trim(s);
    let b = t.as_bytes();
    assert(b@ == trimmed_bytes(s@));
    if b.len() < 10 {
        return None;
    }
    if !t.is_char_boundary(4) {
        return None;
    }
    let year = match parse_i32_of(b, 0, 4) {
        Some(y) => y,
        None => return None,
    };
    if !(t.is_char_boundary(5) && t.is_char_boundary(7)) {
        return None;
    }
    let month = match parse_u32_of(b, 5, 7) {
        Some(m) => m,
        None => return None,
    };
    if !(t.is_char_boundary(8) && t.is_char_boundary(10)) {
        return None;
    }
    let day = match parse_u32_of(b, 8, 10) {
        Some(d) => d,
        None => return None,
    };
    Date::from_ymd_opt(year, month, day)
}

/// A prefix of a number's digits writes a number not above it.
proof fn lemma_digits_prefix(b: Seq<u8>, k: int)
    requires
        1 <= k <= b.len(),
        digits_value(b) is Some,
    ensures
        digits_value(b.take(k)) is Some,
        digits_value(b.take(k)).unwrap() <= digits_value(b).unwrap(),
    decreases b.len(),
{
    if k < b.len() {
        lemma_digits_prefix(b.drop_last(), k);
        assert(b.drop_last().take(k) == b.take(k));
    } else {
        assert(b.take(k) == b);
    }
}

/// Reads `b[from..]` as digits, none above `u32::MAX`.
fn u32_digits(b: &[u8], from: usize) -> (r: Option<u32>)
    requires
        from <= b@.len(),
    ensures
        match r {
            Some(v) => digits_value(b@.skip(from as int)) == Some(v as nat),
            None => match digits_value(b@.skip(from as int)) {
                Some(v) => v > u32::MAX,
                None => true,
            },
        },
{
    let ghost t = b@.skip(from as int);
    if from == b.len() {
        return None;
    }
    let mut v: u64 = 0;
    let mut i = from;
    while i < b.len()
        invariant
            from <= i <= b@.len(),
            from < b@.len(),
            t == b@.skip(from as int),
            i > from ==> digits_value(t.take(i - from)) == Some(v as nat),
            i == from ==> v == 0,
            v <= u32::MAX,
        decreases b@.len() - i,
    {
        let c = b[i];
        let ghost k = i - from;
        assert(t.take(k + 1).drop_last() =~= t.take(k));
        assert(t.take(k + 1).last() == c);
        if c < 48 || c > 57 {
            proof {
                lemma_digits_stop(t, k);
            }
            return None;
        }
        let ghost old_v = v;
        v = v * 10 + (c - 48) as u64;
        proof {
            let p = t.take(k + 1);
            assert(p.last() == c);
            if k == 0 {
                assert(p.len() == 1);
                assert(digits_value(p) == Some((p[0] - 48) as nat));
            } else {
                assert(digits_value(p.drop_last()) == Some(old_v as nat));
            }
            assert(digits_value(p) == Some(v as nat));
        }
        i = i + 1;
        if v > 4294967295 {
            proof {
                if digits_value(t) is Some {
                    lemma_digits_prefix(t, k + 1);
                }
            }
            return None;
        }
    }
    assert(t.take(b@.len() - from) =~= t);
    Some(v as u32)
}

/// What `str::parse::<u32>` gives for `s`.
pub fn parse_u32_text(s: &str) -> (r: Option<u32>)
    ensures
        match r {
            Some(v) => parse_u32(encode_utf8(s@)) == Some(v as int),
            None => parse_u32(encode_utf8(s@)) is None,
        },
{
    let b = s.as_bytes();
    if b.len() > 0 && b[0] == 43 {
        assert(b@.skip(1) =~= b@.drop_first());
        u32_digits(b, 1)
    } else {
        assert(b@.skip(0) =~= b@);
        u32_digits(b, 0)
    }
}

} // verus!
