use std::fmt::Write;
use vstd::prelude::*;
use vstd::string::*;
use crate::utils_module::parse_utils::{all_digits, dec_chars, dec_val, digit_val, is_digit_char,
    lemma_dec_chars_val, parse_u64, print_u64};

verus! {

/// A calendar date as plain values: what the clock source reports and the
/// formatter reads.
#[derive(Debug, Clone, Copy, PartialEq, Eq, Structural)]
pub struct DateParts {
    pub year: u64,
    pub month: u64,
    pub day: u64,
}

impl DateParts {
    /// The fields form a date the calendar can hold.
    pub open spec fn wf(&self) -> bool {
        1 <= self.month <= 12 && 1 <= self.day <= 31 && self.year <= 9999
    }
}

/// A calendar date and a time of day as plain values.
#[derive(Debug, Clone, Copy, PartialEq, Eq, Structural)]
pub struct DateTimeParts {
    pub year: u64,
    pub month: u64,
    pub day: u64,
    pub hour: u64,
    pub minute: u64,
    pub second: u64,
}

impl DateTimeParts {
    pub open spec fn wf(&self) -> bool {
        &&& 1 <= self.month <= 12
        &&& 1 <= self.day <= 31
        &&& self.year <= 9999
        &&& self.hour < 24
        &&& self.minute < 60
        &&& self.second < 60
    }

    pub open spec fn date(&self) -> DateParts {
        DateParts { year: self.year, month: self.month, day: self.day }
    }
}

/// A format string the formatter does not support.
#[derive(Debug, Clone, Copy, PartialEq, Eq, Structural)]
pub struct TimeFormatError;

/// The numeral of n, zero-padded on the left to at least the width.
pub open spec fn zero_pad(width: int, n: int) -> Seq<char> {
    if dec_chars(n).len() >= width {
        dec_chars(n)
    } else {
        Seq::new((width - dec_chars(n).len()) as nat, |i: int| '0') + dec_chars(n)
    }
}

/// The formatted date-time: the format text with each supported directive
/// replaced by the zero-padded field, or None on an unsupported directive.
pub open spec fn spec_format_dt(fmt: Seq<char>, dt: DateTimeParts) -> Option<Seq<char>>
    decreases fmt.len(),
{
    if fmt.len() == 0 {
        Some(Seq::<char>::empty())
    } else if fmt[0] == '%' {
        if fmt.len() < 2 {
            None
        } else {
            let piece = spec_directive(fmt[1], dt);
            match (piece, spec_format_dt(fmt.skip(2), dt)) {
                (Some(p), Some(r)) => Some(p + r),
                _ => None,
            }
        }
    } else {
        match spec_format_dt(fmt.skip(1), dt) {
            Some(r) => Some(seq![fmt[0]] + r),
            None => None,
        }
    }
}

/// What one directive character stands for, or None when unsupported.
pub open spec fn spec_directive(d: char, dt: DateTimeParts) -> Option<Seq<char>> {
    if d == 'Y' {
        Some(zero_pad(4, dt.year as int))
    } else if d == 'm' {
        Some(zero_pad(2, dt.month as int))
    } else if d == 'd' {
        Some(zero_pad(2, dt.day as int))
    } else if d == 'H' {
        Some(zero_pad(2, dt.hour as int))
    } else if d == 'M' {
        Some(zero_pad(2, dt.minute as int))
    } else if d == 'S' {
        Some(zero_pad(2, dt.second as int))
    } else {
        None
    }
}

/// The formatted date: as `spec_format_dt` with the time fields out of
/// reach, so the time directives are unsupported.
pub open spec fn spec_format_date(fmt: Seq<char>, d: DateParts) -> Option<Seq<char>>
    decreases fmt.len(),
{
    if fmt.len() == 0 {
        Some(Seq::<char>::empty())
    } else if fmt[0] == '%' {
        if fmt.len() < 2 {
            None
        } else {
            let piece = spec_date_directive(fmt[1], d);
            match (piece, spec_format_date(fmt.skip(2), d)) {
                (Some(p), Some(r)) => Some(p + r),
                _ => None,
            }
        }
    } else {
        match spec_format_date(fmt.skip(1), d) {
            Some(r) => Some(seq![fmt[0]] + r),
            None => None,
        }
    }
}

pub open spec fn spec_date_directive(c: char, d: DateParts) -> Option<Seq<char>> {
    if c == 'Y' {
        Some(zero_pad(4, d.year as int))
    } else if c == 'm' {
        Some(zero_pad(2, d.month as int))
    } else if c == 'd' {
        Some(zero_pad(2, d.day as int))
    } else {
        None
    }
}

/// Prints a number zero-padded on the left to at least the width.
fn pad_u64(width: usize, n: u64) -> (s: String)
    ensures
        s@ == zero_pad(width as int, n as int),
{
    proof {
        lemma_dec_chars_val(n as int);
    }
    let digits: String = print_u64(n);
    let dl: usize = digits.as_str().unicode_len();
    if dl >= width {
        assert(digits@ == zero_pad(width as int, n as int));
        digits
    } else {
        let mut s: String = String::new();
        let mut i: usize = 0;
        while i < width - dl
            invariant
                0 <= i <= width - dl,
                dl == dec_chars(n as int).len(),
                s@ =~= Seq::new(i as nat, |j: int| '0'),
            decreases width - dl - i,
        {
            s.push('0');
            assert(s@ =~= Seq::new((i + 1) as nat, |j: int| '0'));
            i = i + 1;
        }
        s.append(digits.as_str());
        assert(s@ =~= zero_pad(width as int, n as int));
        s
    }
}

/// Relies on chrono: Utc::now and the NaiveDateTime accessors, handing the
/// clock fields out raw. The current time depends on the clock, so only
/// the documented calendar ranges are promised: month 1..=12, day 1..=31,
/// hour below 24, minute and second below 60.
#[verifier::external_body]
fn utc_now_fields() -> (r: (i64, u64, u64, u64, u64, u64))
    ensures
        1 <= r.1 <= 12,
        1 <= r.2 <= 31,
        r.3 < 24,
        r.4 < 60,
        r.5 < 60,
{
    let utc_now: chrono::DateTime<chrono::Utc> = chrono::Utc::now();
    let t: chrono::NaiveDateTime = utc_now.naive_utc();
    (
        chrono::Datelike::year(&t) as i64,
        chrono::Datelike::month(&t) as u64,
        chrono::Datelike::day(&t) as u64,
        chrono::Timelike::hour(&t) as u64,
        chrono::Timelike::minute(&t) as u64,
        chrono::Timelike::second(&t) as u64,
    )
}

/// The clock's year clamped into the range the formatter's four-digit
/// year field can hold.
fn clamp_year(y: i64) -> (r: u64)
    ensures
        r <= 9999,
        0 <= y <= 9999 ==> r == y,
{
    if y < 0 {
        0
    } else if y > 9999 {
        9999
    } else {
        y as u64
    }
}

/// The current UTC date, its year clamped into the calendar range.
pub fn get_current_utc_naivedate() -> (r: DateParts)
    ensures
        r.wf(),
{
    let f: (i64, u64, u64, u64, u64, u64) = utc_now_fields();
    DateParts { year: clamp_year(f.0), month: f.1, day: f.2 }
}

/// The current UTC date and time, its year clamped into the calendar
/// range.
pub fn get_currnet_utc_naivedatetime() -> (r: DateTimeParts)
    ensures
        r.wf(),
{
    let f: (i64, u64, u64, u64, u64, u64) = utc_now_fields();
    DateTimeParts {
        year: clamp_year(f.0),
        month: f.1,
        day: f.2,
        hour: f.3,
        minute: f.4,
        second: f.5,
    }
}

/// Renders the verified grammar: the directives %Y, %m, %d, %H, %M and %S
/// plus literal characters, exactly as `spec_format_dt` describes.
fn render_dt(naive_date: DateTimeParts, fmt: &str) -> (r: Result<
    String,
    TimeFormatError,
>)
    ensures
        (match r {
            Ok(s) => spec_format_dt(fmt@, naive_date) == Some(s@),
            Err(_) => spec_format_dt(fmt@, naive_date) is None,
        }),
{
    let len: usize = fmt.unicode_len();
    let mut out: String = String::new();
    proof {
        assert(fmt@.skip(0) =~= fmt@);
        if spec_format_dt(fmt@, naive_date) is Some {
            assert(out@ + spec_format_dt(fmt@, naive_date).unwrap() =~= spec_format_dt(
                fmt@,
                naive_date,
            ).unwrap());
        }
    }
    let mut i: usize = 0;
    while i < len
        invariant
            0 <= i <= len,
            len == fmt@.len(),
            spec_format_dt(fmt@, naive_date) == (match spec_format_dt(
                fmt@.skip(i as int),
                naive_date,
            ) {
                Some(rest) => Some(out@ + rest),
                None => None::<Seq<char>>,
            }),
        decreases len - i,
    {
        let c: char = fmt.get_char(i);
        assert(fmt@.skip(i as int)[0] == fmt@[i as int]);
        if c == '%' {
            if i + 1 >= len {
                assert(fmt@.skip(i as int).len() < 2);
                assert(spec_format_dt(fmt@, naive_date) is None);
                return Err(TimeFormatError);
            }
            let d: char = fmt.get_char(i + 1);
            assert(fmt@.skip(i as int)[1] == fmt@[i + 1]);
            assert(fmt@.skip(i as int).skip(2) =~= fmt@.skip(i + 2));
            let piece: String = match d {
                'Y' => pad_u64(4, naive_date.year),
                'm' => pad_u64(2, naive_date.month),
                'd' => pad_u64(2, naive_date.day),
                'H' => pad_u64(2, naive_date.hour),
                'M' => pad_u64(2, naive_date.minute),
                'S' => pad_u64(2, naive_date.second),
                _ => {
                    assert(spec_directive(fmt@[i + 1], naive_date) is None);
                    assert(spec_format_dt(fmt@, naive_date) is None);
                    return Err(TimeFormatError);
                },
            };
            assert(Some(piece@) == spec_directive(fmt@[i + 1], naive_date));
            let ghost out0 = out@;
            out.append(piece.as_str());
            proof {
                let rest2 = spec_format_dt(fmt@.skip(i + 2), naive_date);
                if rest2 is Some {
                    assert(out0 + (piece@ + rest2.unwrap()) =~= out@ + rest2.unwrap());
                }
            }
            i = i + 2;
        } else {
            assert(fmt@.skip(i as int).skip(1) =~= fmt@.skip(i + 1));
            let ghost out0 = out@;
            out.push(c);
            proof {
                let rest1 = spec_format_dt(fmt@.skip(i + 1), naive_date);
                if rest1 is Some {
                    assert(out0 + (seq![fmt@[i as int]] + rest1.unwrap()) =~= out@
                        + rest1.unwrap());
                }
            }
            i = i + 1;
        }
    }
    assert(fmt@.skip(len as int) =~= Seq::<char>::empty());
    assert(out@ + Seq::<char>::empty() =~= out@);
    Ok(out)
}

/// Renders the verified date grammar: the directives %Y, %m and %d plus
/// literal characters, exactly as `spec_format_date` describes.
fn render_date(naive_date: DateParts, fmt: &str) -> (r: Result<
    String,
    TimeFormatError,
>)
    ensures
        (match r {
            Ok(s) => spec_format_date(fmt@, naive_date) == Some(s@),
            Err(_) => spec_format_date(fmt@, naive_date) is None,
        }),
{
    let len: usize = fmt.unicode_len();
    let mut out: String = String::new();
    proof {
        assert(fmt@.skip(0) =~= fmt@);
        if spec_format_date(fmt@, naive_date) is Some {
            assert(out@ + spec_format_date(fmt@, naive_date).unwrap() =~= spec_format_date(
                fmt@,
                naive_date,
            ).unwrap());
        }
    }
    let mut i: usize = 0;
    while i < len
        invariant
            0 <= i <= len,
            len == fmt@.len(),
            spec_format_date(fmt@, naive_date) == (match spec_format_date(
                fmt@.skip(i as int),
                naive_date,
            ) {
                Some(rest) => Some(out@ + rest),
                None => None::<Seq<char>>,
            }),
        decreases len - i,
    {
        let c: char = fmt.get_char(i);
        assert(fmt@.skip(i as int)[0] == fmt@[i as int]);
        if c == '%' {
            if i + 1 >= len {
                assert(fmt@.skip(i as int).len() < 2);
                assert(spec_format_date(fmt@, naive_date) is None);
                return Err(TimeFormatError);
            }
            let d: char = fmt.get_char(i + 1);
            assert(fmt@.skip(i as int)[1] == fmt@[i + 1]);
            assert(fmt@.skip(i as int).skip(2) =~= fmt@.skip(i + 2));
            let piece: String = match d {
                'Y' => pad_u64(4, naive_date.year),
                'm' => pad_u64(2, naive_date.month),
                'd' => pad_u64(2, naive_date.day),
                _ => {
                    assert(spec_date_directive(fmt@[i + 1], naive_date) is None);
                    assert(spec_format_date(fmt@, naive_date) is None);
                    return Err(TimeFormatError);
                },
            };
            assert(Some(piece@) == spec_date_directive(fmt@[i + 1], naive_date));
            let ghost out0 = out@;
            out.append(piece.as_str());
            proof {
                let rest2 = spec_format_date(fmt@.skip(i + 2), naive_date);
                if rest2 is Some {
                    assert(out0 + (piece@ + rest2.unwrap()) =~= out@ + rest2.unwrap());
                }
            }
            i = i + 2;
        } else {
            assert(fmt@.skip(i as int).skip(1) =~= fmt@.skip(i + 1));
            let ghost out0 = out@;
            out.push(c);
            proof {
                let rest1 = spec_format_date(fmt@.skip(i + 1), naive_date);
                if rest1 is Some {
                    assert(out0 + (seq![fmt@[i as int]] + rest1.unwrap()) =~= out@
                        + rest1.unwrap());
                }
            }
            i = i + 1;
        }
    }
    assert(fmt@.skip(len as int) =~= Seq::<char>::empty());
    assert(out@ + Seq::<char>::empty() =~= out@);
    Ok(out)
}

/// A date string that does not match its format, or fields outside the
/// calendar ranges.
#[derive(Debug, Clone, Copy, PartialEq, Eq, Structural)]
pub struct TimeParseError;

/// The zeroed field record parsing starts from; a field its format never
/// mentions keeps the zero and fails the range check.
pub open spec fn default_dt() -> DateTimeParts {
    DateTimeParts { year: 0, month: 0, day: 0, hour: 0, minute: 0, second: 0 }
}

pub open spec fn default_date() -> DateParts {
    DateParts { year: 0, month: 0, day: 0 }
}

/// Parses text against a format, directive by directive: each of the
/// supported directives %Y (four digits), %m, %d, %H, %M and %S (two
/// digits each) consumes its fixed-width numeral, every other format
/// character must match literally, and the whole text must be consumed.
pub open spec fn spec_parse_dt(fmt: Seq<char>, s: Seq<char>, acc: DateTimeParts) -> Option<
    DateTimeParts,
>
    decreases fmt.len(),
{
    if fmt.len() == 0 {
        if s.len() == 0 {
            Some(acc)
        } else {
            None
        }
    } else if fmt[0] == '%' {
        if fmt.len() < 2 {
            None
        } else {
            let d = fmt[1];
            let w: int = if d == 'Y' {
                4
            } else {
                2
            };
            if d == 'Y' || d == 'm' || d == 'd' || d == 'H' || d == 'M' || d == 'S' {
                if s.len() >= w && all_digits(s.take(w)) {
                    let v = dec_val(s.take(w)) as u64;
                    let acc2 = if d == 'Y' {
                        DateTimeParts { year: v, ..acc }
                    } else if d == 'm' {
                        DateTimeParts { month: v, ..acc }
                    } else if d == 'd' {
                        DateTimeParts { day: v, ..acc }
                    } else if d == 'H' {
                        DateTimeParts { hour: v, ..acc }
                    } else if d == 'M' {
                        DateTimeParts { minute: v, ..acc }
                    } else {
                        DateTimeParts { second: v, ..acc }
                    };
                    spec_parse_dt(fmt.skip(2), s.skip(w), acc2)
                } else {
                    None
                }
            } else {
                None
            }
        }
    } else {
        if s.len() >= 1 && s[0] == fmt[0] {
            spec_parse_dt(fmt.skip(1), s.skip(1), acc)
        } else {
            None
        }
    }
}

/// Parses the verified grammar, as `spec_parse_dt` describes, and accepts
/// only fields inside the calendar ranges.
fn parse_dt_exact(date: &str, format: &str) -> (r: Result<
    DateTimeParts,
    TimeParseError,
>)
    ensures
        (match r {
            Ok(dt) => spec_parse_dt(format@, date@, default_dt()) == Some(dt) && dt.wf(),
            Err(_) => (match spec_parse_dt(format@, date@, default_dt()) {
                Some(dt) => !dt.wf(),
                None => true,
            }),
        }),
{
    let flen: usize = format.unicode_len();
    let slen: usize = date.unicode_len();
    let mut acc: DateTimeParts = DateTimeParts {
        year: 0,
        month: 0,
        day: 0,
        hour: 0,
        minute: 0,
        second: 0,
    };
    let mut i: usize = 0;
    let mut j: usize = 0;
    proof {
        assert(format@.skip(0) =~= format@);
        assert(date@.skip(0) =~= date@);
    }
    while i < flen
        invariant
            0 <= i <= flen,
            0 <= j <= slen,
            flen == format@.len(),
            slen == date@.len(),
            spec_parse_dt(format@, date@, default_dt()) == spec_parse_dt(
                format@.skip(i as int),
                date@.skip(j as int),
                acc,
            ),
        decreases flen - i,
    {
        let c: char = format.get_char(i);
        assert(format@.skip(i as int)[0] == format@[i as int]);
        if c == '%' {
            if i + 1 >= flen {
                assert(format@.skip(i as int).len() < 2);
                return Err(TimeParseError);
            }
            let d: char = format.get_char(i + 1);
            assert(format@.skip(i as int)[1] == format@[i + 1]);
            let supported: bool = d == 'Y' || d == 'm' || d == 'd' || d == 'H' || d == 'M' || d
                == 'S';
            if !supported {
                return Err(TimeParseError);
            }
            let w: usize = if d == 'Y' {
                4
            } else {
                2
            };
            if w > slen - j {
                assert(date@.skip(j as int).len() < w);
                return Err(TimeParseError);
            }
            let piece: &str = date.substring_char(j, j + w);
            assert(piece@ =~= date@.skip(j as int).take(w as int));
            let v: u64 = match parse_u64(piece) {
                Some(v) => v,
                None => {
                    proof {
                        if all_digits(piece@) {
                            lemma_dec_val_bounded(piece@);
                            crate::utils_module::parse_utils::lemma_dec_val_nonneg(piece@);
                        }
                    }
                    assert(!all_digits(date@.skip(j as int).take(w as int)));
                    return Err(TimeParseError);
                },
            };
            proof {
                lemma_dec_val_bounded(piece@);
                crate::utils_module::parse_utils::lemma_dec_val_nonneg(piece@);
            }
            assert(all_digits(date@.skip(j as int).take(w as int)));
            assert(v == dec_val(date@.skip(j as int).take(w as int)));
            if d == 'Y' {
                acc = DateTimeParts { year: v, ..acc };
            } else if d == 'm' {
                acc = DateTimeParts { month: v, ..acc };
            } else if d == 'd' {
                acc = DateTimeParts { day: v, ..acc };
            } else if d == 'H' {
                acc = DateTimeParts { hour: v, ..acc };
            } else if d == 'M' {
                acc = DateTimeParts { minute: v, ..acc };
            } else {
                acc = DateTimeParts { second: v, ..acc };
            }
            assert(format@.skip(i as int).skip(2) =~= format@.skip(i + 2));
            assert(date@.skip(j as int).skip(w as int) =~= date@.skip(j + w));
            i = i + 2;
            j = j + w;
        } else {
            if j >= slen {
                assert(date@.skip(j as int).len() == 0);
                return Err(TimeParseError);
            }
            let sc: char = date.get_char(j);
            assert(date@.skip(j as int)[0] == date@[j as int]);
            if sc != c {
                return Err(TimeParseError);
            }
            assert(format@.skip(i as int).skip(1) =~= format@.skip(i + 1));
            assert(date@.skip(j as int).skip(1) =~= date@.skip(j + 1));
            i = i + 1;
            j = j + 1;
        }
    }
    assert(format@.skip(flen as int).len() == 0);
    if j < slen {
        assert(date@.skip(j as int).len() > 0);
        return Err(TimeParseError);
    }
    assert(date@.skip(j as int).len() == 0);
    if 1 <= acc.month && acc.month <= 12 && 1 <= acc.day && acc.day <= 31 && acc.year <= 9999
        && acc.hour < 24 && acc.minute < 60 && acc.second < 60 {
        Ok(acc)
    } else {
        Err(TimeParseError)
    }
}

/// A numeral of at most four digits fits well under the maximum.
proof fn lemma_dec_val_bounded(s: Seq<char>)
    requires
        all_digits(s),
        s.len() <= 4,
    ensures
        dec_val(s) <= (if s.len() == 0 {
            0int
        } else if s.len() == 1 {
            9int
        } else if s.len() == 2 {
            99int
        } else if s.len() == 3 {
            999int
        } else {
            9999int
        }),
        dec_val(s) >= 0,
    decreases s.len(),
{
    if s.len() > 0 {
        assert(all_digits(s.drop_last())) by {
            assert(forall|i: int| 0 <= i < s.len() - 1 ==> s.drop_last()[i] == #[trigger] s[i]);
        }
        lemma_dec_val_bounded(s.drop_last());
        assert(is_digit_char(s.last())) by {
            assert(s[s.len() - 1] == s.last());
        }
        assert(0 <= digit_val(s.last()) <= 9);
        assert(dec_val(s) == dec_val(s.drop_last()) * 10 + digit_val(s.last()));
    }
}

// ---------------------------------------------------------------------------
// The rest of the chrono grammar, through trusted calls with named results
// ---------------------------------------------------------------------------

/// What chrono renders for a date-time under a format, or None where it
/// renders nothing: a rejected format, or fields no calendar value holds.
/// A function of the format and the fields alone.
pub uninterp spec fn chrono_dt_format(fmt: Seq<char>, dt: DateTimeParts) -> Option<Seq<char>>;

/// Relies on chrono's strftime renderer over a NaiveDateTime built from
/// the fields: deterministic, fixed English names, no locale and no clock.
#[verifier::external_body]
fn chrono_format_datetime(dt: DateTimeParts, fmt: &str) -> (r: Option<String>)
    ensures
        (match r {
            Some(s) => chrono_dt_format(fmt@, dt) == Some(s@),
            None => chrono_dt_format(fmt@, dt) is None,
        }),
{
    let y: i32 = i32::try_from(dt.year).ok()?;
    let d = chrono::NaiveDate::from_ymd_opt(y, dt.month as u32, dt.day as u32)?;
    let t = d.and_hms_opt(dt.hour as u32, dt.minute as u32, dt.second as u32)?;
    let mut s: String = String::new();
    match write!(s, "{}", t.format(fmt)) {
        Ok(()) => Some(s),
        Err(_) => None,
    }
}

/// What chrono renders for a date under a format, or None where it renders
/// nothing. A function of the format and the fields alone.
pub uninterp spec fn chrono_date_format(fmt: Seq<char>, d: DateParts) -> Option<Seq<char>>;

/// Relies on chrono's strftime renderer over a NaiveDate built from the
/// fields: deterministic, fixed English names, no locale and no clock.
#[verifier::external_body]
fn chrono_format_date(d: DateParts, fmt: &str) -> (r: Option<String>)
    ensures
        (match r {
            Some(s) => chrono_date_format(fmt@, d) == Some(s@),
            None => chrono_date_format(fmt@, d) is None,
        }),
{
    let y: i32 = i32::try_from(d.year).ok()?;
    let nd = chrono::NaiveDate::from_ymd_opt(y, d.month as u32, d.day as u32)?;
    let mut s: String = String::new();
    match write!(s, "{}", nd.format(fmt)) {
        Ok(()) => Some(s),
        Err(_) => None,
    }
}

/// Formats a date-time. The directives %Y, %m, %d, %H, %M and %S plus
/// literal text render through the verified formatter, exactly as
/// `spec_format_dt` describes; any other format that chrono renders for
/// these fields comes back through the trusted call whose result the
/// contract names; a format chrono rejects too is the one error.
pub fn get_str_from_naivedatetime(naive_date: DateTimeParts, fmt: &str) -> (r: Result<
    String,
    TimeFormatError,
>)
    ensures
        (match spec_format_dt(fmt@, naive_date) {
            Some(t) => r matches Ok(s) && s@ == t,
            None => (match r {
                Ok(s) => chrono_dt_format(fmt@, naive_date) == Some(s@),
                Err(_) => chrono_dt_format(fmt@, naive_date) is None,
            }),
        }),
{
    match render_dt(naive_date, fmt) {
        Ok(s) => Ok(s),
        Err(_) => match chrono_format_datetime(naive_date, fmt) {
            Some(s) => Ok(s),
            None => Err(TimeFormatError),
        },
    }
}

/// Formats a date, as `get_str_from_naivedatetime` formats a date-time:
/// the verified %Y, %m, %d grammar first, the named chrono rendering for
/// the rest.
pub fn get_str_from_naivedate(naive_date: DateParts, fmt: &str) -> (r: Result<
    String,
    TimeFormatError,
>)
    ensures
        (match spec_format_date(fmt@, naive_date) {
            Some(t) => r matches Ok(s) && s@ == t,
            None => (match r {
                Ok(s) => chrono_date_format(fmt@, naive_date) == Some(s@),
                Err(_) => chrono_date_format(fmt@, naive_date) is None,
            }),
        }),
{
    match render_date(naive_date, fmt) {
        Ok(s) => Ok(s),
        Err(_) => match chrono_format_date(naive_date, fmt) {
            Some(s) => Ok(s),
            None => Err(TimeFormatError),
        },
    }
}

/// Formats a date-time, as `get_str_from_naivedatetime` does.
pub fn get_str_from_naive_datetime(naive_datetime: DateTimeParts, fmt: &str) -> (r: Result<
    String,
    TimeFormatError,
>)
    ensures
        (match spec_format_dt(fmt@, naive_datetime) {
            Some(t) => r matches Ok(s) && s@ == t,
            None => (match r {
                Ok(s) => chrono_dt_format(fmt@, naive_datetime) == Some(s@),
                Err(_) => chrono_dt_format(fmt@, naive_datetime) is None,
            }),
        }),
{
    get_str_from_naivedatetime(naive_datetime, fmt)
}

/// What chrono parses from text under a format: the six clock fields, or
/// None where it rejects the text. A function of the text and the format
/// alone.
pub uninterp spec fn chrono_dt_parse(s: Seq<char>, fmt: Seq<char>) -> Option<
    (i64, u64, u64, u64, u64, u64),
>;

/// Relies on chrono::NaiveDateTime::parse_from_str: deterministic, no
/// locale and no clock; a parsed value is a valid calendar value, so the
/// documented field ranges are promised of every Some.
#[verifier::external_body]
fn chrono_parse_datetime(date: &str, fmt: &str) -> (r: Option<(i64, u64, u64, u64, u64, u64)>)
    ensures
        r == chrono_dt_parse(date@, fmt@),
        (match r {
            Some(f) => 1 <= f.1 <= 12 && 1 <= f.2 <= 31 && f.3 < 24 && f.4 < 60 && f.5 < 60,
            None => true,
        }),
{
    match chrono::NaiveDateTime::parse_from_str(date, fmt) {
        Ok(t) => Some((
            chrono::Datelike::year(&t) as i64,
            chrono::Datelike::month(&t) as u64,
            chrono::Datelike::day(&t) as u64,
            chrono::Timelike::hour(&t) as u64,
            chrono::Timelike::minute(&t) as u64,
            chrono::Timelike::second(&t) as u64,
        )),
        Err(_) => None,
    }
}

/// What chrono parses from text under a date format: the three date
/// fields, or None where it rejects the text. A function of the text and
/// the format alone.
pub uninterp spec fn chrono_date_parse(s: Seq<char>, fmt: Seq<char>) -> Option<(i64, u64, u64)>;

/// Relies on chrono::NaiveDate::parse_from_str: deterministic, no locale
/// and no clock; a parsed value is a valid calendar value, so the
/// documented field ranges are promised of every Some.
#[verifier::external_body]
fn chrono_parse_date(date: &str, fmt: &str) -> (r: Option<(i64, u64, u64)>)
    ensures
        r == chrono_date_parse(date@, fmt@),
        (match r {
            Some(f) => 1 <= f.1 <= 12 && 1 <= f.2 <= 31,
            None => true,
        }),
{
    match chrono::NaiveDate::parse_from_str(date, fmt) {
        Ok(d) => Some((
            chrono::Datelike::year(&d) as i64,
            chrono::Datelike::month(&d) as u64,
            chrono::Datelike::day(&d) as u64,
        )),
        Err(_) => None,
    }
}

/// How the chrono fallback settles a date-time parse: Ok carries exactly
/// the named parsed fields with the year inside four digits; Err means
/// chrono rejected the text, or its year does not fit.
pub open spec fn dt_fallback_result(
    s: Seq<char>,
    fmt: Seq<char>,
    r: Result<DateTimeParts, TimeParseError>,
) -> bool {
    match r {
        Ok(dt) => dt.wf() && (match chrono_dt_parse(s, fmt) {
            Some(f) => 0 <= f.0 <= 9999 && dt.year == f.0 && dt.month == f.1 && dt.day == f.2
                && dt.hour == f.3 && dt.minute == f.4 && dt.second == f.5,
            None => false,
        }),
        Err(_) => (match chrono_dt_parse(s, fmt) {
            Some(f) => f.0 < 0 || f.0 > 9999,
            None => true,
        }),
    }
}

/// Parses a date-time string. The verified grammar of `spec_parse_dt`
/// decides first, with its calendar range checks; a string or format it
/// does not accept goes to chrono's parser through the trusted call whose
/// result the contract names. A parsed year beyond four digits is the one
/// narrowing of the fallback.
pub fn get_naive_datetime_from_str(date: &str, format: &str) -> (r: Result<
    DateTimeParts,
    TimeParseError,
>)
    ensures
        (match spec_parse_dt(format@, date@, default_dt()) {
            Some(p) => {
                if p.wf() {
                    r matches Ok(dt) && dt == p
                } else {
                    dt_fallback_result(date@, format@, r)
                }
            },
            None => dt_fallback_result(date@, format@, r),
        }),
{
    match parse_dt_exact(date, format) {
        Ok(dt) => Ok(dt),
        Err(_) => match chrono_parse_datetime(date, format) {
            Some(f) => {
                if 0 <= f.0 && f.0 <= 9999 {
                    Ok(DateTimeParts {
                        year: f.0 as u64,
                        month: f.1,
                        day: f.2,
                        hour: f.3,
                        minute: f.4,
                        second: f.5,
                    })
                } else {
                    Err(TimeParseError)
                }
            },
            None => Err(TimeParseError),
        },
    }
}

/// How the chrono fallback settles a date parse, as `dt_fallback_result`
/// settles a date-time parse.
pub open spec fn date_fallback_result(
    s: Seq<char>,
    fmt: Seq<char>,
    r: Result<DateParts, TimeParseError>,
) -> bool {
    match r {
        Ok(d) => d.wf() && (match chrono_date_parse(s, fmt) {
            Some(f) => 0 <= f.0 <= 9999 && d.year == f.0 && d.month == f.1 && d.day == f.2,
            None => false,
        }),
        Err(_) => (match chrono_date_parse(s, fmt) {
            Some(f) => f.0 < 0 || f.0 > 9999,
            None => true,
        }),
    }
}

/// Parses a date string: the verified date-time grammar first, projected
/// to the date, then chrono's date parser through the trusted call whose
/// result the contract names.
pub fn get_naive_date_from_str(date: &str, format: &str) -> (r: Result<DateParts, TimeParseError>)
    ensures
        (match spec_parse_dt(format@, date@, default_dt()) {
            Some(p) => {
                if p.wf() {
                    r matches Ok(d) && d == p.date()
                } else {
                    date_fallback_result(date@, format@, r)
                }
            },
            None => date_fallback_result(date@, format@, r),
        }),
{
    match parse_dt_exact(date, format) {
        Ok(dt) => Ok(DateParts { year: dt.year, month: dt.month, day: dt.day }),
        Err(_) => match chrono_parse_date(date, format) {
            Some(f) => {
                if 0 <= f.0 && f.0 <= 9999 {
                    Ok(DateParts { year: f.0 as u64, month: f.1, day: f.2 })
                } else {
                    Err(TimeParseError)
                }
            },
            None => Err(TimeParseError),
        },
    }
}

} // verus!
