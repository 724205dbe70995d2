//! Datetimes: texts, formats, and microseconds since 1970 in UTC.
use crate::text;
use crate::value::{Cell, Value};
use std::fmt::Write;
use vstd::prelude::*;

verus! {

/// The instant that `chrono::DateTime::parse_from_str` reads, in microseconds.
pub uninterp spec fn zoned_instant(s: Seq<char>, format: Seq<char>) -> Option<i64>;

/// The instant that `chrono::NaiveDateTime::parse_from_str` reads, taken as UTC,
/// in microseconds.
pub uninterp spec fn local_instant(s: Seq<char>, format: Seq<char>) -> Option<i64>;

/// Midnight of the day that `chrono::NaiveDate::parse_from_str` reads, taken as
/// UTC, in microseconds.
pub uninterp spec fn day_instant(s: Seq<char>, format: Seq<char>) -> Option<i64>;

/// The instant that `chrono::DateTime::parse_from_rfc3339` reads, in
/// microseconds.
pub uninterp spec fn standard_instant(s: Seq<char>) -> Option<i64>;

/// What `chrono::DateTime::format` writes for an instant in UTC.
pub uninterp spec fn instant_text(micros: i64, format: Seq<char>) -> Option<Seq<char>>;

/// `chrono::DateTime::parse_from_str`: a text with an offset, read by a format.
/// Which texts a format reads is not said here.
#[verifier::external_body]
fn read_zoned(s: &str, format: &str) -> (r: Option<i64>)
    ensures
        r == zoned_instant(s@, format@),
{
    chrono::DateTime::parse_from_str(s, format).ok().map(|d| d.timestamp_micros())
}

/// `chrono::NaiveDateTime::parse_from_str`: a text without an offset, read by a
/// format and taken as UTC. Which texts a format reads is not said here.
#[verifier::external_body]
fn read_local(s: &str, format: &str) -> (r: Option<i64>)
    ensures
        r == local_instant(s@, format@),
{
    chrono::NaiveDateTime::parse_from_str(s, format).ok().map(|d| d.and_utc().timestamp_micros())
}

/// `chrono::NaiveDate::parse_from_str`: a day, read by a format, and its
/// midnight taken as UTC. Which texts a format reads is not said here.
#[verifier::external_body]
fn read_day(s: &str, format: &str) -> (r: Option<i64>)
    ensures
        r == day_instant(s@, format@),
{
    let day = chrono::NaiveDate::parse_from_str(s, format).ok()?;
    Some(day.and_hms_opt(0, 0, 0)?.and_utc().timestamp_micros())
}

/// `chrono::DateTime::parse_from_rfc3339`: a text of that standard.
#[verifier::external_body]
fn read_standard(s: &str) -> (r: Option<i64>)
    ensures
        r == standard_instant(s@),
{
    chrono::DateTime::parse_from_rfc3339(s).ok().map(|d| d.timestamp_micros())
}

/// `chrono::DateTime::format`: an instant in UTC, written by a format. `None`
/// where the instant is outside the calendar or the format has an unknown item.
#[verifier::external_body]
fn write_instant(micros: i64, format: &str) -> (r: Option<String>)
    ensures
        r.deep_view() == instant_text(micros, format@),
{
    let at = chrono::DateTime::<chrono::Utc>::from_timestamp_micros(micros)?;
    let mut out = String::new();
    write!(out, "{}", at.format(format)).ok()?;
    Some(out)
}

/// The formats that are tried, in order.
pub open spec fn candidate_formats() -> Seq<Seq<char>> {
    seq![
        "%Y-%m-%d"@,
        "%Y-%m-%d %H:%M:%S"@,
        "%Y-%m-%d %H:%M:%S%.f"@,
        "%Y-%m-%d %H:%M:%S%.3f"@,
        "%Y-%m-%d %H:%M:%S%.6f"@,
        "%Y-%m-%d %H:%M:%S%.9f"@,
        "%Y-%m-%dT%H:%M:%S"@,
        "%Y-%m-%dT%H:%M:%S%.f"@,
        "%Y-%m-%dT%H:%M:%S%.3f"@,
        "%Y-%m-%dT%H:%M:%S%.6f"@,
        "%Y/%m/%d"@,
        "%Y-%m-%dT%H:%M:%S%.f%:z"@,
        "%Y-%m-%d %H:%M:%S%.f%:z"@,
        "%Y-%m-%dT%H:%M:%S%:z"@,
        "%Y-%m-%d %H:%M:%S%:z"@,
    ]
}

/// The formats that are tried, in order: first those without an offset.
pub fn list_formats() -> (r: Vec<String>)
    ensures
        r.deep_view() == candidate_formats(),
{
    let mut out: Vec<String> = Vec::new();
    out.push("%Y-%m-%d".to_owned());
    out.push("%Y-%m-%d %H:%M:%S".to_owned());
    out.push("%Y-%m-%d %H:%M:%S%.f".to_owned());
    out.push("%Y-%m-%d %H:%M:%S%.3f".to_owned());
    out.push("%Y-%m-%d %H:%M:%S%.6f".to_owned());
    out.push("%Y-%m-%d %H:%M:%S%.9f".to_owned());
    out.push("%Y-%m-%dT%H:%M:%S".to_owned());
    out.push("%Y-%m-%dT%H:%M:%S%.f".to_owned());
    out.push("%Y-%m-%dT%H:%M:%S%.3f".to_owned());
    out.push("%Y-%m-%dT%H:%M:%S%.6f".to_owned());
    out.push("%Y/%m/%d".to_owned());
    out.push("%Y-%m-%dT%H:%M:%S%.f%:z".to_owned());
    out.push("%Y-%m-%d %H:%M:%S%.f%:z".to_owned());
    out.push("%Y-%m-%dT%H:%M:%S%:z".to_owned());
    out.push("%Y-%m-%d %H:%M:%S%:z".to_owned());
    proof {
        assert(out.deep_view() =~= candidate_formats());
    }
    out
}

/// A format that asks for an offset such as `+08:00`.
pub open spec fn asks_offset(format: Seq<char>) -> bool {
    exists|i: int| #[trigger] offset_at(format, i)
}

pub open spec fn offset_at(format: Seq<char>, i: int) -> bool {
    0 <= i && i + 2 < format.len() && format[i] == '%' && format[i + 1] == ':' && format[i + 2]
        == 'z'
}

fn wants_offset(format: &str) -> (r: bool)
    ensures
        r == asks_offset(format@),
{
    let chars = text::to_chars(format);
    let mut i: usize = 0;
    while i < chars.len() && chars.len() - i > 2
        invariant
            i <= chars@.len(),
            chars@ == format@,
            forall|k: int| 0 <= k < i ==> !#[trigger] offset_at(format@, k),
        decreases chars@.len() - i,
    {
        if chars[i] == '%' && chars[i + 1] == ':' && chars[i + 2] == 'z' {
            proof {
                assert(offset_at(format@, i as int));
            }
            return true;
        }
        i = i + 1;
    }
    false
}

pub open spec fn is_digit(c: char) -> bool {
    '0' <= c <= '9'
}

/// A text with its zone written out, where it ends in `Z` or in an offset of
/// hours alone. A text without a time of day is left alone: it ends in a day
/// behind a dash.
pub open spec fn expanded(s: Seq<char>) -> Option<Seq<char>> {
    let n = s.len() as int;
    if !s.contains(':') {
        None
    } else if s[n - 1] == 'Z' || s[n - 1] == 'z' {
        Some(s.take(n - 1) + "+00:00"@)
    } else if n >= 3 && (s[n - 3] == '+' || s[n - 3] == '-') && is_digit(s[n - 2]) && is_digit(
        s[n - 1],
    ) {
        Some(s + ":00"@)
    } else {
        None
    }
}

/// Writes out the two endings that an offset can have besides hours and minutes.
pub fn expand_zone_suffix(s: &str) -> (r: Option<String>)
    ensures
        match r {
            Some(t) => expanded(s@) == Some(t@),
            None => expanded(s@) is None,
        },
{
    let chars = text::to_chars(s);
    let mut timed = false;
    let mut i: usize = 0;
    while i < chars.len()
        invariant
            i <= chars@.len(),
            chars@ == s@,
            timed <==> exists|k: int| 0 <= k < i && #[trigger] chars@[k] == ':',
        decreases chars@.len() - i,
    {
        if chars[i] == ':' {
            proof {
                assert(chars@[i as int] == ':');
            }
            timed = true;
        }
        i = i + 1;
    }
    proof {
        assert(timed <==> s@.contains(':')) by {
            if s@.contains(':') {
                let k = s@.index_of(':');
                assert(chars@[k] == ':');
            }
            if timed {
                let k = choose|k: int| 0 <= k < chars@.len() && #[trigger] chars@[k] == ':';
                assert(s@[k] == ':');
            }
        }
    }
    if !timed {
        return None;
    }
    let n: usize = chars.len();
    let last: char = chars[n - 1];
    if last == 'Z' || last == 'z' {
        let mut t = text::from_chars(vstd::slice::slice_subrange(chars.as_slice(), 0, n - 1));
        proof {
            assert(t@ =~= s@.take(n - 1));
        }
        text::push_text(&mut t, "+00:00");
        return Some(t);
    }
    if n >= 3 && (chars[n - 3] == '+' || chars[n - 3] == '-') && ('0' <= chars[n - 2]
        && chars[n - 2] <= '9') && ('0' <= last && last <= '9') {
        let mut t = s.to_owned();
        text::push_text(&mut t, ":00");
        return Some(t);
    }
    None
}

/// The first that there is.
pub open spec fn either(a: Option<i64>, b: Option<i64>) -> Option<i64> {
    if a is Some {
        a
    } else {
        b
    }
}

/// The instant that a text is by a format: with an offset, else without, else a
/// day.
pub open spec fn instant_of(s: Seq<char>, format: Seq<char>) -> Option<i64> {
    let t = if asks_offset(format) && expanded(s) is Some {
        expanded(s)->0
    } else {
        s
    };
    either(zoned_instant(t, format), either(local_instant(t, format), day_instant(t, format)))
}

fn first_read(s: &str, format: &str) -> (r: Option<i64>)
    ensures
        r == either(
            zoned_instant(s@, format@),
            either(local_instant(s@, format@), day_instant(s@, format@)),
        ),
{
    let zoned = read_zoned(s, format);
    if zoned.is_some() {
        return zoned;
    }
    let local = read_local(s, format);
    if local.is_some() {
        return local;
    }
    read_day(s, format)
}

fn parse_with_fmt(s: &str, format: &str) -> (r: Option<i64>)
    ensures
        r == instant_of(s@, format@),
{
    if wants_offset(format) {
        match expand_zone_suffix(s) {
            Some(t) => first_read(t.as_str(), format),
            None => first_read(s, format),
        }
    } else {
        first_read(s, format)
    }
}

/// The instant by the first of the formats that reads the text.
pub open spec fn first_instant(s: Seq<char>, formats: Seq<Seq<char>>) -> Option<i64>
    decreases formats.len(),
{
    if formats.len() == 0 {
        None
    } else {
        either(instant_of(s, formats[0]), first_instant(s, formats.skip(1)))
    }
}

/// The instant of a cell: a text, by the given format or by the first that reads
/// it. Anything else is none.
pub open spec fn cell_instant(c: Cell, format: Option<Seq<char>>) -> Option<i64> {
    match c {
        Cell::Text(s) => match format {
            Some(f) => instant_of(s, f),
            None => either(first_instant(s, candidate_formats()), standard_instant(s)),
        },
        _ => None,
    }
}

/// Microseconds since 1970 of a datetime text. Without an offset it is taken as
/// UTC, a day as its midnight.
pub fn parse_to_epoch(value: &Value, format: Option<&str>) -> (r: Option<i64>)
    ensures
        r == cell_instant(value@, format.deep_view()),
{
    let s: &str = match value {
        Value::Text(s) => s.as_str(),
        _ => {
            return None;
        },
    };
    match format {
        Some(f) => parse_with_fmt(s, f),
        None => {
            let formats = list_formats();
            let ghost all = candidate_formats();
            let mut i: usize = 0;
            proof {
                assert(all.skip(0) =~= all);
            }
            while i < formats.len()
                invariant
                    i <= formats@.len(),
                    formats.deep_view() == all,
                    all == candidate_formats(),
                    value@ == Cell::Text(s@),
                    format is None,
                    first_instant(s@, all) == first_instant(s@, all.skip(i as int)),
                decreases formats@.len() - i,
            {
                proof {
                    assert(all.skip(i as int).skip(1) =~= all.skip(i + 1));
                    assert(all.skip(i as int)[0] == formats@[i as int]@);
                }
                let found = parse_with_fmt(s, formats[i].as_str());
                if found.is_some() {
                    return found;
                }
                i = i + 1;
            }
            read_standard(s)
        },
    }
}

/// Writes an instant with a format.
pub fn format_epoch(micros: i64, format: &str) -> (r: Option<String>)
    ensures
        r.deep_view() == instant_text(micros, format@),
{
    write_instant(micros, format)
}

/// A format describes a text: it reads it, and a format without an offset writes
/// it back as it is.
pub open spec fn describes(format: Seq<char>, s: Seq<char>) -> bool {
    match instant_of(s, format) {
        Some(micros) => asks_offset(format) || instant_text(micros, format) == Some(s),
        None => false,
    }
}

/// Some sample is a text, every other one is NULL.
pub open spec fn all_texts(samples: Seq<Cell>) -> bool {
    &&& exists|i: int| 0 <= i < samples.len() && (#[trigger] samples[i]) is Text
    &&& forall|i: int|
        0 <= i < samples.len() ==> (#[trigger] samples[i]) is Text || samples[i] is Null
}

/// A format describes every sample that is a text.
pub open spec fn describes_all(format: Seq<char>, samples: Seq<Cell>) -> bool {
    forall|i: int|
        0 <= i < samples.len() && (#[trigger] samples[i]) is Text ==> describes(
            format,
            samples[i]->Text_0,
        )
}

fn fits_text(format: &str, s: &str) -> (r: bool)
    ensures
        r == describes(format@, s@),
{
    match parse_with_fmt(s, format) {
        Some(micros) => {
            if wants_offset(format) {
                true
            } else {
                match format_epoch(micros, format) {
                    Some(t) => {
                        let same = text::same(t.as_str(), s);
                        proof {
                            if same {
                                assert(t@ =~= s@);
                            }
                        }
                        same
                    },
                    None => false,
                }
            }
        },
        None => false,
    }
}

fn fits_all(format: &str, samples: &[Value]) -> (r: bool)
    ensures
        r == describes_all(format@, samples.deep_view()),
{
    let ghost all = samples.deep_view();
    let mut i: usize = 0;
    while i < samples.len()
        invariant
            i <= samples@.len(),
            all == samples.deep_view(),
            forall|k: int|
                0 <= k < i && (#[trigger] all[k]) is Text ==> describes(format@, all[k]->Text_0),
        decreases samples@.len() - i,
    {
        proof {
            assert(all[i as int] == samples@[i as int]@);
        }
        match &samples[i] {
            Value::Text(s) => {
                if !fits_text(format, s.as_str()) {
                    return false;
                }
            },
            _ => {},
        }
        i = i + 1;
    }
    true
}

/// The first format that describes every sample, where they are texts.
pub fn infer_format(samples: &[Value]) -> (r: Option<String>)
    ensures
        match r {
            Some(f) => {
                &&& all_texts(samples.deep_view())
                &&& describes_all(f@, samples.deep_view())
                &&& exists|i: int| #[trigger] first_describing(samples.deep_view(), i, f@)
            },
            None => !all_texts(samples.deep_view()) || forall|i: int|
                0 <= i < candidate_formats().len() ==> !describes_all(
                    #[trigger] candidate_formats()[i],
                    samples.deep_view(),
                ),
        },
{
    let ghost all = samples.deep_view();
    let mut some = false;
    let mut i: usize = 0;
    while i < samples.len()
        invariant
            i <= samples@.len(),
            all == samples.deep_view(),
            some <==> exists|k: int| 0 <= k < i && (#[trigger] all[k]) is Text,
            forall|k: int| 0 <= k < i ==> (#[trigger] all[k]) is Text || all[k] is Null,
        decreases samples@.len() - i,
    {
        proof {
            assert(all[i as int] == samples@[i as int]@);
        }
        match &samples[i] {
            Value::Text(_) => {
                some = true;
            },
            Value::Null => {},
            _ => {
                return None;
            },
        }
        i = i + 1;
    }
    if !some {
        return None;
    }
    let formats = list_formats();
    let mut k: usize = 0;
    while k < formats.len()
        invariant
            k <= formats@.len(),
            all == samples.deep_view(),
            all_texts(all),
            formats.deep_view() == candidate_formats(),
            forall|j: int|
                0 <= j < k ==> !describes_all(#[trigger] candidate_formats()[j], all),
        decreases formats@.len() - k,
    {
        proof {
            assert(candidate_formats()[k as int] == formats@[k as int]@);
        }
        if fits_all(formats[k].as_str(), samples) {
            let f = formats[k].clone();
            proof {
                assert(first_describing(all, k as int, f@));
            }
            return Some(f);
        }
        k = k + 1;
    }
    None
}

/// A format is the first that describes the samples.
pub open spec fn first_describing(samples: Seq<Cell>, i: int, f: Seq<char>) -> bool {
    &&& 0 <= i < candidate_formats().len()
    &&& f == candidate_formats()[i]
    &&& describes_all(f, samples)
    &&& forall|j: int|
        0 <= j < i ==> !describes_all(#[trigger] candidate_formats()[j], samples)
}

/// Every sample that is a text reads again by the format that is inferred for
/// them.
pub proof fn lemma_inferred_reads_again(samples: Seq<Cell>, format: Seq<char>, i: int)
    requires
        describes_all(format, samples),
        0 <= i < samples.len(),
        samples[i] is Text,
    ensures
        cell_instant(samples[i], Some(format)) is Some,
{
    assert(describes(format, samples[i]->Text_0));
}

} // verus!
