//! From the texts of a date and a time to the numbers of a timestamp.

use vstd::prelude::*;
use crate::calendar::{make_timestamp, timestamp_of};
use crate::datetime::{
    convert_time_12_to_24_spec, date_part_count, is_clock_time, lemma_converted_time_parts,
    normalize_ampm, normalize_ampm_spec, normalize_date, normalize_date_spec, normalize_time,
    normalize_time_spec, order_date_components, order_date_components_spec,
    try_convert_time_12_to_24,
};
use crate::decimal::{parse_i32, parse_i32_spec, parse_u32, parse_u32_spec};
use crate::fields::{ExtractedFields, ExtractedFieldsView};
use crate::models::Timestamp;
use crate::text::{split_on, split_text};

verus! {

/// The `i32` that `text` writes, or `fallback` where it writes none.
pub open spec fn i32_or(text: Seq<char>, fallback: i32) -> i32 {
    match parse_i32_spec(text) {
        Some(n) => n,
        None => fallback,
    }
}

/// The `u32` that `text` writes, or `fallback` where it writes none.
pub open spec fn u32_or(text: Seq<char>, fallback: u32) -> u32 {
    match parse_u32_spec(text) {
        Some(n) => n,
        None => fallback,
    }
}

/// Reads `text` as an `i32`, with `fallback` for a text that is none.
pub fn read_i32_or(text: &str, fallback: i32) -> (n: i32)
    ensures
        n == i32_or(text@, fallback),
{
    match parse_i32(text) {
        Some(n) => n,
        None => fallback,
    }
}

/// Reads `text` as a `u32`, with `fallback` for a text that is none.
pub fn read_u32_or(text: &str, fallback: u32) -> (n: u32)
    ensures
        n == u32_or(text@, fallback),
{
    match parse_u32(text) {
        Some(n) => n,
        None => fallback,
    }
}

/// The numbers of a date for finding out the order of days and months: the
/// two leading numbers as written, and the year. A part that is no number
/// counts as 1, and as 1970 for the year.
pub open spec fn numeric_date_spec(date: Seq<char>) -> Seq<i32> {
    let ordered = order_date_components_spec(date);
    seq![i32_or(ordered.0, 1), i32_or(ordered.1, 1), i32_or(ordered.2, 1970)]
}

/// The numbers of a date for finding out the order of days and months.
pub fn numeric_date(date: &str) -> (numbers: Vec<i32>)
    requires
        date_part_count(date@) >= 3,
    ensures
        numbers@ == numeric_date_spec(date@),
{
    let (first, second, year) = order_date_components(date);
    let numbers: Vec<i32> = vec![
        read_i32_or(first.as_str(), 1),
        read_i32_or(second.as_str(), 1),
        read_i32_or(year.as_str(), 1970),
    ];
    assert(numbers@ =~= numeric_date_spec(date@));
    numbers
}

/// Year, month and day of a date, as numbers. `order` tells whether the day
/// is written first; it is, unless `order` is `Some(false)`. The parts are
/// brought into their fixed form and read as numbers; a part that is no
/// number counts as 1970 for the year and as 1 for the month or the day.
pub open spec fn resolved_date(date: Seq<char>, order: Option<bool>) -> (i32, u32, u32) {
    let ordered = order_date_components_spec(date);
    let day = if order == Some(false) {
        ordered.1
    } else {
        ordered.0
    };
    let month = if order == Some(false) {
        ordered.0
    } else {
        ordered.1
    };
    let normalized = normalize_date_spec(ordered.2, month, day);
    (i32_or(normalized.0, 1970), u32_or(normalized.1, 1), u32_or(normalized.2, 1))
}

/// The time on the 24-hour clock in its fixed form. A time with AM or PM is
/// converted first, if its hours are a number.
pub open spec fn clock_time(time: Seq<char>, ampm: Option<Seq<char>>) -> Seq<char> {
    normalize_time_spec(
        match ampm {
            Some(half) => if is_clock_time(time) {
                convert_time_12_to_24_spec(time, normalize_ampm_spec(half))
            } else {
                time
            },
            None => time,
        },
    )
}

/// The number that part `i` of a time writes; 0 where there is no such
/// part or it is no number.
pub open spec fn part_or_zero(parts: Seq<Seq<char>>, i: int) -> u32 {
    if 0 <= i < parts.len() {
        u32_or(parts[i], 0)
    } else {
        0
    }
}

/// Hour, minute and second of a time, as numbers: the parts between the
/// colons of the time in its fixed form.
pub open spec fn resolved_time(time: Seq<char>, ampm: Option<Seq<char>>) -> (u32, u32, u32) {
    let parts = split_on(clock_time(time, ampm), seq![':']);
    (part_or_zero(parts, 0), part_or_zero(parts, 1), part_or_zero(parts, 2))
}

/// The timestamp of a message with the fields `fields`, its date read in
/// the order `order`. A date that does not exist gives way to 1 January
/// 1970, a time that does not exist to midnight.
pub open spec fn resolve_timestamp_spec(fields: ExtractedFieldsView, order: Option<bool>) -> Timestamp {
    let date = resolved_date(fields.date, order);
    let time = resolved_time(fields.time, fields.ampm);
    timestamp_of(date.0, date.1, date.2, time.0, time.1, time.2)
}

/// The number that part `i` of a time writes.
fn read_part_or_zero(parts: &Vec<String>, i: usize) -> (n: u32)
    ensures
        n == part_or_zero(parts.deep_view(), i as int),
{
    if i < parts.len() {
        assert(parts.deep_view()[i as int] == parts@[i as int]@);
        read_u32_or(parts[i].as_str(), 0)
    } else {
        0
    }
}

/// Works out the timestamp of a message from its fields.
pub fn resolve_timestamp(fields: &ExtractedFields, order: Option<bool>) -> (stamp: Timestamp)
    ensures
        stamp == resolve_timestamp_spec(fields@, order),
        stamp.is_valid(),
{
    let (first, second, year) = order_date_components(fields.date());
    let months_first = match order {
        Some(days_first) => !days_first,
        None => false,
    };
    let (year, month, day) = if months_first {
        normalize_date(year.as_str(), first.as_str(), second.as_str())
    } else {
        normalize_date(year.as_str(), second.as_str(), first.as_str())
    };
    let year_number = read_i32_or(year.as_str(), 1970);
    let month_number = read_u32_or(month.as_str(), 1);
    let day_number = read_u32_or(day.as_str(), 1);

    let time = fields.time();
    let converted: Option<String> = match fields.ampm() {
        Some(half) => try_convert_time_12_to_24(time, normalize_ampm(half).as_str()),
        None => None,
    };
    let time_normalized = match converted {
        Some(on_24) => {
            proof {
                lemma_converted_time_parts(time@, normalize_ampm_spec(fields@.ampm.unwrap()));
            }
            normalize_time(on_24.as_str())
        },
        None => normalize_time(time),
    };
    assert(time_normalized@ == clock_time(fields@.time, fields@.ampm));
    let colon: Vec<char> = vec![':'];
    assert(colon@ =~= seq![':']);
    let parts = split_text(time_normalized.as_str(), &colon);
    let hour = read_part_or_zero(&parts, 0);
    let minute = read_part_or_zero(&parts, 1);
    let second = read_part_or_zero(&parts, 2);
    make_timestamp(year_number, month_number, day_number, hour, minute, second)
}

} // verus!
