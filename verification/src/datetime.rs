//! Dates and times of a chat log: the checks that find out the order of
//! days and months, and the fixed form of the texts of a date and of a
//! time.

use vstd::prelude::*;
use crate::decimal::{
    decimal_digits, decimal_value, lemma_decimal_digits, lemma_leading_zeros, parse_i32,
    parse_i32_spec, push_decimal,
};
use crate::pattern::{split_time, TIME_SEPARATOR_PATTERN};
use crate::text::{
    char_is_alphabetic, chars_of, free_of, lemma_pad_left_free, lemma_pad_left_idempotent,
    lemma_split_append, lemma_split_free, lemma_split_parts, pad_left, push_padded, split_on,
    split_text, str_uppercase, trim, trimmed,
};
pub use crate::date_order::{
    change_frequency_analysis, check_above_12, check_decreasing, date_order_signal,
    days_before_months, distance, frequency_signal, goes_down, goes_down_within_year,
    has_components, is_negative, lemma_days_first_overrides, lemma_goes_down_any_pair,
    lemma_range_check_overrides, lemma_total_change_bounds, monotonicity_signal, range_signal,
    some_above_12, total_change, year_neighbours, years,
};
pub use crate::grouping::group_array_by_value_at_index;
pub use crate::threshold::index_above_value;

verus! {

// ---------------------------------------------------------------------
// The text of a date
// ---------------------------------------------------------------------

/// The characters that stand between the numbers of a date.
pub open spec fn date_separators() -> Seq<char> {
    seq!['-', '/', '.']
}

/// The number of parts of a date: one more than it has separators.
pub open spec fn date_part_count(date: Seq<char>) -> nat {
    split_on(date, date_separators()).len()
}

/// The parts of a date: what stands between its separators, each part
/// without the white space around it.
pub open spec fn date_parts(date: Seq<char>) -> Seq<Seq<char>> {
    split_on(date, date_separators()).map_values(|part: Seq<char>| trim(part))
}

/// The first three parts of a date with the year last. The year is the
/// longest part, counted in characters; among parts of the same length the
/// later one is taken for it. The other two keep their order, but for a year
/// in front, which leaves the second part behind the third.
pub open spec fn order_date_components_spec(date: Seq<char>) -> (Seq<char>, Seq<char>, Seq<char>) {
    let parts = date_parts(date);
    let a = parts[0];
    let b = parts[1];
    let c = parts[2];
    if c.len() >= a.len() && c.len() >= b.len() {
        (a, b, c)
    } else if b.len() >= a.len() {
        (a, c, b)
    } else {
        (b, c, a)
    }
}

/// Pushes the longest number in a date to the end. Necessary to ensure the
/// year is the last number.
pub fn order_date_components(date: &str) -> (ordered: (String, String, String))
    requires
        date_part_count(date@) >= 3,
    ensures
        (ordered.0@, ordered.1@, ordered.2@) == order_date_components_spec(date@),
{
    let separators: Vec<char> = vec!['-', '/', '.'];
    assert(separators@ =~= date_separators());
    let pieces = split_text(date, &separators);
    proof {
        let split = split_on(date@, date_separators());
        assert(pieces.deep_view() == split);
        assert forall|k: int| 0 <= k < 3 implies (#[trigger] pieces@[k])@ == split[k] by {
            assert(pieces.deep_view()[k] =~= pieces@[k]@);
        }
    }
    let a = trimmed(pieces[0].as_str());
    let b = trimmed(pieces[1].as_str());
    let c = trimmed(pieces[2].as_str());
    let a_len = a.as_str().unicode_len();
    let b_len = b.as_str().unicode_len();
    let c_len = c.as_str().unicode_len();
    if c_len >= a_len && c_len >= b_len {
        (a, b, c)
    } else if b_len >= a_len {
        (a, c, b)
    } else {
        (b, c, a)
    }
}

/// A year in four characters or more: a year of one or two characters is
/// padded to two and taken to be of this century, with `20` in front; a
/// longer one is padded to four with zeros in front.
pub open spec fn normalize_year(year: Seq<char>) -> Seq<char> {
    if year.len() <= 2 {
        seq!['2', '0'] + pad_left(year, 2, '0')
    } else {
        pad_left(year, 4, '0')
    }
}

/// A year of up to four characters comes out four characters long; and
/// whatever its length, the year comes out with the year as written at its
/// end.
pub proof fn lemma_normalize_year(year: Seq<char>)
    ensures
        year.len() <= 4 ==> normalize_year(year).len() == 4,
        normalize_year(year).len() >= 4,
        normalize_year(year).len() >= year.len(),
        normalize_year(year).subrange(
            normalize_year(year).len() - year.len(),
            normalize_year(year).len() as int,
        ) == year,
{
    let out = normalize_year(year);
    assert(out.subrange(out.len() - year.len(), out.len() as int) =~= year);
}

/// Padding leaves the number that a year, a month or a day writes as it
/// is, but for a year of one or two characters, which moves into this
/// century.
pub proof fn lemma_normalize_date_values(year: Seq<char>, month: Seq<char>, day: Seq<char>)
    ensures
        decimal_value(normalize_date_spec(year, month, day).1) == decimal_value(month),
        decimal_value(normalize_date_spec(year, month, day).2) == decimal_value(day),
        year.len() > 2 ==> decimal_value(normalize_year(year)) == decimal_value(year),
        year.len() <= 2 ==> decimal_value(normalize_year(year)) == 2000 + decimal_value(year),
        month.len() <= 2 ==> normalize_date_spec(year, month, day).1.len() == 2,
        day.len() <= 2 ==> normalize_date_spec(year, month, day).2.len() == 2,
{
    lemma_pad_is_zeros(month, 2);
    lemma_pad_is_zeros(day, 2);
    lemma_pad_is_zeros(year, 4);
    lemma_pad_is_zeros(year, 2);
    if year.len() <= 2 {
        lemma_century(pad_left(year, 2, '0'));
    }
}

/// A number padded with zeros is the number.
proof fn lemma_pad_is_zeros(s: Seq<char>, width: nat)
    ensures
        decimal_value(pad_left(s, width, '0')) == decimal_value(s),
{
    if s.len() < width {
        lemma_leading_zeros((width - s.len()) as nat, s);
    }
}

/// `20` in front of two characters adds 2000 to the number they write.
proof fn lemma_century(two: Seq<char>)
    requires
        two.len() == 2,
    ensures
        decimal_value(seq!['2', '0'] + two) == 2000 + decimal_value(two),
{
    let whole = seq!['2', '0'] + two;
    reveal_with_fuel(decimal_value, 5);
    assert(whole.drop_last() =~= seq!['2', '0', two[0]]);
    assert(whole.drop_last().drop_last() =~= seq!['2', '0']);
    assert(whole.drop_last().drop_last().drop_last() =~= seq!['2']);
    assert(whole.drop_last().drop_last().drop_last().drop_last() =~= Seq::<char>::empty());
    assert(two.drop_last() =~= seq![two[0]]);
    assert(two.drop_last().drop_last() =~= Seq::<char>::empty());
}

/// The year in four digits, the month and the day in two.
pub open spec fn normalize_date_spec(year: Seq<char>, month: Seq<char>, day: Seq<char>) -> (
    Seq<char>,
    Seq<char>,
    Seq<char>,
) {
    (normalize_year(year), pad_left(month, 2, '0'), pad_left(day, 2, '0'))
}

/// Takes `year`, `month` and `day` as strings and pads them to `4`, `2`, `2`
/// digits respectively. A year of one or two digits is taken to be of this
/// century.
pub fn normalize_date(year: &str, month: &str, day: &str) -> (normalized: (String, String, String))
    ensures
        (normalized.0@, normalized.1@, normalized.2@) == normalize_date_spec(year@, month@, day@),
{
    let year_text = chars_of(year);
    let normalized_year = if year_text.len() <= 2 {
        let mut padded = String::new();
        padded.push('2');
        padded.push('0');
        assert(padded@ =~= seq!['2', '0']);
        push_padded(&mut padded, &year_text, 2, '0');
        padded
    } else {
        let mut padded = String::new();
        push_padded(&mut padded, &year_text, 4, '0');
        assert(padded@ =~= pad_left(year@, 4, '0'));
        padded
    };
    let mut normalized_month = String::new();
    push_padded(&mut normalized_month, &chars_of(month), 2, '0');
    assert(normalized_month@ =~= pad_left(month@, 2, '0'));
    let mut normalized_day = String::new();
    push_padded(&mut normalized_day, &chars_of(day), 2, '0');
    assert(normalized_day@ =~= pad_left(day@, 2, '0'));
    (normalized_year, normalized_month, normalized_day)
}

/// A date in its fixed form stays as it is when it is brought into that
/// form again.
pub proof fn lemma_normalize_date_idempotent(year: Seq<char>, month: Seq<char>, day: Seq<char>)
    ensures
        ({
            let once = normalize_date_spec(year, month, day);
            normalize_date_spec(once.0, once.1, once.2) == once
        }),
{
    lemma_pad_left_idempotent(year, 2, '0');
    lemma_pad_left_idempotent(year, 4, '0');
    lemma_pad_left_idempotent(month, 2, '0');
    lemma_pad_left_idempotent(day, 2, '0');
}

// ---------------------------------------------------------------------
// The text of a time
// ---------------------------------------------------------------------

/// The characters that stand between the numbers of a time.
pub open spec fn time_separators() -> Seq<char> {
    seq![':', '.']
}

/// The parts of a time: what stands between its separators.
pub open spec fn time_parts(time: Seq<char>) -> Seq<Seq<char>> {
    split_on(time, time_separators())
}

/// The letters of `ampm` in upper case.
pub open spec fn normalize_ampm_spec(ampm: Seq<char>) -> Seq<char> {
    str_uppercase(ampm.filter(|c: char| char_is_alphabetic(c)))
}

/// Normalizes `am` / `a.m.` / etc. to `AM` (uppercase, no other characters).
pub fn normalize_ampm(ampm: &str) -> (normalized: String)
    ensures
        normalized@ == normalize_ampm_spec(ampm@),
{
    let mut letters = String::new();
    let ghost keep = |c: char| char_is_alphabetic(c);
    proof {
        assert(ampm@.take(0) =~= Seq::<char>::empty());
        reveal(Seq::filter);
    }
    for c in it: ampm.chars()
        invariant
            it.seq() == ampm@,
            keep == (|c: char| char_is_alphabetic(c)),
            letters@ == ampm@.take(it.index() as int).filter(keep),
    {
        proof {
            assert(ampm@.take(it.index() + 1) =~= ampm@.take(it.index() as int).push(c));
            ampm@.take(it.index() as int).lemma_filter_push(c, keep);
        }
        if c.is_alphabetic() {
            letters.push(c);
        }
    }
    assert(ampm@.take(ampm@.len() as int) =~= ampm@);
    letters.as_str().to_uppercase()
}

/// The hour of the day for an hour of the clock: 12 counts as 0, and `PM`
/// adds 12. Anything but `PM` is taken as before noon.
pub open spec fn hour_24(hour: int, ampm: Seq<char>) -> int {
    let from_zero = if hour == 12 {
        0
    } else {
        hour
    };
    if ampm == seq!['P', 'M'] {
        from_zero + 12
    } else {
        from_zero
    }
}

/// An hour in two digits or more; a negative one as a minus sign and its
/// digits.
pub open spec fn two_digits(n: int) -> Seq<char> {
    if n < 0 {
        seq!['-'] + decimal_digits((-n) as nat)
    } else {
        pad_left(decimal_digits(n as nat), 2, '0')
    }
}

/// The time has hours and minutes, and the hours are a number.
pub open spec fn is_clock_time(time: Seq<char>) -> bool {
    time_parts(time).len() >= 2 && parse_i32_spec(time_parts(time)[0]) is Some
}

/// The time of the 12-hour clock `time` on the 24-hour clock: the hour
/// converted and written in two digits, the minutes as they are, and the
/// seconds as they are if there are any, with colons between them.
pub open spec fn convert_time_12_to_24_spec(time: Seq<char>, ampm: Seq<char>) -> Seq<char> {
    let parts = time_parts(time);
    let hours = two_digits(hour_24(parse_i32_spec(parts[0]).unwrap() as int, ampm));
    if parts.len() > 2 {
        hours + seq![':'] + parts[1] + seq![':'] + parts[2]
    } else {
        hours + seq![':'] + parts[1]
    }
}

/// Converts time from 12 hour format to 24 hour format, where the time has
/// hours and minutes and the hours are a number; `None` for any other text.
pub fn try_convert_time_12_to_24(time: &str, ampm: &str) -> (converted: Option<String>)
    ensures
        converted.deep_view() == (if is_clock_time(time@) {
            Some(convert_time_12_to_24_spec(time@, ampm@))
        } else {
            None
        }),
{
    let parts = split_time(TIME_SEPARATOR_PATTERN, time);
    proof {
        assert(seq![':', '.'] =~= time_separators());
        assert forall|k: int| 0 <= k < parts@.len() implies (#[trigger] parts@[k])@ == time_parts(
            time@,
        )[k] by {
            assert(parts.deep_view()[k] == parts@[k].deep_view());
        }
    }
    if parts.len() < 2 {
        return None;
    }
    let clock_hour: i32 = match parse_i32(parts[0].as_str()) {
        Some(hour) => hour,
        None => {
            return None;
        },
    };
    let mut hours: i64 = clock_hour as i64;
    if hours == 12 {
        hours = 0;
    }
    proof {
        reveal_strlit("PM");
        assert("PM"@ =~= seq!['P', 'M']);
    }
    if ampm.eq("PM") {
        hours = hours + 12;
    }
    assert(hours == hour_24(clock_hour as int, ampm@));
    let mut converted = String::new();
    let mut digits: Vec<char> = Vec::new();
    if hours < 0 {
        converted.push('-');
        push_decimal(&mut digits, (0 - hours) as u64);
        push_padded(&mut converted, &digits, 0, '0');
    } else {
        push_decimal(&mut digits, hours as u64);
        push_padded(&mut converted, &digits, 2, '0');
    }
    assert(converted@ =~= two_digits(hours as int));
    converted.push(':');
    converted.append(parts[1].as_str());
    if parts.len() > 2 {
        converted.push(':');
        converted.append(parts[2].as_str());
    }
    assert(converted@ =~= convert_time_12_to_24_spec(time@, ampm@));
    Some(converted)
}

/// Converts time from 12 hour format to 24 hour format.
pub fn convert_time_12_to_24(time: &str, ampm: &str) -> (converted: String)
    requires
        is_clock_time(time@),
    ensures
        converted@ == convert_time_12_to_24_spec(time@, ampm@),
{
    try_convert_time_12_to_24(time, ampm).unwrap()
}

/// The digits of an hour hold no separator of a time.
pub proof fn lemma_two_digits_free(n: int)
    ensures
        free_of(two_digits(n), time_separators()),
{
    let seps = time_separators();
    let digits = decimal_digits((if n < 0 {
        -n
    } else {
        n
    }) as nat);
    lemma_decimal_digits((if n < 0 {
        -n
    } else {
        n
    }) as nat);
    assert(free_of(digits, seps)) by {
        assert forall|i: int| 0 <= i < digits.len() implies !seps.contains(#[trigger] digits[i]) by {
            assert(crate::decimal::is_digit(digits[i]));
        }
    }
    if n < 0 {
        assert forall|i: int| 0 <= i < two_digits(n).len() implies !seps.contains(
            #[trigger] two_digits(n)[i],
        ) by {
            if i > 0 {
                assert(two_digits(n)[i] == digits[i - 1]);
            }
        }
    } else {
        assert(!seps.contains('0'));
        lemma_pad_left_free(digits, 2, '0', seps);
    }
}

/// A converted time has the parts of the time it was made from, up to the
/// seconds, with the converted hour in front.
pub proof fn lemma_converted_time_parts(time: Seq<char>, ampm: Seq<char>)
    requires
        is_clock_time(time),
    ensures
        time_parts(convert_time_12_to_24_spec(time, ampm)).len() >= 2,
        time_parts(convert_time_12_to_24_spec(time, ampm)).len() == (if time_parts(time).len() > 2 {
            3int
        } else {
            2int
        }),
        time_parts(convert_time_12_to_24_spec(time, ampm))[0] == two_digits(
            hour_24(parse_i32_spec(time_parts(time)[0]).unwrap() as int, ampm),
        ),
        time_parts(convert_time_12_to_24_spec(time, ampm))[1] == time_parts(time)[1],
        time_parts(time).len() > 2 ==> time_parts(convert_time_12_to_24_spec(time, ampm))[2]
            == time_parts(time)[2],
{
    let seps = time_separators();
    let parts = time_parts(time);
    let hours = two_digits(hour_24(parse_i32_spec(parts[0]).unwrap() as int, ampm));
    lemma_split_parts(time, seps);
    lemma_two_digits_free(hour_24(parse_i32_spec(parts[0]).unwrap() as int, ampm));
    assert(free_of(parts[1], seps));
    assert(seps[0] == ':');
    lemma_split_free(hours, seps);
    lemma_split_append(hours, ':', parts[1], seps);
    assert(hours.push(':') + parts[1] =~= hours + seq![':'] + parts[1]);
    if parts.len() > 2 {
        assert(free_of(parts[2], seps));
        lemma_time_parts_of_joined(hours, parts[1], parts[2]);
    }
}

/// The time as `hh:mm:ss`: the hours padded to two characters, the minutes
/// as they are, and the seconds as they are, or `00` if there are none.
pub open spec fn normalize_time_spec(time: Seq<char>) -> Seq<char> {
    let parts = time_parts(time);
    let seconds = if parts.len() > 2 {
        parts[2]
    } else {
        seq!['0', '0']
    };
    pad_left(parts[0], 2, '0') + seq![':'] + parts[1] + seq![':'] + seconds
}

/// Normalizes a time string to have the following format: `hh:mm:ss`.
pub fn normalize_time(time: &str) -> (normalized: String)
    requires
        time_parts(time@).len() >= 2,
    ensures
        normalized@ == normalize_time_spec(time@),
{
    let parts = split_time(TIME_SEPARATOR_PATTERN, time);
    proof {
        assert(seq![':', '.'] =~= time_separators());
        assert forall|k: int| 0 <= k < parts@.len() implies (#[trigger] parts@[k])@ == time_parts(
            time@,
        )[k] by {
            assert(parts.deep_view()[k] == parts@[k].deep_view());
        }
    }
    let mut normalized = String::new();
    push_padded(&mut normalized, &chars_of(parts[0].as_str()), 2, '0');
    normalized.push(':');
    normalized.append(parts[1].as_str());
    normalized.push(':');
    if parts.len() > 2 {
        normalized.append(parts[2].as_str());
    } else {
        proof {
            reveal_strlit("00");
            assert("00"@ =~= seq!['0', '0']);
        }
        normalized.append("00");
    }
    assert(normalized@ =~= normalize_time_spec(time@));
    normalized
}

/// Three texts without separators, put together with colons, are taken
/// apart again as they were.
pub proof fn lemma_time_parts_of_joined(hours: Seq<char>, minutes: Seq<char>, seconds: Seq<char>)
    requires
        free_of(hours, time_separators()),
        free_of(minutes, time_separators()),
        free_of(seconds, time_separators()),
    ensures
        time_parts(hours + seq![':'] + minutes + seq![':'] + seconds) == seq![
            hours,
            minutes,
            seconds,
        ],
{
    let seps = time_separators();
    assert(seps[0] == ':');
    lemma_split_free(hours, seps);
    lemma_split_append(hours, ':', minutes, seps);
    let front = hours.push(':') + minutes;
    lemma_split_append(front, ':', seconds, seps);
    assert(front.push(':') + seconds =~= hours + seq![':'] + minutes + seq![':'] + seconds);
    assert(seq![hours].push(minutes).push(seconds) =~= seq![hours, minutes, seconds]);
}

/// A time in its fixed form has three parts, and stays as it is when it is
/// brought into that form again.
pub proof fn lemma_normalize_time_idempotent(time: Seq<char>)
    requires
        time_parts(time).len() >= 2,
    ensures
        time_parts(normalize_time_spec(time)).len() == 3,
        normalize_time_spec(normalize_time_spec(time)) == normalize_time_spec(time),
{
    let seps = time_separators();
    let parts = time_parts(time);
    lemma_split_parts(time, seps);
    let hours = pad_left(parts[0], 2, '0');
    let minutes = parts[1];
    let seconds = if parts.len() > 2 {
        parts[2]
    } else {
        seq!['0', '0']
    };
    assert(!seps.contains('0'));
    assert(free_of(parts[0], seps));
    lemma_pad_left_free(parts[0], 2, '0', seps);
    assert(free_of(minutes, seps));
    assert(free_of(seconds, seps)) by {
        if parts.len() > 2 {
            assert(free_of(parts[2], seps));
        }
    }
    lemma_time_parts_of_joined(hours, minutes, seconds);
    lemma_pad_left_idempotent(parts[0], 2, '0');
}

} // verus!
