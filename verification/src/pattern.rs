//! The regular expressions of the chat log format, and the calls into the
//! `regex` crate that run them.
//!
//! A pattern is handed over as text and compiled where it is used. What a
//! search finds is a function of the pattern and the text searched; it is
//! given a name here and not spelled out.

use vstd::prelude::*;
use crate::text::split_on;

verus! {

/// What every opening line of a message starts with: directional marks, if
/// any; the date, with an opening bracket before it or none, as three
/// numbers of one to four digits with `-`, `/` or `.` between them; the time,
/// as two or three numbers of one or two digits with `:` or `.` between them;
/// an AM or PM, if any; a closing bracket, a hyphen or a colon, or none; and
/// white space. Group 1 is the date, group 2 the time, group 3 AM or PM.
pub const SHARED_PATTERN: &'static str =
    r"^(?:\u{200E}|\u{200F})*\[?(\d{1,4}[-/.]\s?\d{1,4}[-/.]\s?\d{1,4})[,.]?\s\D*?(\d{1,2}[.:]\d{1,2}(?:[.:]\d{1,2})?)(?:(?:\s|\u{202F})([AaPp](?:\.\s?|\s?)[Mm]\.?))?\]?(?:\s-|:)?\s";

/// What follows in a message of a user: the author (group 4), a colon and
/// a white space, and the text (group 5), which runs to the end over all
/// lines.
pub const AUTHOR_AND_MESSAGE_PATTERN: &'static str = r"(?s)(.+?):\s(.*)";

/// What follows in a message of the system: the text (group 4), which runs
/// to the end over all lines.
pub const MESSAGE_PATTERN: &'static str = r"(?s)(.*)";

/// A text that names an attached file: `<attached: name>` with any words
/// before the colon (the name is group 1), or a file name (group 2) followed
/// by a remark in brackets.
pub const ATTACHMENT_PATTERN: &'static str =
    r"^(?:\u{200E}|\u{200F})*(?:<.+:(.+)>|([\w-]+\.\w+)\s[(<].+[)>])";

/// One colon or one full stop.
pub const TIME_SEPARATOR_PATTERN: &'static str = "[:.]";

/// The pattern for a message of a user.
pub open spec fn user_pattern() -> Seq<char> {
    SHARED_PATTERN@ + AUTHOR_AND_MESSAGE_PATTERN@
}

/// The pattern for a message of the system.
pub open spec fn system_pattern() -> Seq<char> {
    SHARED_PATTERN@ + MESSAGE_PATTERN@
}

/// The pattern for a message of the system or of a user.
pub open spec fn pattern_for(system: bool) -> Seq<char> {
    if system {
        system_pattern()
    } else {
        user_pattern()
    }
}

/// The pattern for a message of the system or of a user.
pub fn full_pattern(system: bool) -> (pattern: String)
    ensures
        pattern@ == pattern_for(system),
{
    let mut pattern = SHARED_PATTERN.to_owned();
    if system {
        pattern.append(MESSAGE_PATTERN);
    } else {
        pattern.append(AUTHOR_AND_MESSAGE_PATTERN);
    }
    pattern
}

/// What the first match of `pattern` in `haystack` captures: the text of
/// each group, the whole match being group 0, with `None` for a group that
/// took no part. `None` where `pattern` matches nowhere in `haystack`, or is
/// no regular expression that `regex` compiles.
pub uninterp spec fn regex_captures(pattern: Seq<char>, haystack: Seq<char>) -> Option<
    Seq<Option<Seq<char>>>,
>;

/// `pattern` compiles and matches somewhere in `haystack`.
pub open spec fn regex_matches(pattern: Seq<char>, haystack: Seq<char>) -> bool {
    regex_captures(pattern, haystack) is Some
}

/// `regex::Regex::new` once, and `Regex::captures` on each text of
/// `haystacks` in turn: for each text the groups of the first match, each as
/// an owned string. What is found in a text depends on the pattern and that
/// text alone.
#[verifier::external_body]
pub(crate) fn captures_each(pattern: &str, haystacks: &[&str]) -> (found: Vec<
    Option<Vec<Option<String>>>,
>)
    ensures
        found@.len() == haystacks@.len(),
        forall|i: int|
            0 <= i < haystacks@.len() ==> (#[trigger] found@[i]).deep_view() == regex_captures(
                pattern@,
                haystacks@[i]@,
            ),
{
    let compiled = regex::Regex::new(pattern).ok();
    haystacks.iter().map(|text| match &compiled {
        Some(re) => re.captures(text).map(
            |groups| groups.iter().map(|m| m.map(|m| m.as_str().to_string())).collect(),
        ),
        None => None,
    }).collect()
}

/// `regex::Regex::new` once, and `Regex::is_match` on each text of
/// `haystacks` in turn. `is_match` finds a match exactly where
/// `Regex::captures` finds one.
#[verifier::external_body]
pub(crate) fn is_match_each(pattern: &str, haystacks: &[&str]) -> (found: Vec<bool>)
    ensures
        found@.len() == haystacks@.len(),
        forall|i: int|
            0 <= i < haystacks@.len() ==> (#[trigger] found@[i]) == regex_matches(
                pattern@,
                haystacks@[i]@,
            ),
{
    let compiled = regex::Regex::new(pattern).ok();
    haystacks.iter().map(|text| match &compiled {
        Some(re) => re.is_match(text),
        None => false,
    }).collect()
}

/// What `pattern` captures in `haystack`.
pub(crate) fn captures(pattern: &str, haystack: &str) -> (groups: Option<Vec<Option<String>>>)
    ensures
        groups.deep_view() == regex_captures(pattern@, haystack@),
{
    let mut one: Vec<&str> = Vec::new();
    one.push(haystack);
    let mut found = captures_each(pattern, one.as_slice());
    match found.pop() {
        Some(groups) => groups,
        None => None,
    }
}

/// `regex::Regex::new` followed by `Regex::split`, for the one pattern
/// that matches a single colon or full stop: the pieces of `time` between
/// those characters, an empty piece where two of them meet or one stands at
/// an end.
#[verifier::external_body]
pub(crate) fn split_time(pattern: &str, time: &str) -> (parts: Vec<String>)
    requires
        pattern@ == TIME_SEPARATOR_PATTERN@,
    ensures
        parts.deep_view() == split_on(time@, seq![':', '.']),
{
    match regex::Regex::new(pattern) {
        Ok(re) => re.split(time).map(|part| part.to_string()).collect(),
        Err(_) => Vec::new(),
    }
}

} // verus!
