//! Reads the text of an exported chat log into messages.
//!
//! The text is cut into lines at line feeds. Lines are put together to
//! messages, the fields of each message are taken from its text, the order of
//! days and months in the dates is found out from all dates together, and
//! each message gets its timestamp. The messages come out in the order in
//! which they stand in the log.

use vstd::prelude::*;

pub mod attachment;
pub mod calendar;
pub mod date_order;
pub mod datetime;
pub mod decimal;
pub mod fields;
pub mod grouping;
pub mod models;
pub mod parser;
pub mod pattern;
pub mod text;
pub mod threshold;
pub mod timestamp;

use crate::models::{Message, MessageView, ParseStringOptions};
use crate::fields::{every_message_matches, lemma_extract_all, lemma_extract_all_short};
use crate::parser::{
    make_array_of_messages_with_debug, parse_messages, parse_messages_spec, segment,
};
use crate::text::{split_on, split_text};

verus! {

/// What `parse_string` answers where the text of a message does not match
/// the pattern by which its opening line was recognised.
pub const PATTERN_MISMATCH: &'static str = "a message does not match the pattern of its opening line";

/// The lines of `text`: what stands between its line feeds. A carriage
/// return before a line feed stays with its line.
pub open spec fn lines_of(text: Seq<char>) -> Seq<Seq<char>> {
    split_on(text, seq!['\n'])
}

/// The options that are given, or else the default ones.
pub open spec fn options_or_default(options: Option<ParseStringOptions>) -> ParseStringOptions {
    match options {
        Some(given) => given,
        None => ParseStringOptions { days_first: None, parse_attachments: false, debug: false },
    }
}

/// The messages of the log `text`.
pub open spec fn parse_string_spec(text: Seq<char>, options: ParseStringOptions) -> Seq<MessageView> {
    parse_messages_spec(segment(lines_of(text)), options)
}

/// Reads a chat log. There is one message for each opening line in the
/// text, in the order of the log, and every timestamp exists. The one
/// failure is a message whose text does not match the pattern by which its
/// opening line was recognised, which is answered by `PATTERN_MISMATCH`.
pub fn parse_string(s: &str, options: Option<ParseStringOptions>) -> (result: Result<
    Vec<Message>,
    String,
>)
    ensures
        result is Ok <==> every_message_matches(segment(lines_of(s@))),
        result matches Ok(messages) ==> {
            &&& messages.deep_view() == parse_string_spec(s@, options_or_default(options))
            &&& messages@.len() == segment(lines_of(s@)).len()
            &&& forall|k: int| 0 <= k < messages@.len() ==> (#[trigger] messages@[k]).date.is_valid()
        },
        result matches Err(reason) ==> reason@ == PATTERN_MISMATCH@,
{
    let opts = match options {
        Some(given) => given,
        None => ParseStringOptions::default(),
    };
    let line_feed: Vec<char> = vec!['\n'];
    assert(line_feed@ =~= seq!['\n']);
    let owned_lines = split_text(s, &line_feed);
    let mut lines: Vec<&str> = Vec::new();
    let mut i: usize = 0;
    assert(lines.deep_view() =~= owned_lines.deep_view().take(0));
    while i < owned_lines.len()
        invariant
            i <= owned_lines@.len(),
            lines.deep_view() == owned_lines.deep_view().take(i as int),
        decreases owned_lines@.len() - i,
    {
        let ghost before = lines.deep_view();
        lines.push(owned_lines[i].as_str());
        assert(lines.deep_view() =~= before.push(owned_lines@[i as int]@));
        assert(owned_lines.deep_view().take(i + 1) =~= owned_lines.deep_view().take(i as int).push(
            owned_lines@[i as int]@,
        ));
        i = i + 1;
    }
    assert(owned_lines.deep_view().take(owned_lines@.len() as int) =~= owned_lines.deep_view());
    let raw = make_array_of_messages_with_debug(lines.as_slice(), opts.debug);
    let parsed = parse_messages(raw.as_slice(), &opts);
    proof {
        assert(raw.deep_view().len() == raw@.len());
        lemma_extract_all(raw.deep_view());
        if !every_message_matches(raw.deep_view()) {
            lemma_extract_all_short(raw.deep_view());
        }
        assert(opts == options_or_default(options));
    }
    if parsed.len() == raw.len() {
        Ok(parsed)
    } else {
        Err(PATTERN_MISMATCH.to_owned())
    }
}

} // verus!
