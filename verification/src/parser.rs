//! From the lines of a chat log to its messages.
//!
//! A line that starts with a date and a time opens a message; any other line
//! continues the message before it. The fields of a message are taken from
//! its text with the pattern that its opening line was recognised by. The
//! order of days and months in the dates is settled once for all messages.

use vstd::prelude::*;
use crate::attachment::{attachment_of, find_attachments};
use crate::datetime::{date_order_signal, days_before_months, has_components};
use crate::fields::{
    every_message_matches, extract_all, extract_all_fields, lemma_extract_all, ExtractedFields,
    ExtractedFieldsView,
};
use crate::models::{
    Attachment, Message, MessageView, ParseStringOptions, RawMessage, RawMessageView,
};
use crate::pattern::{full_pattern, is_match_each, regex_matches, system_pattern, user_pattern};
use crate::timestamp::{numeric_date, numeric_date_spec, resolve_timestamp, resolve_timestamp_spec};

verus! {

// ---------------------------------------------------------------------
// Lines to messages
// ---------------------------------------------------------------------

/// What a line of the log is.
#[derive(Debug, Clone, Copy, PartialEq, Eq, Structural)]
pub enum LineKind {
    /// The opening line of a message with an author.
    User,
    /// The opening line of a message without an author.
    System,
    /// A line that belongs to the message before it.
    Continuation,
}

/// What `line` is. A line is tried as the opening of a user's message
/// first: every such line would pass for the opening of a system message
/// too.
pub open spec fn line_kind(line: Seq<char>) -> LineKind {
    if regex_matches(user_pattern(), line) {
        LineKind::User
    } else if regex_matches(system_pattern(), line) {
        LineKind::System
    } else {
        LineKind::Continuation
    }
}

/// Tells what each of `lines` is. Each of the two patterns is compiled
/// once.
pub fn classify_lines(lines: &[&str]) -> (kinds: Vec<LineKind>)
    ensures
        kinds@.len() == lines@.len(),
        forall|i: int| 0 <= i < lines@.len() ==> (#[trigger] kinds@[i]) == line_kind(lines@[i]@),
{
    let by_user = is_match_each(full_pattern(false).as_str(), lines);
    let by_system = is_match_each(full_pattern(true).as_str(), lines);
    let mut kinds: Vec<LineKind> = Vec::new();
    let mut i: usize = 0;
    while i < lines.len()
        invariant
            i <= lines@.len(),
            by_user@.len() == lines@.len(),
            by_system@.len() == lines@.len(),
            forall|j: int|
                0 <= j < lines@.len() ==> (#[trigger] by_user@[j]) == regex_matches(
                    user_pattern(),
                    lines@[j]@,
                ),
            forall|j: int|
                0 <= j < lines@.len() ==> (#[trigger] by_system@[j]) == regex_matches(
                    system_pattern(),
                    lines@[j]@,
                ),
            kinds@.len() == i,
            forall|j: int| 0 <= j < i ==> (#[trigger] kinds@[j]) == line_kind(lines@[j]@),
        decreases lines@.len() - i,
    {
        let kind = if by_user[i] {
            LineKind::User
        } else if by_system[i] {
            LineKind::System
        } else {
            LineKind::Continuation
        };
        kinds.push(kind);
        i = i + 1;
    }
    kinds
}

/// The messages that `lines` make up, where `kinds` tells what each line
/// is. An opening line starts a message. A continuation line is added to the
/// last message, behind a line feed; before the first message it is
/// dropped.
pub open spec fn merge(lines: Seq<Seq<char>>, kinds: Seq<LineKind>) -> Seq<RawMessageView>
    decreases lines.len(),
{
    if lines.len() == 0 {
        Seq::empty()
    } else {
        let before = merge(lines.drop_last(), kinds.drop_last());
        let line = lines.last();
        match kinds[lines.len() - 1] {
            LineKind::User => before.push(RawMessageView { system: false, msg: line }),
            LineKind::System => before.push(RawMessageView { system: true, msg: line }),
            LineKind::Continuation => if before.len() == 0 {
                before
            } else {
                before.drop_last().push(
                    RawMessageView {
                        system: before.last().system,
                        msg: before.last().msg + seq!['\n'] + line,
                    },
                )
            },
        }
    }
}

/// The messages that `lines` make up.
pub open spec fn segment(lines: Seq<Seq<char>>) -> Seq<RawMessageView> {
    merge(lines, lines.map_values(|line: Seq<char>| line_kind(line)))
}

/// There are never more messages than lines.
pub proof fn lemma_merge_len(lines: Seq<Seq<char>>, kinds: Seq<LineKind>)
    ensures
        merge(lines, kinds).len() <= lines.len(),
    decreases lines.len(),
{
    if lines.len() > 0 {
        lemma_merge_len(lines.drop_last(), kinds.drop_last());
    }
}

/// Puts `lines` together to messages, where `kinds` tells what each line
/// is.
pub fn merge_lines(lines: &[&str], kinds: &Vec<LineKind>) -> (messages: Vec<RawMessage>)
    requires
        kinds@.len() == lines@.len(),
    ensures
        messages.deep_view() == merge(lines.deep_view(), kinds@),
{
    let ghost all = lines.deep_view();
    let mut acc: Vec<RawMessage> = Vec::new();
    let mut i: usize = 0;
    assert(all.take(0) =~= Seq::<Seq<char>>::empty());
    assert(acc.deep_view() =~= Seq::<RawMessageView>::empty());
    while i < lines.len()
        invariant
            i <= lines@.len(),
            all == lines.deep_view(),
            kinds@.len() == lines@.len(),
            acc.deep_view() == merge(all.take(i as int), kinds@.take(i as int)),
        decreases lines@.len() - i,
    {
        let line: &str = lines[i];
        let ghost before = acc.deep_view();
        proof {
            assert(all.take(i + 1).drop_last() =~= all.take(i as int));
            assert(kinds@.take(i + 1).drop_last() =~= kinds@.take(i as int));
            assert(all.take(i + 1).last() == line@);
        }
        match kinds[i] {
            LineKind::User => {
                acc.push(RawMessage { system: false, msg: line.to_owned() });
                assert(acc.deep_view() =~= before.push(
                    RawMessageView { system: false, msg: line@ },
                ));
            },
            LineKind::System => {
                acc.push(RawMessage { system: true, msg: line.to_owned() });
                assert(acc.deep_view() =~= before.push(
                    RawMessageView { system: true, msg: line@ },
                ));
            },
            LineKind::Continuation => {
                if acc.len() > 0 {
                    let mut last = acc.pop().unwrap();
                    let ghost merged = RawMessageView {
                        system: last.system,
                        msg: last.msg@ + seq!['\n'] + line@,
                    };
                    assert(last@ == before.last());
                    last.msg.push('\n');
                    last.msg.append(line);
                    assert(last.msg@ =~= merged.msg);
                    acc.push(last);
                    assert(acc.deep_view() =~= before.drop_last().push(merged));
                }
            },
        }
        i = i + 1;
    }
    assert(all.take(all.len() as int) =~= all);
    assert(kinds@.take(kinds@.len() as int) =~= kinds@);
    acc
}

/// Takes an array of lines and detects the lines that are part of a previous
/// message (multiline messages) and merges them.
///
/// It also labels messages without an author as system messages.
pub fn make_array_of_messages(lines: &[&str]) -> (messages: Vec<RawMessage>)
    ensures
        messages.deep_view() == segment(lines.deep_view()),
{
    make_array_of_messages_with_debug(lines, false)
}

/// As `make_array_of_messages`. The messages are the same whatever `debug`
/// is; nothing is printed here.
pub fn make_array_of_messages_with_debug(lines: &[&str], debug: bool) -> (messages: Vec<
    RawMessage,
>)
    ensures
        messages.deep_view() == segment(lines.deep_view()),
{
    let kinds = classify_lines(lines);
    assert(kinds@ =~= lines.deep_view().map_values(|line: Seq<char>| line_kind(line)));
    merge_lines(lines, &kinds)
}

// ---------------------------------------------------------------------
// The order of days and months
// ---------------------------------------------------------------------

/// The numbers of the dates of `fields`.
pub open spec fn numeric_dates(fields: Seq<ExtractedFieldsView>) -> Seq<Seq<i32>> {
    fields.map_values(|f: ExtractedFieldsView| numeric_date_spec(f.date))
}

/// The order in which the dates are read: the one that `options` name, or
/// else the one found out from the dates of the whole batch, if any.
pub open spec fn resolved_order(fields: Seq<ExtractedFieldsView>, options: ParseStringOptions) -> Option<
    bool,
> {
    if options.days_first is Some {
        options.days_first
    } else {
        date_order_signal(numeric_dates(fields))
    }
}

/// Finds out the order of days and months from the dates of `fields`.
pub fn detect_date_order(fields: &Vec<ExtractedFields>) -> (order: Option<bool>)
    ensures
        order == date_order_signal(numeric_dates(fields.deep_view())),
{
    let ghost wanted = numeric_dates(fields.deep_view());
    let mut dates: Vec<Vec<i32>> = Vec::new();
    let mut i: usize = 0;
    assert(dates.deep_view() =~= wanted.take(0));
    while i < fields.len()
        invariant
            i <= fields@.len(),
            wanted == numeric_dates(fields.deep_view()),
            dates.deep_view() == wanted.take(i as int),
        decreases fields@.len() - i,
    {
        let ghost before = dates.deep_view();
        let numbers = numeric_date(fields[i].date());
        proof {
            assert(fields.deep_view()[i as int] == fields@[i as int]@);
            assert(numbers.deep_view() =~= numbers@);
            assert(wanted[i as int] == numbers@);
        }
        dates.push(numbers);
        assert(dates.deep_view() =~= before.push(numbers@));
        assert(wanted.take(i + 1) =~= wanted.take(i as int).push(wanted[i as int]));
        i = i + 1;
    }
    assert(wanted.take(wanted.len() as int) =~= wanted);
    assert(has_components(wanted, 3)) by {
        assert forall|k: int| 0 <= k < wanted.len() implies (#[trigger] wanted[k]).len() >= 3 by {
            assert(wanted[k] == numeric_date_spec(fields.deep_view()[k].date));
        }
    }
    days_before_months(dates.as_slice())
}

/// The order in which the dates of `fields` are read under `options`: the
/// one that the options name, or else the one found out from the dates.
pub fn date_order_for(fields: &Vec<ExtractedFields>, options: &ParseStringOptions) -> (order: Option<
    bool,
>)
    ensures
        order == resolved_order(fields.deep_view(), *options),
{
    match options.days_first {
        Some(days_first) => Some(days_first),
        None => detect_date_order(fields),
    }
}

// ---------------------------------------------------------------------
// Messages
// ---------------------------------------------------------------------

/// The message with the fields `fields`: its timestamp with the date read
/// in the order `order`, author and text as they are, and the attachment that
/// the text names if attachments are asked for.
pub open spec fn resolve_message_spec(
    fields: ExtractedFieldsView,
    order: Option<bool>,
    parse_attachments: bool,
) -> MessageView {
    MessageView {
        date: resolve_timestamp_spec(fields, order),
        author: fields.author,
        message: fields.body,
        attachment: if parse_attachments {
            attachment_of(fields.body)
        } else {
            None
        },
    }
}

/// The messages for `fields`, one for one.
pub open spec fn resolve_messages_spec(
    fields: Seq<ExtractedFieldsView>,
    order: Option<bool>,
    parse_attachments: bool,
) -> Seq<MessageView> {
    fields.map_values(|f: ExtractedFieldsView| resolve_message_spec(f, order, parse_attachments))
}

/// The messages of a log, from the texts of its messages: for each text
/// whose fields can be taken from it a message, in the order of the texts.
/// All dates are read in one order; where none is named and none can be
/// found out, days come first.
pub open spec fn parse_messages_spec(
    messages: Seq<RawMessageView>,
    options: ParseStringOptions,
) -> Seq<MessageView> {
    let fields = extract_all(messages);
    resolve_messages_spec(fields, resolved_order(fields, options), options.parse_attachments)
}

/// Where no order is named and none is found out, the dates are read days
/// first.
pub proof fn lemma_unresolved_order_is_days_first(fields: ExtractedFieldsView, parse_attachments: bool)
    ensures
        resolve_message_spec(fields, None, parse_attachments) == resolve_message_spec(
            fields,
            Some(true),
            parse_attachments,
        ),
{
}

/// The messages are the same whatever `debug` is.
pub proof fn lemma_debug_changes_nothing(
    messages: Seq<RawMessageView>,
    options: ParseStringOptions,
    debug: bool,
)
    ensures
        parse_messages_spec(
            messages,
            ParseStringOptions {
                days_first: options.days_first,
                parse_attachments: options.parse_attachments,
                debug,
            },
        ) == parse_messages_spec(messages, options),
{
}

/// Makes the message for each of `fields`, in their order, with the dates
/// read in the order `order`. Every timestamp exists.
pub fn resolve_messages(fields: &[ExtractedFields], order: Option<bool>, parse_attachments: bool) -> (messages:
    Vec<Message>)
    ensures
        messages.deep_view() == resolve_messages_spec(fields.deep_view(), order, parse_attachments),
        messages@.len() == fields@.len(),
        forall|k: int| 0 <= k < messages@.len() ==> (#[trigger] messages@[k]).date.is_valid(),
{
    let ghost wanted = resolve_messages_spec(fields.deep_view(), order, parse_attachments);
    let mut attachments: Vec<Option<Attachment>> = if parse_attachments {
        find_attachments(fields)
    } else {
        Vec::new()
    };
    let mut messages: Vec<Message> = Vec::new();
    let mut i: usize = 0;
    assert(messages.deep_view() =~= wanted.take(0));
    while i < fields.len()
        invariant
            i <= fields@.len(),
            wanted == resolve_messages_spec(fields.deep_view(), order, parse_attachments),
            parse_attachments ==> attachments@.len() == fields@.len(),
            parse_attachments ==> forall|j: int|
                i <= j < fields@.len() ==> (#[trigger] attachments@[j]).deep_view()
                    == attachment_of(fields@[j]@.body),
            messages@.len() == i,
            messages.deep_view() == wanted.take(i as int),
            forall|k: int| 0 <= k < messages@.len() ==> (#[trigger] messages@[k]).date.is_valid(),
        decreases fields@.len() - i,
    {
        let ghost before = messages.deep_view();
        let item = &fields[i];
        let date = resolve_timestamp(item, order);
        let author = match item.author() {
            Some(name) => Some(name.to_owned()),
            None => None,
        };
        let mut attachment: Option<Attachment> = None;
        if parse_attachments {
            std::mem::swap(&mut attachment, &mut attachments[i]);
        }
        let message = Message { date, author, message: item.body().to_owned(), attachment };
        proof {
            assert(fields.deep_view()[i as int] == fields@[i as int]@);
            assert(wanted[i as int] == message@);
        }
        let ghost view = message@;
        messages.push(message);
        assert(messages.deep_view() =~= before.push(view));
        assert(wanted.take(i + 1) =~= wanted.take(i as int).push(wanted[i as int]));
        i = i + 1;
    }
    assert(wanted.take(wanted.len() as int) =~= wanted);
    messages
}

/// Parses an array of raw messages into an array of structured objects.
///
/// A message whose text does not match the pattern for its kind is left
/// out; so there are never more messages than texts, and as many where every
/// text matches. Every timestamp exists.
pub fn parse_messages(messages: &[RawMessage], options: &ParseStringOptions) -> (parsed: Vec<
    Message,
>)
    ensures
        parsed.deep_view() == parse_messages_spec(messages.deep_view(), *options),
        parsed@.len() == extract_all(messages.deep_view()).len(),
        parsed@.len() <= messages@.len(),
        every_message_matches(messages.deep_view()) ==> parsed@.len() == messages@.len(),
        forall|k: int| 0 <= k < parsed@.len() ==> (#[trigger] parsed@[k]).date.is_valid(),
{
    let fields = extract_all_fields(messages);
    let order = date_order_for(&fields, options);
    proof {
        lemma_extract_all(messages.deep_view());
    }
    resolve_messages(fields.as_slice(), order, options.parse_attachments)
}

} // verus!
