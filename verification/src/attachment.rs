//! Attachments: the file that the text of a message names.

use vstd::prelude::*;
use crate::fields::{capture, copy_capture, ExtractedFields};
use crate::models::{Attachment, AttachmentView};
use crate::pattern::{captures, captures_each, regex_captures, ATTACHMENT_PATTERN};
use crate::text::{trim, trimmed};

verus! {

/// The attachment that a match of the attachment pattern stands for: the
/// file name is what group 1 captured, or else group 2, without white space
/// around it. No match, no attachment.
pub open spec fn attachment_of_match(found: Option<Seq<Option<Seq<char>>>>) -> Option<
    AttachmentView,
> {
    match found {
        Some(groups) => Some(
            AttachmentView {
                file_name: match capture(groups, 1) {
                    Some(name) => trim(name),
                    None => match capture(groups, 2) {
                        Some(name) => trim(name),
                        None => Seq::empty(),
                    },
                },
            },
        ),
        None => None,
    }
}

/// The attachment that the text `message` names, if it names one.
pub open spec fn attachment_of(message: Seq<char>) -> Option<AttachmentView> {
    attachment_of_match(regex_captures(ATTACHMENT_PATTERN@, message))
}

/// Reads the attachment off what the attachment pattern captured in a
/// message. `found` is the outcome of the search: the captured groups, or
/// `None` where the pattern did not match.
pub fn attachment_from_captures(found: &Option<Vec<Option<String>>>) -> (attachment: Option<
    Attachment,
>)
    ensures
        attachment.deep_view() == attachment_of_match(found.deep_view()),
{
    match found {
        Some(groups) => {
            let file_name = match copy_capture(groups, 1) {
                Some(name) => trimmed(name.as_str()),
                None => match copy_capture(groups, 2) {
                    Some(name) => trimmed(name.as_str()),
                    None => String::new(),
                },
            };
            Some(Attachment { file_name })
        },
        None => None,
    }
}

/// Parses a message extracting the attachment if it's present.
pub fn parse_message_attachment(message: &str) -> (attachment: Option<Attachment>)
    ensures
        attachment.deep_view() == attachment_of(message@),
{
    let found = captures(ATTACHMENT_PATTERN, message);
    attachment_from_captures(&found)
}

/// The attachment of each message, from its text. The pattern is compiled
/// once.
pub fn find_attachments(fields: &[ExtractedFields]) -> (attachments: Vec<Option<Attachment>>)
    ensures
        attachments@.len() == fields@.len(),
        forall|i: int|
            0 <= i < fields@.len() ==> (#[trigger] attachments@[i]).deep_view() == attachment_of(
                fields@[i]@.body,
            ),
{
    let mut texts: Vec<&str> = Vec::new();
    let mut i: usize = 0;
    while i < fields.len()
        invariant
            i <= fields@.len(),
            texts@.len() == i,
            forall|j: int| 0 <= j < i ==> (#[trigger] texts@[j])@ == fields@[j]@.body,
        decreases fields@.len() - i,
    {
        texts.push(fields[i].body());
        i = i + 1;
    }
    let found = captures_each(ATTACHMENT_PATTERN, texts.as_slice());
    let mut attachments: Vec<Option<Attachment>> = Vec::new();
    let mut i: usize = 0;
    while i < found.len()
        invariant
            i <= found@.len(),
            found@.len() == fields@.len(),
            attachments@.len() == i,
            forall|j: int|
                0 <= j < fields@.len() ==> (#[trigger] found@[j]).deep_view() == regex_captures(
                    ATTACHMENT_PATTERN@,
                    fields@[j]@.body,
                ),
            forall|j: int|
                0 <= j < i ==> (#[trigger] attachments@[j]).deep_view() == attachment_of(
                    fields@[j]@.body,
                ),
        decreases found@.len() - i,
    {
        attachments.push(attachment_from_captures(&found[i]));
        i = i + 1;
    }
    attachments
}

} // verus!
