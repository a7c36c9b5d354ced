//! The records of a chat log, and the mathematical value of each.

use vstd::prelude::*;
pub use crate::calendar::Timestamp;

verus! {

/// The text of one message as it stands in the log, continuation lines
/// joined to the opening line by line feeds.
#[derive(Debug, PartialEq)]
pub struct RawMessage {
    /// Whether the message has no author.
    pub system: bool,
    /// The text, the date and time in front of it.
    pub msg: String,
}

/// The value of a `RawMessage`.
pub struct RawMessageView {
    /// Whether the message has no author.
    pub system: bool,
    /// The text, the date and time in front of it.
    pub msg: Seq<char>,
}

impl View for RawMessage {
    type V = RawMessageView;

    open spec fn view(&self) -> RawMessageView {
        RawMessageView { system: self.system, msg: self.msg@ }
    }
}

impl DeepView for RawMessage {
    type V = RawMessageView;

    open spec fn deep_view(&self) -> RawMessageView {
        self@
    }
}

/// A file sent along with a message.
#[derive(Debug, PartialEq)]
pub struct Attachment {
    /// The filename of the attachment, with the extension.
    pub file_name: String,
}

/// The value of an `Attachment`.
pub struct AttachmentView {
    /// The filename of the attachment, with the extension.
    pub file_name: Seq<char>,
}

impl View for Attachment {
    type V = AttachmentView;

    open spec fn view(&self) -> AttachmentView {
        AttachmentView { file_name: self.file_name@ }
    }
}

impl DeepView for Attachment {
    type V = AttachmentView;

    open spec fn deep_view(&self) -> AttachmentView {
        self@
    }
}

/// One message of the log.
#[derive(Debug, PartialEq)]
pub struct Message {
    /// The date of the message.
    pub date: Timestamp,
    /// The author of the message. `None` for messages without an author
    /// (system messages).
    pub author: Option<String>,
    /// The message itself.
    pub message: String,
    /// The attachment, for a message that has one, where the option
    /// `parse_attachments` is set.
    pub attachment: Option<Attachment>,
}

/// The value of a `Message`.
pub struct MessageView {
    /// The date of the message.
    pub date: Timestamp,
    /// The author of the message, if it has one.
    pub author: Option<Seq<char>>,
    /// The message itself.
    pub message: Seq<char>,
    /// The attachment, if one was looked for and found.
    pub attachment: Option<AttachmentView>,
}

impl View for Message {
    type V = MessageView;

    open spec fn view(&self) -> MessageView {
        MessageView {
            date: self.date,
            author: match self.author {
                Some(author) => Some(author@),
                None => None,
            },
            message: self.message@,
            attachment: match self.attachment {
                Some(attachment) => Some(attachment@),
                None => None,
            },
        }
    }
}

impl DeepView for Message {
    type V = MessageView;

    open spec fn deep_view(&self) -> MessageView {
        self@
    }
}

/// How a log is to be read.
#[derive(Debug)]
pub struct ParseStringOptions {
    /// Whether the dates of the log start with a day (`true`) or a month
    /// (`false`). `None` leaves it to be found out from the dates.
    pub days_first: Option<bool>,
    /// Whether attachments are looked for.
    pub parse_attachments: bool,
    /// Asks for a trace of the reading. The result of reading never depends
    /// on it.
    pub debug: bool,
}

impl Default for ParseStringOptions {
    /// The order of the dates is found out, attachments are not looked for.
    fn default() -> (options: ParseStringOptions)
        ensures
            options.days_first is None,
            !options.parse_attachments,
            !options.debug,
    {
        ParseStringOptions { days_first: None, parse_attachments: false, debug: false }
    }
}

} // verus!
