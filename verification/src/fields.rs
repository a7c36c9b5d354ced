//! The fields of a message: date, time, author and text, as they stand in
//! the text of the message.
//!
//! The fields are what the pattern for the kind of the message captures in
//! its text. The search is left to the `regex` crate; what is made of its
//! outcome is decided here.

use vstd::prelude::*;
use crate::datetime::{date_part_count, date_separators, time_parts, time_separators};
use crate::grouping::{lemma_positions_of, positions_of};
use crate::models::{RawMessage, RawMessageView};
use crate::pattern::{captures, captures_each, full_pattern, pattern_for, regex_captures};
use crate::text::{split_text, string_of, trim, trim_bounds};

verus! {

/// The fields of a message as they stand in its text. The date has three
/// parts or more and the time two or more.
#[derive(Debug, PartialEq)]
pub struct ExtractedFields {
    date: String,
    time: String,
    ampm: Option<String>,
    author: Option<String>,
    body: String,
}

/// The value of `ExtractedFields`.
pub struct ExtractedFieldsView {
    /// The date, as written.
    pub date: Seq<char>,
    /// The time, as written.
    pub time: Seq<char>,
    /// AM or PM, as written, if the time has one.
    pub ampm: Option<Seq<char>>,
    /// The author, if the message has one.
    pub author: Option<Seq<char>>,
    /// The text of the message, without directional marks and without white
    /// space around it.
    pub body: Seq<char>,
}

impl ExtractedFieldsView {
    /// The date has three parts or more and the time two or more.
    pub open spec fn is_well_formed(self) -> bool {
        date_part_count(self.date) >= 3 && time_parts(self.time).len() >= 2
    }
}

impl View for ExtractedFields {
    type V = ExtractedFieldsView;

    closed spec fn view(&self) -> ExtractedFieldsView {
        ExtractedFieldsView {
            date: self.date@,
            time: self.time@,
            ampm: match self.ampm {
                Some(ampm) => Some(ampm@),
                None => None,
            },
            author: match self.author {
                Some(author) => Some(author@),
                None => None,
            },
            body: self.body@,
        }
    }
}

impl DeepView for ExtractedFields {
    type V = ExtractedFieldsView;

    open spec fn deep_view(&self) -> ExtractedFieldsView {
        self@
    }
}

impl ExtractedFields {
    #[verifier::type_invariant]
    spec fn well_formed(&self) -> bool {
        self@.is_well_formed()
    }

    /// The date, as written. It has three parts or more.
    pub fn date(&self) -> (date: &str)
        ensures
            date@ == self@.date,
            self@.is_well_formed(),
    {
        proof {
            use_type_invariant(self);
        }
        self.date.as_str()
    }

    /// The time, as written. It has two parts or more.
    pub fn time(&self) -> (time: &str)
        ensures
            time@ == self@.time,
            self@.is_well_formed(),
    {
        proof {
            use_type_invariant(self);
        }
        self.time.as_str()
    }

    /// AM or PM, as written, if the time has one.
    pub fn ampm(&self) -> (ampm: Option<&str>)
        ensures
            ampm.deep_view() == self@.ampm,
    {
        match &self.ampm {
            Some(half) => Some(half.as_str()),
            None => None,
        }
    }

    /// The author, if the message has one.
    pub fn author(&self) -> (author: Option<&str>)
        ensures
            author.deep_view() == self@.author,
    {
        match &self.author {
            Some(name) => Some(name.as_str()),
            None => None,
        }
    }

    /// The text of the message, without directional marks and without white
    /// space around it.
    pub fn body(&self) -> (body: &str)
        ensures
            body@ == self@.body,
    {
        self.body.as_str()
    }
}

/// What group `i` captured, if there is such a group and it took part in
/// the match.
pub open spec fn capture(groups: Seq<Option<Seq<char>>>, i: int) -> Option<Seq<char>> {
    if 0 <= i < groups.len() {
        groups[i]
    } else {
        None
    }
}

/// What group `i` captured, or the empty text.
pub open spec fn capture_text(groups: Seq<Option<Seq<char>>>, i: int) -> Seq<char> {
    match capture(groups, i) {
        Some(text) => text,
        None => Seq::empty(),
    }
}

/// `c` is a left-to-right or a right-to-left mark.
pub open spec fn is_directional_mark(c: char) -> bool {
    c == '\u{200E}' || c == '\u{200F}'
}

/// `body` without directional marks, and without white space around what is
/// left.
pub open spec fn clean_body(body: Seq<char>) -> Seq<char> {
    trim(body.filter(|c: char| !is_directional_mark(c)))
}

/// The fields that the groups of a match stand for. Groups 1 to 3 are the
/// date, the time and AM or PM; a user's message has its author in group 4
/// and its text in group 5, a system message its text in group 4.
pub open spec fn fields_of_captures(
    groups: Seq<Option<Seq<char>>>,
    system: bool,
) -> ExtractedFieldsView {
    ExtractedFieldsView {
        date: capture_text(groups, 1),
        time: capture_text(groups, 2),
        ampm: capture(groups, 3),
        author: if system {
            None
        } else {
            capture(groups, 4)
        },
        body: clean_body(
            capture_text(
                groups,
                if system {
                    4
                } else {
                    5
                },
            ),
        ),
    }
}

/// The fields of a message, for what the pattern of the message captured in
/// its text: `None` where the pattern did not match, or where what stands for
/// the date or the time has too few parts.
pub open spec fn fields_of_match(
    found: Option<Seq<Option<Seq<char>>>>,
    system: bool,
) -> Option<ExtractedFieldsView> {
    match found {
        Some(groups) => if fields_of_captures(groups, system).is_well_formed() {
            Some(fields_of_captures(groups, system))
        } else {
            None
        },
        None => None,
    }
}

/// The fields of the message `raw`, taken from its text with the pattern
/// for its kind.
pub open spec fn extract_fields_spec(raw: RawMessageView) -> Option<ExtractedFieldsView> {
    fields_of_match(regex_captures(pattern_for(raw.system), raw.msg), raw.system)
}

/// A copy of what group `i` captured.
pub(crate) fn copy_capture(groups: &Vec<Option<String>>, i: usize) -> (text: Option<String>)
    ensures
        text.deep_view() == capture(groups.deep_view(), i as int),
{
    if i < groups.len() {
        assert(groups.deep_view()[i as int] == groups@[i as int].deep_view());
        match &groups[i] {
            Some(text) => Some(text.clone()),
            None => None,
        }
    } else {
        None
    }
}

/// A copy of what group `i` captured, or the empty text.
fn copy_capture_text(groups: &Vec<Option<String>>, i: usize) -> (text: String)
    ensures
        text@ == capture_text(groups.deep_view(), i as int),
{
    match copy_capture(groups, i) {
        Some(text) => text,
        None => String::new(),
    }
}

/// Removes directional marks from `body`, and white space around the
/// rest.
pub fn clean_message_body(body: &str) -> (cleaned: String)
    ensures
        cleaned@ == clean_body(body@),
{
    let mut kept: Vec<char> = Vec::new();
    let ghost keep = |c: char| !is_directional_mark(c);
    proof {
        assert(body@.take(0) =~= Seq::<char>::empty());
        reveal(Seq::filter);
    }
    for c in it: body.chars()
        invariant
            it.seq() == body@,
            keep == (|c: char| !is_directional_mark(c)),
            kept@ == body@.take(it.index() as int).filter(keep),
    {
        proof {
            assert(body@.take(it.index() + 1) =~= body@.take(it.index() as int).push(c));
            body@.take(it.index() as int).lemma_filter_push(c, keep);
        }
        if c != '\u{200E}' && c != '\u{200F}' {
            kept.push(c);
        }
    }
    assert(body@.take(body@.len() as int) =~= body@);
    let (from, to) = trim_bounds(&kept);
    string_of(&kept, from, to)
}

/// Whether `date` has three parts or more.
fn has_date_parts(date: &str) -> (enough: bool)
    ensures
        enough == (date_part_count(date@) >= 3),
{
    let separators: Vec<char> = vec!['-', '/', '.'];
    assert(separators@ =~= date_separators());
    let pieces = split_text(date, &separators);
    assert(pieces.deep_view().len() == pieces@.len());
    pieces.len() >= 3
}

/// Whether `time` has two parts or more.
fn has_time_parts(time: &str) -> (enough: bool)
    ensures
        enough == (time_parts(time@).len() >= 2),
{
    let separators: Vec<char> = vec![':', '.'];
    assert(separators@ =~= time_separators());
    let pieces = split_text(time, &separators);
    assert(pieces.deep_view().len() == pieces@.len());
    pieces.len() >= 2
}

/// Reads the fields of a message off what its pattern captured in its text.
/// `found` is the outcome of the search: the captured groups, or `None` where
/// the pattern did not match.
pub fn fields_from_captures(found: &Option<Vec<Option<String>>>, system: bool) -> (fields: Option<
    ExtractedFields,
>)
    ensures
        fields.deep_view() == fields_of_match(found.deep_view(), system),
{
    match found {
        Some(groups) => {
            let date = copy_capture_text(groups, 1);
            let time = copy_capture_text(groups, 2);
            let ampm = copy_capture(groups, 3);
            let author = if system {
                None
            } else {
                copy_capture(groups, 4)
            };
            let raw_body = copy_capture_text(
                groups,
                if system {
                    4
                } else {
                    5
                },
            );
            let body = clean_message_body(raw_body.as_str());
            if has_date_parts(date.as_str()) && has_time_parts(time.as_str()) {
                let fields = ExtractedFields { date, time, ampm, author, body };
                assert(fields@ == fields_of_captures(groups.deep_view(), system));
                Some(fields)
            } else {
                None
            }
        },
        None => None,
    }
}

/// Takes the fields of a message from its text. `None` where the text does
/// not match the pattern for the kind of the message.
pub fn extract_fields(raw: &RawMessage) -> (fields: Option<ExtractedFields>)
    ensures
        fields.deep_view() == extract_fields_spec(raw@),
{
    let found = captures(full_pattern(raw.system).as_str(), raw.msg.as_str());
    fields_from_captures(&found, raw.system)
}

// ---------------------------------------------------------------------
// The fields of many messages
// ---------------------------------------------------------------------

/// The fields of those messages whose fields can be taken from their text,
/// in the order of the messages.
pub open spec fn extract_all(messages: Seq<RawMessageView>) -> Seq<ExtractedFieldsView>
    decreases messages.len(),
{
    if messages.len() == 0 {
        Seq::empty()
    } else {
        let before = extract_all(messages.drop_last());
        match extract_fields_spec(messages.last()) {
            Some(fields) => before.push(fields),
            None => before,
        }
    }
}

/// The fields of every message can be taken from its text.
pub open spec fn every_message_matches(messages: Seq<RawMessageView>) -> bool {
    forall|i: int| 0 <= i < messages.len() ==> extract_fields_spec(#[trigger] messages[i]) is Some
}

/// There are never more fields than messages, and as many where the fields
/// of every message can be taken from its text. All fields are well
/// formed.
pub proof fn lemma_extract_all(messages: Seq<RawMessageView>)
    ensures
        extract_all(messages).len() <= messages.len(),
        every_message_matches(messages) ==> extract_all(messages).len() == messages.len(),
        forall|k: int|
            0 <= k < extract_all(messages).len() ==> (#[trigger] extract_all(
                messages,
            )[k]).is_well_formed(),
    decreases messages.len(),
{
    if messages.len() > 0 {
        lemma_extract_all(messages.drop_last());
        if every_message_matches(messages) {
            assert forall|i: int| 0 <= i < messages.drop_last().len() implies extract_fields_spec(
                #[trigger] messages.drop_last()[i],
            ) is Some by {
                assert(messages.drop_last()[i] == messages[i]);
            }
            assert(extract_fields_spec(messages[messages.len() - 1]) is Some);
        }
    }
}

/// Where the text of some message does not match its pattern, there are
/// fewer fields than messages.
pub proof fn lemma_extract_all_short(messages: Seq<RawMessageView>)
    requires
        !every_message_matches(messages),
    ensures
        extract_all(messages).len() < messages.len(),
    decreases messages.len(),
{
    lemma_extract_all(messages.drop_last());
    if extract_fields_spec(messages.last()) is Some {
        let i = choose|i: int|
            0 <= i < messages.len() && !(extract_fields_spec(#[trigger] messages[i]) is Some);
        assert(messages.drop_last()[i] == messages[i]);
        lemma_extract_all_short(messages.drop_last());
    }
}

/// Which messages are system messages.
pub open spec fn kinds(messages: Seq<RawMessageView>) -> Seq<bool> {
    Seq::new(messages.len(), |i: int| messages[i].system)
}

/// The positions of the messages of one kind, ascending.
fn positions_of_kind(messages: &[RawMessage], system: bool) -> (positions: Vec<usize>)
    ensures
        positions@.map_values(|p: usize| p as int) == positions_of(
            kinds(messages.deep_view()),
            messages@.len(),
            system,
        ),
{
    let ghost keys = kinds(messages.deep_view());
    let mut positions: Vec<usize> = Vec::new();
    let mut i: usize = 0;
    assert(positions@.map_values(|p: usize| p as int) =~= positions_of(keys, 0, system));
    while i < messages.len()
        invariant
            i <= messages@.len(),
            keys == kinds(messages.deep_view()),
            positions@.map_values(|p: usize| p as int) == positions_of(keys, i as nat, system),
        decreases messages@.len() - i,
    {
        let ghost before = positions@.map_values(|p: usize| p as int);
        assert(keys[i as int] == messages@[i as int].system);
        if messages[i].system == system {
            positions.push(i);
            assert(positions@.map_values(|p: usize| p as int) =~= before.push(i as int));
        }
        i = i + 1;
    }
    positions
}

/// What the pattern of one kind captures in each message of that kind.
/// `positions` tells where the messages of the kind stand.
fn captures_of_kind(messages: &[RawMessage], system: bool, positions: &Vec<usize>) -> (found: Vec<
    Option<Vec<Option<String>>>,
>)
    requires
        forall|k: int| 0 <= k < positions@.len() ==> (#[trigger] positions@[k]) < messages@.len(),
    ensures
        found@.len() == positions@.len(),
        forall|k: int|
            0 <= k < positions@.len() ==> (#[trigger] found@[k]).deep_view() == regex_captures(
                pattern_for(system),
                messages@[positions@[k] as int].msg@,
            ),
{
    let mut texts: Vec<&str> = Vec::new();
    let mut k: usize = 0;
    while k < positions.len()
        invariant
            k <= positions@.len(),
            texts@.len() == k,
            forall|j: int|
                0 <= j < positions@.len() ==> (#[trigger] positions@[j]) < messages@.len(),
            forall|j: int|
                0 <= j < k ==> (#[trigger] texts@[j])@ == messages@[positions@[j] as int].msg@,
        decreases positions@.len() - k,
    {
        texts.push(messages[positions[k]].msg.as_str());
        k = k + 1;
    }
    captures_each(full_pattern(system).as_str(), texts.as_slice())
}

/// Takes the fields of every message whose text matches the pattern for
/// its kind. Each of the two patterns is compiled once.
pub fn extract_all_fields(messages: &[RawMessage]) -> (fields: Vec<ExtractedFields>)
    ensures
        fields.deep_view() == extract_all(messages.deep_view()),
{
    let ghost all = messages.deep_view();
    let ghost keys = kinds(all);
    let ghost n = messages@.len();
    let of_users = positions_of_kind(messages, false);
    let of_system = positions_of_kind(messages, true);
    let ghost user_at = positions_of(keys, n, false);
    let ghost system_at = positions_of(keys, n, true);
    proof {
        lemma_positions_of(keys, n, false);
        lemma_positions_of(keys, n, true);
        assert forall|k: int| 0 <= k < of_users@.len() implies (#[trigger] of_users@[k])
            == user_at[k] by {
            assert(of_users@.map_values(|p: usize| p as int)[k] == of_users@[k]);
        }
        assert forall|k: int| 0 <= k < of_system@.len() implies (#[trigger] of_system@[k])
            == system_at[k] by {
            assert(of_system@.map_values(|p: usize| p as int)[k] == of_system@[k]);
        }
        assert(of_users@.len() == user_at.len());
        assert(of_system@.len() == system_at.len());
    }
    let found_users = captures_of_kind(messages, false, &of_users);
    let found_system = captures_of_kind(messages, true, &of_system);
    let mut fields: Vec<ExtractedFields> = Vec::new();
    let mut i: usize = 0;
    let mut u: usize = 0;
    let mut s: usize = 0;
    assert(all.take(0) =~= Seq::<RawMessageView>::empty());
    assert(fields.deep_view() =~= Seq::<ExtractedFieldsView>::empty());
    while i < messages.len()
        invariant
            i <= messages@.len(),
            all == messages.deep_view(),
            keys == kinds(all),
            n == messages@.len(),
            user_at == positions_of(keys, n, false),
            system_at == positions_of(keys, n, true),
            found_users@.len() == user_at.len(),
            found_system@.len() == system_at.len(),
            forall|k: int|
                0 <= k < user_at.len() ==> (#[trigger] found_users@[k]).deep_view()
                    == regex_captures(pattern_for(false), messages@[user_at[k]].msg@),
            forall|k: int|
                0 <= k < system_at.len() ==> (#[trigger] found_system@[k]).deep_view()
                    == regex_captures(pattern_for(true), messages@[system_at[k]].msg@),
            u <= user_at.len(),
            s <= system_at.len(),
            u <= i,
            s <= i,
            forall|k: int| 0 <= k < u ==> #[trigger] user_at[k] < i,
            forall|k: int| u <= k < user_at.len() ==> #[trigger] user_at[k] >= i,
            forall|k: int| 0 <= k < s ==> #[trigger] system_at[k] < i,
            forall|k: int| s <= k < system_at.len() ==> #[trigger] system_at[k] >= i,
            fields.deep_view() == extract_all(all.take(i as int)),
        decreases messages@.len() - i,
    {
        let ghost before = fields.deep_view();
        let system = messages[i].system;
        proof {
            assert(all.take(i + 1).drop_last() =~= all.take(i as int));
            assert(all.take(i + 1).last() == messages@[i as int]@);
            assert(keys[i as int] == system);
            lemma_positions_of(keys, n, false);
            lemma_positions_of(keys, n, true);
            if system {
                assert(system_at.contains(i as int));
                let k = choose|k: int| 0 <= k < system_at.len() && system_at[k] == i;
                assert(k >= s);
                assert(k == s) by {
                    if k > s {
                        assert(system_at[s as int] < system_at[k]);
                    }
                }
                assert(s < system_at.len() && system_at[s as int] == i);
                assert forall|j: int| u <= j < user_at.len() implies #[trigger] user_at[j] >= i
                    + 1 by {
                    assert(keys[user_at[j]] == false);
                }
                assert forall|j: int| s + 1 <= j < system_at.len() implies #[trigger] system_at[j]
                    >= i + 1 by {
                    assert(system_at[s as int] < system_at[j]);
                }
            } else {
                assert(user_at.contains(i as int));
                let k = choose|k: int| 0 <= k < user_at.len() && user_at[k] == i;
                assert(k >= u);
                assert(k == u) by {
                    if k > u {
                        assert(user_at[u as int] < user_at[k]);
                    }
                }
                assert(u < user_at.len() && user_at[u as int] == i);
                assert forall|j: int| s <= j < system_at.len() implies #[trigger] system_at[j]
                    >= i + 1 by {
                    assert(keys[system_at[j]] == true);
                }
                assert forall|j: int| u + 1 <= j < user_at.len() implies #[trigger] user_at[j] >= i
                    + 1 by {
                    assert(user_at[u as int] < user_at[j]);
                }
            }
        }
        let extracted = if system {
            s = s + 1;
            fields_from_captures(&found_system[s - 1], true)
        } else {
            u = u + 1;
            fields_from_captures(&found_users[u - 1], false)
        };
        assert(extracted.deep_view() == extract_fields_spec(messages@[i as int]@));
        match extracted {
            Some(one) => {
                let ghost view = one@;
                fields.push(one);
                assert(fields.deep_view() =~= before.push(view));
            },
            None => {},
        }
        i = i + 1;
    }
    assert(all.take(all.len() as int) =~= all);
    fields
}

} // verus!
