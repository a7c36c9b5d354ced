use chrono::{DateTime, TimeZone, Utc};
use wc_parser::attachment::{attachment_from_captures, find_attachments, parse_message_attachment};
use wc_parser::fields::{
    clean_message_body, extract_all_fields, extract_fields, fields_from_captures, ExtractedFields,
};
use wc_parser::models::{Attachment, Message, ParseStringOptions, RawMessage, Timestamp};
use wc_parser::parser::{
    classify_lines, date_order_for, detect_date_order, make_array_of_messages,
    make_array_of_messages_with_debug, merge_lines, parse_messages, resolve_messages, LineKind,
};
use wc_parser::timestamp::{numeric_date, resolve_timestamp};

fn in_utc(stamp: &Timestamp) -> DateTime<Utc> {
    Utc.with_ymd_and_hms(
        stamp.year(),
        stamp.month(),
        stamp.day(),
        stamp.hour(),
        stamp.minute(),
        stamp.second(),
    )
    .unwrap()
}

fn user(text: &str) -> RawMessage {
    RawMessage { system: false, msg: text.to_string() }
}

#[test]
fn test_make_array_of_messages_multiline() {
    let multiline_message = vec!["23/06/2018, 01:55 p.m. - Loris: one", "two"];
    assert_eq!(
        make_array_of_messages(&multiline_message)[0].msg,
        "23/06/2018, 01:55 p.m. - Loris: one\ntwo"
    );
}

#[test]
fn test_make_array_of_messages_system_flag() {
    let multiline_message = vec!["23/06/2018, 01:55 p.m. - Loris: one", "two"];
    let system_message = vec!["06/03/2017, 00:45 - You created group \"Test\""];
    let empty_message = vec!["03/02/17, 18:42 - Luke: "];
    let multiline_system_message = vec![
        "06/03/2017, 00:45 - You created group \"Test\"",
        "This is another line",
    ];

    assert!(!make_array_of_messages(&multiline_message)[0].system);
    assert!(!make_array_of_messages(&empty_message)[0].system);
    assert!(make_array_of_messages(&multiline_system_message)[0].system);
    assert!(make_array_of_messages(&system_message)[0].system);
}

#[test]
fn test_make_array_of_messages_datetime_in_multiline() {
    let multiline_message = vec![
        "23/06/2018, 01:55 p.m. - Loris: one",
        "two",
        "2016-04-29 10:30:00",
    ];
    assert_eq!(
        make_array_of_messages(&multiline_message)[0].msg,
        "23/06/2018, 01:55 p.m. - Loris: one\ntwo\n2016-04-29 10:30:00"
    );
}

#[test]
fn test_parse_messages_normal() {
    let messages = vec![RawMessage {
        system: false,
        msg: "23/06/2018, 01:55 a.m. - Luke: Hey!".to_string(),
    }];
    let parsed = parse_messages(&messages, &ParseStringOptions::default());

    assert_eq!(parsed[0].date.year(), 2018);
    assert_eq!(parsed[0].date.month(), 6);
    assert_eq!(parsed[0].date.day(), 23);
    assert_eq!(parsed[0].date.hour(), 1);
    assert_eq!(parsed[0].date.minute(), 55);
    assert_eq!(parsed[0].date.second(), 0);
    assert_eq!(parsed[0].author, Some("Luke".to_string()));
    assert_eq!(parsed[0].message, "Hey!".to_string());
}

#[test]
fn test_parse_messages_system() {
    let messages = vec![RawMessage {
        system: true,
        msg: "06/03/2017, 00:45 - You created group \"Test\"".to_string(),
    }];
    let parsed = parse_messages(&messages, &ParseStringOptions::default());

    assert_eq!(parsed[0].date.year(), 2017);
    assert_eq!(parsed[0].date.month(), 3);
    assert_eq!(parsed[0].date.day(), 6);
    assert_eq!(parsed[0].date.hour(), 0);
    assert_eq!(parsed[0].date.minute(), 45);
    assert_eq!(parsed[0].date.second(), 0);
    assert_eq!(parsed[0].author, None);
    assert_eq!(parsed[0].message, "You created group \"Test\"".to_string());
}

#[test]
fn test_parse_messages_formats() {
    let format1 = RawMessage {
        system: false,
        msg: "3/6/18, 1:55 p.m. - a: m".to_string(),
    };
    let format2 = RawMessage {
        system: false,
        msg: "03-06-2018, 01.55 PM - a: m".to_string(),
    };
    let format3 = RawMessage {
        system: false,
        msg: "13.06.18 21.25.15: a: m".to_string(),
    };
    let format4 = RawMessage {
        system: false,
        msg: "[06.13.18 21:25:15] a: m".to_string(),
    };
    let format5 = RawMessage {
        system: false,
        msg: "13.6.2018 klo 21.25.15 - a: m".to_string(),
    };
    let format6 = RawMessage {
        system: false,
        msg: "13. 6. 2018. 21:25:15 a: m".to_string(),
    };
    let format7 = RawMessage {
        system: false,
        msg: "[3/6/18 1:55:00 p. m.] a: m".to_string(),
    };
    let format8 = RawMessage {
        system: false,
        msg: "\u{200E}[3/6/18 1:55:00 p. m.] a: m".to_string(),
    };
    let format9 = RawMessage {
        system: false,
        msg: "[2018/06/13, 21:25:15] a: m".to_string(),
    };
    let format10 = RawMessage {
        system: false,
        msg: "[06/2018/13, 21:25:15] a: m".to_string(),
    };
    let format11 = RawMessage {
        system: false,
        msg: "3/6/2018 1:55 p. m. - a: m".to_string(),
    };
    let format12 = RawMessage {
        system: false,
        msg: "3/6/18, 1:55\u{202F}PM - a: m".to_string(),
    };

    let parsed1 = parse_messages(&vec![format1], &ParseStringOptions::default());
    let parsed2 = parse_messages(&vec![format2], &ParseStringOptions::default());
    let parsed3 = parse_messages(&vec![format3], &ParseStringOptions::default());
    let parsed4 = parse_messages(&vec![format4], &ParseStringOptions::default());
    let parsed5 = parse_messages(&vec![format5], &ParseStringOptions::default());
    let parsed6 = parse_messages(&vec![format6], &ParseStringOptions::default());
    let parsed7 = parse_messages(&vec![format7], &ParseStringOptions::default());
    let parsed8 = parse_messages(&vec![format8], &ParseStringOptions::default());
    let parsed9 = parse_messages(&vec![format9], &ParseStringOptions::default());
    let parsed10 = parse_messages(&vec![format10], &ParseStringOptions::default());
    let parsed11 = parse_messages(&vec![format11], &ParseStringOptions::default());
    let parsed12 = parse_messages(&vec![format12], &ParseStringOptions::default());

    let expected1 = Utc.with_ymd_and_hms(2018, 6, 3, 13, 55, 0).unwrap();
    let expected2 = Utc.with_ymd_and_hms(2018, 6, 13, 21, 25, 15).unwrap();

    assert_eq!(in_utc(&parsed1[0].date), expected1);
    assert_eq!(in_utc(&parsed2[0].date), expected1);
    assert_eq!(in_utc(&parsed3[0].date), expected2);
    assert_eq!(in_utc(&parsed4[0].date), expected2);
    assert_eq!(in_utc(&parsed5[0].date), expected2);
    assert_eq!(in_utc(&parsed6[0].date), expected2);
    assert_eq!(in_utc(&parsed7[0].date), expected1);
    assert_eq!(in_utc(&parsed8[0].date), expected1);
    assert_eq!(in_utc(&parsed9[0].date), expected2);
    assert_eq!(in_utc(&parsed10[0].date), expected2);
    assert_eq!(in_utc(&parsed11[0].date), expected1);
    assert_eq!(in_utc(&parsed12[0].date), expected1);
}

#[test]
fn test_parse_messages_days_first_option() {
    let messages = vec![RawMessage {
        system: false,
        msg: "3/6/18, 1:55 p.m. - a: m".to_string(),
    }];
    let parsed_day_first = parse_messages(
        &messages,
        &ParseStringOptions {
            days_first: Some(true),
            ..Default::default()
        },
    );
    let parsed_month_first = parse_messages(
        &messages,
        &ParseStringOptions {
            days_first: Some(false),
            ..Default::default()
        },
    );

    assert_eq!(parsed_day_first[0].date.day(), 3);
    assert_eq!(parsed_day_first[0].date.month(), 6);
    assert_eq!(parsed_month_first[0].date.day(), 6);
    assert_eq!(parsed_month_first[0].date.month(), 3);
}

#[test]
fn test_parse_messages_attachments() {
    let format1 = "3/6/18, 1:55 p.m. - a: < attached: 00000042-PHOTO-2020-06-07-15-13-20.jpg >";
    let format2 = "3/6/18, 1:55 p.m. - a: IMG-20210428-WA0001.jpg (file attached)";
    let format3 = "3/6/18, 1:55 p.m. - a: 2015-08-04-PHOTO-00004762.jpg <\u{200E}attached>";
    let format4 = "3/6/18, 1:55 p.m. - a: \u{200E}4f2680f1db95a8454775cc2eefc95bfc.jpg (Datei angehängt)\nDir auch frohe Ostern.";
    let messages = vec![
        RawMessage {
            system: false,
            msg: format1.to_string(),
        },
        RawMessage {
            system: false,
            msg: "3/6/18, 1:55 p.m. - a: m".to_string(),
        },
        RawMessage {
            system: false,
            msg: format2.to_string(),
        },
        RawMessage {
            system: false,
            msg: format3.to_string(),
        },
        RawMessage {
            system: false,
            msg: format4.to_string(),
        },
    ];

    let parsed_without_attachments = parse_messages(
        &messages,
        &ParseStringOptions {
            parse_attachments: false,
            ..Default::default()
        },
    );
    let parsed_with_attachments = parse_messages(
        &messages,
        &ParseStringOptions {
            parse_attachments: true,
            ..Default::default()
        },
    );

    assert_eq!(
        parsed_with_attachments[0]
            .attachment
            .as_ref()
            .unwrap()
            .file_name,
        "00000042-PHOTO-2020-06-07-15-13-20.jpg"
    );
    assert!(parsed_without_attachments[0].attachment.is_none());
    assert!(parsed_with_attachments[1].attachment.is_none());
    assert_eq!(
        parsed_with_attachments[2]
            .attachment
            .as_ref()
            .unwrap()
            .file_name,
        "IMG-20210428-WA0001.jpg"
    );
    assert_eq!(
        parsed_with_attachments[3]
            .attachment
            .as_ref()
            .unwrap()
            .file_name,
        "2015-08-04-PHOTO-00004762.jpg"
    );
    assert_eq!(
        parsed_with_attachments[4]
            .attachment
            .as_ref()
            .unwrap()
            .file_name,
        "4f2680f1db95a8454775cc2eefc95bfc.jpg"
    );
}

#[test]
fn test_parse_messages_sticker_with_u200e() {
    // A sticker message with U+200E both at the beginning and before "sticker omitted"
    let sticker_message = "\u{200E}[23/10/21, 18:44:02] Iago: \u{200E}sticker omitted".to_string();
    let messages = vec![RawMessage {
        system: false,
        msg: sticker_message,
    }];
    let parsed = parse_messages(&messages, &ParseStringOptions::default());

    assert_eq!(parsed[0].date.year(), 2021);
    assert_eq!(parsed[0].date.month(), 10);
    assert_eq!(parsed[0].date.day(), 23);
    assert_eq!(parsed[0].date.hour(), 18);
    assert_eq!(parsed[0].date.minute(), 44);
    assert_eq!(parsed[0].date.second(), 2);
    assert_eq!(parsed[0].author, Some("Iago".to_string()));
    // The message should NOT contain the U+200E character
    assert_eq!(parsed[0].message, "sticker omitted");
}

#[test]
fn test_classify_lines() {
    let lines = [
        "23/06/2018, 01:55 p.m. - Loris: one",
        "06/03/2017, 00:45 - You created group \"Test\"",
        "two",
        "",
        "2016-04-29 10:30:00",
        " 23/06/2018, 01:55 - a: b",
        "[3/6/18 1:55:00 p. m.] a: m",
    ];
    assert_eq!(
        classify_lines(&lines),
        vec![
            LineKind::User,
            LineKind::System,
            LineKind::Continuation,
            LineKind::Continuation,
            LineKind::Continuation,
            LineKind::Continuation,
            LineKind::User,
        ]
    );
    let nothing: [&str; 0] = [];
    assert_eq!(classify_lines(&nothing), vec![]);
}

#[test]
fn test_segmenting_joins_lines() {
    let messages = make_array_of_messages(&["23/06/2018, 01:55 p.m. - Loris: one", "two"]);
    assert_eq!(messages.len(), 1);
    assert!(!messages[0].system);
    let parsed = parse_messages(&messages, &ParseStringOptions::default());
    assert_eq!(parsed[0].message, "one\ntwo");
}

#[test]
fn test_segmenting_drops_leading_lines() {
    let lines = ["garbage", "", "06/03/2017, 00:45 - a: b", "c", "06/03/2017, 00:46 - note", "d"];
    let messages = make_array_of_messages(&lines);
    assert_eq!(
        messages,
        vec![
            RawMessage { system: false, msg: "06/03/2017, 00:45 - a: b\nc".to_string() },
            RawMessage { system: true, msg: "06/03/2017, 00:46 - note\nd".to_string() },
        ]
    );
    let nothing: [&str; 0] = [];
    assert_eq!(make_array_of_messages(&nothing).len(), 0);
    assert_eq!(make_array_of_messages(&["x", "y"]).len(), 0);
}

#[test]
fn test_segmenting_with_debug_is_the_same() {
    let lines = ["06/03/2017, 00:45 - a: b", "c", "06/03/2017, 00:46 - note"];
    assert_eq!(
        make_array_of_messages_with_debug(&lines, true),
        make_array_of_messages_with_debug(&lines, false)
    );
    assert_eq!(make_array_of_messages_with_debug(&lines, true), make_array_of_messages(&lines));
}

#[test]
fn test_extract_fields() {
    let fields = extract_fields(&user("\u{200E}[3/6/18 1:55:00 p. m.] Ann Lee:  hi \u{200F}there \n")).unwrap();
    assert_eq!(fields.date(), "3/6/18");
    assert_eq!(fields.time(), "1:55:00");
    assert_eq!(fields.ampm(), Some("p. m."));
    assert_eq!(fields.author(), Some("Ann Lee"));
    assert_eq!(fields.body(), "hi there");
    let system = RawMessage { system: true, msg: "06/03/2017, 00:45 - a: b".to_string() };
    let fields = extract_fields(&system).unwrap();
    assert_eq!(fields.author(), None);
    assert_eq!(fields.ampm(), None);
    assert_eq!(fields.body(), "a: b");
    assert_eq!(extract_fields(&user("hello")), None);
    assert_eq!(extract_fields(&user("06/03/2017, 00:45 - no author")), None);
}

#[test]
fn test_fields_from_captures() {
    let text = |s: &str| Some(s.to_string());
    let groups = vec![text("whole"), text("1/2/2003"), text("4:05"), None, text("me"), text(" you ")];
    let fields = fields_from_captures(&Some(groups.clone()), false).unwrap();
    assert_eq!(fields.date(), "1/2/2003");
    assert_eq!(fields.time(), "4:05");
    assert_eq!(fields.ampm(), None);
    assert_eq!(fields.author(), Some("me"));
    assert_eq!(fields.body(), "you");
    let fields = fields_from_captures(&Some(groups), true).unwrap();
    assert_eq!(fields.author(), None);
    assert_eq!(fields.body(), "me");

    // A group that is missing or took no part stands for an empty text.
    let short = vec![text("whole"), text("1/2/2003"), text("4:05")];
    let fields = fields_from_captures(&Some(short), false).unwrap();
    assert_eq!(fields.author(), None);
    assert_eq!(fields.body(), "");

    // Too few parts in the date or in the time: no fields.
    let bad_date = vec![text("whole"), text("1/2"), text("4:05")];
    assert_eq!(fields_from_captures(&Some(bad_date), false), None);
    let bad_time = vec![text("whole"), text("1/2/3"), text("405")];
    assert_eq!(fields_from_captures(&Some(bad_time), false), None);
    assert_eq!(fields_from_captures(&Some(vec![]), false), None);
    assert_eq!(fields_from_captures(&None, false), None);
}

#[test]
fn test_clean_message_body() {
    assert_eq!(clean_message_body("\u{200E} a\u{200F}b \u{200E}"), "ab");
    assert_eq!(clean_message_body("  "), "");
    assert_eq!(clean_message_body("\u{A0}x\u{3000}\t\n"), "x");
    assert_eq!(clean_message_body("a \n b"), "a \n b");
}

#[test]
fn test_parse_messages_leaves_out_what_does_not_match() {
    let messages = vec![
        user("3/6/18, 1:55 p.m. - a: one"),
        user("not a message"),
        RawMessage { system: true, msg: "4/6/18, 2:00 - note".to_string() },
        user("4/6/18, 2:00 - no author"),
    ];
    let parsed = parse_messages(&messages, &ParseStringOptions::default());
    assert_eq!(parsed.len(), 2);
    assert_eq!(parsed[0].message, "one");
    assert_eq!(parsed[1].message, "note");
    let nothing: Vec<RawMessage> = Vec::new();
    assert_eq!(parse_messages(&nothing, &ParseStringOptions::default()).len(), 0);
}

#[test]
fn test_parse_messages_keeps_order_and_one_date_order() {
    let messages = vec![
        user("1/2/18, 1:00 - a: one"),
        user("2/1/18, 1:00 - a: two"),
        user("3/1/18, 1:00 - a: three"),
    ];
    // The second number goes down within 2018: months first.
    let parsed = parse_messages(&messages, &ParseStringOptions::default());
    let texts: Vec<&str> = parsed.iter().map(|m| m.message.as_str()).collect();
    assert_eq!(texts, vec!["one", "two", "three"]);
    let dates: Vec<(u32, u32)> = parsed.iter().map(|m| (m.date.month(), m.date.day())).collect();
    assert_eq!(dates, vec![(1, 2), (2, 1), (3, 1)]);
    // Named in the options, the order is not looked for.
    let options = ParseStringOptions { days_first: Some(true), ..Default::default() };
    let parsed = parse_messages(&messages, &options);
    let dates: Vec<(u32, u32)> = parsed.iter().map(|m| (m.date.month(), m.date.day())).collect();
    assert_eq!(dates, vec![(2, 1), (1, 2), (1, 3)]);
}

#[test]
fn test_timestamp_falls_back() {
    let at = |text: &str| parse_messages(&vec![user(text)], &ParseStringOptions::default())[0].date;
    let stamp = |year, month, day, hour, minute, second| Timestamp { year, month, day, hour, minute, second };
    // No such day: the date gives way, the time stays.
    assert_eq!(at("31/02/2018, 10:20:30 - a: m"), stamp(1970, 1, 1, 10, 20, 30));
    assert_eq!(at("29/02/2018, 10:20 - a: m"), stamp(1970, 1, 1, 10, 20, 0));
    assert_eq!(at("29/02/2020, 10:20 - a: m"), stamp(2020, 2, 29, 10, 20, 0));
    assert_eq!(at("29/02/1900, 10:20 - a: m"), stamp(1970, 1, 1, 10, 20, 0));
    assert_eq!(at("29/02/2000, 10:20 - a: m"), stamp(2000, 2, 29, 10, 20, 0));
    assert_eq!(at("13/13/2018, 10:20 - a: m"), stamp(1970, 1, 1, 10, 20, 0));
    assert_eq!(at("0/1/2018, 10:20 - a: m"), stamp(1970, 1, 1, 10, 20, 0));
    assert_eq!(at("31/12/00, 23:59:59 - a: m"), stamp(2000, 12, 31, 23, 59, 59));
    // The shortest part is never the year: here the year is 12 and the month 0.
    assert_eq!(at("31/12/0, 23:59:59 - a: m"), stamp(1970, 1, 1, 23, 59, 59));
    // No such time: the time gives way, the date stays.
    assert_eq!(at("3/6/2018, 24:00 - a: m"), stamp(2018, 6, 3, 0, 0, 0));
    assert_eq!(at("3/6/2018, 10:60 - a: m"), stamp(2018, 6, 3, 0, 0, 0));
    assert_eq!(at("3/6/2018, 10:20:60 - a: m"), stamp(2018, 6, 3, 0, 0, 0));
    assert_eq!(at("3/6/2018, 1:20 PM - a: m"), stamp(2018, 6, 3, 13, 20, 0));
    assert_eq!(at("3/6/2018, 13:20 PM - a: m"), stamp(2018, 6, 3, 0, 0, 0));
    assert_eq!(at("3/6/2018, 12:20 AM - a: m"), stamp(2018, 6, 3, 0, 20, 0));
    assert_eq!(at("3/6/2018, 12:20 PM - a: m"), stamp(2018, 6, 3, 12, 20, 0));
}

#[test]
fn test_timestamp_of_digits_that_are_no_numbers() {
    // Arabic-Indic digits pass for digits in the pattern and are no numbers.
    let text = "\u{0663}/\u{0666}/\u{0662}\u{0660}\u{0661}\u{0668}, \u{0661}:\u{0665}\u{0665} PM - a: m";
    let parsed = parse_messages(&vec![user(text)], &ParseStringOptions::default());
    assert_eq!(parsed.len(), 1);
    assert_eq!(parsed[0].date, Timestamp { year: 1970, month: 1, day: 1, hour: 0, minute: 0, second: 0 });
    assert_eq!(numeric_date("\u{0663}/6/\u{0662}\u{0660}\u{0661}\u{0668}"), vec![1, 6, 1970]);
}

#[test]
fn test_numeric_date() {
    assert_eq!(numeric_date("13. 6. 2018"), vec![13, 6, 2018]);
    assert_eq!(numeric_date("2018/06/13"), vec![6, 13, 2018]);
    assert_eq!(numeric_date("06/2018/13"), vec![6, 13, 2018]);
    assert_eq!(numeric_date("3/6/18"), vec![3, 6, 18]);
    assert_eq!(numeric_date("a/b/c"), vec![1, 1, 1970]);
}

#[test]
fn test_resolve_timestamp() {
    let fields = |date: &str, time: &str, ampm: Option<&str>| -> ExtractedFields {
        let groups = vec![None, Some(date.to_string()), Some(time.to_string()), ampm.map(|half| half.to_string())];
        fields_from_captures(&Some(groups), true).unwrap()
    };
    let stamp = |year, month, day, hour, minute, second| Timestamp { year, month, day, hour, minute, second };
    let given = fields("3/6/18", "1:55", Some("p.m."));
    assert_eq!(resolve_timestamp(&given, None), stamp(2018, 6, 3, 13, 55, 0));
    assert_eq!(resolve_timestamp(&given, Some(true)), stamp(2018, 6, 3, 13, 55, 0));
    assert_eq!(resolve_timestamp(&given, Some(false)), stamp(2018, 3, 6, 13, 55, 0));
    assert_eq!(resolve_timestamp(&fields("2018-06-13", "21.25.15", None), Some(false)), stamp(2018, 6, 13, 21, 25, 15));
    assert_eq!(resolve_timestamp(&fields("2018-06-13", "21.25.15", None), None), stamp(1970, 1, 1, 21, 25, 15));
    // Hours that are no number are not converted, and count as 0.
    assert_eq!(resolve_timestamp(&fields("3/6/18", "x:55:10", Some("PM")), None), stamp(2018, 6, 3, 0, 55, 10));
    assert_eq!(resolve_timestamp(&fields("3/6/18", "7:xx", None), None), stamp(2018, 6, 3, 7, 0, 0));
    assert_eq!(resolve_timestamp(&fields("x/6/18", "7:05", None), None), stamp(2018, 6, 1, 7, 5, 0));
    assert_eq!(resolve_timestamp(&fields("3/6/x", "7:05", None), None), stamp(1970, 6, 3, 7, 5, 0));
    assert_eq!(resolve_timestamp(&fields("3/6/262143", "7:05", None), None), stamp(1970, 1, 1, 7, 5, 0));
    assert_eq!(resolve_timestamp(&fields("3/6/262142", "7:05", None), None), stamp(262142, 6, 3, 7, 5, 0));
    assert_eq!(resolve_timestamp(&fields("3/6/-262143", "7:05", None), None), stamp(1970, 1, 1, 7, 5, 0));
}

#[test]
fn test_parse_message_attachment() {
    let named = |name: &str| Some(Attachment { file_name: name.to_string() });
    assert_eq!(
        parse_message_attachment("< attached: 00000042-PHOTO-2020-06-07-15-13-20.jpg >"),
        named("00000042-PHOTO-2020-06-07-15-13-20.jpg")
    );
    assert_eq!(parse_message_attachment("<attached: a.b>"), named("a.b"));
    assert_eq!(parse_message_attachment("IMG-1.jpg (file attached)"), named("IMG-1.jpg"));
    assert_eq!(parse_message_attachment("IMG-1.jpg <attached>"), named("IMG-1.jpg"));
    assert_eq!(parse_message_attachment("hello"), None);
    assert_eq!(parse_message_attachment("see IMG-1.jpg (file attached)"), None);
    assert_eq!(parse_message_attachment(""), None);
}

#[test]
fn test_attachment_from_captures() {
    let text = |s: &str| Some(s.to_string());
    let named = |name: &str| Some(Attachment { file_name: name.to_string() });
    assert_eq!(attachment_from_captures(&Some(vec![text("w"), text(" one "), text("two")])), named("one"));
    assert_eq!(attachment_from_captures(&Some(vec![text("w"), None, text(" two")])), named("two"));
    assert_eq!(attachment_from_captures(&Some(vec![text("w"), None, None])), named(""));
    assert_eq!(attachment_from_captures(&Some(vec![text("w")])), named(""));
    assert_eq!(attachment_from_captures(&None), None);
}

#[test]
fn test_extract_all_fields_in_mixed_order() {
    let system = |text: &str| RawMessage { system: true, msg: text.to_string() };
    let messages = vec![
        system("1/1/18, 1:00 - s1"),
        user("2/1/18, 1:00 - a: u1"),
        user("no match"),
        system("3/1/18, 1:00 - b: s2"),
        system("no match either"),
        user("4/1/18, 1:00 - c: u2"),
        user("5/1/18, 1:00 - no author"),
        system("6/1/18, 1:00 - s3"),
    ];
    let fields = extract_all_fields(&messages);
    let bodies: Vec<&str> = fields.iter().map(|f| f.body()).collect();
    assert_eq!(bodies, vec!["s1", "u1", "b: s2", "u2", "s3"]);
    let authors: Vec<Option<&str>> = fields.iter().map(|f| f.author()).collect();
    assert_eq!(authors, vec![None, Some("a"), None, Some("c"), None]);
    // One by one gives the same.
    let one_by_one: Vec<ExtractedFields> = messages.iter().filter_map(extract_fields).collect();
    assert_eq!(fields, one_by_one);
    let nothing: Vec<RawMessage> = Vec::new();
    assert_eq!(extract_all_fields(&nothing).len(), 0);
}

#[test]
fn test_date_order() {
    let messages = vec![user("1/2/18, 1:00 - a: one"), user("2/1/18, 1:00 - a: two")];
    let fields = extract_all_fields(&messages);
    assert_eq!(detect_date_order(&fields), Some(false));
    assert_eq!(date_order_for(&fields, &ParseStringOptions::default()), Some(false));
    let named = ParseStringOptions { days_first: Some(true), ..Default::default() };
    assert_eq!(date_order_for(&fields, &named), Some(true));
    let single = extract_all_fields(&vec![user("1/2/18, 1:00 - a: one")]);
    assert_eq!(detect_date_order(&single), None);
    assert_eq!(date_order_for(&single, &ParseStringOptions::default()), None);
    assert_eq!(detect_date_order(&Vec::new()), None);
}

#[test]
fn test_resolve_messages() {
    let messages = vec![
        user("1/2/18, 1:00 - a: IMG-1.jpg (file attached)"),
        user("2/1/18, 1:00 - b: two"),
        user("2/1/18, 1:05 - c: <attached: x.pdf>"),
    ];
    let fields = extract_all_fields(&messages);
    let stamp = |month, day, minute| Timestamp { year: 2018, month, day, hour: 1, minute, second: 0 };
    let message = |date, author: &str, text: &str, file: Option<&str>| Message {
        date,
        author: Some(author.to_string()),
        message: text.to_string(),
        attachment: file.map(|name| Attachment { file_name: name.to_string() }),
    };
    assert_eq!(
        resolve_messages(&fields, Some(false), true),
        vec![
            message(stamp(1, 2, 0), "a", "IMG-1.jpg (file attached)", Some("IMG-1.jpg")),
            message(stamp(2, 1, 0), "b", "two", None),
            message(stamp(2, 1, 5), "c", "<attached: x.pdf>", Some("x.pdf")),
        ]
    );
    assert_eq!(
        resolve_messages(&fields, None, false),
        vec![
            message(stamp(2, 1, 0), "a", "IMG-1.jpg (file attached)", None),
            message(stamp(1, 2, 0), "b", "two", None),
            message(stamp(1, 2, 5), "c", "<attached: x.pdf>", None),
        ]
    );
    assert_eq!(resolve_messages(&[], None, true), vec![]);
}

#[test]
fn test_find_attachments() {
    let messages = vec![
        user("1/2/18, 1:00 - a: IMG-1.jpg (file attached)"),
        user("2/1/18, 1:00 - b: two"),
        user("2/1/18, 1:05 - c: < attached: x.pdf >"),
    ];
    let fields = extract_all_fields(&messages);
    let named = |name: &str| Some(Attachment { file_name: name.to_string() });
    assert_eq!(find_attachments(&fields), vec![named("IMG-1.jpg"), None, named("x.pdf")]);
    assert_eq!(find_attachments(&[]), vec![]);
}

#[test]
fn test_merge_lines() {
    let lines = ["a", "b", "c", "d", "e", "f"];
    let kinds = vec![
        LineKind::Continuation,
        LineKind::User,
        LineKind::Continuation,
        LineKind::Continuation,
        LineKind::System,
        LineKind::User,
    ];
    assert_eq!(
        merge_lines(&lines, &kinds),
        vec![
            RawMessage { system: false, msg: "b\nc\nd".to_string() },
            RawMessage { system: true, msg: "e".to_string() },
            RawMessage { system: false, msg: "f".to_string() },
        ]
    );
    assert_eq!(merge_lines(&["", ""], &vec![LineKind::System, LineKind::Continuation])[0].msg, "\n");
    assert_eq!(merge_lines(&[], &vec![]).len(), 0);
}
