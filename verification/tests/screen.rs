use kipp::blackbox::{Message, SessionSlice, Who};
use kipp::clock::{Date, Stamp};
use kipp::config::Config;
use kipp::editor::Editor;
use kipp::view::{
    day_separator, draw, draw_checked, gutter_text, line_style, name_columns, session_separator,
    speaker, Area, Composer, Frame, Layout, Picture, Row, Tint,
};

const DAY: i64 = 86_400_000;
const TODAY: Date = Date { year: 1970, month: 1, day: 3 };

fn layout(text_width: u16, wide: bool) -> Layout {
    Layout { who_width: 5, text_width, gutter: if wide { 28 } else { 17 }, wide }
}

fn message(ts: i64, who: Who, text: &str) -> Message {
    Message { ts, who, text: text.to_owned() }
}

fn session(messages: Vec<Message>) -> SessionSlice {
    SessionSlice { messages }
}

fn composer(text_width: u16) -> Composer {
    Composer::new(Config::default().timezone(), TODAY, layout(text_width, true))
}

fn told(rows: &[Row]) -> Vec<String> {
    rows.iter()
        .map(|row| match row {
            Row::ArchiveStart => "start".to_owned(),
            Row::SessionBreak => "session".to_owned(),
            Row::DayBreak(date) => format!("day {}", date.day),
            Row::Line { date, time, who, text } => format!(
                "{} {} {} {}",
                date.map(|d| d.day.to_string()).unwrap_or("-".to_owned()),
                time.clone().unwrap_or("-".to_owned()),
                who.map(|w| format!("{w:?}")).unwrap_or("-".to_owned()),
                text
            ),
        })
        .collect()
}

#[test]
fn the_screen_is_divided() {
    let narrow = Layout::new("al", 72, 80, false);
    assert_eq!(
        (narrow.who_width, narrow.gutter, narrow.text_width, narrow.wide),
        (4, 16, 56, false)
    );
    let wide = Layout::new("alice", 72, 60, true);
    assert_eq!((wide.who_width, wide.gutter, wide.text_width, wide.wide), (5, 28, 32, true));
    assert_eq!(wide.span(), 60);
    let tiny = Layout::new("alice", 72, 3, false);
    assert_eq!((tiny.gutter, tiny.text_width), (17, 1));
}

#[test]
fn names_are_counted_in_characters() {
    assert_eq!(name_columns(""), 4);
    assert_eq!(name_columns("漢字漢字漢"), 5);
    assert_eq!(name_columns(&"x".repeat(65540)), 4);
    assert_eq!(name_columns(&"x".repeat(65535)), 65535);
}

#[test]
fn sessions_are_parted_by_dashes() {
    assert_eq!(session_separator(0), "");
    assert_eq!(session_separator(1), "-");
    assert_eq!(session_separator(6), "- - - ");
    assert_eq!(session_separator(7), "- - - -");
}

#[test]
fn days_are_parted_by_their_date() {
    assert_eq!(day_separator(TODAY, 10), "1970-01-03");
    assert_eq!(day_separator(TODAY, 14), "1970-01-03");
    assert_eq!(day_separator(TODAY, 15), "  1970-01-03   ");
    assert_eq!(day_separator(TODAY, 16), "-  1970-01-03  -");
    assert_eq!(day_separator(TODAY, 21), "- -  1970-01-03  - - ");
    assert_eq!(day_separator(TODAY, 22), "- -   1970-01-03  - - ");
}

#[test]
fn lines_begin_with_date_time_and_name() {
    let old = Date { year: 1969, month: 12, day: 31 };
    assert_eq!(
        gutter_text(None, Some("01:02:03"), Some("kipp"), layout(10, false)),
        "01:02:03 kipp  | "
    );
    assert_eq!(gutter_text(None, None, None, layout(10, false)), "               | ");
    assert_eq!(
        gutter_text(Some(old), Some("01:02:03"), Some("alice"), layout(10, true)),
        "1969-12-31 01:02:03 alice | "
    );
    assert_eq!(
        gutter_text(None, Some("01:02:03"), Some("漢字"), layout(10, true)),
        "           01:02:03 漢字  | "
    );
    assert_eq!(
        gutter_text(Some(old), None, Some("toolong"), layout(10, false)),
        "         toolong | "
    );
}

#[test]
fn speakers_have_names_and_colours() {
    assert_eq!(speaker(Who::User, "alice"), "alice");
    assert_eq!(speaker(Who::Kipp, "alice"), "kipp");
    assert_eq!(line_style(Some(Who::Kipp)), Tint::Yellow);
    assert_eq!(line_style(Some(Who::User)), Tint::Plain);
    assert_eq!(line_style(None), Tint::Plain);
}

#[test]
fn an_empty_journal_has_a_start() {
    assert_eq!(told(&composer(20).rows(&[], true)), vec!["start"]);
    assert!(composer(20).rows(&[], false).is_empty());
    assert_eq!(told(&composer(20).rows(&[session(vec![])], true)), vec!["start"]);
}

#[test]
fn messages_become_lines() {
    let sessions = vec![session(vec![
        message(2 * DAY + 3_723_000, Who::User, "hello world"),
        message(2 * DAY + 3_724_000, Who::Kipp, "a\nb"),
    ])];
    assert_eq!(
        told(&composer(6).rows(&sessions, true)),
        vec![
            "start",
            "- 01:02:03 User hello ",
            "- - - world",
            "- 01:02:04 Kipp a",
            "- - - b",
        ]
    );
}

#[test]
fn days_and_sessions_are_parted() {
    let sessions = vec![
        session(vec![message(0, Who::User, "a"), message(DAY, Who::User, "b")]),
        session(vec![message(DAY + 1000, Who::User, "c")]),
        session(vec![]),
        session(vec![message(2 * DAY, Who::User, "d")]),
        session(vec![]),
    ];
    assert_eq!(
        told(&composer(20).rows(&sessions, true)),
        vec![
            "start",
            "1 00:00:00 User a",
            "day 2",
            "2 00:00:00 User b",
            "session",
            "2 00:00:01 User c",
            "day 3",
            "- 00:00:00 User d",
            "session",
        ]
    );
}

#[test]
fn the_break_before_today_is_a_day() {
    let sessions = vec![session(vec![message(0, Who::User, "a")]), session(vec![])];
    assert_eq!(
        told(&composer(20).rows(&sessions, false)),
        vec!["1 00:00:00 User a", "day 3"]
    );
    let quiet = vec![session(vec![]), session(vec![])];
    assert_eq!(told(&composer(20).rows(&quiet, false)), vec!["session"]);
}

#[test]
fn moments_outside_the_calendar_are_shown_as_the_epoch() {
    let sessions = vec![session(vec![message(i64::MAX, Who::User, "a")])];
    assert_eq!(told(&composer(20).rows(&sessions, false)), vec!["1 00:00:00 User a"]);
    assert!(!composer(20).dated(i64::MAX));
    assert!(composer(20).dated(0));
    assert!(!composer(20).dated(2 * DAY));
}

#[test]
fn rows_go_by_the_stamps_that_are_given() {
    let at = |day: i8, hour: i8| Stamp {
        date: Date { year: 2000, month: 2, day },
        hour,
        minute: 5,
        second: 9,
    };
    let sessions = vec![
        session(vec![message(0, Who::User, "a"), message(0, Who::Kipp, "b")]),
        session(vec![message(0, Who::User, "c")]),
    ];
    let stamps = vec![vec![at(28, 1), at(29, 2)], vec![at(29, 3)]];
    assert_eq!(
        told(&composer(20).rows_stamped(&sessions, &stamps, true)),
        vec![
            "start",
            "28 01:05:09 User a",
            "day 29",
            "29 02:05:09 Kipp b",
            "session",
            "29 03:05:09 User c",
        ]
    );
}

fn editor(text: &str, cursor: usize) -> Editor {
    let mut editor = Editor::default();
    editor.restore(text.to_owned(), cursor);
    editor
}

fn frame<'a>(rows: &'a [Row], scroll: usize, editor: &'a Editor) -> Frame<'a> {
    Frame {
        rows,
        scroll,
        layout: layout(6, false),
        editor,
        who: Who::User,
        user: "alice",
        clock: "11:22:33".to_owned(),
    }
}

fn line(text: &str) -> Row {
    Row::Line { date: None, time: None, who: None, text: text.to_owned() }
}

fn shown(picture: &Picture) -> Vec<(u16, u16, String)> {
    picture.strokes.iter().map(|s| (s.x, s.y, s.text.clone())).collect()
}

#[test]
fn rows_stand_above_the_text_under_edit() {
    let rows = vec![Row::ArchiveStart, line("one"), line("two")];
    let editor = editor("hi", 1);
    let area = Area { x: 0, y: 0, width: 40, height: 9 };
    let picture = draw(area, &frame(&rows, 0, &editor));
    let blank = "               | ".to_owned();
    assert_eq!(
        shown(&picture),
        vec![
            (0, 5, "".to_owned()),
            (0, 6, blank.clone()),
            (17, 6, "one".to_owned()),
            (0, 7, blank.clone()),
            (17, 7, "two".to_owned()),
            (0, 8, "11:22:33 alice | ".to_owned()),
            (17, 8, "hi".to_owned()),
        ]
    );
    assert_eq!(picture.cursor, (18, 8));
}

#[test]
fn only_as_many_rows_as_there_is_room_for() {
    let rows: Vec<Row> = (0..10).map(|n| line(&n.to_string())).collect();
    let editor = editor("", 0);
    let area = Area { x: 2, y: 1, width: 40, height: 4 };
    let texts = |scroll: usize| -> Vec<String> {
        draw(area, &frame(&rows, scroll, &editor))
            .strokes
            .iter()
            .filter(|s| s.x == 19)
            .map(|s| s.text.clone())
            .collect()
    };
    assert_eq!(texts(0), vec!["7", "8", "9", ""]);
    assert_eq!(texts(3), vec!["4", "5", "6", ""]);
    assert_eq!(texts(8), vec!["0", "1", ""]);
    assert_eq!(texts(10), vec![""]);
    assert_eq!(texts(99), vec![""]);
}

#[test]
fn the_text_under_edit_takes_a_third_of_the_screen_at_most() {
    let rows = vec![line("row")];
    let editor = editor("a\nb\nc\nd", 7);
    let area = Area { x: 0, y: 0, width: 40, height: 6 };
    let picture = draw(area, &frame(&rows, 0, &editor));
    let blank = "               | ".to_owned();
    assert_eq!(
        shown(&picture),
        vec![
            (0, 3, blank.clone()),
            (17, 3, "row".to_owned()),
            (0, 4, blank.clone()),
            (17, 4, "c".to_owned()),
            (0, 5, blank.clone()),
            (17, 5, "d".to_owned()),
        ]
    );
    assert_eq!(picture.cursor, (18, 5));
}

#[test]
fn breaks_take_the_whole_line() {
    let rows = vec![Row::SessionBreak, Row::DayBreak(TODAY)];
    let editor = editor("", 0);
    let area = Area { x: 0, y: 0, width: 40, height: 3 };
    let picture = draw(area, &frame(&rows, 0, &editor));
    assert_eq!(picture.strokes[0].text, "- - - - - - - - - - - -");
    assert_eq!(picture.strokes[0].text.len(), 23);
    assert_eq!(picture.strokes[1].text, "- -   1970-01-03  - -  ");
}

#[test]
fn what_kipp_says_is_yellow() {
    let rows = vec![Row::Line {
        date: Some(TODAY),
        time: Some("01:02:03".to_owned()),
        who: Some(Who::Kipp),
        text: "hm".to_owned(),
    }];
    let editor = editor("", 0);
    let area = Area { x: 0, y: 0, width: 40, height: 2 };
    let picture = draw(area, &frame(&rows, 0, &editor));
    assert_eq!(picture.strokes[0].tint, Tint::Yellow);
    assert_eq!(picture.strokes[1].tint, Tint::Yellow);
    assert_eq!(picture.strokes[2].tint, Tint::Plain);
    assert_eq!(picture.strokes[0].text, "01:02:03 kipp  | ");
}

#[test]
fn nothing_is_put_outside_the_area() {
    let rows: Vec<Row> = (0..50).map(|n| line(&n.to_string())).collect();
    let editor = editor("a\nb\nc\nd\ne\nf\ng", 3);
    for height in 1..30 {
        for scroll in [0, 7, 60] {
            let area = Area { x: 0, y: 5, width: 40, height };
            for stroke in draw(area, &frame(&rows, scroll, &editor)).strokes {
                assert!(5 <= stroke.y && stroke.y < 5 + height);
            }
        }
    }
}

#[test]
fn what_cannot_be_drawn_is_not() {
    let rows = Vec::new();
    let area = Area { x: 0, y: 0, width: 40, height: 9 };
    let lost = editor("\u{200b}aaaaaaaa", 0);
    assert!(draw_checked(area, &frame(&rows, 0, &lost)).is_none());
    let far = editor(&" ".repeat(65530), 65530);
    assert!(draw_checked(area, &frame(&rows, 0, &far)).is_none());
    let near = editor(&" ".repeat(65518), 65518);
    match draw_checked(area, &frame(&rows, 0, &near)) {
        Some(picture) => assert_eq!(picture.cursor, (65535, 8)),
        None => panic!("not drawn"),
    }
}
