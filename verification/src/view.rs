//! What the screen shows: the journal as rows, and rows as text at places.

use std::ops::Range;

use jiff::tz::TimeZone;
use vstd::prelude::*;

use crate::blackbox::{Message, SessionSlice, Who};
use crate::clock::{clock_label, date_label, local, Date, Stamp};
use crate::editor::Editor;
use crate::text::{display_width, visible, wrap};

verus! {

pub const DATE_LEN: usize = 10;

pub const TIME_LEN: usize = 8;

pub const DATE_GAP: usize = 1;

pub const LABEL_PAD: usize = 4;

pub const INPUT_DIVISOR: usize = 3;

/// A number of characters of one kind.
pub open spec fn repeated(c: char, n: int) -> Seq<char> {
    Seq::new(
        if n < 0 {
            0
        } else {
            n as nat
        },
        |i: int| c,
    )
}

/// Dashes and blanks by turns.
pub open spec fn dashes(n: int) -> Seq<char> {
    Seq::new(
        if n < 0 {
            0
        } else {
            n as nat
        },
        |i: int|
            if i % 2 == 0 {
                '-'
            } else {
                ' '
            },
    )
}

/// The column of names: as wide as the longer of the two, counted in characters.
pub open spec fn name_width(user: Seq<char>) -> int {
    (if user.len() > 4 {
        user.len() as int
    } else {
        4
    }) % 65536
}

/// The columns before the text: time, name and bar, and a date if there is one.
pub open spec fn gutter_width(who_width: int, wide: bool) -> int {
    TIME_LEN + 1 + who_width + 3 + if wide {
        DATE_LEN + DATE_GAP
    } else {
        0
    }
}

/// How the screen is divided.
#[derive(Debug, Clone, Copy)]
pub struct Layout {
    pub who_width: u16,
    pub text_width: u16,
    pub gutter: u16,
    pub wide: bool,
}

impl Layout {
    /// Whether a line is no wider than a screen can be.
    pub open spec fn valid(self) -> bool {
        &&& self.text_width >= 1
        &&& self.gutter + self.text_width <= u16::MAX
    }

    /// How the screen is divided for a user's name, a width of a line that is set
    /// and a width of the screen.
    pub open spec fn divided(
        user: Seq<char>,
        configured: u16,
        terminal: u16,
        wide: bool,
    ) -> Layout {
        let total = if configured < terminal {
            configured
        } else {
            terminal
        };
        let gutter = gutter_width(name_width(user), wide);
        Layout {
            who_width: name_width(user) as u16,
            text_width: if total - gutter < 1 {
                1
            } else {
                (total - gutter) as u16
            },
            gutter: gutter as u16,
            wide,
        }
    }

    /// Divides the screen. The text has one column at least.
    pub fn new(user: &str, configured_width: u16, terminal_width: u16, wide: bool) -> (layout: Self)
        requires
            gutter_width(name_width(user@), wide) <= u16::MAX,
        ensures
            layout == Self::divided(user@, configured_width, terminal_width, wide),
            gutter_width(name_width(user@), wide) < u16::MAX ==> layout.valid(),
    {
        let who_width: u16 = name_columns(user);
        let gutter: u16 = if wide {
            wide_gutter(who_width)
        } else {
            narrow_gutter(who_width)
        };
        let total: u16 = if configured_width < terminal_width {
            configured_width
        } else {
            terminal_width
        };
        let rest: u16 = total.saturating_sub(gutter);
        let text_width: u16 = if rest < 1 {
            1
        } else {
            rest
        };
        Layout { who_width, text_width, gutter, wide }
    }

    /// The columns of a line.
    pub fn span(&self) -> (columns: u16)
        requires
            self.gutter + self.text_width <= u16::MAX,
        ensures
            columns == self.gutter + self.text_width,
    {
        self.gutter + self.text_width
    }
}

/// The width of the column of names.
pub fn name_columns(user: &str) -> (columns: u16)
    ensures
        columns == name_width(user@),
{
    let count: usize = user.unicode_len();
    let most: usize = if count > 4 {
        count
    } else {
        4
    };
    (most % 65536) as u16
}

fn narrow_gutter(who_width: u16) -> (columns: u16)
    requires
        gutter_width(who_width as int, false) <= u16::MAX,
    ensures
        columns == gutter_width(who_width as int, false),
{
    TIME_LEN as u16 + 1 + who_width + 1 + 1 + 1
}

fn wide_gutter(who_width: u16) -> (columns: u16)
    requires
        gutter_width(who_width as int, true) <= u16::MAX,
    ensures
        columns == gutter_width(who_width as int, true),
{
    narrow_gutter(who_width) + (DATE_LEN + DATE_GAP) as u16
}

/// A row of the journal.
#[derive(Debug, Clone)]
pub enum Row {
    /// A line of a message.
    Line { date: Option<Date>, time: Option<String>, who: Option<Who>, text: String },
    /// Between two sessions of a day.
    SessionBreak,
    /// Before the first message of a day.
    DayBreak(Date),
    /// Before everything.
    ArchiveStart,
}

#[verifier::ext_equal]
pub enum RowView {
    Line { date: Option<Date>, time: Option<Seq<char>>, who: Option<Who>, text: Seq<char> },
    SessionBreak,
    DayBreak(Date),
    ArchiveStart,
}

pub open spec fn string_view(text: Option<String>) -> Option<Seq<char>> {
    match text {
        Some(found) => Some(found@),
        None => None,
    }
}

impl View for Row {
    type V = RowView;

    open spec fn view(&self) -> RowView {
        match self {
            Row::Line { date, time, who, text } => RowView::Line {
                date: *date,
                time: string_view(*time),
                who: *who,
                text: text@,
            },
            Row::SessionBreak => RowView::SessionBreak,
            Row::DayBreak(date) => RowView::DayBreak(*date),
            Row::ArchiveStart => RowView::ArchiveStart,
        }
    }
}

pub open spec fn row_views(rows: Seq<Row>) -> Seq<RowView> {
    Seq::new(rows.len(), |i: int| rows[i]@)
}

/// Whether the dates of a row are days of the calendar.
pub open spec fn row_valid(row: RowView) -> bool {
    match row {
        RowView::Line { date, .. } => date matches Some(day) ==> day.valid(),
        RowView::DayBreak(day) => day.valid(),
        _ => true,
    }
}

/// Whether the dates of rows are days of the calendar.
pub open spec fn rows_valid(rows: Seq<RowView>) -> bool {
    forall|i: int| 0 <= i < rows.len() ==> row_valid(#[trigger] rows[i])
}

/// The rows of a message: one for each of its lines, the first with the time and
/// the speaker, all with the date if it is not today.
pub open spec fn message_rows(
    stamp: Stamp,
    who: Who,
    body: Seq<char>,
    today: Date,
    width: int,
) -> Seq<RowView> {
    let lines = crate::text::wrapped(body, width);
    Seq::new(
        lines.len(),
        |i: int|
            RowView::Line {
                date: if stamp.date == today {
                    None
                } else {
                    Some(stamp.date)
                },
                time: if i == 0 {
                    Some(crate::clock::clock_text(stamp))
                } else {
                    None
                },
                who: if i == 0 {
                    Some(who)
                } else {
                    None
                },
                text: crate::text::unended(
                    crate::slices::piece(body, lines[i].0, lines[i].1),
                ),
            },
    )
}

/// Rows in the making.
#[verifier::ext_equal]
pub struct Composed {
    pub rows: Seq<RowView>,
    /// The day of the last message.
    pub day: Option<Date>,
    /// Whether a session has ended since.
    pub pending: bool,
}

/// One message more: before the first of another day comes that day, before the
/// first of another session on the same day a break.
pub open spec fn message_composed(
    composed: Composed,
    stamp: Stamp,
    who: Who,
    body: Seq<char>,
    today: Date,
    width: int,
) -> Composed {
    let before = if composed.day != Some(stamp.date) {
        if composed.day is Some {
            composed.rows.push(RowView::DayBreak(stamp.date))
        } else {
            composed.rows
        }
    } else if composed.pending {
        composed.rows.push(RowView::SessionBreak)
    } else {
        composed.rows
    };
    Composed {
        rows: before + message_rows(stamp, who, body, today, width),
        day: Some(stamp.date),
        pending: false,
    }
}

/// The first `n` messages of a session more.
pub open spec fn messages_composed(
    composed: Composed,
    messages: Seq<crate::blackbox::MessageView>,
    stamps: Seq<Stamp>,
    n: int,
    today: Date,
    width: int,
) -> Composed
    decreases n,
{
    if n <= 0 {
        composed
    } else {
        message_composed(
            messages_composed(composed, messages, stamps, n - 1, today, width),
            stamps[n - 1],
            messages[n - 1].who,
            messages[n - 1].text,
            today,
            width,
        )
    }
}

/// The first `n` sessions. `stamps` says of each message what the clock showed.
pub open spec fn sessions_composed(
    sessions: Seq<Seq<crate::blackbox::MessageView>>,
    stamps: Seq<Seq<Stamp>>,
    n: int,
    today: Date,
    width: int,
    complete: bool,
) -> Composed
    decreases n,
{
    if n <= 0 {
        Composed {
            rows: if complete {
                seq![RowView::ArchiveStart]
            } else {
                seq![]
            },
            day: None,
            pending: false,
        }
    } else {
        let before = sessions_composed(sessions, stamps, n - 1, today, width, complete);
        messages_composed(
            Composed { pending: before.pending || n > 1, ..before },
            sessions[n - 1],
            stamps[n - 1],
            sessions[n - 1].len() as int,
            today,
            width,
        )
    }
}

/// The rows of a journal. At its end comes the break before what is written next,
/// if a session has ended since the last message.
pub open spec fn rows_composed(
    sessions: Seq<Seq<crate::blackbox::MessageView>>,
    stamps: Seq<Seq<Stamp>>,
    today: Date,
    width: int,
    complete: bool,
) -> Seq<RowView> {
    let composed = sessions_composed(
        sessions,
        stamps,
        sessions.len() as int,
        today,
        width,
        complete,
    );
    if !composed.pending {
        composed.rows
    } else if composed.day is Some && composed.day != Some(today) {
        composed.rows.push(RowView::DayBreak(today))
    } else {
        composed.rows.push(RowView::SessionBreak)
    }
}

/// What the clock of a time zone showed at a moment; at the beginning of 1970 if
/// the moment is not within its calendar.
pub open spec fn shown_at(zone: TimeZone, ts: i64) -> Stamp {
    match crate::clock::local_time(zone, ts) {
        Some(stamp) => stamp,
        None => crate::clock::local_time(zone, 0)->Some_0,
    }
}

/// Whether a message was written on another day.
pub open spec fn dated_otherwise(zone: TimeZone, today: Date, ts: i64) -> bool {
    crate::clock::local_time(zone, ts) matches Some(stamp) && stamp.date != today
}

/// What the clock of a time zone showed at each message.
pub open spec fn stamps_shown(
    zone: TimeZone,
    sessions: Seq<Seq<crate::blackbox::MessageView>>,
) -> Seq<Seq<Stamp>> {
    Seq::new(
        sessions.len(),
        |i: int| Seq::new(sessions[i].len(), |k: int| shown_at(zone, sessions[i][k].ts)),
    )
}

pub open spec fn stamp_views(stamps: Seq<Vec<Stamp>>) -> Seq<Seq<Stamp>> {
    Seq::new(stamps.len(), |i: int| stamps[i]@)
}

/// Whether there is a stamp for each message, and each can be.
pub open spec fn stamped(
    sessions: Seq<Seq<crate::blackbox::MessageView>>,
    stamps: Seq<Seq<Stamp>>,
) -> bool {
    &&& stamps.len() == sessions.len()
    &&& forall|i: int|
        0 <= i < sessions.len() ==> (#[trigger] stamps[i]).len() == sessions[i].len()
    &&& forall|i: int, k: int|
        0 <= i < stamps.len() && 0 <= k < stamps[i].len() ==> (#[trigger] stamps[i][k]).valid()
}

/// Whether wrapping leaves out none of any message.
pub open spec fn all_wrap_whole(
    sessions: Seq<Seq<crate::blackbox::MessageView>>,
    width: int,
) -> bool {
    forall|i: int, k: int|
        0 <= i < sessions.len() && 0 <= k < sessions[i].len() ==> crate::text::plain_text(
            (#[trigger] sessions[i][k]).text,
        ) || crate::text::wraps_whole(sessions[i][k].text, width)
}

/// Whether a text whose wrapping leaves out none of it is all in its lines.
spec fn wraps_soundly(text: Seq<char>, width: int) -> bool {
    crate::text::plain_text(text) || crate::text::wraps_whole(text, width) ==> wraps_to_all(
        text,
        width,
    )
}

/// Turns the journal into rows.
pub struct Composer {
    zone: TimeZone,
    today: Date,
    layout: Layout,
}

impl Composer {
    pub closed spec fn zone(self) -> TimeZone {
        self.zone
    }

    pub closed spec fn today(self) -> Date {
        self.today
    }

    pub closed spec fn layout(self) -> Layout {
        self.layout
    }

    /// A composer for a time zone, a day and a layout.
    pub fn new(zone: TimeZone, today: Date, layout: Layout) -> (composer: Self)
        ensures
            composer.zone() == zone,
            composer.today() == today,
            composer.layout() == layout,
    {
        Composer { zone, today, layout }
    }

    /// Turns to another day or another layout.
    pub fn renew(&mut self, today: Date, layout: Layout)
        ensures
            final(self).zone() == old(self).zone(),
            final(self).today() == today,
            final(self).layout() == layout,
    {
        self.today = today;
        self.layout = layout;
    }

    /// The rows of the journal.
    pub fn rows(&self, sessions: &[SessionSlice], complete: bool) -> (rows: Vec<Row>)
        requires
            self.today().valid(),
        ensures
            row_views(rows@) == rows_composed(
                crate::blackbox::session_views(sessions@),
                stamps_shown(self.zone(), crate::blackbox::session_views(sessions@)),
                self.today(),
                self.layout().text_width as int,
                complete,
            ),
            rows_valid(row_views(rows@)),
            row_texts(row_views(rows@)) == sessions_shown(
                crate::blackbox::session_views(sessions@),
                sessions@.len() as int,
                self.layout().text_width as int,
            ),
            all_wrap_whole(
                crate::blackbox::session_views(sessions@),
                self.layout().text_width as int,
            ) ==> letters_of(row_texts(row_views(rows@))) == letters_kept(
                crate::blackbox::session_views(sessions@),
                sessions@.len() as int,
            ),
    {
        let stamps: Vec<Vec<Stamp>> = self.stamps(sessions);
        self.rows_stamped(sessions, &stamps, complete)
    }

    /// What the clock showed at each message.
    fn stamps(&self, sessions: &[SessionSlice]) -> (stamps: Vec<Vec<Stamp>>)
        ensures
            stamp_views(stamps@) == stamps_shown(
                self.zone(),
                crate::blackbox::session_views(sessions@),
            ),
            stamped(crate::blackbox::session_views(sessions@), stamp_views(stamps@)),
    {
        let ghost views = crate::blackbox::session_views(sessions@);
        let ghost wanted = stamps_shown(self.zone(), views);
        let mut stamps: Vec<Vec<Stamp>> = Vec::new();
        let mut i: usize = 0;
        while i < sessions.len()
            invariant
                i <= sessions.len(),
                views == crate::blackbox::session_views(sessions@),
                wanted == stamps_shown(self.zone(), views),
                stamps@.len() == i,
                forall|k: int|
                    0 <= k < i ==> (#[trigger] stamps@[k])@ == wanted[k] && stamps@[k]@.len()
                        == views[k].len(),
                forall|k: int, j: int|
                    0 <= k < i && 0 <= j < stamps@[k]@.len() ==> (
                    #[trigger] stamps@[k]@[j]).valid(),
            decreases sessions.len() - i,
        {
            let messages: &Vec<Message> = &sessions[i].messages;
            let mut session: Vec<Stamp> = Vec::new();
            let mut k: usize = 0;
            while k < messages.len()
                invariant
                    k <= messages.len(),
                    i < sessions.len(),
                    messages@ == sessions@[i as int].messages@,
                    views == crate::blackbox::session_views(sessions@),
                    wanted == stamps_shown(self.zone(), views),
                    session@.len() == k,
                    forall|j: int|
                        0 <= j < k ==> (#[trigger] session@[j]).valid() && session@[j] == shown_at(
                            self.zone(),
                            messages@[j].ts,
                        ),
                decreases messages.len() - k,
            {
                session.push(self.zoned(messages[k].ts));
                k = k + 1;
            }
            proof {
                assert(views[i as int] == sessions@[i as int]@);
                assert(views[i as int].len() == messages@.len());
                assert(session@ =~= wanted[i as int]);
            }
            stamps.push(session);
            i = i + 1;
        }
        proof {
            assert(stamp_views(stamps@) =~= wanted);
            assert forall|k: int, j: int|
                0 <= k < stamp_views(stamps@).len() && 0 <= j < stamp_views(
                    stamps@,
                )[k].len() implies (#[trigger] stamp_views(stamps@)[k][j]).valid() by {
                assert(stamps@[k]@[j].valid());
            }
        }
        stamps
    }

    /// The rows of the journal, given what the clock showed at each message.
    pub fn rows_stamped(
        &self,
        sessions: &[SessionSlice],
        stamps: &Vec<Vec<Stamp>>,
        complete: bool,
    ) -> (rows: Vec<Row>)
        requires
            self.today().valid(),
            stamped(crate::blackbox::session_views(sessions@), stamp_views(stamps@)),
        ensures
            row_views(rows@) == rows_composed(
                crate::blackbox::session_views(sessions@),
                stamp_views(stamps@),
                self.today(),
                self.layout().text_width as int,
                complete,
            ),
            rows_valid(row_views(rows@)),
            row_texts(row_views(rows@)) == sessions_shown(
                crate::blackbox::session_views(sessions@),
                sessions@.len() as int,
                self.layout().text_width as int,
            ),
            all_wrap_whole(
                crate::blackbox::session_views(sessions@),
                self.layout().text_width as int,
            ) ==> letters_of(row_texts(row_views(rows@))) == letters_kept(
                crate::blackbox::session_views(sessions@),
                sessions@.len() as int,
            ),
    {
        let ghost views = crate::blackbox::session_views(sessions@);
        let ghost times = stamp_views(stamps@);
        let ghost width = self.layout().text_width as int;
        let ghost today = self.today();
        let mut rows: Vec<Row> = Vec::new();
        if complete {
            rows.push(Row::ArchiveStart);
        }
        let mut day: Option<Date> = None;
        let mut pending: bool = false;
        let mut i: usize = 0;
        assert(row_views(rows@) =~= sessions_composed(views, times, 0, today, width, complete).rows);
        while i < sessions.len()
            invariant
                i <= sessions.len(),
                views == crate::blackbox::session_views(sessions@),
                times == stamp_views(stamps@),
                width == self.layout().text_width,
                today == self.today(),
                today.valid(),
                stamped(views, times),
                sessions_composed(views, times, i as int, today, width, complete) == (Composed {
                    rows: row_views(rows@),
                    day,
                    pending,
                }),
                rows_valid(row_views(rows@)),
                forall|j: int, m: int|
                    0 <= j < i && 0 <= m < views[j].len() ==> wraps_soundly(
                        (#[trigger] views[j][m]).text,
                        width,
                    ),
            decreases sessions.len() - i,
        {
            if i > 0 {
                pending = true;
            }
            let messages: &Vec<Message> = &sessions[i].messages;
            assert(views[i as int] == sessions@[i as int]@);
            assert(times[i as int] == stamps@[i as int]@);
            let ghost start = Composed { rows: row_views(rows@), day, pending };
            let mut k: usize = 0;
            while k < messages.len()
                invariant
                    k <= messages.len(),
                    i < sessions.len(),
                    times.len() == stamps@.len(),
                    stamps@.len() == sessions@.len(),
                    messages@ == sessions@[i as int].messages@,
                    views[i as int] == sessions@[i as int]@,
                    times[i as int] == stamps@[i as int]@,
                    stamps@[i as int]@.len() == messages@.len(),
                    forall|j: int|
                        0 <= j < messages@.len() ==> (#[trigger] stamps@[i as int]@[j]).valid(),
                    width == self.layout().text_width,
                    today == self.today(),
                    today.valid(),
                    messages_composed(
                        start,
                        views[i as int],
                        times[i as int],
                        k as int,
                        today,
                        width,
                    ) == (Composed { rows: row_views(rows@), day, pending }),
                    rows_valid(row_views(rows@)),
                    forall|m: int|
                        0 <= m < k ==> wraps_soundly((#[trigger] views[i as int][m]).text, width),
                decreases messages.len() - k,
            {
                let ghost before = row_views(rows@);
                let stamp: Stamp = stamps[i][k];
                assert(stamps@[i as int]@[k as int].valid());
                let date: Date = stamp.date;
                let fresh: bool = match day {
                    Some(last) => last != date,
                    None => true,
                };
                if fresh {
                    if day.is_some() {
                        rows.push(Row::DayBreak(date));
                        assert(row_views(rows@) =~= before.push(RowView::DayBreak(date)));
                    }
                    day = Some(date);
                } else if pending {
                    rows.push(Row::SessionBreak);
                    assert(row_views(rows@) =~= before.push(RowView::SessionBreak));
                }
                pending = false;
                let message: &Message = &messages[k];
                assert(views[i as int][k as int] == message@);
                self.push_message(&mut rows, &stamp, message.who, message.text.as_str());
                k = k + 1;
            }
            i = i + 1;
        }
        proof {
            rows_show_every_line(views, times, today, width, complete);
            if all_wrap_whole(views, width) {
                rows_hold_all_that_was_written(views, times, today, width, complete);
            }
        }
        let ghost before = row_views(rows@);
        if pending {
            let moved: bool = match day {
                Some(last) => last != self.today,
                None => false,
            };
            if moved {
                rows.push(Row::DayBreak(self.today));
                assert(row_views(rows@) =~= before.push(RowView::DayBreak(today)));
            } else {
                rows.push(Row::SessionBreak);
                assert(row_views(rows@) =~= before.push(RowView::SessionBreak));
            }
        }
        rows
    }

    fn push_message(&self, rows: &mut Vec<Row>, stamp: &Stamp, who: Who, body: &str)
        requires
            stamp.valid(),
            rows_valid(row_views(old(rows)@)),
        ensures
            row_views(final(rows)@) == row_views(old(rows)@) + message_rows(
                *stamp,
                who,
                body@,
                self.today(),
                self.layout().text_width as int,
            ),
            rows_valid(row_views(final(rows)@)),
            wraps_soundly(body@, self.layout().text_width as int),
    {
        let ghost before = row_views(rows@);
        let time: String = clock_label(stamp);
        let shown: Option<Date> = if stamp.date == self.today {
            None
        } else {
            Some(stamp.date)
        };
        let width: usize = self.layout.text_width as usize;
        let lines: Vec<Range<usize>> = wrap(body, width);
        let ghost wanted = message_rows(*stamp, who, body@, self.today(), width as int);
        let ghost views = crate::text::wrapped(body@, width as int);
        let mut i: usize = 0;
        assert(before + wanted.take(0) =~= before);
        while i < lines.len()
            invariant
                i <= lines.len(),
                width == self.layout().text_width,
                time@ == crate::clock::clock_text(*stamp),
                stamp.valid(),
                shown == (if stamp.date == self.today() {
                    None
                } else {
                    Some(stamp.date)
                }),
                views == crate::text::wrapped(body@, width as int),
                crate::text::pairs(lines@) == views,
                crate::text::in_order(views, crate::slices::byte_len(body@)),
                crate::text::on_boundaries(views, body@),
                wanted == message_rows(*stamp, who, body@, self.today(), width as int),
                row_views(rows@) == before + wanted.take(i as int),
                rows_valid(row_views(rows@)),
            decreases lines.len() - i,
        {
            let ghost prior = row_views(rows@);
            let range: &Range<usize> = &lines[i];
            assert(views[i as int] == (range.start as int, range.end as int));
            let text: String = visible(body, range).to_owned();
            let row: Row = if i == 0 {
                Row::Line { date: shown, time: Some(time.clone()), who: Some(who), text }
            } else {
                Row::Line { date: shown, time: None, who: None, text }
            };
            assert(row@ == wanted[i as int]);
            rows.push(row);
            proof {
                assert(row_views(rows@) =~= prior.push(row@));
                assert(prior.push(row@) =~= before + wanted.take(i + 1));
            }
            i = i + 1;
        }
        assert(wanted.take(wanted.len() as int) =~= wanted);
    }

    /// Whether a message was written on another day than today. Of one that is not
    /// within the calendar this is not known.
    pub fn dated(&self, ts: i64) -> (other: bool)
        ensures
            other == dated_otherwise(self.zone(), self.today(), ts),
            other <==> (crate::clock::local_time(self.zone(), ts) matches Some(stamp)
                && stamp.date != self.today()),
    {
        match local(&self.zone, ts) {
            Some(stamp) => stamp.date != self.today,
            None => false,
        }
    }

    fn zoned(&self, ts: i64) -> (stamp: Stamp)
        ensures
            stamp == shown_at(self.zone(), ts),
            stamp.valid(),
    {
        match local(&self.zone, ts) {
            Some(stamp) => stamp,
            None => {
                let epoch: Option<Stamp> = local(&self.zone, 0);
                epoch.unwrap()
            },
        }
    }
}

/// A part of the screen.
#[derive(Debug, Clone, Copy)]
pub struct Area {
    pub x: u16,
    pub y: u16,
    pub width: u16,
    pub height: u16,
}

impl Area {
    /// Whether the part ends where a screen can.
    pub open spec fn valid(self) -> bool {
        self.x + self.width <= u16::MAX && self.y + self.height <= u16::MAX
    }
}

/// A colour of text.
#[derive(Debug, Clone, Copy, PartialEq, Eq)]
pub enum Tint {
    Plain,
    Yellow,
}

/// Text at a place of the screen.
#[derive(Debug, Clone)]
pub struct Stroke {
    pub x: u16,
    pub y: u16,
    pub text: String,
    pub tint: Tint,
}

#[verifier::ext_equal]
pub struct StrokeView {
    pub x: int,
    pub y: int,
    pub text: Seq<char>,
    pub tint: Tint,
}

impl View for Stroke {
    type V = StrokeView;

    open spec fn view(&self) -> StrokeView {
        StrokeView { x: self.x as int, y: self.y as int, text: self.text@, tint: self.tint }
    }
}

pub open spec fn stroke_views(strokes: Seq<Stroke>) -> Seq<StrokeView> {
    Seq::new(strokes.len(), |i: int| strokes[i]@)
}

/// What a screen shows: texts, put one after the other, and the cursor.
pub struct Picture {
    pub strokes: Vec<Stroke>,
    pub cursor: (u16, u16),
}

/// What is to be shown.
pub struct Frame<'a> {
    pub rows: &'a [Row],
    pub scroll: usize,
    pub layout: Layout,
    pub editor: &'a Editor,
    pub who: Who,
    pub user: &'a str,
    pub clock: String,
}

#[verifier::ext_equal]
pub struct FrameView {
    pub rows: Seq<RowView>,
    pub scroll: int,
    pub layout: Layout,
    pub editor: crate::editor::EditorView,
    pub who: Who,
    pub user: Seq<char>,
    pub clock: Seq<char>,
}

impl<'a> View for Frame<'a> {
    type V = FrameView;

    open spec fn view(&self) -> FrameView {
        FrameView {
            rows: row_views(self.rows@),
            scroll: self.scroll as int,
            layout: self.layout,
            editor: self.editor@,
            who: self.who,
            user: self.user@,
            clock: self.clock@,
        }
    }
}

/// The line before the first message of a day: the date in the middle of dashes,
/// or the date alone if there is no room for more.
pub open spec fn day_line(date: Date, width: int) -> Seq<char> {
    let label = crate::clock::date_text(date);
    let side = (width - label.len() - LABEL_PAD) / 2;
    let shown = dashes(side) + repeated(' ', 2) + label + repeated(' ', 2) + dashes(side);
    if width <= label.len() + LABEL_PAD {
        label
    } else {
        shown + repeated(' ', width - shown.len())
    }
}

/// The name of a speaker.
pub open spec fn speaker_name(who: Who, user: Seq<char>) -> Seq<char> {
    match who {
        Who::User => user,
        Who::Kipp => seq!['k', 'i', 'p', 'p'],
    }
}

/// The colour of what a speaker says.
pub open spec fn speaker_tint(who: Option<Who>) -> Tint {
    if who == Some(Who::Kipp) {
        Tint::Yellow
    } else {
        Tint::Plain
    }
}

/// The date of a line, or blanks in its place, if the layout has dates.
pub open spec fn day_cell(date: Option<Date>, wide: bool) -> Seq<char> {
    if !wide {
        seq![]
    } else {
        (match date {
            Some(value) => crate::clock::date_text(value),
            None => repeated(' ', DATE_LEN as int),
        }) + seq![' ']
    }
}

/// The time of a line, or blanks in its place.
pub open spec fn hour_cell(time: Option<Seq<char>>) -> Seq<char> {
    match time {
        Some(value) => value,
        None => repeated(' ', TIME_LEN as int),
    }
}

/// The name on a line, with blanks behind it up to the width of the column.
pub open spec fn name_cell(name: Option<Seq<char>>, who_width: int) -> Seq<char> {
    match name {
        Some(value) => value + repeated(' ', who_width - crate::text::columns(value)),
        None => repeated(' ', who_width),
    }
}

/// What stands before the text of a line: date, time and name, each with blanks
/// in its place if there is none, and a bar.
pub open spec fn gutter_line(
    date: Option<Date>,
    time: Option<Seq<char>>,
    name: Option<Seq<char>>,
    layout: Layout,
) -> Seq<char> {
    day_cell(date, layout.wide) + hour_cell(time) + seq![' '] + name_cell(
        name,
        layout.who_width as int,
    ) + seq![' ', '|', ' ']
}

/// The texts of a row.
pub open spec fn row_painted(x: int, y: int, row: RowView, frame: FrameView) -> Seq<StrokeView> {
    let span = frame.layout.gutter + frame.layout.text_width;
    match row {
        RowView::SessionBreak => seq![
            StrokeView { x, y, text: dashes(span), tint: Tint::Plain },
        ],
        RowView::DayBreak(date) => seq![
            StrokeView { x, y, text: day_line(date, span), tint: Tint::Plain },
        ],
        RowView::ArchiveStart => seq![StrokeView { x, y, text: seq![], tint: Tint::Plain }],
        RowView::Line { date, time, who, text } => {
            let name = match who {
                Some(speaker) => Some(speaker_name(speaker, frame.user)),
                None => None,
            };
            seq![
                StrokeView {
                    x,
                    y,
                    text: gutter_line(date, time, name, frame.layout),
                    tint: speaker_tint(who),
                },
                StrokeView { x: x + frame.layout.gutter, y, text, tint: speaker_tint(who) },
            ]
        },
    }
}

/// The texts of the rows from `start` on, `n` of them, the first at `y`.
pub open spec fn rows_painted(
    x: int,
    y: int,
    start: int,
    n: int,
    frame: FrameView,
) -> Seq<StrokeView>
    decreases n,
{
    if n <= 0 {
        seq![]
    } else {
        rows_painted(x, y, start, n - 1, frame) + row_painted(
            x,
            y + n - 1,
            frame.rows[start + n - 1],
            frame,
        )
    }
}

/// The texts of the lines under edit from `skip` on, `n` of them, the first at `y`.
pub open spec fn input_painted(
    x: int,
    y: int,
    skip: int,
    n: int,
    frame: FrameView,
) -> Seq<StrokeView>
    decreases n,
{
    if n <= 0 {
        seq![]
    } else {
        let index = skip + n - 1;
        let line = frame.editor.lines(frame.layout.text_width as int)[index];
        let tint = speaker_tint(Some(frame.who));
        let prefix = if index == 0 {
            gutter_line(
                None,
                Some(frame.clock),
                Some(speaker_name(frame.who, frame.user)),
                frame.layout,
            )
        } else {
            gutter_line(None, None, None, frame.layout)
        };
        input_painted(x, y, skip, n - 1, frame) + seq![
            StrokeView { x, y: y + n - 1, text: prefix, tint },
            StrokeView {
                x: x + frame.layout.gutter,
                y: y + n - 1,
                text: crate::text::unended(
                    crate::slices::piece(frame.editor.text, line.0, line.1),
                ),
                tint,
            },
        ]
    }
}

impl FrameView {
    /// The lines of the screen that the text under edit takes: no more than a third
    /// of them, but one.
    pub open spec fn input_height(self, area: Area) -> int {
        let count = self.editor.lines(self.layout.text_width as int).len() as int;
        let most = area.height as int / INPUT_DIVISOR as int;
        if count < most {
            count
        } else if most < 1 {
            1
        } else {
            most
        }
    }

    /// The lines of the screen that are left for rows.
    pub open spec fn history_height(self, area: Area) -> int {
        let rest = area.height - self.input_height(area);
        if rest < 0 {
            0
        } else {
            rest
        }
    }

    /// The number of rows from the first to the last that is shown.
    pub open spec fn window_end(self) -> int {
        if self.scroll > self.rows.len() {
            0
        } else {
            self.rows.len() - self.scroll
        }
    }

    /// The number of the first row that is shown.
    pub open spec fn window_start(self, area: Area) -> int {
        let first = self.window_end() - self.history_height(area);
        if first < 0 {
            0
        } else {
            first
        }
    }

    /// The number of lines under edit above the first that is shown.
    pub open spec fn input_skip(self, area: Area) -> int {
        let first = self.editor.line(self.layout.text_width as int) - (self.input_height(area) - 1);
        if first < 0 {
            0
        } else {
            first
        }
    }

    /// The number of lines under edit that are shown.
    pub open spec fn input_shown(self, area: Area) -> int {
        let rest = self.editor.lines(self.layout.text_width as int).len() - self.input_skip(area);
        if rest < self.input_height(area) {
            rest
        } else {
            self.input_height(area)
        }
    }

    /// The texts on the screen: the rows above the text under edit, the last of them
    /// right above it.
    pub open spec fn strokes(self, area: Area) -> Seq<StrokeView> {
        let count = self.window_end() - self.window_start(area);
        let top = area.y + self.history_height(area) - count;
        rows_painted(area.x as int, top, self.window_start(area), count, self) + input_painted(
            area.x as int,
            area.y + self.history_height(area),
            self.input_skip(area),
            self.input_shown(area),
            self,
        )
    }

    /// The place of the cursor.
    pub open spec fn cursor(self, area: Area) -> (int, int) {
        let width = self.layout.text_width as int;
        (
            area.x + self.layout.gutter + self.editor.column(width) % 65536,
            area.y + self.history_height(area) + self.editor.line(width) - self.input_skip(area),
        )
    }

    /// Whether everything that is to be shown can be.
    pub open spec fn valid(self) -> bool {
        &&& self.layout.valid()
        &&& self.editor.valid()
        &&& rows_valid(self.rows)
    }
}

/// A number of characters of one kind.
fn repeat(c: char, n: usize) -> (text: String)
    ensures
        text@ == repeated(c, n as int),
{
    let mut text: String = String::new();
    let mut i: usize = 0;
    assert(text@ =~= repeated(c, 0));
    while i < n
        invariant
            i <= n,
            text@ == repeated(c, i as int),
        decreases n - i,
    {
        text.push(c);
        i = i + 1;
        assert(text@ =~= repeated(c, i as int));
    }
    text
}

/// Dashes and blanks by turns.
fn dash(n: usize) -> (text: String)
    ensures
        text@ == dashes(n as int),
{
    let mut text: String = String::new();
    let mut i: usize = 0;
    assert(text@ =~= dashes(0));
    while i < n
        invariant
            i <= n,
            text@ == dashes(i as int),
        decreases n - i,
    {
        if i % 2 == 0 {
            text.push('-');
        } else {
            text.push(' ');
        }
        i = i + 1;
        assert(text@ =~= dashes(i as int));
    }
    text
}

/// The line between two sessions of a day, of `width` columns.
pub fn session_separator(width: u16) -> (text: String)
    ensures
        text@ == dashes(width as int),
        text@.len() == width,
        crate::text::printable(text@),
        forall|i: int|
            0 <= i < width ==> #[trigger] text@[i] == if i % 2 == 0 {
                '-'
            } else {
                ' '
            },
{
    dash(width as usize)
}

/// The line before the first message of a day, of `width` columns if the date and
/// blanks around it have room in them.
pub fn day_separator(date: Date, width: u16) -> (text: String)
    requires
        date.valid(),
    ensures
        text@ == day_line(date, width as int),
        crate::text::printable(text@),
        width > crate::clock::date_text(date).len() + LABEL_PAD ==> text@.len() == width,
{
    let label: String = date_label(date);
    let total: usize = width as usize;
    let overlay: usize = label.as_str().unicode_len() + LABEL_PAD;
    if total <= overlay {
        return label;
    }
    let side: usize = (total - overlay) / 2;
    let flank: String = dash(side);
    let gap: String = repeat(' ', 2);
    let mut text: String = String::new();
    text.append(flank.as_str());
    text.append(gap.as_str());
    text.append(label.as_str());
    text.append(gap.as_str());
    text.append(flank.as_str());
    let ghost shown = text@;
    proof {
        assert(shown =~= dashes(side as int) + repeated(' ', 2) + label@ + repeated(' ', 2)
            + dashes(side as int));
        assert(text@ =~= shown + repeated(' ', 0));
    }
    while display_width(text.as_str()) < total
        invariant
            crate::text::printable(text@),
            shown.len() <= text@.len() <= total,
            text@ == shown + repeated(' ', text@.len() - shown.len()),
        decreases total - text@.len(),
    {
        text.push(' ');
        assert(text@ =~= shown + repeated(' ', text@.len() - shown.len()));
    }
    text
}

/// The name of a speaker.
pub fn speaker<'a>(who: Who, user: &'a str) -> (name: &'a str)
    ensures
        name@ == speaker_name(who, user@),
        who == Who::User ==> name@ == user@,
        who == Who::Kipp ==> name@ == seq!['k', 'i', 'p', 'p'],
{
    match who {
        Who::User => user,
        Who::Kipp => {
            proof {
                reveal_strlit("kipp");
                assert("kipp"@ =~= seq!['k', 'i', 'p', 'p']);
            }
            "kipp"
        },
    }
}

/// The colour of what a speaker says.
pub fn line_style(who: Option<Who>) -> (tint: Tint)
    ensures
        tint == speaker_tint(who),
        tint == Tint::Yellow <==> who == Some(Who::Kipp),
{
    match who {
        Some(Who::Kipp) => Tint::Yellow,
        _ => Tint::Plain,
    }
}

pub open spec fn str_view(text: Option<&str>) -> Option<Seq<char>> {
    match text {
        Some(found) => Some(found@),
        None => None,
    }
}

/// The date of a line, or blanks in its place.
fn day_text(date: Option<Date>, wide: bool) -> (text: String)
    requires
        date matches Some(day) ==> day.valid(),
    ensures
        text@ == day_cell(date, wide),
{
    if !wide {
        return String::new();
    }
    let mut text: String = match date {
        Some(value) => date_label(value),
        None => repeat(' ', DATE_LEN),
    };
    let ghost before = text@;
    text.push(' ');
    assert(text@ =~= before + seq![' ']);
    text
}

/// The time of a line, or blanks in its place.
fn hour_text(time: Option<&str>) -> (text: String)
    ensures
        text@ == hour_cell(str_view(time)),
{
    match time {
        Some(value) => value.to_owned(),
        None => repeat(' ', TIME_LEN),
    }
}

/// The name on a line, with blanks behind it.
fn name_text(who: Option<&str>, who_width: u16) -> (text: String)
    ensures
        text@ == name_cell(str_view(who), who_width as int),
{
    let name: &str = match who {
        Some(value) => value,
        None => "",
    };
    proof {
        reveal_strlit("");
        assert(""@ =~= seq![]);
    }
    let taken: usize = display_width(name);
    let blanks: usize = (who_width as usize).saturating_sub(taken);
    let pad: String = repeat(' ', blanks);
    assert(pad@ =~= repeated(' ', who_width - crate::text::columns(name@)));
    let mut text: String = name.to_owned();
    text.append(pad.as_str());
    assert(text@ =~= name_cell(str_view(who), who_width as int));
    text
}

/// What stands before the text of a line.
pub fn gutter_text(
    date: Option<Date>,
    time: Option<&str>,
    who: Option<&str>,
    layout: Layout,
) -> (text: String)
    requires
        date matches Some(day) ==> day.valid(),
    ensures
        text@ == gutter_line(date, str_view(time), str_view(who), layout),
{
    let mut text: String = day_text(date, layout.wide);
    let hour: String = hour_text(time);
    let name: String = name_text(who, layout.who_width);
    text.append(hour.as_str());
    let ghost before = text@;
    text.push(' ');
    assert(text@ =~= before + seq![' ']);
    text.append(name.as_str());
    let ghost full = text@;
    text.push(' ');
    text.push('|');
    text.push(' ');
    assert(text@ =~= full + seq![' ', '|', ' ']);
    text
}

/// Adds the texts of a row.
fn paint(strokes: &mut Vec<Stroke>, x: u16, y: u16, row: &Row, frame: &Frame)
    requires
        frame@.valid(),
        row_valid(row@),
        x + frame@.layout.gutter <= u16::MAX,
    ensures
        stroke_views(final(strokes)@) == stroke_views(old(strokes)@) + row_painted(
            x as int,
            y as int,
            row@,
            frame@,
        ),
{
    let ghost before = stroke_views(strokes@);
    let span: u16 = frame.layout.span();
    match row {
        Row::SessionBreak => {
            strokes.push(Stroke { x, y, text: session_separator(span), tint: Tint::Plain });
        },
        Row::DayBreak(date) => {
            strokes.push(Stroke { x, y, text: day_separator(*date, span), tint: Tint::Plain });
        },
        Row::ArchiveStart => {
            strokes.push(Stroke { x, y, text: String::new(), tint: Tint::Plain });
        },
        Row::Line { date, time, who, text } => {
            let name: Option<&str> = match who {
                Some(speaking) => Some(speaker(*speaking, frame.user)),
                None => None,
            };
            let hour: Option<&str> = match time {
                Some(value) => Some(value.as_str()),
                None => None,
            };
            let prefix: String = gutter_text(*date, hour, name, frame.layout);
            let tint: Tint = line_style(*who);
            strokes.push(Stroke { x, y, text: prefix, tint });
            strokes.push(Stroke { x: x + frame.layout.gutter, y, text: text.clone(), tint });
        },
    }
    assert(stroke_views(strokes@) =~= before + row_painted(x as int, y as int, row@, frame@));
}

/// Adds the texts of the lines under edit.
fn paint_input(
    strokes: &mut Vec<Stroke>,
    x: u16,
    y: u16,
    skip: usize,
    shown: usize,
    frame: &Frame,
)
    requires
        frame@.valid(),
        x + frame@.layout.gutter <= u16::MAX,
        y + shown <= u16::MAX || shown <= 1,
        skip + shown <= frame@.editor.lines(frame@.layout.text_width as int).len(),
    ensures
        stroke_views(final(strokes)@) == stroke_views(old(strokes)@) + input_painted(
            x as int,
            y as int,
            skip as int,
            shown as int,
            frame@,
        ),
{
    let width: usize = frame.layout.text_width as usize;
    let body: &str = frame.editor.text();
    let lines: Vec<Range<usize>> = wrap(body, width);
    let tint: Tint = line_style(Some(frame.who));
    let count: usize = lines.len();
    let ghost view = frame@;
    let ghost views = crate::text::wrapped(body@, width as int);
    let ghost start = stroke_views(strokes@);
    let mut i: usize = 0;
    assert(start + input_painted(x as int, y as int, skip as int, 0, view) =~= start);
    while i < shown
        invariant
            i <= shown,
            view == frame@,
            view.valid(),
            width == view.layout.text_width,
            body@ == view.editor.text,
            tint == speaker_tint(Some(view.who)),
            views == crate::text::wrapped(body@, width as int),
            crate::text::pairs(lines@) == views,
            count == lines@.len(),
            skip + shown <= count,
            crate::text::in_order(views, crate::slices::byte_len(body@)),
            crate::text::on_boundaries(views, body@),
            x + view.layout.gutter <= u16::MAX,
            y + shown <= u16::MAX || shown <= 1,
            stroke_views(strokes@) == start + input_painted(
                x as int,
                y as int,
                skip as int,
                i as int,
                view,
            ),
        decreases shown - i,
    {
        let ghost before = stroke_views(strokes@);
        let index: usize = skip + i;
        let at: u16 = y + i as u16;
        let range: &Range<usize> = &lines[index];
        assert(views[index as int] == (range.start as int, range.end as int));
        let prefix: String = if index == 0 {
            gutter_text(
                None,
                Some(frame.clock.as_str()),
                Some(speaker(frame.who, frame.user)),
                frame.layout,
            )
        } else {
            gutter_text(None, None, None, frame.layout)
        };
        let line: String = visible(body, range).to_owned();
        let ghost added = seq![
            StrokeView { x: x as int, y: at as int, text: prefix@, tint },
            StrokeView { x: x + view.layout.gutter, y: at as int, text: line@, tint },
        ];
        strokes.push(Stroke { x, y: at, text: prefix, tint });
        strokes.push(Stroke { x: x + frame.layout.gutter, y: at, text: line, tint });
        proof {
            assert(stroke_views(strokes@) =~= before + added);
            let earlier = input_painted(x as int, y as int, skip as int, i as int, view);
            assert(start + (earlier + added) =~= (start + earlier) + added);
        }
        i = i + 1;
    }
}

/// Whether the cursor is where the text under edit says: on the line of the screen on
/// which the line of the text is put that holds its offset, and as many columns
/// behind the start of that line as the text between takes.
pub open spec fn cursor_is_placed(
    frame: FrameView,
    area: Area,
    strokes: Seq<StrokeView>,
    cursor: (int, int),
) -> bool {
    let text = frame.editor.text;
    let at = frame.editor.cursor;
    let lines = crate::text::wrapped(text, frame.layout.text_width as int);
    exists|i: int, k: int|
        {
            &&& 0 <= i < strokes.len()
            &&& 0 <= k < lines.len()
            &&& (#[trigger] strokes[i]).y == cursor.1
            &&& strokes[i].x == area.x + frame.layout.gutter
            &&& strokes[i].text == crate::text::unended(
                crate::slices::piece(text, (#[trigger] lines[k]).0, lines[k].1),
            )
            &&& lines[k].0 <= at <= lines[k].1
            &&& at < lines[k].1 || k == lines.len() - 1
            &&& cursor.0 == area.x + frame.layout.gutter + crate::text::columns(
                crate::slices::piece(text, lines[k].0, at),
            ) % 65536
        }
}

/// Each of the lines under edit that are shown is put at its place.
proof fn input_line_is_painted(
    x: int,
    y: int,
    skip: int,
    n: int,
    frame: FrameView,
    index: int,
) -> (i: int)
    requires
        skip <= index < skip + n,
    ensures
        0 <= i < input_painted(x, y, skip, n, frame).len(),
        ({
            let stroke = input_painted(x, y, skip, n, frame)[i];
            let line = crate::text::wrapped(
                frame.editor.text,
                frame.layout.text_width as int,
            )[index];
            &&& stroke.x == x + frame.layout.gutter
            &&& stroke.y == y + index - skip
            &&& stroke.text == crate::text::unended(
                crate::slices::piece(frame.editor.text, line.0, line.1),
            )
            &&& stroke.tint == speaker_tint(Some(frame.who))
        }),
    decreases n,
{
    let all = input_painted(x, y, skip, n, frame);
    let before = input_painted(x, y, skip, n - 1, frame);
    if index == skip + n - 1 {
        assert(all[before.len() as int + 1].x == x + frame.layout.gutter);
        before.len() as int + 1
    } else {
        let i: int = input_line_is_painted(x, y, skip, n - 1, frame, index);
        assert(all[i] == before[i]);
        i
    }
}

/// The cursor is put on the line of the screen that shows the line of the text that
/// holds it, at the column of the text before it.
pub proof fn cursor_follows_the_text(frame: FrameView, area: Area)
    requires
        frame.editor.valid(),
        frame.editor.on_line(frame.layout.text_width as int),
        crate::text::in_order(
            crate::text::wrapped(frame.editor.text, frame.layout.text_width as int),
            crate::slices::byte_len(frame.editor.text),
        ),
    ensures
        cursor_is_placed(frame, area, frame.strokes(area), frame.cursor(area)),
{
    let width = frame.layout.text_width as int;
    let lines = crate::text::wrapped(frame.editor.text, width);
    let at = frame.editor.cursor;
    let k: int = frame.editor.line(width);
    crate::editor::line_holding_is(lines, at, 0);
    let history = frame.history_height(area);
    let count = frame.window_end() - frame.window_start(area);
    let rows = rows_painted(
        area.x as int,
        area.y + history - count,
        frame.window_start(area),
        count,
        frame,
    );
    let skip = frame.input_skip(area);
    let shown = frame.input_shown(area);
    let n: int = input_line_is_painted(
        area.x as int,
        area.y + history,
        skip,
        shown,
        frame,
        k,
    );
    let strokes = frame.strokes(area);
    let i: int = rows.len() + n;
    assert(strokes[i] == input_painted(area.x as int, area.y + history, skip, shown, frame)[n]);
    crate::editor::last_line_is_fallback(lines, at, 0);
    assert(strokes[i].y == frame.cursor(area).1);
    assert(lines[k].0 <= at);
}

/// Puts what is to be shown on a part of the screen: as many of the rows as there
/// is room for, then the text under edit. The cursor is on the line that shows the
/// line of the text that holds it.
pub fn draw(area: Area, frame: &Frame) -> (picture: Picture)
    requires
        area.valid(),
        frame@.valid(),
        crate::text::plain_text(frame@.editor.text) || frame@.editor.on_line(
            frame@.layout.text_width as int,
        ),
        frame@.cursor(area).0 <= u16::MAX,
    ensures
        stroke_views(picture.strokes@) == frame@.strokes(area),
        picture.cursor.0 == frame@.cursor(area).0,
        picture.cursor.1 == frame@.cursor(area).1,
        cursor_is_placed(
            frame@,
            area,
            stroke_views(picture.strokes@),
            (picture.cursor.0 as int, picture.cursor.1 as int),
        ),
{
    let width: usize = frame.layout.text_width as usize;
    let ghost view = frame@;
    let count: usize = frame.editor.line_count(width);
    let most: usize = area.height as usize / INPUT_DIVISOR;
    let input_lines: usize = if count < most {
        count
    } else if most < 1 {
        1
    } else {
        most
    };
    assert(input_lines == view.input_height(area));
    let history: u16 = area.height.saturating_sub(input_lines as u16);
    assert(history == view.history_height(area));
    let end: usize = frame.rows.len().saturating_sub(frame.scroll);
    let start: usize = end.saturating_sub(history as usize);
    assert(end == view.window_end() && start == view.window_start(area));
    let window: usize = end - start;
    let top: u16 = area.y + (history - window as u16);
    let mut strokes: Vec<Stroke> = Vec::new();
    let (cursor_line, cursor_column): (usize, usize) = frame.editor.position(width);
    let low: u16 = (cursor_column % 65536) as u16;
    assert(area.x + view.layout.gutter <= u16::MAX);
    let mut i: usize = 0;
    assert(stroke_views(strokes@) =~= seq![]);
    while i < window
        invariant
            i <= window,
            view == frame@,
            view.valid(),
            start + window == end,
            end <= view.rows.len(),
            window <= history,
            top + window <= u16::MAX,
            area.x + view.layout.gutter <= u16::MAX,
            stroke_views(strokes@) == rows_painted(
                area.x as int,
                top as int,
                start as int,
                i as int,
                view,
            ),
        decreases window - i,
    {
        let at: u16 = top + i as u16;
        let row: &Row = &frame.rows[start + i];
        assert(row@ == view.rows[start + i]);
        paint(&mut strokes, area.x, at, row, frame);
        i = i + 1;
    }
    let input_y: u16 = area.y + history;
    let skip: usize = cursor_line.saturating_sub(input_lines - 1);
    assert(skip == view.input_skip(area));
    let rest: usize = count - skip;
    let shown: usize = if rest < input_lines {
        rest
    } else {
        input_lines
    };
    assert(shown == view.input_shown(area));
    paint_input(&mut strokes, area.x, input_y, skip, shown, frame);
    let cursor: (u16, u16) = (
        area.x + frame.layout.gutter + low,
        input_y + (cursor_line - skip) as u16,
    );
    proof {
        cursor_follows_the_text(view, area);
    }
    Picture { strokes, cursor }
}

/// Puts what is to be shown on a part of the screen, unless the line that the
/// cursor is on starts behind it or the cursor is too far to the right for a
/// screen.
pub fn draw_checked(area: Area, frame: &Frame) -> (picture: Option<Picture>)
    requires
        area.valid(),
        frame@.valid(),
    ensures
        picture is Some <==> frame@.editor.on_line(frame@.layout.text_width as int)
            && frame@.cursor(area).0 <= u16::MAX,
        crate::text::plain_text(frame@.editor.text) && frame@.cursor(area).0 <= u16::MAX
            ==> picture is Some,
        crate::text::wraps_whole(frame@.editor.text, frame@.layout.text_width as int)
            && frame@.cursor(area).0 <= u16::MAX ==> picture is Some,
        picture matches Some(found) ==> {
            &&& stroke_views(found.strokes@) == frame@.strokes(area)
            &&& found.cursor.0 == frame@.cursor(area).0
            &&& found.cursor.1 == frame@.cursor(area).1
            &&& cursor_is_placed(
                frame@,
                area,
                stroke_views(found.strokes@),
                (found.cursor.0 as int, found.cursor.1 as int),
            )
        },
{
    let width: usize = frame.layout.text_width as usize;
    if !frame.editor.on_line(width) {
        return None;
    }
    let (_, column): (usize, usize) = frame.editor.position(width);
    let right: u64 = area.x as u64 + frame.layout.gutter as u64 + (column % 65536) as u64;
    if right > u16::MAX as u64 {
        return None;
    }
    Some(draw(area, frame))
}

proof fn rows_painted_at(x: int, y: int, start: int, n: int, frame: FrameView)
    ensures
        forall|i: int|
            0 <= i < rows_painted(x, y, start, n, frame).len() ==> y <= (#[trigger] rows_painted(
                x,
                y,
                start,
                n,
                frame,
            )[i]).y < y + n,
    decreases n,
{
    if n > 0 {
        rows_painted_at(x, y, start, n - 1, frame);
        let before = rows_painted(x, y, start, n - 1, frame);
        let added = row_painted(x, y + n - 1, frame.rows[start + n - 1], frame);
        let all = rows_painted(x, y, start, n, frame);
        assert forall|i: int| 0 <= i < all.len() implies y <= (#[trigger] all[i]).y < y + n by {
            if i < before.len() {
                assert(all[i] == before[i]);
            } else {
                assert(all[i] == added[i - before.len()]);
            }
        }
    }
}

proof fn input_painted_at(x: int, y: int, skip: int, n: int, frame: FrameView)
    ensures
        forall|i: int|
            0 <= i < input_painted(x, y, skip, n, frame).len() ==> y <= (#[trigger] input_painted(
                x,
                y,
                skip,
                n,
                frame,
            )[i]).y < y + n,
    decreases n,
{
    if n > 0 {
        input_painted_at(x, y, skip, n - 1, frame);
        let before = input_painted(x, y, skip, n - 1, frame);
        let all = input_painted(x, y, skip, n, frame);
        assert forall|i: int| 0 <= i < all.len() implies y <= (#[trigger] all[i]).y < y + n by {
            if i < before.len() {
                assert(all[i] == before[i]);
            }
        }
    }
}

/// Nothing is put above or below a part of the screen that has a line at least.
pub proof fn strokes_stay_inside(frame: FrameView, area: Area)
    requires
        area.height >= 1,
        frame.scroll >= 0,
    ensures
        forall|i: int|
            0 <= i < frame.strokes(area).len() ==> area.y <= (#[trigger] frame.strokes(
                area,
            )[i]).y < area.y + area.height,
{
    let count = frame.window_end() - frame.window_start(area);
    let history = frame.history_height(area);
    let top = area.y + history - count;
    rows_painted_at(area.x as int, top, frame.window_start(area), count, frame);
    input_painted_at(
        area.x as int,
        area.y + history,
        frame.input_skip(area),
        frame.input_shown(area),
        frame,
    );
    let rows = rows_painted(area.x as int, top, frame.window_start(area), count, frame);
    let all = frame.strokes(area);
    assert forall|i: int| 0 <= i < all.len() implies area.y <= (#[trigger] all[i]).y < area.y
        + area.height by {
        if i < rows.len() {
            assert(all[i] == rows[i]);
        }
    }
}

/// The speakers and times that rows begin a message with, in order.
pub open spec fn heads(rows: Seq<RowView>) -> Seq<(Who, Seq<char>)>
    decreases rows.len(),
{
    if rows.len() == 0 {
        seq![]
    } else {
        let before = heads(rows.drop_last());
        match rows.last() {
            RowView::Line { time: Some(time), who: Some(who), .. } => before.push((who, time)),
            _ => before,
        }
    }
}

/// The speakers and times of the first `n` messages of a session, in order.
pub open spec fn spoken(
    messages: Seq<crate::blackbox::MessageView>,
    stamps: Seq<Stamp>,
    n: int,
) -> Seq<(Who, Seq<char>)>
    decreases n,
{
    if n <= 0 {
        seq![]
    } else {
        spoken(messages, stamps, n - 1).push(
            (messages[n - 1].who, crate::clock::clock_text(stamps[n - 1])),
        )
    }
}

/// The speakers and times of the messages of the first `n` sessions, in order.
pub open spec fn all_spoken(
    sessions: Seq<Seq<crate::blackbox::MessageView>>,
    stamps: Seq<Seq<Stamp>>,
    n: int,
) -> Seq<(Who, Seq<char>)>
    decreases n,
{
    if n <= 0 {
        seq![]
    } else {
        all_spoken(sessions, stamps, n - 1) + spoken(
            sessions[n - 1],
            stamps[n - 1],
            sessions[n - 1].len() as int,
        )
    }
}

proof fn heads_join(a: Seq<RowView>, b: Seq<RowView>)
    ensures
        heads(a + b) == heads(a) + heads(b),
    decreases b.len(),
{
    if b.len() == 0 {
        assert(a + b =~= a);
        assert(heads(a) + heads(b) =~= heads(a));
    } else {
        assert((a + b).drop_last() =~= a + b.drop_last());
        assert((a + b).last() == b.last());
        heads_join(a, b.drop_last());
        assert(heads(a + b) =~= heads(a) + heads(b));
    }
}

proof fn message_has_one_head(
    stamp: Stamp,
    who: Who,
    body: Seq<char>,
    today: Date,
    width: int,
    n: int,
)
    requires
        1 <= n <= message_rows(stamp, who, body, today, width).len(),
    ensures
        heads(message_rows(stamp, who, body, today, width).take(n)) == seq![
            (who, crate::clock::clock_text(stamp)),
        ],
    decreases n,
{
    let rows = message_rows(stamp, who, body, today, width).take(n);
    if n == 1 {
        assert(rows.drop_last() =~= seq![]);
        assert(heads(rows.drop_last()) =~= seq![]);
        assert(heads(rows) =~= seq![(who, crate::clock::clock_text(stamp))]);
    } else {
        message_has_one_head(stamp, who, body, today, width, n - 1);
        assert(rows.drop_last() =~= message_rows(stamp, who, body, today, width).take(n - 1));
    }
}

proof fn messages_have_heads(
    composed: Composed,
    messages: Seq<crate::blackbox::MessageView>,
    stamps: Seq<Stamp>,
    n: int,
    today: Date,
    width: int,
)
    requires
        0 <= n,
    ensures
        heads(messages_composed(composed, messages, stamps, n, today, width).rows) == heads(
            composed.rows,
        ) + spoken(messages, stamps, n),
    decreases n,
{
    if n == 0 {
        assert(heads(composed.rows) + spoken(messages, stamps, 0) =~= heads(composed.rows));
    } else {
        messages_have_heads(composed, messages, stamps, n - 1, today, width);
        let before = messages_composed(composed, messages, stamps, n - 1, today, width);
        let stamp = stamps[n - 1];
        let message = messages[n - 1];
        let rows = message_rows(stamp, message.who, message.text, today, width);
        lines_are_some(message.text, width);
        message_has_one_head(
            stamp,
            message.who,
            message.text,
            today,
            width,
            rows.len() as int,
        );
        assert(rows.take(rows.len() as int) =~= rows);
        let day = before.rows.push(RowView::DayBreak(stamp.date));
        let session = before.rows.push(RowView::SessionBreak);
        assert(day.drop_last() =~= before.rows);
        assert(session.drop_last() =~= before.rows);
        heads_join(day, rows);
        heads_join(session, rows);
        heads_join(before.rows, rows);
        let told = (message.who, crate::clock::clock_text(stamp));
        assert(heads(composed.rows) + spoken(messages, stamps, n - 1) + seq![told] =~= heads(
            composed.rows,
        ) + spoken(messages, stamps, n));
    }
}

/// A text always makes a line.
proof fn lines_are_some(text: Seq<char>, width: int)
    ensures
        crate::text::wrapped(text, width).len() > 0,
{
}

proof fn sessions_have_heads(
    sessions: Seq<Seq<crate::blackbox::MessageView>>,
    stamps: Seq<Seq<Stamp>>,
    n: int,
    today: Date,
    width: int,
    complete: bool,
)
    requires
        0 <= n,
    ensures
        heads(sessions_composed(sessions, stamps, n, today, width, complete).rows) == all_spoken(
            sessions,
            stamps,
            n,
        ),
    decreases n,
{
    if n == 0 {
        let first = seq![RowView::ArchiveStart];
        assert(first.drop_last() =~= seq![]);
        assert(heads(first.drop_last()) =~= seq![]);
        assert(heads(first) =~= seq![]);
    } else {
        sessions_have_heads(sessions, stamps, n - 1, today, width, complete);
        let before = sessions_composed(sessions, stamps, n - 1, today, width, complete);
        messages_have_heads(
            Composed { pending: before.pending || n > 1, ..before },
            sessions[n - 1],
            stamps[n - 1],
            sessions[n - 1].len() as int,
            today,
            width,
        );
    }
}

/// The rows name every message once, with its speaker and its time, in the order
/// in which the messages were written.
pub proof fn rows_name_every_message(
    sessions: Seq<Seq<crate::blackbox::MessageView>>,
    stamps: Seq<Seq<Stamp>>,
    today: Date,
    width: int,
    complete: bool,
)
    ensures
        heads(rows_composed(sessions, stamps, today, width, complete)) == all_spoken(
            sessions,
            stamps,
            sessions.len() as int,
        ),
{
    let n = sessions.len() as int;
    sessions_have_heads(sessions, stamps, n, today, width, complete);
    let rows = sessions_composed(sessions, stamps, n, today, width, complete).rows;
    assert(rows.push(RowView::DayBreak(today)).drop_last() =~= rows);
    assert(rows.push(RowView::SessionBreak).drop_last() =~= rows);
}

/// What stands before the text fills the columns that the layout has for it, if
/// there is a name with room in its column or none: the characters besides the
/// name, and the columns of the name.
pub proof fn gutter_fills(
    date: Option<Date>,
    time: Option<Seq<char>>,
    name: Option<Seq<char>>,
    layout: Layout,
)
    requires
        layout.gutter == gutter_width(layout.who_width as int, layout.wide),
        date matches Some(day) ==> day.valid() && day.year >= -999,
        time matches Some(value) ==> value.len() == TIME_LEN,
        name matches Some(value) ==> crate::text::columns(value) <= layout.who_width,
    ensures
        match name {
            Some(value) => gutter_line(date, time, name, layout).len() - value.len()
                + crate::text::columns(value) == layout.gutter,
            None => gutter_line(date, time, name, layout).len() == layout.gutter,
        },
{
}

/// The lines of a text as they are shown, without their line ends.
pub open spec fn lines_shown(text: Seq<char>, width: int) -> Seq<Seq<char>> {
    let lines = crate::text::wrapped(text, width);
    Seq::new(
        lines.len(),
        |i: int| crate::text::unended(crate::slices::piece(text, lines[i].0, lines[i].1)),
    )
}

/// The texts of the rows that are lines of messages, in order.
pub open spec fn row_texts(rows: Seq<RowView>) -> Seq<Seq<char>>
    decreases rows.len(),
{
    if rows.len() == 0 {
        seq![]
    } else {
        match rows.last() {
            RowView::Line { text, .. } => row_texts(rows.drop_last()).push(text),
            _ => row_texts(rows.drop_last()),
        }
    }
}

/// The lines of the first `n` messages of a session as they are shown, in order.
pub open spec fn messages_shown(
    messages: Seq<crate::blackbox::MessageView>,
    n: int,
    width: int,
) -> Seq<Seq<char>>
    decreases n,
{
    if n <= 0 {
        seq![]
    } else {
        messages_shown(messages, n - 1, width) + lines_shown(messages[n - 1].text, width)
    }
}

/// The lines of the messages of the first `n` sessions as they are shown, in order.
pub open spec fn sessions_shown(
    sessions: Seq<Seq<crate::blackbox::MessageView>>,
    n: int,
    width: int,
) -> Seq<Seq<char>>
    decreases n,
{
    if n <= 0 {
        seq![]
    } else {
        sessions_shown(sessions, n - 1, width) + messages_shown(
            sessions[n - 1],
            sessions[n - 1].len() as int,
            width,
        )
    }
}

proof fn row_texts_join(a: Seq<RowView>, b: Seq<RowView>)
    ensures
        row_texts(a + b) == row_texts(a) + row_texts(b),
    decreases b.len(),
{
    if b.len() == 0 {
        assert(a + b =~= a);
        assert(row_texts(a) + row_texts(b) =~= row_texts(a));
    } else {
        assert((a + b).drop_last() =~= a + b.drop_last());
        assert((a + b).last() == b.last());
        row_texts_join(a, b.drop_last());
        assert(row_texts(a + b) =~= row_texts(a) + row_texts(b));
    }
}

proof fn break_has_no_text(rows: Seq<RowView>, row: RowView)
    requires
        !(row is Line),
    ensures
        row_texts(rows.push(row)) == row_texts(rows),
{
    assert(rows.push(row).drop_last() =~= rows);
}

/// The rows of a message are its lines, each with its text; the first has the time
/// and the speaker and no other has, and each has the date unless that is today.
pub proof fn message_has_a_row_for_each_line(
    stamp: Stamp,
    who: Who,
    body: Seq<char>,
    today: Date,
    width: int,
)
    ensures
        ({
            let rows = message_rows(stamp, who, body, today, width);
            let lines = crate::text::wrapped(body, width);
            &&& rows.len() == lines.len() >= 1
            &&& forall|i: int|
                0 <= i < lines.len() ==> match #[trigger] rows[i] {
                    RowView::Line { date, time, who: speaker, text } => {
                        &&& text == crate::text::unended(
                            crate::slices::piece(body, lines[i].0, lines[i].1),
                        )
                        &&& date is None <==> stamp.date == today
                        &&& date matches Some(day) ==> day == stamp.date
                        &&& time is Some <==> i == 0
                        &&& speaker is Some <==> i == 0
                        &&& time matches Some(label) ==> label == crate::clock::clock_text(stamp)
                        &&& speaker matches Some(name) ==> name == who
                    },
                    _ => false,
                }
        }),
{
    lines_are_some(body, width);
}

proof fn message_texts(
    stamp: Stamp,
    who: Who,
    body: Seq<char>,
    today: Date,
    width: int,
    n: int,
)
    requires
        0 <= n <= crate::text::wrapped(body, width).len(),
    ensures
        row_texts(message_rows(stamp, who, body, today, width).take(n)) == lines_shown(
            body,
            width,
        ).take(n),
    decreases n,
{
    message_has_a_row_for_each_line(stamp, who, body, today, width);
    let rows = message_rows(stamp, who, body, today, width);
    let shown = lines_shown(body, width);
    if n > 0 {
        message_texts(stamp, who, body, today, width, n - 1);
        assert(rows.take(n).drop_last() =~= rows.take(n - 1));
        assert(rows.take(n).last() == rows[n - 1]);
        assert(shown.take(n) =~= shown.take(n - 1).push(shown[n - 1]));
    } else {
        assert(rows.take(0) =~= seq![]);
        assert(shown.take(0) =~= seq![]);
    }
}

proof fn messages_have_texts(
    composed: Composed,
    messages: Seq<crate::blackbox::MessageView>,
    stamps: Seq<Stamp>,
    n: int,
    today: Date,
    width: int,
)
    requires
        0 <= n,
    ensures
        row_texts(messages_composed(composed, messages, stamps, n, today, width).rows)
            == row_texts(composed.rows) + messages_shown(messages, n, width),
    decreases n,
{
    if n == 0 {
        assert(row_texts(composed.rows) + messages_shown(messages, 0, width) =~= row_texts(
            composed.rows,
        ));
    } else {
        messages_have_texts(composed, messages, stamps, n - 1, today, width);
        let before = messages_composed(composed, messages, stamps, n - 1, today, width);
        let stamp = stamps[n - 1];
        let message = messages[n - 1];
        let rows = message_rows(stamp, message.who, message.text, today, width);
        let shown = lines_shown(message.text, width);
        message_texts(stamp, message.who, message.text, today, width, shown.len() as int);
        assert(rows.take(shown.len() as int) =~= rows);
        assert(shown.take(shown.len() as int) =~= shown);
        break_has_no_text(before.rows, RowView::DayBreak(stamp.date));
        break_has_no_text(before.rows, RowView::SessionBreak);
        row_texts_join(before.rows.push(RowView::DayBreak(stamp.date)), rows);
        row_texts_join(before.rows.push(RowView::SessionBreak), rows);
        row_texts_join(before.rows, rows);
        assert(row_texts(composed.rows) + messages_shown(messages, n - 1, width) + shown
            =~= row_texts(composed.rows) + messages_shown(messages, n, width));
    }
}

proof fn sessions_have_texts(
    sessions: Seq<Seq<crate::blackbox::MessageView>>,
    stamps: Seq<Seq<Stamp>>,
    n: int,
    today: Date,
    width: int,
    complete: bool,
)
    requires
        0 <= n,
    ensures
        row_texts(sessions_composed(sessions, stamps, n, today, width, complete).rows)
            == sessions_shown(sessions, n, width),
    decreases n,
{
    if n == 0 {
        let none = Seq::<RowView>::empty();
        break_has_no_text(none, RowView::ArchiveStart);
        assert(none.push(RowView::ArchiveStart) =~= seq![RowView::ArchiveStart]);
    } else {
        sessions_have_texts(sessions, stamps, n - 1, today, width, complete);
        let before = sessions_composed(sessions, stamps, n - 1, today, width, complete);
        messages_have_texts(
            Composed { pending: before.pending || n > 1, ..before },
            sessions[n - 1],
            stamps[n - 1],
            sessions[n - 1].len() as int,
            today,
            width,
        );
    }
}

/// The rows of a journal show every line of every message, and no other text, in the
/// order in which the messages were written.
pub proof fn rows_show_every_line(
    sessions: Seq<Seq<crate::blackbox::MessageView>>,
    stamps: Seq<Seq<Stamp>>,
    today: Date,
    width: int,
    complete: bool,
)
    ensures
        row_texts(rows_composed(sessions, stamps, today, width, complete)) == sessions_shown(
            sessions,
            sessions.len() as int,
            width,
        ),
{
    let n = sessions.len() as int;
    sessions_have_texts(sessions, stamps, n, today, width, complete);
    let rows = sessions_composed(sessions, stamps, n, today, width, complete).rows;
    break_has_no_text(rows, RowView::DayBreak(today));
    break_has_no_text(rows, RowView::SessionBreak);
}

/// The characters of a text that do not end a line, in order.
pub open spec fn letters(text: Seq<char>) -> Seq<char> {
    text.filter(|c: char| c != '\n' && c != '\r')
}

/// The characters of some texts that do not end a line, in order.
pub open spec fn letters_of(texts: Seq<Seq<char>>) -> Seq<char>
    decreases texts.len(),
{
    if texts.len() == 0 {
        seq![]
    } else {
        letters_of(texts.drop_last()) + letters(texts.last())
    }
}

/// The characters that do not end a line of the first `n` messages of a session.
pub open spec fn letters_said(messages: Seq<crate::blackbox::MessageView>, n: int) -> Seq<char>
    decreases n,
{
    if n <= 0 {
        seq![]
    } else {
        letters_said(messages, n - 1) + letters(messages[n - 1].text)
    }
}

/// The characters that do not end a line of the messages of the first `n` sessions.
pub open spec fn letters_kept(
    sessions: Seq<Seq<crate::blackbox::MessageView>>,
    n: int,
) -> Seq<char>
    decreases n,
{
    if n <= 0 {
        seq![]
    } else {
        letters_kept(sessions, n - 1) + letters_said(
            sessions[n - 1],
            sessions[n - 1].len() as int,
        )
    }
}

/// Whether the lines of a text hold all of it, in order.
pub open spec fn wraps_to_all(text: Seq<char>, width: int) -> bool {
    let lines = crate::text::wrapped(text, width);
    &&& crate::text::tiles(lines, crate::slices::byte_len(text))
    &&& crate::text::in_order(lines, crate::slices::byte_len(text))
    &&& crate::text::on_boundaries(lines, text)
}

proof fn letters_join(a: Seq<char>, b: Seq<char>)
    ensures
        letters(a + b) == letters(a) + letters(b),
{
    Seq::filter_distributes_over_add(a, b, |c: char| c != '\n' && c != '\r');
}

proof fn line_ends_are_no_letters(text: Seq<char>)
    ensures
        letters(crate::text::unended(text)) == letters(text),
    decreases text.len(),
{
    if text.len() > 0 && (text.last() == '\n' || text.last() == '\r') {
        line_ends_are_no_letters(text.drop_last());
        reveal(Seq::filter);
    }
}

proof fn letters_of_join(a: Seq<Seq<char>>, b: Seq<Seq<char>>)
    ensures
        letters_of(a + b) == letters_of(a) + letters_of(b),
    decreases b.len(),
{
    if b.len() == 0 {
        assert(a + b =~= a);
        assert(letters_of(a) + letters_of(b) =~= letters_of(a));
    } else {
        assert((a + b).drop_last() =~= a + b.drop_last());
        assert((a + b).last() == b.last());
        letters_of_join(a, b.drop_last());
        assert(letters_of(a + b) =~= letters_of(a) + letters_of(b));
    }
}

proof fn lines_have_letters(text: Seq<char>, width: int, n: int)
    requires
        0 <= n <= crate::text::wrapped(text, width).len(),
    ensures
        letters_of(lines_shown(text, width).take(n)) == letters(
            crate::text::joined(text, crate::text::wrapped(text, width), n),
        ),
    decreases n,
{
    let shown = lines_shown(text, width);
    let lines = crate::text::wrapped(text, width);
    if n > 0 {
        lines_have_letters(text, width, n - 1);
        assert(shown.take(n).drop_last() =~= shown.take(n - 1));
        let line = crate::slices::piece(text, lines[n - 1].0, lines[n - 1].1);
        line_ends_are_no_letters(line);
        letters_join(crate::text::joined(text, lines, n - 1), line);
    } else {
        assert(shown.take(0) =~= seq![]);
        reveal(Seq::filter);
    }
}

proof fn text_keeps_its_letters(text: Seq<char>, width: int)
    requires
        wraps_to_all(text, width),
    ensures
        letters_of(lines_shown(text, width)) == letters(text),
{
    let lines = crate::text::wrapped(text, width);
    let n = lines.len() as int;
    lines_have_letters(text, width, n);
    assert(lines_shown(text, width).take(n) =~= lines_shown(text, width));
    crate::text::lines_hold_text(text, lines, n);
}

proof fn messages_keep_letters(
    messages: Seq<crate::blackbox::MessageView>,
    n: int,
    width: int,
)
    requires
        0 <= n <= messages.len(),
        forall|k: int|
            0 <= k < messages.len() ==> wraps_to_all((#[trigger] messages[k]).text, width),
    ensures
        letters_of(messages_shown(messages, n, width)) == letters_said(messages, n),
    decreases n,
{
    if n > 0 {
        messages_keep_letters(messages, n - 1, width);
        text_keeps_its_letters(messages[n - 1].text, width);
        letters_of_join(
            messages_shown(messages, n - 1, width),
            lines_shown(messages[n - 1].text, width),
        );
    }
}

proof fn sessions_keep_letters(
    sessions: Seq<Seq<crate::blackbox::MessageView>>,
    n: int,
    width: int,
)
    requires
        0 <= n <= sessions.len(),
        forall|i: int, k: int|
            0 <= i < sessions.len() && 0 <= k < sessions[i].len() ==> wraps_to_all(
                (#[trigger] sessions[i][k]).text,
                width,
            ),
    ensures
        letters_of(sessions_shown(sessions, n, width)) == letters_kept(sessions, n),
    decreases n,
{
    if n > 0 {
        sessions_keep_letters(sessions, n - 1, width);
        let messages = sessions[n - 1];
        assert forall|k: int| 0 <= k < messages.len() implies wraps_to_all(
            (#[trigger] messages[k]).text,
            width,
        ) by {
            assert(wraps_to_all(sessions[n - 1][k].text, width));
        }
        messages_keep_letters(messages, messages.len() as int, width);
        letters_of_join(
            sessions_shown(sessions, n - 1, width),
            messages_shown(messages, messages.len() as int, width),
        );
    }
}

/// Nothing that was written is missing from the rows of a journal, and nothing is
/// added: where the lines of each message hold all of it, the texts of the rows are
/// the texts of the messages, letter for letter and in order, but for line ends.
pub proof fn rows_hold_all_that_was_written(
    sessions: Seq<Seq<crate::blackbox::MessageView>>,
    stamps: Seq<Seq<Stamp>>,
    today: Date,
    width: int,
    complete: bool,
)
    requires
        forall|i: int, k: int|
            0 <= i < sessions.len() && 0 <= k < sessions[i].len() ==> wraps_to_all(
                (#[trigger] sessions[i][k]).text,
                width,
            ),
    ensures
        letters_of(row_texts(rows_composed(sessions, stamps, today, width, complete)))
            == letters_kept(sessions, sessions.len() as int),
{
    rows_show_every_line(sessions, stamps, today, width, complete);
    sessions_keep_letters(sessions, sessions.len() as int, width);
}

/// The screen is divided into the columns before the text and the text: time of eight
/// columns, the longer of the user's name and four, blanks and a bar between, and a
/// date of ten columns and a blank if there are dates. The text has what is left of
/// the smaller of the two widths, but one column at least.
pub proof fn layout_divides_the_screen(
    user: Seq<char>,
    configured: u16,
    terminal: u16,
    wide: bool,
)
    requires
        user.len() < 60000,
    ensures
        ({
            let layout = Layout::divided(user, configured, terminal, wide);
            let total: int = if configured < terminal {
                configured as int
            } else {
                terminal as int
            };
            &&& user.len() >= 4 ==> layout.who_width == user.len()
            &&& user.len() < 4 ==> layout.who_width == 4
            &&& !wide ==> layout.gutter == layout.who_width + 12
            &&& wide ==> layout.gutter == layout.who_width + 23
            &&& total > layout.gutter ==> layout.text_width == total - layout.gutter
            &&& total <= layout.gutter ==> layout.text_width == 1
            &&& layout.wide == wide
        }),
{
}

/// What stands before the text of a line ends in a blank, a bar and a blank. Before
/// that comes the name with blanks behind it, before that the time and a blank, or
/// blanks in their place, and before that, if there are dates, the date and a blank,
/// or blanks in their place.
pub proof fn gutter_holds_date_time_and_name(
    date: Option<Date>,
    time: Option<Seq<char>>,
    name: Option<Seq<char>>,
    layout: Layout,
)
    requires
        date matches Some(day) ==> day.valid() && day.year >= -999,
        time matches Some(value) ==> value.len() == 8,
    ensures
        ({
            let line = gutter_line(date, time, name, layout);
            let at: int = if layout.wide {
                11
            } else {
                0
            };
            let end = line.len() as int;
            &&& end >= at + 12
            &&& line[end - 3] == ' ' && line[end - 2] == '|' && line[end - 1] == ' '
            &&& time matches Some(value) ==> line.subrange(at, at + 8) == value
            &&& time is None ==> forall|i: int| at <= i < at + 8 ==> #[trigger] line[i] == ' '
            &&& line[at + 8] == ' '
            &&& name matches Some(value) ==> {
                &&& crate::text::columns(value) <= layout.who_width ==> end == at + 12 + value.len()
                    + layout.who_width - crate::text::columns(value)
                &&& crate::text::columns(value) > layout.who_width ==> end == at + 12 + value.len()
                &&& line.subrange(at + 9, at + 9 + value.len()) == value
                &&& forall|i: int|
                    at + 9 + value.len() <= i < end - 3 ==> #[trigger] line[i] == ' '
            }
            &&& name is None ==> {
                &&& end == at + 12 + layout.who_width
                &&& forall|i: int| at + 9 <= i < end - 3 ==> #[trigger] line[i] == ' '
            }
            &&& layout.wide ==> {
                &&& line[10] == ' '
                &&& date matches Some(day) ==> line.subrange(0, 10) == crate::clock::date_text(day)
                &&& date is None ==> forall|i: int| 0 <= i < 10 ==> #[trigger] line[i] == ' '
            }
        }),
{
    let line = gutter_line(date, time, name, layout);
    let at: int = if layout.wide {
        11
    } else {
        0
    };
    if layout.wide {
        if let Some(day) = date {
            assert(line.subrange(0, 10) =~= crate::clock::date_text(day));
        }
    }
    if let Some(value) = time {
        assert(line.subrange(at, at + 8) =~= value);
    }
    if let Some(value) = name {
        assert(line.subrange(at + 9, at + 9 + value.len()) =~= value);
    }
}

/// The line before the first message of a day holds the date in its middle, with two
/// blanks on either side and dashes and blanks by turns beyond them; where it has no
/// room for more it is the date.
pub proof fn day_line_holds_the_date(date: Date, width: int)
    requires
        date.valid(),
    ensures
        ({
            let label = crate::clock::date_text(date);
            let line = day_line(date, width);
            let side = (width - label.len() - 4) / 2;
            &&& width <= label.len() + 4 ==> line == label
            &&& width > label.len() + 4 ==> {
                &&& line.len() == width
                &&& line.subrange(side + 2, side + 2 + label.len()) == label
                &&& forall|i: int|
                    0 <= i < side ==> #[trigger] line[i] == if i % 2 == 0 {
                        '-'
                    } else {
                        ' '
                    }
                &&& line[side] == ' ' && line[side + 1] == ' '
                &&& line[side + 2 + label.len()] == ' ' && line[side + 3 + label.len()] == ' '
                &&& forall|i: int|
                    0 <= i < side ==> #[trigger] line[side + 4 + label.len() + i] == if i % 2 == 0 {
                        '-'
                    } else {
                        ' '
                    }
            }
        }),
{
    let label = crate::clock::date_text(date);
    let line = day_line(date, width);
    let side = (width - label.len() - 4) / 2;
    if width > label.len() + 4 {
        assert(line.subrange(side + 2, side + 2 + label.len()) =~= label);
    }
}

proof fn row_is_painted(
    x: int,
    y: int,
    start: int,
    n: int,
    frame: FrameView,
    r: int,
) -> (i: int)
    requires
        start <= r < start + n,
    ensures
        0 <= i,
        ({
            let all = rows_painted(x, y, start, n, frame);
            let painted = row_painted(x, y + r - start, frame.rows[r], frame);
            &&& i + painted.len() <= all.len()
            &&& all.subrange(i, i + painted.len()) == painted
        }),
    decreases n,
{
    let all = rows_painted(x, y, start, n, frame);
    let before = rows_painted(x, y, start, n - 1, frame);
    let painted = row_painted(x, y + r - start, frame.rows[r], frame);
    if r == start + n - 1 {
        assert(all.subrange(before.len() as int, (before.len() + painted.len()) as int)
            =~= painted);
        before.len() as int
    } else {
        let i: int = row_is_painted(x, y, start, n - 1, frame, r);
        assert(all.subrange(i, i + painted.len()) =~= before.subrange(i, i + painted.len()));
        i
    }
}

/// Whether the text of a row, and what stands before it, are among the texts on a
/// screen from `i` on, at a place: breaks plain and as wide as a line, a line of a
/// message behind what stands before it, both in the colour of its speaker.
pub open spec fn row_stands(
    strokes: Seq<StrokeView>,
    i: int,
    x: int,
    y: int,
    row: RowView,
    frame: FrameView,
) -> bool {
    &&& 0 <= i < strokes.len()
    &&& strokes[i].x == x
    &&& strokes[i].y == y
    &&& match row {
        RowView::SessionBreak => strokes[i].tint == Tint::Plain && strokes[i].text == dashes(
            frame.layout.gutter + frame.layout.text_width,
        ),
        RowView::DayBreak(day) => strokes[i].tint == Tint::Plain && strokes[i].text == day_line(
            day,
            frame.layout.gutter + frame.layout.text_width,
        ),
        RowView::ArchiveStart => strokes[i].text.len() == 0,
        RowView::Line { date, time, who, text } => {
            &&& i + 1 < strokes.len()
            &&& strokes[i + 1].x == x + frame.layout.gutter
            &&& strokes[i + 1].y == y
            &&& strokes[i + 1].text == text
            &&& strokes[i + 1].tint == strokes[i].tint
            &&& strokes[i].tint == Tint::Yellow <==> who == Some(Who::Kipp)
            &&& strokes[i].text == gutter_line(
                date,
                time,
                match who {
                    Some(Who::User) => Some(frame.user),
                    Some(Who::Kipp) => Some(seq!['k', 'i', 'p', 'p']),
                    None => None,
                },
                frame.layout,
            )
        },
    }
}

proof fn painted_row_stands(
    strokes: Seq<StrokeView>,
    i: int,
    x: int,
    y: int,
    row: RowView,
    frame: FrameView,
)
    requires
        0 <= i,
        i + row_painted(x, y, row, frame).len() <= strokes.len(),
        strokes.subrange(i, i + row_painted(x, y, row, frame).len()) == row_painted(
            x,
            y,
            row,
            frame,
        ),
    ensures
        row_stands(strokes, i, x, y, row, frame),
{
    let painted = row_painted(x, y, row, frame);
    let part = strokes.subrange(i, i + painted.len());
    assert(part[0] == strokes[i]);
    if painted.len() > 1 {
        assert(part[1] == strokes[i + 1]);
    }
}

/// The lines of a screen that a text under edit of `count` lines has: as many as it
/// needs, but no more than a third of the screen, and one at least.
pub open spec fn lines_for_text(count: int, height: int) -> int {
    if count < height / 3 {
        count
    } else if height < 3 {
        1
    } else {
        height / 3
    }
}

/// Each row that there is room for is put at its place: the last that is not scrolled
/// away right above the text under edit, each other one line above the next.
pub proof fn rows_are_put_above_the_text(frame: FrameView, area: Area, r: int)
    requires
        frame.scroll >= 0,
        0 <= r < frame.rows.len() - frame.scroll,
        frame.rows.len() - frame.scroll - r <= area.height - lines_for_text(
            crate::text::wrapped(frame.editor.text, frame.layout.text_width as int).len() as int,
            area.height as int,
        ),
    ensures
        exists|i: int|
            #[trigger] row_stands(
                frame.strokes(area),
                i,
                area.x as int,
                area.y + area.height - lines_for_text(
                    crate::text::wrapped(
                        frame.editor.text,
                        frame.layout.text_width as int,
                    ).len() as int,
                    area.height as int,
                ) - (frame.rows.len() - frame.scroll - r),
                frame.rows[r],
                frame,
            ),
{
    let input = lines_for_text(
        crate::text::wrapped(frame.editor.text, frame.layout.text_width as int).len() as int,
        area.height as int,
    );
    assert(frame.input_height(area) == input);
    let history = frame.history_height(area);
    let start = frame.window_start(area);
    let n = frame.window_end() - start;
    let x = area.x as int;
    let top = area.y + history - n;
    let y = top + r - start;
    let rows = rows_painted(x, top, start, n, frame);
    let i: int = row_is_painted(x, top, start, n, frame, r);
    let painted = row_painted(x, y, frame.rows[r], frame);
    let strokes = frame.strokes(area);
    let size = painted.len() as int;
    assert(strokes.subrange(i, i + size) =~= rows.subrange(i, i + size));
    painted_row_stands(strokes, i, x, y, frame.rows[r], frame);
    assert(y == area.y + area.height - input - (frame.rows.len() - frame.scroll - r));
}

/// No row is put on the screen that is scrolled away, or for which there is no room:
/// as many lines of the screen as the text under edit leaves are the rows', and each
/// row has one.
pub proof fn rows_and_text_share_the_screen(frame: FrameView, area: Area)
    requires
        frame.scroll >= 0,
        area.height >= 1,
        crate::text::wrapped(frame.editor.text, frame.layout.text_width as int).len() >= 1,
    ensures
        ({
            let input = lines_for_text(
                crate::text::wrapped(
                    frame.editor.text,
                    frame.layout.text_width as int,
                ).len() as int,
                area.height as int,
            );
            let last = frame.rows.len() - frame.scroll;
            let shown = frame.window_end() - frame.window_start(area);
            &&& frame.input_height(area) == input
            &&& frame.history_height(area) + input == area.height
            &&& last <= 0 ==> shown == 0
            &&& 0 < last <= area.height - input ==> shown == last
            &&& last > area.height - input ==> shown == area.height - input
        }),
{
}

proof fn messages_agree(
    composed: Composed,
    a: Seq<crate::blackbox::MessageView>,
    b: Seq<crate::blackbox::MessageView>,
    s: Seq<Stamp>,
    t: Seq<Stamp>,
    n: int,
    today: Date,
    width: int,
)
    requires
        0 <= n <= a.len(),
        n <= b.len(),
        forall|i: int| 0 <= i < n ==> #[trigger] a[i] == b[i],
        forall|i: int| 0 <= i < n ==> #[trigger] s[i] == t[i],
    ensures
        messages_composed(composed, a, s, n, today, width) == messages_composed(
            composed,
            b,
            t,
            n,
            today,
            width,
        ),
    decreases n,
{
    if n > 0 {
        messages_agree(composed, a, b, s, t, n - 1, today, width);
        assert(a[n - 1] == b[n - 1]);
        assert(s[n - 1] == t[n - 1]);
    }
}

proof fn sessions_agree(
    a: Seq<Seq<crate::blackbox::MessageView>>,
    b: Seq<Seq<crate::blackbox::MessageView>>,
    s: Seq<Seq<Stamp>>,
    t: Seq<Seq<Stamp>>,
    n: int,
    today: Date,
    width: int,
    complete: bool,
)
    requires
        0 <= n <= a.len(),
        n <= b.len(),
        forall|i: int| 0 <= i < n ==> #[trigger] a[i] == b[i],
        forall|i: int| 0 <= i < n ==> #[trigger] s[i] == t[i],
    ensures
        sessions_composed(a, s, n, today, width, complete) == sessions_composed(
            b,
            t,
            n,
            today,
            width,
            complete,
        ),
    decreases n,
{
    if n > 0 {
        sessions_agree(a, b, s, t, n - 1, today, width, complete);
        assert(a[n - 1] == b[n - 1]);
        assert(s[n - 1] == t[n - 1]);
    }
}

/// A message more in a session that holds one already comes behind all the rows that
/// there were: right behind them if it is of the same day as the one before it, else
/// behind the line of its day.
pub proof fn next_message_comes_behind(
    sessions: Seq<Seq<crate::blackbox::MessageView>>,
    stamps: Seq<Seq<Stamp>>,
    message: crate::blackbox::MessageView,
    stamp: Stamp,
    today: Date,
    width: int,
    complete: bool,
)
    requires
        sessions.len() > 0,
        stamps.len() == sessions.len(),
        sessions.last().len() > 0,
        stamps.last().len() == sessions.last().len(),
    ensures
        ({
            let longer = sessions.drop_last().push(sessions.last().push(message));
            let times = stamps.drop_last().push(stamps.last().push(stamp));
            let before = rows_composed(sessions, stamps, today, width, complete);
            let after = rows_composed(longer, times, today, width, complete);
            let added = message_rows(stamp, message.who, message.text, today, width);
            &&& stamps.last().last().date == stamp.date ==> after == before + added
            &&& stamps.last().last().date != stamp.date ==> after == before.push(
                RowView::DayBreak(stamp.date),
            ) + added
        }),
{
    let n = sessions.len() as int;
    let longer = sessions.drop_last().push(sessions.last().push(message));
    let times = stamps.drop_last().push(stamps.last().push(stamp));
    sessions_agree(sessions, longer, stamps, times, n - 1, today, width, complete);
    let prior = sessions_composed(sessions, stamps, n - 1, today, width, complete);
    let start = Composed { pending: prior.pending || n > 1, ..prior };
    let count = sessions.last().len() as int;
    messages_agree(
        start,
        sessions.last(),
        longer.last(),
        stamps.last(),
        times.last(),
        count,
        today,
        width,
    );
}

/// The first message of another session comes behind the line of its day if that is
/// another day, and behind a break between sessions if it is the same. A session in
/// which nothing is said yet ends the rows with the one or the other.
pub proof fn next_session_comes_behind_a_break(
    sessions: Seq<Seq<crate::blackbox::MessageView>>,
    stamps: Seq<Seq<Stamp>>,
    message: crate::blackbox::MessageView,
    stamp: Stamp,
    today: Date,
    width: int,
    complete: bool,
)
    requires
        sessions.len() > 0,
        stamps.len() == sessions.len(),
        sessions.last().len() > 0,
        stamps.last().len() == sessions.last().len(),
    ensures
        ({
            let before = rows_composed(sessions, stamps, today, width, complete);
            let after = rows_composed(
                sessions.push(seq![message]),
                stamps.push(seq![stamp]),
                today,
                width,
                complete,
            );
            let silent = rows_composed(
                sessions.push(seq![]),
                stamps.push(seq![]),
                today,
                width,
                complete,
            );
            let added = message_rows(stamp, message.who, message.text, today, width);
            let day = stamps.last().last().date;
            &&& day == stamp.date ==> after == before.push(RowView::SessionBreak) + added
            &&& day != stamp.date ==> after == before.push(RowView::DayBreak(stamp.date)) + added
            &&& day == today ==> silent == before.push(RowView::SessionBreak)
            &&& day != today ==> silent == before.push(RowView::DayBreak(today))
        }),
{
    let n = sessions.len() as int;
    let one = sessions.push(seq![message]);
    let one_times = stamps.push(seq![stamp]);
    let none = sessions.push(seq![]);
    let none_times = stamps.push(seq![]);
    sessions_agree(sessions, one, stamps, one_times, n, today, width, complete);
    sessions_agree(sessions, none, stamps, none_times, n, today, width, complete);
    let prior = sessions_composed(sessions, stamps, n - 1, today, width, complete);
    let start = Composed { pending: prior.pending || n > 1, ..prior };
    let count = sessions.last().len() as int;
    assert(messages_composed(start, sessions.last(), stamps.last(), count, today, width).day
        == Some(stamps.last()[count - 1].date));
    let whole = sessions_composed(sessions, stamps, n, today, width, complete);
    let opened = Composed { pending: true, ..whole };
    assert(messages_composed(opened, seq![message], seq![stamp], 0, today, width) == opened);
    assert(sessions_composed(one, one_times, n + 1, today, width, complete)
        == messages_composed(opened, seq![message], seq![stamp], 1, today, width));
    assert(sessions_composed(none, none_times, n + 1, today, width, complete) == opened);
}

/// The first message of a journal comes behind nothing but the start of the archive, if
/// all of the archive is shown.
pub proof fn first_message_comes_first(
    message: crate::blackbox::MessageView,
    stamp: Stamp,
    today: Date,
    width: int,
)
    ensures
        rows_composed(seq![seq![message]], seq![seq![stamp]], today, width, true) == seq![
            RowView::ArchiveStart,
        ] + message_rows(stamp, message.who, message.text, today, width),
        rows_composed(seq![seq![message]], seq![seq![stamp]], today, width, false)
            == message_rows(stamp, message.who, message.text, today, width),
        rows_composed(seq![], seq![], today, width, true) == seq![RowView::ArchiveStart],
        rows_composed(seq![], seq![], today, width, false) == Seq::<RowView>::empty(),
{
    let sessions = seq![seq![message]];
    let stamps = seq![seq![stamp]];
    let rows = message_rows(stamp, message.who, message.text, today, width);
    assert forall|complete: bool| #[trigger]
        rows_composed(sessions, stamps, today, width, complete) == sessions_composed(
            sessions,
            stamps,
            0,
            today,
            width,
            complete,
        ).rows + rows by {
        let start = sessions_composed(sessions, stamps, 0, today, width, complete);
        assert(messages_composed(start, sessions[0], stamps[0], 0, today, width) == start);
        assert(messages_composed(start, sessions[0], stamps[0], 1, today, width).rows
            == start.rows + rows);
        assert(sessions_composed(sessions, stamps, 1, today, width, complete)
            == messages_composed(start, sessions[0], stamps[0], 1, today, width));
    }
    assert(rows_composed(sessions, stamps, today, width, false) =~= rows);
}

proof fn input_gutter_is_painted(
    x: int,
    y: int,
    skip: int,
    n: int,
    frame: FrameView,
    index: int,
) -> (i: int)
    requires
        skip <= index < skip + n,
    ensures
        0 <= i,
        i + 1 < input_painted(x, y, skip, n, frame).len(),
        input_stands(input_painted(x, y, skip, n, frame), i, x, y + index - skip, index, frame),
    decreases n,
{
    let all = input_painted(x, y, skip, n, frame);
    let before = input_painted(x, y, skip, n - 1, frame);
    if index == skip + n - 1 {
        let i: int = before.len() as int;
        assert(all[i].x == x);
        assert(all[i + 1].x == x + frame.layout.gutter);
        i
    } else {
        let i: int = input_gutter_is_painted(x, y, skip, n - 1, frame, index);
        assert(all[i] == before[i]);
        assert(all[i + 1] == before[i + 1]);
        i
    }
}

/// Whether a line of the text under edit, and what stands before it, are among the
/// texts on a screen from `i` on, at a place: before the first line the time and the
/// name of who speaks, before any other blanks; all in the colour of the speaker.
pub open spec fn input_stands(
    strokes: Seq<StrokeView>,
    i: int,
    x: int,
    y: int,
    index: int,
    frame: FrameView,
) -> bool {
    let line = crate::text::wrapped(frame.editor.text, frame.layout.text_width as int)[index];
    &&& 0 <= i
    &&& i + 1 < strokes.len()
    &&& strokes[i].x == x && strokes[i].y == y
    &&& strokes[i + 1].x == x + frame.layout.gutter && strokes[i + 1].y == y
    &&& strokes[i + 1].text == crate::text::unended(
        crate::slices::piece(frame.editor.text, line.0, line.1),
    )
    &&& strokes[i].tint == strokes[i + 1].tint
    &&& strokes[i].tint == Tint::Yellow <==> frame.who == Who::Kipp
    &&& index == 0 ==> strokes[i].text == gutter_line(
        None,
        Some(frame.clock),
        Some(
            match frame.who {
                Who::User => frame.user,
                Who::Kipp => seq!['k', 'i', 'p', 'p'],
            },
        ),
        frame.layout,
    )
    &&& index > 0 ==> strokes[i].text == gutter_line(None, None, None, frame.layout)
}

/// The text under edit is put on the last lines of the screen, line by line: from its
/// first line on, or if it has more lines than there is room for so that the line of
/// the cursor is the last that is shown.
pub proof fn text_is_put_below_the_rows(frame: FrameView, area: Area, first: int, index: int)
    requires
        area.height >= 1,
        crate::text::wrapped(frame.editor.text, frame.layout.text_width as int).len() >= 1,
        0 <= first <= index < crate::text::wrapped(
            frame.editor.text,
            frame.layout.text_width as int,
        ).len(),
        index < first + lines_for_text(
            crate::text::wrapped(frame.editor.text, frame.layout.text_width as int).len() as int,
            area.height as int,
        ),
        first == 0 || first + lines_for_text(
            crate::text::wrapped(frame.editor.text, frame.layout.text_width as int).len() as int,
            area.height as int,
        ) - 1 == frame.editor.line(frame.layout.text_width as int),
        frame.editor.line(frame.layout.text_width as int) < first + lines_for_text(
            crate::text::wrapped(frame.editor.text, frame.layout.text_width as int).len() as int,
            area.height as int,
        ),
    ensures
        exists|i: int|
            #[trigger] input_stands(
                frame.strokes(area),
                i,
                area.x as int,
                area.y + area.height - lines_for_text(
                    crate::text::wrapped(
                        frame.editor.text,
                        frame.layout.text_width as int,
                    ).len() as int,
                    area.height as int,
                ) + (index - first),
                index,
                frame,
            ),
{
    let count = crate::text::wrapped(
        frame.editor.text,
        frame.layout.text_width as int,
    ).len() as int;
    let input = lines_for_text(count, area.height as int);
    assert(frame.input_height(area) == input);
    let history = frame.history_height(area);
    assert(history == area.height - input);
    let skip = frame.input_skip(area);
    assert(skip == first);
    let shown = frame.input_shown(area);
    let x = area.x as int;
    let n = frame.window_end() - frame.window_start(area);
    let rows = rows_painted(x, area.y + history - n, frame.window_start(area), n, frame);
    let painted = input_painted(x, area.y + history, skip, shown, frame);
    let k: int = input_gutter_is_painted(x, area.y + history, skip, shown, frame, index);
    let strokes = frame.strokes(area);
    let i: int = rows.len() + k;
    assert(strokes[i] == painted[k]);
    assert(strokes[i + 1] == painted[k + 1]);
    let y = area.y + area.height - input + (index - first);
    assert(y == area.y + history + index - skip);
    assert(input_stands(strokes, i, x, y, index, frame));
}

/// What the clock showed at each message is what it shows in the time zone at the
/// message's time, or at the beginning of 1970 if that is not within the calendar.
pub proof fn messages_are_shown_at_their_time(
    zone: TimeZone,
    sessions: Seq<Seq<crate::blackbox::MessageView>>,
    i: int,
    k: int,
)
    requires
        0 <= i < sessions.len(),
        0 <= k < sessions[i].len(),
    ensures
        stamps_shown(zone, sessions).len() == sessions.len(),
        stamps_shown(zone, sessions)[i].len() == sessions[i].len(),
        crate::clock::local_time(zone, sessions[i][k].ts) matches Some(stamp) ==> stamps_shown(
            zone,
            sessions,
        )[i][k] == stamp,
        crate::clock::local_time(zone, sessions[i][k].ts) is None ==> (crate::clock::local_time(
            zone,
            0,
        ) matches Some(epoch) ==> stamps_shown(zone, sessions)[i][k] == epoch),
{
}

} // verus!
