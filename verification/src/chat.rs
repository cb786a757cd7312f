//! A session: the journal on the screen and the text under edit.

use jiff::tz::TimeZone;
use vstd::prelude::*;

use crate::blackbox::{Message, Record, SessionSlice, Who};
use crate::clock::{clock_label, Date, Stamp};
use crate::editor::Editor;
use crate::input::{Event, Parser};
use crate::server::{apply, Action, Ending};
use crate::text::trim_end;
use crate::view::{draw_checked, name_columns, Area, Composer, Frame, Layout, Picture, Row};

verus! {

/// What a session hands on to the one that takes over.
#[derive(Debug, Clone)]
pub struct Carry {
    pub text: String,
    pub cursor: usize,
    pub who: Option<Who>,
    pub scroll: usize,
}

#[verifier::ext_equal]
pub struct CarryView {
    pub text: Seq<char>,
    pub cursor: int,
    pub who: Option<Who>,
    pub scroll: int,
}

impl View for Carry {
    type V = CarryView;

    open spec fn view(&self) -> CarryView {
        CarryView {
            text: self.text@,
            cursor: self.cursor as int,
            who: self.who,
            scroll: self.scroll as int,
        }
    }
}

impl Default for Carry {
    /// Nothing to hand on.
    fn default() -> (carry: Self)
        ensures
            carry@ == (CarryView { text: seq![], cursor: 0, who: None, scroll: 0 }),
    {
        Carry { text: String::new(), cursor: 0, who: None, scroll: 0 }
    }
}

/// What came of an event.
pub enum Outcome {
    /// The session goes on.
    Continue,
    /// The user leaves.
    Quit,
    /// A message is to be written to the archive.
    Send(String),
    /// Nothing was done: the line that the cursor is on starts behind it.
    Lost,
}

#[verifier::ext_equal]
pub enum OutcomeView {
    Continue,
    Quit,
    Send(Seq<char>),
    Lost,
}

impl View for Outcome {
    type V = OutcomeView;

    open spec fn view(&self) -> OutcomeView {
        match self {
            Outcome::Continue => OutcomeView::Continue,
            Outcome::Quit => OutcomeView::Quit,
            Outcome::Send(text) => OutcomeView::Send(text@),
            Outcome::Lost => OutcomeView::Lost,
        }
    }
}

/// A session.
pub struct Chat {
    username: String,
    text_width: u16,
    area: Area,
    wide: bool,
    sessions: Vec<SessionSlice>,
    editor: Editor,
    who: Who,
    scroll: usize,
    parser: Parser,
    layout: Layout,
    today: Date,
    composer: Composer,
    rows: Vec<Row>,
    started: Option<i64>,
    dirty: bool,
    queue: Vec<Event>,
    ended: Option<Ending>,
}

#[verifier::ext_equal]
pub struct ChatView {
    pub username: Seq<char>,
    /// The width of a line that is set.
    pub text_width: u16,
    pub area: Area,
    /// Whether lines have a column for dates.
    pub wide: bool,
    /// The messages of the sessions before, and of this one.
    pub sessions: Seq<Seq<crate::blackbox::MessageView>>,
    pub desk: crate::server::DeskView,
    pub parser: crate::input::ParserView,
    pub layout: Layout,
    pub zone: TimeZone,
    pub today: Date,
    pub rows: Seq<crate::view::RowView>,
    /// When the first message of this session was written.
    pub started: Option<i64>,
    /// Whether the screen shows something else.
    pub dirty: bool,
    /// The events that are still to be handled.
    pub queue: Seq<crate::input::EventView>,
    /// How the session ended, if it did.
    pub ended: Option<Ending>,
}

impl View for Chat {
    type V = ChatView;

    closed spec fn view(&self) -> ChatView {
        ChatView {
            username: self.username@,
            text_width: self.text_width,
            area: self.area,
            wide: self.wide,
            sessions: crate::blackbox::session_views(self.sessions@),
            desk: crate::server::DeskView {
                editor: self.editor@,
                who: self.who,
                scroll: self.scroll as int,
            },
            parser: self.parser@,
            layout: self.layout,
            zone: self.composer.zone(),
            today: self.today,
            rows: crate::view::row_views(self.rows@),
            started: self.started,
            dirty: self.dirty,
            queue: crate::input::event_views(self.queue@),
            ended: self.ended,
        }
    }
}

/// What reaches a session from outside.
pub enum Signal {
    /// Another session takes over.
    Evicted,
    /// No other session can take over any more.
    Orphaned,
    /// The client is gone.
    Closed,
    /// The screen has another size.
    Resized(u16, u16),
    /// The terminal sent bytes.
    Typed(Vec<u8>),
    /// Time has passed, and it is this day.
    Passed(Date),
    /// The user has given no sign for too long.
    Idle,
}

/// What a session wants done.
pub enum Turn {
    /// The screen is to be painted if `dirty`, and then nothing until the next signal.
    Wait { dirty: bool },
    /// A message is to be written to the archive.
    Send(String),
    /// The session is over.
    End(Ending),
    /// The session cannot go on: the line that the cursor is on starts behind it.
    Lost,
}

#[verifier::ext_equal]
pub enum TurnView {
    Wait { dirty: bool },
    Send(Seq<char>),
    End(Ending),
    Lost,
}

impl View for Turn {
    type V = TurnView;

    open spec fn view(&self) -> TurnView {
        match self {
            Turn::Wait { dirty } => TurnView::Wait { dirty: *dirty },
            Turn::Send(text) => TurnView::Send(text@),
            Turn::End(ending) => TurnView::End(*ending),
            Turn::Lost => TurnView::Lost,
        }
    }
}

/// A screen of this size.
pub open spec fn screen(columns: u16, lines: u16) -> Area {
    Area { x: 0, y: 0, width: columns, height: lines }
}

/// Whether some message was written on another day.
pub open spec fn some_dated(
    zone: TimeZone,
    today: Date,
    sessions: Seq<Seq<crate::blackbox::MessageView>>,
) -> bool {
    exists|i: int, k: int|
        #![trigger sessions[i][k]]
        0 <= i < sessions.len() && 0 <= k < sessions[i].len() && crate::view::dated_otherwise(
            zone,
            today,
            sessions[i][k].ts,
        )
}

impl ChatView {
    /// Whether the screen is divided as it should be and the rows are those of the
    /// journal.
    pub open spec fn valid(self) -> bool {
        &&& self.desk.editor.valid()
        &&& self.desk.scroll >= 0
        &&& self.parser.valid()
        &&& self.today.valid()
        &&& self.area == screen(self.area.width, self.area.height)
        &&& crate::view::gutter_width(crate::view::name_width(self.username), self.wide) < u16::MAX
        &&& self.layout == Layout::divided(
            self.username,
            self.text_width,
            self.area.width,
            self.wide,
        )
        &&& self.layout.valid()
        &&& self.sessions.len() > 0
        &&& self.rows == self.composed()
        &&& crate::view::rows_valid(self.rows)
    }

    /// The rows of the journal.
    pub open spec fn composed(self) -> Seq<crate::view::RowView> {
        crate::view::rows_composed(
            self.sessions,
            crate::view::stamps_shown(self.zone, self.sessions),
            self.today,
            self.layout.text_width as int,
            true,
        )
    }

    pub open spec fn recomposed(self) -> ChatView {
        ChatView { rows: self.composed(), ..self }
    }

    /// A session that starts, for a user with a screen of this size, on a journal,
    /// with what the session before handed on.
    pub open spec fn started_with(
        username: Seq<char>,
        text_width: u16,
        size: (u16, u16),
        zone: TimeZone,
        today: Date,
        sessions: Seq<Seq<crate::blackbox::MessageView>>,
        carry: CarryView,
    ) -> ChatView {
        let wide = some_dated(zone, today, sessions);
        let len = crate::slices::byte_len(carry.text);
        (ChatView {
            username,
            text_width,
            area: screen(size.0, size.1),
            wide,
            sessions: sessions.push(seq![]),
            desk: crate::server::DeskView {
                editor: crate::editor::EditorView {
                    text: carry.text,
                    cursor: crate::editor::snapped(
                        carry.text,
                        if carry.cursor <= len {
                            carry.cursor
                        } else {
                            len
                        },
                    ),
                },
                who: match carry.who {
                    Some(who) => who,
                    None => Who::User,
                },
                scroll: carry.scroll,
            },
            parser: crate::input::ParserView::initial(),
            layout: Layout::divided(username, text_width, size.0, wide),
            zone,
            today,
            rows: seq![],
            started: None,
            dirty: true,
            queue: seq![],
            ended: None,
        }).recomposed()
    }

    /// The session on a screen of another size.
    pub open spec fn resized(self, columns: u16, lines: u16) -> ChatView {
        (ChatView {
            area: screen(columns, lines),
            layout: Layout::divided(self.username, self.text_width, columns, self.wide),
            dirty: true,
            ..self
        }).recomposed()
    }

    /// The session on a day. Even where the day is the same the time is another, which
    /// is on the screen unless the journal is scrolled back.
    pub open spec fn ticked(self, current: Date) -> ChatView {
        if current != self.today {
            (ChatView { today: current, dirty: true, ..self }).recomposed()
        } else if self.desk.scroll == 0 {
            ChatView { dirty: true, ..self }
        } else {
            self
        }
    }

    /// What comes of an event.
    pub open spec fn handled(self, event: crate::input::EventView) -> (ChatView, OutcomeView) {
        let (desk, action) = self.desk.applied(
            event,
            self.rows.len() as int,
            self.layout.text_width as int,
            self.area.height as int,
        );
        let text = crate::text::trimmed(desk.editor.text);
        match action {
            Action::Quit => (ChatView { desk, ..self }, OutcomeView::Quit),
            Action::Redraw => (ChatView { desk, dirty: true, ..self }, OutcomeView::Continue),
            Action::Ignore => (ChatView { desk, ..self }, OutcomeView::Continue),
            Action::Send => (
                ChatView {
                    desk: desk.with_editor(crate::editor::EditorView::empty()),
                    ..self
                },
                if text.len() == 0 {
                    OutcomeView::Continue
                } else {
                    OutcomeView::Send(text)
                },
            ),
        }
    }

    /// The session after a signal.
    pub open spec fn signalled(self, signal: Signal) -> ChatView {
        match signal {
            Signal::Evicted => ChatView { ended: Some(Ending::Evicted), ..self },
            Signal::Orphaned => ChatView { ended: Some(Ending::Left), ..self },
            Signal::Closed => ChatView { ended: Some(Ending::Left), ..self },
            Signal::Idle => ChatView { ended: Some(Ending::TimedOut), ..self },
            Signal::Resized(columns, lines) => self.resized(columns, lines),
            Signal::Passed(current) => self.ticked(current),
            Signal::Typed(bytes) => {
                let parsed = crate::input::fed(self.parser, bytes@, seq![]);
                ChatView {
                    parser: parsed.parser,
                    queue: self.queue + parsed.events,
                    ..self
                }
            },
        }
    }

    /// Handles the events that are waiting, one after the other, up to the first that
    /// needs something done outside, or to the last.
    pub open spec fn advanced(self) -> (ChatView, TurnView)
        decreases self.queue.len(),
    {
        if self.ended is Some {
            (self, TurnView::End(self.ended->Some_0))
        } else if self.queue.len() == 0 {
            (self, TurnView::Wait { dirty: self.dirty })
        } else {
            let event = self.queue[0];
            let rest = ChatView { queue: self.queue.drop_first(), ..self };
            let (next, outcome) = rest.handled(event);
            if !rest.handles(event) {
                (rest, TurnView::Lost)
            } else {
                match outcome {
                    OutcomeView::Continue => next.advanced(),
                    OutcomeView::Quit => (
                        ChatView { ended: Some(Ending::Left), ..next },
                        TurnView::End(Ending::Left),
                    ),
                    OutcomeView::Send(text) => (next, TurnView::Send(text)),
                    OutcomeView::Lost => (next, TurnView::Lost),
                }
            }
        }
    }

    /// Whether an event can be handled: the column of the cursor is known where the
    /// event needs it.
    pub open spec fn handles(self, event: crate::input::EventView) -> bool {
        self.desk.takes(event, self.layout.text_width as int)
    }

    /// The records that a message makes: the first of a session is preceded by the
    /// session's start.
    pub open spec fn records(self, ts: i64, text: Seq<char>) -> Seq<crate::blackbox::RecordView> {
        let message = crate::blackbox::RecordView::Message {
            message: crate::blackbox::MessageView { ts, who: self.desk.who, text },
        };
        if self.started is None {
            seq![crate::blackbox::RecordView::SessionStart { started: ts }, message]
        } else {
            seq![message]
        }
    }

    /// The session with a message that has been written: at the end of the journal,
    /// which is shown, and it is the other one's turn.
    pub open spec fn sent(self, ts: i64, text: Seq<char>) -> ChatView {
        let message = crate::blackbox::MessageView { ts, who: self.desk.who, text };
        (ChatView {
            started: if self.started is None {
                Some(ts)
            } else {
                self.started
            },
            sessions: self.sessions.drop_last().push(self.sessions.last().push(message)),
            desk: crate::server::DeskView { scroll: 0, who: self.desk.who.other(), ..self.desk },
            dirty: true,
            ..self
        }).recomposed()
    }

    /// What is handed on.
    pub open spec fn carried(self) -> CarryView {
        CarryView {
            text: self.desk.editor.text,
            cursor: self.desk.editor.cursor,
            who: Some(self.desk.who),
            scroll: self.desk.scroll,
        }
    }

    /// What the screen is to show, with this time of day.
    pub open spec fn frame(self, clock: Seq<char>) -> crate::view::FrameView {
        crate::view::FrameView {
            rows: self.rows,
            scroll: self.desk.scroll,
            layout: self.layout,
            editor: self.desk.editor,
            who: self.desk.who,
            user: self.username,
            clock,
        }
    }
}

/// A session that takes over from another finds the text, the cursor, the speaker
/// and the place in the journal as they were left.
pub proof fn nothing_is_lost_in_handover(
    before: ChatView,
    username: Seq<char>,
    text_width: u16,
    size: (u16, u16),
    zone: TimeZone,
    today: Date,
    sessions: Seq<Seq<crate::blackbox::MessageView>>,
)
    requires
        before.valid(),
    ensures
        ChatView::started_with(
            username,
            text_width,
            size,
            zone,
            today,
            sessions,
            before.carried(),
        ).desk == before.desk,
{
    crate::editor::restoring_keeps(before.desk.editor);
}

/// A session that waits has handled every event, and one that is over stays over.
pub proof fn waiting_means_done(chat: ChatView)
    ensures
        chat.advanced().1 matches TurnView::Wait { dirty } ==> {
            &&& chat.advanced().0.queue.len() == 0
            &&& chat.advanced().0.ended is None
            &&& dirty == chat.advanced().0.dirty
        },
        chat.advanced().1 matches TurnView::End(ending) ==> {
            &&& chat.advanced().0.ended == Some(ending)
            &&& chat.advanced().0.advanced() == chat.advanced()
        },
    decreases chat.queue.len(),
{
    if chat.ended is None && chat.queue.len() > 0 {
        let event = chat.queue[0];
        let rest = ChatView { queue: chat.queue.drop_first(), ..chat };
        let (next, outcome) = rest.handled(event);
        if rest.handles(event) && outcome is Continue {
            waiting_means_done(next);
        }
    }
}

/// Nothing changes the journal but a message that has been written: no signal, and
/// no event.
pub proof fn only_messages_change_the_journal(chat: ChatView, signal: Signal)
    ensures
        chat.signalled(signal).sessions == chat.sessions,
        chat.signalled(signal).started == chat.started,
        chat.advanced().0.sessions == chat.sessions,
        chat.advanced().0.started == chat.started,
        chat.advanced().0.rows == chat.rows,
    decreases chat.queue.len(),
{
    if chat.ended is None && chat.queue.len() > 0 {
        let event = chat.queue[0];
        let rest = ChatView { queue: chat.queue.drop_first(), ..chat };
        let (next, outcome) = rest.handled(event);
        if rest.handles(event) && outcome is Continue {
            only_messages_change_the_journal(next, signal);
        }
    }
}

/// A message that is to be written holds something, and no white space at its end.
pub proof fn messages_are_trimmed(chat: ChatView, event: crate::input::EventView)
    ensures
        chat.handled(event).1 matches OutcomeView::Send(text) ==> {
            &&& text.len() > 0
            &&& !crate::text::white_space(text.last())
            &&& text.is_prefix_of(chat.desk.editor.text)
        },
{
    crate::text::trimmed_keeps(chat.desk.editor.text);
}

/// The records of a message, put behind the records of the journal, give the
/// journal with that message in it.
pub proof fn records_match_the_journal(
    chat: ChatView,
    before: Seq<crate::blackbox::RecordView>,
    ts: i64,
    text: Seq<char>,
)
    requires
        chat.valid(),
        chat.started is None ==> chat.sessions == crate::blackbox::grouped(before).push(seq![]),
        chat.started is Some ==> chat.sessions == crate::blackbox::grouped(before),
    ensures
        chat.sent(ts, text).sessions == crate::blackbox::grouped(
            before + chat.records(ts, text),
        ),
        chat.sent(ts, text).started is Some,
{
    let message = crate::blackbox::MessageView { ts, who: chat.desk.who, text };
    let last = crate::blackbox::RecordView::Message { message };
    let start = crate::blackbox::RecordView::SessionStart { started: ts };
    if chat.started is None {
        let opened = before.push(start);
        assert(before + chat.records(ts, text) =~= opened.push(last));
        assert(opened.drop_last() =~= before);
        assert(opened.push(last).drop_last() =~= opened);
        assert(crate::blackbox::grouped(opened) =~= chat.sessions);
    } else {
        assert(before + chat.records(ts, text) =~= before.push(last));
        assert(before.push(last).drop_last() =~= before);
    }
}

/// Whether some message was written on another day.
fn any_dated(composer: &Composer, sessions: &Vec<SessionSlice>) -> (found: bool)
    ensures
        found == some_dated(
            composer.zone(),
            composer.today(),
            crate::blackbox::session_views(sessions@),
        ),
{
    let ghost views = crate::blackbox::session_views(sessions@);
    let mut i: usize = 0;
    while i < sessions.len()
        invariant
            i <= sessions.len(),
            views == crate::blackbox::session_views(sessions@),
            forall|a: int, b: int|
                #![trigger views[a][b]]
                0 <= a < i && 0 <= b < views[a].len() ==> !crate::view::dated_otherwise(
                    composer.zone(),
                    composer.today(),
                    views[a][b].ts,
                ),
        decreases sessions.len() - i,
    {
        let messages: &Vec<Message> = &sessions[i].messages;
        assert(views[i as int] == sessions@[i as int]@);
        let mut k: usize = 0;
        while k < messages.len()
            invariant
                k <= messages.len(),
                i < sessions.len(),
                views == crate::blackbox::session_views(sessions@),
                views[i as int] == sessions@[i as int]@,
                messages@ == sessions@[i as int].messages@,
                forall|b: int|
                    0 <= b < k ==> !crate::view::dated_otherwise(
                        composer.zone(),
                        composer.today(),
                        (#[trigger] views[i as int][b]).ts,
                    ),
            decreases messages.len() - k,
        {
            assert(views[i as int][k as int] == messages@[k as int]@);
            if composer.dated(messages[k].ts) {
                return true;
            }
            k = k + 1;
        }
        i = i + 1;
    }
    false
}

impl Chat {
    /// Whether the session is valid and its rows are made for its day and its layout.
    pub closed spec fn wf(&self) -> bool {
        &&& self@.valid()
        &&& self.composer.layout() == self.layout
        &&& self.composer.today() == self.today
    }

    /// Starts a session, unless the user's name leaves no room for text.
    pub fn start(
        username: String,
        text_width: u16,
        size: (u16, u16),
        zone: TimeZone,
        today: Date,
        sessions: Vec<SessionSlice>,
        carry: Carry,
    ) -> (chat: Option<Chat>)
        requires
            today.valid(),
        ensures
            chat is Some <==> crate::view::gutter_width(
                crate::view::name_width(username@),
                some_dated(zone, today, crate::blackbox::session_views(sessions@)),
            ) < u16::MAX,
            chat matches Some(begun) ==> begun.wf() && begun@.valid() && begun@
                == ChatView::started_with(
                username@,
                text_width,
                size,
                zone,
                today,
                crate::blackbox::session_views(sessions@),
                carry@,
            ),
    {
        let ghost views = crate::blackbox::session_views(sessions@);
        let blank: Layout = Layout { who_width: 0, text_width: 1, gutter: 0, wide: false };
        let mut composer: Composer = Composer::new(zone, today, blank);
        let wide: bool = any_dated(&composer, &sessions);
        let taken: u32 = name_columns(username.as_str()) as u32 + if wide {
            23
        } else {
            12
        };
        if taken >= u16::MAX as u32 {
            return None;
        }
        let layout: Layout = Layout::new(username.as_str(), text_width, size.0, wide);
        composer.renew(today, layout);
        let mut sessions: Vec<SessionSlice> = sessions;
        let fresh: SessionSlice = SessionSlice { messages: Vec::new() };
        assert(fresh@ =~= seq![]);
        sessions.push(fresh);
        assert(crate::blackbox::session_views(sessions@) =~= views.push(seq![]));
        let mut editor: Editor = Editor::default();
        editor.restore(carry.text, carry.cursor);
        let who: Who = match carry.who {
            Some(who) => who,
            None => Who::User,
        };
        let rows: Vec<Row> = composer.rows(sessions.as_slice(), true);
        Some(
            Chat {
                username,
                text_width,
                area: Area { x: 0, y: 0, width: size.0, height: size.1 },
                wide,
                sessions,
                editor,
                who,
                scroll: carry.scroll,
                parser: Parser::default(),
                layout,
                today,
                composer,
                rows,
                started: None,
                dirty: true,
                queue: Vec::new(),
                ended: None,
            },
        )
    }

    /// The screen has another size.
    pub fn resize(&mut self, columns: u16, lines: u16)
        requires
            old(self).wf(),
        ensures
            final(self)@ == old(self)@.resized(columns, lines),
            final(self).wf(),
            final(self)@.valid(),
    {
        self.area = Area { x: 0, y: 0, width: columns, height: lines };
        self.layout = Layout::new(self.username.as_str(), self.text_width, columns, self.wide);
        self.composer.renew(self.today, self.layout);
        self.rows = self.composer.rows(self.sessions.as_slice(), true);
        self.dirty = true;
    }

    /// Reads what the terminal sent.
    pub fn feed(&mut self, bytes: &[u8]) -> (events: Vec<Event>)
        requires
            old(self).wf(),
        ensures
            ({
                let parsed = crate::input::fed(old(self)@.parser, bytes@, seq![]);
                &&& crate::input::event_views(events@) == parsed.events
                &&& final(self)@ == (ChatView { parser: parsed.parser, ..old(self)@ })
            }),
            final(self).wf(),
            final(self)@.valid(),
    {
        self.parser.feed(bytes)
    }

    /// Does what an event asks for, unless it moves the cursor to the line above and the
    /// line that the cursor is on starts behind it.
    pub fn handle(&mut self, event: Event) -> (outcome: Outcome)
        requires
            old(self).wf(),
        ensures
            old(self)@.handles(event@) ==> (final(self)@, outcome@) == old(self)@.handled(event@),
            !old(self)@.handles(event@) ==> final(self)@ == old(self)@ && outcome is Lost,
            crate::text::plain_text(old(self)@.desk.editor.text) ==> old(self)@.handles(event@),
            crate::text::wraps_whole(
                old(self)@.desk.editor.text,
                old(self)@.layout.text_width as int,
            ) ==> old(self)@.handles(event@),
            final(self).wf(),
            final(self)@.valid(),
    {
        let up: bool = match &event {
            Event::Up => true,
            _ => false,
        };
        if up && !self.editor.can_step_up(self.layout.text_width as usize) {
            return Outcome::Lost;
        }
        let mut editor: Editor = Editor::default();
        std::mem::swap(&mut editor, &mut self.editor);
        let mut who: Who = self.who;
        let mut scroll: usize = self.scroll;
        let action: Action = apply(
            event,
            &mut editor,
            &mut who,
            &mut scroll,
            self.rows.as_slice(),
            self.layout,
            self.area.height,
        );
        self.editor = editor;
        self.who = who;
        self.scroll = scroll;
        match action {
            Action::Quit => Outcome::Quit,
            Action::Ignore => Outcome::Continue,
            Action::Redraw => {
                self.dirty = true;
                Outcome::Continue
            },
            Action::Send => {
                let text: String = self.editor.take();
                let trimmed: &str = trim_end(text.as_str());
                if trimmed.is_empty() {
                    Outcome::Continue
                } else {
                    Outcome::Send(trimmed.to_owned())
                }
            },
        }
    }

    /// Takes in a signal.
    pub fn signal(&mut self, signal: Signal)
        requires
            old(self).wf(),
            signal matches Signal::Passed(current) ==> current.valid(),
        ensures
            final(self)@ == old(self)@.signalled(signal),
            final(self).wf(),
            final(self)@.valid(),
    {
        match signal {
            Signal::Evicted => {
                self.ended = Some(Ending::Evicted);
            },
            Signal::Orphaned => {
                self.ended = Some(Ending::Left);
            },
            Signal::Closed => {
                self.ended = Some(Ending::Left);
            },
            Signal::Idle => {
                self.ended = Some(Ending::TimedOut);
            },
            Signal::Resized(columns, lines) => self.resize(columns, lines),
            Signal::Passed(current) => self.tick(current),
            Signal::Typed(bytes) => {
                let ghost before = self@.queue;
                let mut events: Vec<Event> = self.feed(bytes.as_slice());
                let ghost found = crate::input::event_views(events@);
                self.queue.append(&mut events);
                assert(crate::input::event_views(self.queue@) =~= before + found);
            },
        }
    }

    /// Handles the events that are waiting, up to the first that needs something done
    /// outside.
    pub fn next(&mut self) -> (turn: Turn)
        requires
            old(self).wf(),
        ensures
            (final(self)@, turn@) == old(self)@.advanced(),
            final(self).wf(),
            final(self)@.valid(),
    {
        let ghost goal = self@.advanced();
        if let Some(ending) = self.ended {
            return Turn::End(ending);
        }
        while self.queue.len() > 0
            invariant
                self.wf(),
                self@.ended is None,
                self@.queue.len() == self.queue@.len(),
                self@.advanced() == goal,
                goal == old(self)@.advanced(),
            decreases self@.queue.len(),
        {
            let ghost before = self@;
            let event: Event = self.queue.remove(0);
            let ghost view = event@;
            proof {
                assert(self@.queue =~= before.queue.drop_first());
                assert(before.queue[0] == view);
                assert(self@ =~= (ChatView { queue: before.queue.drop_first(), ..before }));
            }
            match self.handle(event) {
                Outcome::Continue => {},
                Outcome::Quit => {
                    self.ended = Some(Ending::Left);
                    return Turn::End(Ending::Left);
                },
                Outcome::Send(text) => {
                    return Turn::Send(text);
                },
                Outcome::Lost => {
                    return Turn::Lost;
                },
            }
        }
        Turn::Wait { dirty: self.dirty }
    }

    /// The records that a message makes.
    pub fn records(&self, ts: i64, text: &str) -> (records: Vec<Record>)
        ensures
            crate::blackbox::record_views(records@) == self@.records(ts, text@),
    {
        let mut records: Vec<Record> = Vec::new();
        if self.started.is_none() {
            records.push(Record::SessionStart { started: ts });
        }
        records.push(Record::Message { ts, who: self.who, text: text.to_owned() });
        assert(crate::blackbox::record_views(records@) =~= self@.records(ts, text@));
        records
    }

    /// Takes in a message that has been written to the archive.
    pub fn sent(&mut self, ts: i64, text: String)
        requires
            old(self).wf(),
        ensures
            final(self)@ == old(self)@.sent(ts, text@),
            final(self).wf(),
            final(self)@.valid(),
    {
        let ghost before = self@.sessions;
        let ghost message = crate::blackbox::MessageView { ts, who: self.who, text: text@ };
        if self.started.is_none() {
            self.started = Some(ts);
        }
        if let Some(current) = self.sessions.pop() {
            let ghost prior = current@;
            let mut current: SessionSlice = current;
            current.messages.push(Message { ts, who: self.who, text });
            assert(current@ =~= prior.push(message));
            self.sessions.push(current);
            assert(crate::blackbox::session_views(self.sessions@) =~= before.drop_last().push(
                before.last().push(message),
            ));
        }
        self.rows = self.composer.rows(self.sessions.as_slice(), true);
        self.scroll = 0;
        self.who = self.who.toggled();
        self.dirty = true;
    }

    /// Time has passed.
    pub fn tick(&mut self, current: Date)
        requires
            old(self).wf(),
            current.valid(),
        ensures
            final(self)@ == old(self)@.ticked(current),
            final(self).wf(),
            final(self)@.valid(),
    {
        if current != self.today {
            self.today = current;
            self.composer.renew(current, self.layout);
            self.rows = self.composer.rows(self.sessions.as_slice(), true);
            self.dirty = true;
        } else if self.scroll == 0 {
            self.dirty = true;
        }
    }

    /// Whether the screen shows something else.
    pub fn is_dirty(&self) -> (dirty: bool)
        ensures
            dirty == self@.dirty,
    {
        self.dirty
    }

    /// What the screen is to show at this moment, unless the line that the cursor is
    /// on starts behind it or the cursor is too far to the right for a screen.
    pub fn paint(&mut self, now: &Stamp) -> (picture: Option<Picture>)
        requires
            old(self).wf(),
            now.valid(),
        ensures
            ({
                let frame = old(self)@.frame(crate::clock::clock_text(*now));
                let area = old(self)@.area;
                &&& picture is Some <==> frame.editor.on_line(frame.layout.text_width as int)
                    && frame.cursor(area).0 <= u16::MAX
                &&& crate::text::plain_text(frame.editor.text) && frame.cursor(area).0 <= u16::MAX
                    ==> picture is Some
                &&& crate::text::wraps_whole(frame.editor.text, frame.layout.text_width as int)
                    && frame.cursor(area).0 <= u16::MAX ==> picture is Some
                &&& picture matches Some(found) ==> {
                    &&& crate::view::stroke_views(found.strokes@) == frame.strokes(area)
                    &&& found.cursor.0 == frame.cursor(area).0
                    &&& found.cursor.1 == frame.cursor(area).1
                    &&& crate::view::cursor_is_placed(
                        frame,
                        area,
                        crate::view::stroke_views(found.strokes@),
                        (found.cursor.0 as int, found.cursor.1 as int),
                    )
                }
            }),
            final(self)@ == (ChatView { dirty: picture is None && old(self)@.dirty, ..old(self)@ }),
            final(self).wf(),
            final(self)@.valid(),
    {
        let picture: Option<Picture> = {
            let frame: Frame = Frame {
                rows: self.rows.as_slice(),
                scroll: self.scroll,
                layout: self.layout,
                editor: &self.editor,
                who: self.who,
                user: self.username.as_str(),
                clock: clock_label(now),
            };
            draw_checked(self.area, &frame)
        };
        if picture.is_some() {
            self.dirty = false;
        }
        picture
    }

    /// What is handed on to the session that takes over.
    pub fn carry(&self) -> (carry: Carry)
        ensures
            carry@ == self@.carried(),
    {
        Carry {
            text: self.editor.text().to_owned(),
            cursor: self.editor.cursor(),
            who: Some(self.who),
            scroll: self.scroll,
        }
    }
}

/// Enter sends what is written, without the white space at its end, and leaves an
/// empty text; what is white space alone is dropped and nothing is sent. Nothing else
/// of the session changes.
pub proof fn enter_sends_the_text(chat: ChatView)
    ensures
        ({
            let text = chat.desk.editor.text;
            let (after, outcome) = chat.handled(crate::input::EventView::Key(Event::Enter));
            &&& after.desk.editor.text.len() == 0 && after.desk.editor.cursor == 0
            &&& after.desk.who == chat.desk.who && after.desk.scroll == chat.desk.scroll
            &&& after == (ChatView { desk: after.desk, ..chat })
            &&& match outcome {
                OutcomeView::Send(message) => {
                    &&& 0 < message.len() <= text.len()
                    &&& message == text.take(message.len() as int)
                    &&& !crate::text::white_space(message.last())
                    &&& forall|i: int|
                        message.len() <= i < text.len() ==> crate::text::white_space(
                            #[trigger] text[i],
                        )
                },
                OutcomeView::Continue => forall|i: int|
                    0 <= i < text.len() ==> crate::text::white_space(#[trigger] text[i]),
                _ => false,
            }
        }),
{
    let text = chat.desk.editor.text;
    let message = crate::text::trimmed(text);
    crate::text::trimmed_keeps(text);
    assert(message =~= text.take(message.len() as int));
    assert forall|i: int| message.len() <= i < text.len() implies crate::text::white_space(
        #[trigger] text[i],
    ) by {
        white_behind(text, i);
    }
}

proof fn white_behind(text: Seq<char>, i: int)
    requires
        crate::text::trimmed(text).len() <= i < text.len(),
    ensures
        crate::text::white_space(text[i]),
    decreases text.len(),
{
    if crate::text::white_space(text.last()) && i < text.len() - 1 {
        white_behind(text.drop_last(), i);
    }
}

/// A message that has been written is the last of the session, with the time, the
/// speaker and the text that it was written with; no other message changes. It is the
/// other one's turn, the end of the journal is shown, and the text under edit stays.
pub proof fn sent_message_is_the_last(chat: ChatView, ts: i64, text: Seq<char>)
    requires
        chat.valid(),
    ensures
        ({
            let after = chat.sent(ts, text);
            let n = chat.sessions.len() as int;
            let session = chat.sessions[n - 1];
            &&& after.sessions.len() == n
            &&& forall|i: int| 0 <= i < n - 1 ==> #[trigger] after.sessions[i] == chat.sessions[i]
            &&& after.sessions[n - 1].len() == session.len() + 1
            &&& forall|k: int|
                0 <= k < session.len() ==> #[trigger] after.sessions[n - 1][k] == session[k]
            &&& after.sessions[n - 1].last() == (crate::blackbox::MessageView {
                ts,
                who: chat.desk.who,
                text,
            })
            &&& after.desk.who != chat.desk.who
            &&& after.desk.scroll == 0
            &&& after.desk.editor == chat.desk.editor
            &&& after.started == if chat.started is Some {
                chat.started
            } else {
                Some(ts)
            }
            &&& after.dirty
            &&& after.area == chat.area && after.layout == chat.layout && after.queue == chat.queue
            &&& after.ended == chat.ended && after.today == chat.today
            &&& crate::view::row_texts(after.rows) == crate::view::sessions_shown(
                after.sessions,
                n,
                after.layout.text_width as int,
            )
        }),
{
    let after = chat.sent(ts, text);
    crate::view::rows_show_every_line(
        after.sessions,
        crate::view::stamps_shown(after.zone, after.sessions),
        after.today,
        after.layout.text_width as int,
        true,
    );
}

/// The first message of a session is written behind the start of the session, at the
/// same moment; every message after it by itself.
pub proof fn first_message_starts_the_session(chat: ChatView, ts: i64, text: Seq<char>)
    ensures
        ({
            let records = chat.records(ts, text);
            &&& records.len() == if chat.started is None {
                2int
            } else {
                1
            }
            &&& chat.started is None ==> records[0]
                == crate::blackbox::RecordView::SessionStart { started: ts }
            &&& records.last() == crate::blackbox::RecordView::Message {
                message: crate::blackbox::MessageView { ts, who: chat.desk.who, text },
            }
        }),
{
}

/// A session starts behind the sessions before it, with nothing said yet, with the
/// user's turn unless the session before left it otherwise, and with a column for
/// dates exactly if some message was written on another day.
pub proof fn session_starts_behind_the_others(
    username: Seq<char>,
    text_width: u16,
    size: (u16, u16),
    zone: TimeZone,
    today: Date,
    sessions: Seq<Seq<crate::blackbox::MessageView>>,
    carry: CarryView,
)
    ensures
        ({
            let chat = ChatView::started_with(
                username,
                text_width,
                size,
                zone,
                today,
                sessions,
                carry,
            );
            &&& chat.sessions.len() == sessions.len() + 1
            &&& forall|i: int|
                0 <= i < sessions.len() ==> #[trigger] chat.sessions[i] == sessions[i]
            &&& chat.sessions.last().len() == 0
            &&& chat.desk.editor.text == carry.text
            &&& chat.desk.scroll == carry.scroll
            &&& carry.who is None ==> chat.desk.who == Who::User
            &&& carry.who matches Some(who) ==> chat.desk.who == who
            &&& chat.started is None && chat.ended is None && chat.queue.len() == 0 && chat.dirty
            &&& chat.area.x == 0 && chat.area.y == 0
            &&& chat.area.width == size.0 && chat.area.height == size.1
            &&& !chat.parser.pasting && chat.parser.state == crate::input::State::Ground
            &&& chat.wide <==> exists|i: int, k: int|
                #![trigger sessions[i][k]]
                0 <= i < sessions.len() && 0 <= k < sessions[i].len() && (
                crate::clock::local_time(zone, sessions[i][k].ts) matches Some(stamp) && stamp.date
                    != today)
            &&& chat.layout.wide == chat.wide
            &&& crate::view::row_texts(chat.rows) == crate::view::sessions_shown(
                chat.sessions,
                chat.sessions.len() as int,
                chat.layout.text_width as int,
            )
        }),
{
    let chat = ChatView::started_with(
        username,
        text_width,
        size,
        zone,
        today,
        sessions,
        carry,
    );
    crate::view::rows_show_every_line(
        chat.sessions,
        crate::view::stamps_shown(zone, chat.sessions),
        today,
        chat.layout.text_width as int,
        true,
    );
}

/// What signals do: a session ends when another takes over, when the client is gone or
/// cannot be reached, and when the user has given no sign for too long. What the
/// terminal sent waits behind what waits already. A screen of another size is taken
/// on, and another day. Nothing touches the text under edit.
pub proof fn signals_do_what_they_say(
    chat: ChatView,
    columns: u16,
    lines: u16,
    bytes: Vec<u8>,
    day: Date,
)
    ensures
        chat.signalled(Signal::Evicted) == (ChatView { ended: Some(Ending::Evicted), ..chat }),
        chat.signalled(Signal::Orphaned) == (ChatView { ended: Some(Ending::Left), ..chat }),
        chat.signalled(Signal::Closed) == (ChatView { ended: Some(Ending::Left), ..chat }),
        chat.signalled(Signal::Idle) == (ChatView { ended: Some(Ending::TimedOut), ..chat }),
        ({
            let after = chat.signalled(Signal::Typed(bytes));
            let read = crate::input::fed(chat.parser, bytes@, seq![]);
            &&& after.queue == chat.queue + read.events
            &&& after.parser == read.parser
            &&& after == (ChatView { queue: after.queue, parser: after.parser, ..chat })
        }),
        ({
            let after = chat.signalled(Signal::Resized(columns, lines));
            &&& after.area.x == 0 && after.area.y == 0
            &&& after.area.width == columns && after.area.height == lines
            &&& after.dirty
            &&& after.layout == Layout::divided(
                chat.username,
                chat.text_width,
                columns,
                chat.wide,
            )
            &&& crate::view::row_texts(after.rows) == crate::view::sessions_shown(
                chat.sessions,
                chat.sessions.len() as int,
                after.layout.text_width as int,
            )
            &&& after.desk == chat.desk && after.sessions == chat.sessions && after.queue
                == chat.queue && after.ended == chat.ended && after.today == chat.today
        }),
        ({
            let after = chat.signalled(Signal::Passed(day));
            &&& after.today == day
            &&& day != chat.today || chat.desk.scroll == 0 ==> after.dirty
            &&& day == chat.today && chat.desk.scroll != 0 ==> after == chat
            &&& after.desk == chat.desk && after.sessions == chat.sessions && after.queue
                == chat.queue && after.ended == chat.ended && after.layout == chat.layout
        }),
{
    let after = chat.signalled(Signal::Resized(columns, lines));
    crate::view::rows_show_every_line(
        after.sessions,
        crate::view::stamps_shown(after.zone, after.sessions),
        after.today,
        after.layout.text_width as int,
        true,
    );
}

/// What waits is handled in order, one event at a time: text that was typed is put in
/// before what comes behind it, a message is handed out before what comes behind it,
/// which stays waiting, and with the user gone nothing more is handled.
pub proof fn waiting_events_are_handled_in_order(chat: ChatView, rest: Seq<crate::input::EventView>)
    requires
        chat.ended is None,
    ensures
        forall|text: Seq<char>|
            chat.queue == #[trigger] (seq![crate::input::EventView::Text(text)] + rest)
                ==> chat.advanced() == (ChatView {
                queue: rest,
                dirty: true,
                desk: crate::server::DeskView {
                    editor: chat.desk.editor.inserted(text),
                    scroll: 0,
                    ..chat.desk
                },
                ..chat
            }).advanced(),
        chat.queue == seq![crate::input::EventView::Key(Event::Escape)] + rest ==> chat.advanced()
            == (
            ChatView { queue: rest, ended: Some(Ending::Left), ..chat },
            TurnView::End(Ending::Left),
        ),
        chat.queue == seq![crate::input::EventView::Key(Event::Enter)] + rest ==> ({
            let (after, turn) = chat.advanced();
            let waiting = ChatView { queue: rest, ..chat };
            match waiting.handled(crate::input::EventView::Key(Event::Enter)).1 {
                OutcomeView::Send(message) => turn == TurnView::Send(message) && after.queue == rest
                    && after.desk.editor.text.len() == 0,
                _ => chat.advanced() == waiting.handled(
                    crate::input::EventView::Key(Event::Enter),
                ).0.advanced(),
            }
        }),
        chat.queue.len() == 0 ==> chat.advanced() == (chat, TurnView::Wait { dirty: chat.dirty }),
{
    if chat.queue.len() > 0 {
        let event = chat.queue[0];
        assert forall|text: Seq<char>|
            chat.queue == #[trigger] (seq![crate::input::EventView::Text(text)]
                + rest) implies chat.advanced() == (ChatView {
            queue: rest,
            dirty: true,
            desk: crate::server::DeskView {
                editor: chat.desk.editor.inserted(text),
                scroll: 0,
                ..chat.desk
            },
            ..chat
        }).advanced() by {
            assert(chat.queue.drop_first() =~= rest);
            assert(event == crate::input::EventView::Text(text));
        }
        if chat.queue == seq![crate::input::EventView::Key(Event::Escape)] + rest {
            assert(chat.queue.drop_first() =~= rest);
        }
        if chat.queue == seq![crate::input::EventView::Key(Event::Enter)] + rest {
            assert(chat.queue.drop_first() =~= rest);
        }
    }
}

/// The screen shows the rows, the text under edit and the speaker as they are, with the
/// name of the user and the time.
pub proof fn screen_shows_the_session(chat: ChatView, clock: Seq<char>)
    ensures
        chat.frame(clock).rows == chat.rows,
        chat.frame(clock).scroll == chat.desk.scroll,
        chat.frame(clock).editor == chat.desk.editor,
        chat.frame(clock).who == chat.desk.who,
        chat.frame(clock).user == chat.username,
        chat.frame(clock).layout == chat.layout,
        chat.frame(clock).clock == clock,
{
}

/// What comes of an event follows from what it asks for: the screen is to be painted
/// again exactly where something changed that it shows, and the session goes on unless
/// the user leaves or a message is to be sent.
pub proof fn events_come_to_what_they_ask_for(chat: ChatView, event: crate::input::EventView)
    ensures
        ({
            let (desk, action) = chat.desk.applied(
                event,
                chat.rows.len() as int,
                chat.layout.text_width as int,
                chat.area.height as int,
            );
            let (after, outcome) = chat.handled(event);
            &&& action == Action::Redraw ==> after == (ChatView { desk, dirty: true, ..chat })
                && outcome == OutcomeView::Continue
            &&& action == Action::Ignore ==> after == (ChatView { desk, ..chat }) && outcome
                == OutcomeView::Continue
            &&& action == Action::Quit ==> after == (ChatView { desk, ..chat }) && outcome
                == OutcomeView::Quit
        }),
{
}

/// The first event that waits is handled, and what waits behind it only if the session
/// goes on.
pub proof fn first_event_comes_first(
    chat: ChatView,
    event: crate::input::EventView,
    rest: Seq<crate::input::EventView>,
)
    requires
        chat.ended is None,
        chat.queue == seq![event] + rest,
    ensures
        ({
            let waiting = ChatView { queue: rest, ..chat };
            let (after, outcome) = waiting.handled(event);
            let able = event == crate::input::EventView::Key(Event::Up)
                ==> waiting.desk.editor.can_step(waiting.layout.text_width as int, true);
            &&& !able ==> chat.advanced() == (waiting, TurnView::Lost)
            &&& able && outcome == OutcomeView::Continue ==> chat.advanced() == after.advanced()
            &&& able && outcome == OutcomeView::Quit ==> chat.advanced() == (
                ChatView { ended: Some(Ending::Left), ..after },
                TurnView::End(Ending::Left),
            )
            &&& able ==> (outcome matches OutcomeView::Send(text) ==> chat.advanced() == (
                after,
                TurnView::Send(text),
            ))
        }),
{
    assert(chat.queue.drop_first() =~= rest);
    assert(chat.queue[0] == event);
}

} // verus!
