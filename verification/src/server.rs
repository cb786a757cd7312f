//! Connections, and the session that one of them holds.

use vstd::prelude::*;

use crate::agent::{derive_key, derive_key_checked, fingerprint, AgentError, Exchange};
use crate::blackbox::{Blackbox, Who};
use crate::config::Config;
use crate::crypto::same;
use crate::editor::Editor;
use crate::input::Event;
use crate::view::{Layout, Row};

verus! {

pub const SCROLL_STEP: usize = 3;

pub const DEFAULT_COLUMNS: u16 = 80;

pub const DEFAULT_LINES: u16 = 24;

/// What every connection goes by.
pub struct Ctx {
    pub config: Config,
    pub allowed: Vec<[u8; 32]>,
}

impl Ctx {
    /// The fingerprints of the keys that may connect.
    pub open spec fn listed(self) -> Seq<Seq<u8>> {
        crate::allowlist::digests_view(self.allowed@)
    }

    pub fn new(config: Config, allowed: Vec<[u8; 32]>) -> (ctx: Self)
        ensures
            ctx.config == config,
            ctx.listed() == crate::allowlist::digests_view(allowed@),
    {
        Ctx { config, allowed }
    }

    /// Whether the key with this fingerprint may connect.
    pub fn permits(&self, fingerprint: &[u8; 32]) -> (permitted: bool)
        ensures
            permitted == self.listed().contains(fingerprint@),
    {
        let mut i: usize = 0;
        while i < self.allowed.len()
            invariant
                i <= self.allowed.len(),
                forall|k: int| 0 <= k < i ==> (#[trigger] self.listed()[k]) != fingerprint@,
            decreases self.allowed.len() - i,
        {
            assert(self.listed()[i as int] == self.allowed@[i as int]@);
            if same(self.allowed[i].as_slice(), fingerprint.as_slice()) {
                return true;
            }
            i = i + 1;
        }
        false
    }
}

/// Why a shell is not given.
#[derive(Debug, Clone, Copy, PartialEq, Eq)]
pub enum Refusal {
    /// No agent is forwarded.
    NoAgent,
    /// The agent that is forwarded cannot be reached.
    Unreachable,
}

/// A client, from its connecting on.
pub struct Connection {
    username: String,
    key_blob: Vec<u8>,
    channel: Option<u32>,
    size: (u16, u16),
    agent_requested: bool,
    running: bool,
}

#[verifier::ext_equal]
pub struct ConnectionView {
    pub username: Seq<char>,
    pub key_blob: Seq<u8>,
    pub channel: Option<u32>,
    pub size: (u16, u16),
    pub agent_requested: bool,
    /// Whether the client has got a shell.
    pub running: bool,
}

impl View for Connection {
    type V = ConnectionView;

    closed spec fn view(&self) -> ConnectionView {
        ConnectionView {
            username: self.username@,
            key_blob: self.key_blob@,
            channel: self.channel,
            size: self.size,
            agent_requested: self.agent_requested,
            running: self.running,
        }
    }
}

/// What a session starts with.
pub struct Launch {
    pub key_blob: Vec<u8>,
    pub username: String,
    pub size: (u16, u16),
}

/// A dimension of a screen as a client gives it: one at least, and as many bits of
/// it as are kept.
pub open spec fn extent(asked: u32) -> u16 {
    ((if asked < 1 {
        1
    } else {
        asked
    }) % 65536) as u16
}

fn clamp_extent(asked: u32) -> (kept: u16)
    ensures
        kept == extent(asked),
{
    let most: u32 = if asked < 1 {
        1
    } else {
        asked
    };
    (most % 65536) as u16
}

impl Connection {
    /// A client that has just connected.
    pub fn new() -> (connection: Self)
        ensures
            connection@ == (ConnectionView {
                username: seq![],
                key_blob: seq![],
                channel: None,
                size: (DEFAULT_COLUMNS, DEFAULT_LINES),
                agent_requested: false,
                running: false,
            }),
            connection@.size == (80u16, 24u16),
    {
        Connection {
            username: String::new(),
            key_blob: Vec::new(),
            channel: None,
            size: (DEFAULT_COLUMNS, DEFAULT_LINES),
            agent_requested: false,
            running: false,
        }
    }

    /// The client offers a key. It is let in if the key is on the list.
    pub fn auth_publickey(&mut self, ctx: &Ctx, user: &str, blob: Vec<u8>) -> (accepted: bool)
        ensures
            accepted == ctx.listed().contains(crate::crypto::sha256(blob@)),
            final(self)@ == (if accepted {
                ConnectionView { username: user@, key_blob: blob@, ..old(self)@ }
            } else {
                old(self)@
            }),
    {
        let digest: [u8; 32] = fingerprint(blob.as_slice());
        if !ctx.permits(&digest) {
            return false;
        }
        self.username = user.to_owned();
        self.key_blob = blob;
        true
    }

    /// The client opens a channel for a session.
    pub fn channel_open_session(&mut self, channel: u32)
        ensures
            final(self)@ == (ConnectionView { channel: Some(channel), ..old(self)@ }),
    {
        self.channel = Some(channel);
    }

    /// The client forwards its agent.
    pub fn agent_request(&mut self) -> (granted: bool)
        ensures
            granted,
            final(self)@ == (ConnectionView { agent_requested: true, ..old(self)@ }),
    {
        self.agent_requested = true;
        true
    }

    /// The client says how large its screen is.
    pub fn pty_request(&mut self, columns: u32, rows: u32)
        ensures
            final(self)@ == (ConnectionView {
                size: (extent(columns), extent(rows)),
                ..old(self)@
            }),
    {
        self.size = (clamp_extent(columns), clamp_extent(rows));
    }

    /// The client's screen has changed. A session that is running is to be told.
    pub fn window_change_request(&mut self, columns: u32, rows: u32) -> (told: Option<(u16, u16)>)
        ensures
            final(self)@ == (ConnectionView {
                size: (extent(columns), extent(rows)),
                ..old(self)@
            }),
            told == (if old(self)@.running {
                Some((extent(columns), extent(rows)))
            } else {
                None
            }),
    {
        self.size = (clamp_extent(columns), clamp_extent(rows));
        if self.running {
            Some(self.size)
        } else {
            None
        }
    }

    /// The client asks for a shell. It gets one if it forwards its agent.
    pub fn shell_request(&mut self) -> (launch: Result<Launch, Refusal>)
        ensures
            match launch {
                Ok(start) => {
                    &&& old(self)@.agent_requested
                    &&& start.key_blob@ == old(self)@.key_blob
                    &&& start.username@ == old(self)@.username
                    &&& start.size == old(self)@.size
                    &&& final(self)@ == (ConnectionView { running: true, ..old(self)@ })
                },
                Err(refusal) => {
                    &&& !old(self)@.agent_requested
                    &&& refusal == Refusal::NoAgent
                    &&& final(self)@ == old(self)@
                },
            },
    {
        if !self.agent_requested {
            return Err(Refusal::NoAgent);
        }
        self.running = true;
        Ok(
            Launch {
                key_blob: vstd::slice::slice_to_vec(self.key_blob.as_slice()),
                username: self.username.clone(),
                size: self.size,
            },
        )
    }

    /// Whether data on a channel are for the session.
    pub fn data(&self, channel: u32) -> (passed: bool)
        ensures
            passed == (self@.channel == Some(channel) && self@.running),
    {
        match self.channel {
            Some(own) => own == channel && self.running,
            None => false,
        }
    }
}

/// What a client is told that is refused a shell.
pub fn refusal_text(refusal: Refusal) -> (text: String)
    ensures
        text@ == "kipp: "@ + (match refusal {
            Refusal::NoAgent => "agent forwarding required, use ssh -A"@,
            Refusal::Unreachable => "cannot reach ssh-agent"@,
        }) + "\r\n"@,
{
    let reason: &str = match refusal {
        Refusal::NoAgent => "agent forwarding required, use ssh -A",
        Refusal::Unreachable => "cannot reach ssh-agent",
    };
    let mut text: String = "kipp: ".to_owned();
    text.append(reason);
    text.append("\r\n");
    text
}

/// What a client is told when its session fails.
pub fn failure_text(reason: &str) -> (text: String)
    ensures
        text@ == "\r\nkipp: "@ + reason@ + "\r\n"@,
{
    let mut text: String = "\r\nkipp: ".to_owned();
    text.append(reason);
    text.append("\r\n");
    text
}

/// What prepares a terminal: another screen, no cursor, marks around what is
/// pasted, reports of the mouse, keys told apart.
pub fn enter_ui() -> (text: String)
    ensures
        text@ == "\x1b[?1049h"@ + "\x1b[?25l"@ + "\x1b[?2004h"@ + "\x1b[?1000h"@ + "\x1b[?1006h"@
            + "\x1b[>1u"@,
{
    let mut text: String = "\x1b[?1049h".to_owned();
    text.append("\x1b[?25l");
    text.append("\x1b[?2004h");
    text.append("\x1b[?1000h");
    text.append("\x1b[?1006h");
    text.append("\x1b[>1u");
    text
}

/// What gives a terminal back: the same undone, in the opposite order.
pub fn leave_ui() -> (text: String)
    ensures
        text@ == "\x1b[<u"@ + "\x1b[?1006l"@ + "\x1b[?1000l"@ + "\x1b[?2004l"@ + "\x1b[?25h"@
            + "\x1b[?1049l"@,
{
    let mut text: String = "\x1b[<u".to_owned();
    text.append("\x1b[?1006l");
    text.append("\x1b[?1000l");
    text.append("\x1b[?2004l");
    text.append("\x1b[?25h");
    text.append("\x1b[?1049l");
    text
}

/// What shows the cursor.
pub fn show_cursor() -> (text: &'static str)
    ensures
        text@ == "\x1b[?25h"@,
{
    "\x1b[?25h"
}

/// How a session ended.
#[derive(Debug, Clone, Copy, PartialEq, Eq)]
pub enum Ending {
    /// Another session took over.
    Evicted,
    /// The user left.
    Left,
    /// The user gave no sign for too long.
    TimedOut,
}

/// What a client is told when its session has ended.
pub fn notice(ending: Ending) -> (text: &'static str)
    ensures
        text@ == (match ending {
            Ending::TimedOut => "\r[session timed out]\r\n"@,
            _ => "\r[session is terminating]\r\n"@,
        }),
{
    match ending {
        Ending::TimedOut => "\r[session timed out]\r\n",
        _ => "\r[session is terminating]\r\n",
    }
}

/// Why the archive stays locked.
#[derive(Debug, Clone, PartialEq, Eq)]
pub enum UnlockError {
    /// The archive belongs to another key.
    ForeignArchive,
    /// The key cannot be used.
    Agent(AgentError),
}

/// Starts to derive the key of an archive: for the key that the archive belongs
/// to, and with a check of the agent as long as the archive holds nothing.
pub fn unlock(store: &Blackbox, key_blob: &[u8]) -> (exchange: Result<Exchange, UnlockError>)
    ensures
        match exchange {
            Ok(begun) => {
                &&& store@.header.fingerprint == crate::crypto::sha256(key_blob@)
                &&& crate::agent::supported(key_blob@) is Ok
                &&& begun@ == crate::agent::ExchangeView::begun(
                    key_blob@,
                    store@.header.challenge,
                    store@.frames.len() == 0,
                )
            },
            Err(UnlockError::ForeignArchive) => store@.header.fingerprint
                != crate::crypto::sha256(key_blob@),
            Err(UnlockError::Agent(error)) => {
                &&& store@.header.fingerprint == crate::crypto::sha256(key_blob@)
                &&& crate::agent::supported(key_blob@) == Err::<
                    (),
                    crate::agent::AgentErrorView,
                >(error@)
            },
        },
{
    let digest: [u8; 32] = fingerprint(key_blob);
    if !store.matches_key(&digest) {
        return Err(UnlockError::ForeignArchive);
    }
    let challenge: [u8; 32] = store.header().challenge;
    let begun: Result<Exchange, AgentError> = if store.frame_count() == 0 {
        derive_key_checked(key_blob, &challenge)
    } else {
        derive_key(key_blob, &challenge)
    };
    match begun {
        Ok(exchange) => Ok(exchange),
        Err(error) => Err(UnlockError::Agent(error)),
    }
}

/// What an event asks for beyond what it changes.
#[derive(Debug, Clone, Copy, PartialEq, Eq)]
pub enum Action {
    Ignore,
    Redraw,
    Send,
    Quit,
}

/// What events change: the text under edit, the speaker, and how far the journal
/// is scrolled back.
#[verifier::ext_equal]
pub struct DeskView {
    pub editor: crate::editor::EditorView,
    pub who: Who,
    pub scroll: int,
}

/// How far the journal can be scrolled back.
pub open spec fn scroll_limit(rows: int, height: int) -> int {
    let shown = if height < 1 {
        0
    } else {
        height - 1
    };
    if rows < shown {
        0
    } else {
        rows - shown
    }
}

impl DeskView {
    pub open spec fn with_editor(self, editor: crate::editor::EditorView) -> DeskView {
        DeskView { editor, ..self }
    }

    pub open spec fn scrolled_back(self, limit: int, step: int) -> DeskView {
        let far = self.scroll + if step < 1 {
            1
        } else {
            step
        };
        DeskView {
            scroll: if far < limit {
                far
            } else {
                limit
            },
            ..self
        }
    }

    pub open spec fn scrolled_on(self, step: int) -> DeskView {
        DeskView {
            scroll: if self.scroll < step {
                0
            } else {
                self.scroll - step
            },
            ..self
        }
    }

    /// What an event changes, where `rows` is the number of rows, `width` that of the
    /// columns of the text and `height` that of the lines of the screen.
    pub open spec fn applied(
        self,
        event: crate::input::EventView,
        rows: int,
        width: int,
        height: int,
    ) -> (DeskView, Action) {
        let limit = scroll_limit(rows, height);
        let editor = self.editor;
        match event {
            crate::input::EventView::Text(text) => (
                DeskView { editor: editor.inserted(text), scroll: 0, ..self },
                Action::Redraw,
            ),
            crate::input::EventView::Key(key) => match key {
                Event::Text(_) => (self, Action::Ignore),
                Event::Enter => (self, Action::Send),
                Event::NewLine => (
                    DeskView { editor: editor.inserted(seq!['\n']), scroll: 0, ..self },
                    Action::Redraw,
                ),
                Event::Backspace => (self.with_editor(editor.backspaced()), Action::Redraw),
                Event::Delete => (self.with_editor(editor.deleted()), Action::Redraw),
                Event::Left => (self.with_editor(editor.moved_left()), Action::Redraw),
                Event::Right => (self.with_editor(editor.moved_right()), Action::Redraw),
                Event::Home => (self.with_editor(editor.moved_home(width)), Action::Redraw),
                Event::End => (self.with_editor(editor.moved_end(width)), Action::Redraw),
                Event::Tab => (DeskView { who: self.who.other(), ..self }, Action::Redraw),
                Event::Escape => (self, Action::Quit),
                Event::Up => if editor.next_line(width, true) is Some {
                    (self.with_editor(editor.stepped(width, true)), Action::Redraw)
                } else {
                    (self.scrolled_back(limit, 1), Action::Redraw)
                },
                Event::Down => if self.scroll > 0 {
                    (self.scrolled_on(1), Action::Redraw)
                } else if editor.next_line(width, false) is Some {
                    (self.with_editor(editor.stepped(width, false)), Action::Redraw)
                } else {
                    (self, Action::Ignore)
                },
                Event::ScrollUp => (
                    self.scrolled_back(limit, SCROLL_STEP as int),
                    Action::Redraw,
                ),
                Event::ScrollDown => (self.scrolled_on(SCROLL_STEP as int), Action::Redraw),
                Event::PageUp => (self.scrolled_back(limit, height / 2), Action::Redraw),
                Event::PageDown => (self.scrolled_on(height / 2), Action::Redraw),
                Event::Interrupt => if editor.text.len() == 0 {
                    (self, Action::Quit)
                } else {
                    (
                        self.with_editor(crate::editor::EditorView::empty()),
                        Action::Redraw,
                    )
                },
                Event::Eof => if editor.text.len() == 0 {
                    (self, Action::Quit)
                } else {
                    (self, Action::Ignore)
                },
            },
        }
    }

    /// Whether the column of the cursor is known where an event needs it.
    pub open spec fn takes(self, event: crate::input::EventView, width: int) -> bool {
        event == crate::input::EventView::Key(Event::Up) ==> self.editor.can_step(width, true)
    }
}

/// An event never scrolls farther back than to the first row, unless the journal
/// was scrolled that far before.
pub proof fn scroll_stays_in_bounds(
    desk: DeskView,
    event: crate::input::EventView,
    rows: int,
    width: int,
    height: int,
)
    requires
        desk.scroll >= 0,
        rows >= 0,
        height >= 0,
    ensures
        ({
            let after = desk.applied(event, rows, width, height).0;
            &&& 0 <= after.scroll
            &&& after.scroll <= desk.scroll || after.scroll <= scroll_limit(rows, height)
        }),
{
}

/// Only the tab key changes the speaker, and keys that neither write nor move in
/// the text leave the editor.
pub proof fn scrolling_leaves_the_text(
    desk: DeskView,
    event: crate::input::EventView,
    rows: int,
    width: int,
    height: int,
)
    ensures
        event != crate::input::EventView::Key(Event::Tab) ==> desk.applied(
            event,
            rows,
            width,
            height,
        ).0.who == desk.who,
        event matches crate::input::EventView::Key(key) ==> (key is PageUp || key is PageDown
            || key is ScrollUp || key is ScrollDown || key is Tab || key is Enter || key is Escape
            || key is Eof) ==> desk.applied(event, rows, width, height).0.editor == desk.editor,
{
}

fn scroll_up(scroll: &mut usize, limit: usize, step: usize) -> (action: Action)
    ensures
        action == Action::Redraw,
        ({
            let far = *old(scroll) + if step < 1 {
                1
            } else {
                step as int
            };
            *final(scroll) == if far < limit {
                far
            } else {
                limit as int
            }
        }),
{
    let far: usize = scroll.saturating_add(
        if step < 1 {
            1
        } else {
            step
        },
    );
    *scroll = if far < limit {
        far
    } else {
        limit
    };
    Action::Redraw
}

/// Does what an event asks for.
pub fn apply(
    event: Event,
    editor: &mut Editor,
    who: &mut Who,
    scroll: &mut usize,
    rows: &[Row],
    layout: Layout,
    height: u16,
) -> (action: Action)
    requires
        old(editor)@.valid(),
        crate::text::plain_text(old(editor)@.text) || (DeskView {
            editor: old(editor)@,
            who: *old(who),
            scroll: *old(scroll) as int,
        }).takes(event@, layout.text_width as int),
    ensures
        final(editor)@.valid(),
        (
            DeskView { editor: final(editor)@, who: *final(who), scroll: *final(scroll) as int },
            action,
        ) == (DeskView {
            editor: old(editor)@,
            who: *old(who),
            scroll: *old(scroll) as int,
        }).applied(event@, rows@.len() as int, layout.text_width as int, height as int),
{
    let width: usize = layout.text_width as usize;
    let limit: usize = rows.len().saturating_sub(height.saturating_sub(1) as usize);
    assert(limit == scroll_limit(rows@.len() as int, height as int));
    match event {
        Event::Text(text) => {
            editor.insert(text.as_str());
            *scroll = 0;
            Action::Redraw
        },
        Event::Enter => Action::Send,
        Event::NewLine => {
            proof {
                reveal_strlit("\n");
                assert("\n"@ =~= seq!['\n']);
            }
            editor.insert("\n");
            *scroll = 0;
            Action::Redraw
        },
        Event::Backspace => {
            editor.backspace();
            Action::Redraw
        },
        Event::Delete => {
            editor.delete();
            Action::Redraw
        },
        Event::Left => {
            editor.left();
            Action::Redraw
        },
        Event::Right => {
            editor.right();
            Action::Redraw
        },
        Event::Home => {
            editor.home(width);
            Action::Redraw
        },
        Event::End => {
            editor.end(width);
            Action::Redraw
        },
        Event::Tab => {
            *who = who.toggled();
            Action::Redraw
        },
        Event::Escape => Action::Quit,
        Event::Up => {
            if editor.up(width) {
                Action::Redraw
            } else {
                scroll_up(scroll, limit, 1)
            }
        },
        Event::Down => {
            if *scroll > 0 {
                *scroll = scroll.saturating_sub(1);
                Action::Redraw
            } else if editor.down(width) {
                Action::Redraw
            } else {
                Action::Ignore
            }
        },
        Event::ScrollUp => scroll_up(scroll, limit, SCROLL_STEP),
        Event::ScrollDown => {
            *scroll = scroll.saturating_sub(SCROLL_STEP);
            Action::Redraw
        },
        Event::PageUp => scroll_up(scroll, limit, height as usize / 2),
        Event::PageDown => {
            *scroll = scroll.saturating_sub(height as usize / 2);
            Action::Redraw
        },
        Event::Interrupt => {
            if editor.text().is_empty() {
                Action::Quit
            } else {
                editor.clear();
                Action::Redraw
            }
        },
        Event::Eof => {
            if editor.text().is_empty() {
                Action::Quit
            } else {
                Action::Ignore
            }
        },
    }
}

/// What keys change of how far the journal is scrolled back: the wheel three rows, a
/// page half the screen but one row at least, up and down one row, never farther than
/// to where the first row is shown or behind the last. Nothing else moves the journal
/// but text, which brings it to its end.
pub proof fn keys_scroll_so_far(desk: DeskView, rows: int, width: int, height: int)
    requires
        desk.scroll >= 0,
        rows >= 0,
        height >= 1,
    ensures
        ({
            let limit: int = if rows - (height - 1) > 0 {
                rows - (height - 1)
            } else {
                0
            };
            let half: int = if height / 2 > 1 {
                height / 2
            } else {
                1
            };
            let wheel_up = desk.applied(
                crate::input::EventView::Key(Event::ScrollUp),
                rows,
                width,
                height,
            ).0;
            let wheel_down = desk.applied(
                crate::input::EventView::Key(Event::ScrollDown),
                rows,
                width,
                height,
            ).0;
            let page_up = desk.applied(
                crate::input::EventView::Key(Event::PageUp),
                rows,
                width,
                height,
            ).0;
            let page_down = desk.applied(
                crate::input::EventView::Key(Event::PageDown),
                rows,
                width,
                height,
            ).0;
            &&& desk.scroll + 3 <= limit ==> wheel_up.scroll == desk.scroll + 3
            &&& desk.scroll + 3 > limit ==> wheel_up.scroll == limit
            &&& desk.scroll >= 3 ==> wheel_down.scroll == desk.scroll - 3
            &&& desk.scroll < 3 ==> wheel_down.scroll == 0
            &&& desk.scroll + half <= limit ==> page_up.scroll == desk.scroll + half
            &&& desk.scroll + half > limit ==> page_up.scroll == limit
            &&& desk.scroll >= height / 2 ==> page_down.scroll == desk.scroll - height / 2
            &&& desk.scroll < height / 2 ==> page_down.scroll == 0
            &&& wheel_up == (DeskView { scroll: wheel_up.scroll, ..desk })
            &&& wheel_down == (DeskView { scroll: wheel_down.scroll, ..desk })
            &&& page_up == (DeskView { scroll: page_up.scroll, ..desk })
            &&& page_down == (DeskView { scroll: page_down.scroll, ..desk })
        }),
{
}

/// Turning the wheel on undoes turning it back, where there is room for both.
pub proof fn scrolling_on_undoes_scrolling_back(desk: DeskView, rows: int, width: int, height: int)
    requires
        desk.scroll >= 0,
        height >= 1,
        desk.scroll + 3 <= rows - (height - 1),
    ensures
        ({
            let back = desk.applied(
                crate::input::EventView::Key(Event::ScrollUp),
                rows,
                width,
                height,
            ).0;
            back.applied(
                crate::input::EventView::Key(Event::ScrollDown),
                rows,
                width,
                height,
            ).0 == desk
        }),
{
}

/// What the arrows do: up and down move the cursor while there is a line to move to,
/// and the journal otherwise; while the journal is scrolled back, down brings it on.
pub proof fn arrows_move_cursor_or_journal(desk: DeskView, rows: int, width: int, height: int)
    requires
        desk.scroll >= 0,
        rows >= 0,
        height >= 1,
    ensures
        ({
            let limit: int = if rows - (height - 1) > 0 {
                rows - (height - 1)
            } else {
                0
            };
            let (up, up_action) = desk.applied(
                crate::input::EventView::Key(Event::Up),
                rows,
                width,
                height,
            );
            let (down, down_action) = desk.applied(
                crate::input::EventView::Key(Event::Down),
                rows,
                width,
                height,
            );
            &&& up_action == Action::Redraw
            &&& up.who == desk.who && down.who == desk.who
            &&& desk.editor.next_line(width, true) is Some ==> up == (DeskView {
                editor: desk.editor.stepped(width, true),
                ..desk
            })
            &&& desk.editor.next_line(width, true) is None ==> up.editor == desk.editor
                && up.scroll == if desk.scroll + 1 <= limit {
                desk.scroll + 1
            } else {
                limit
            }
            &&& desk.scroll > 0 ==> down == (DeskView { scroll: desk.scroll - 1, ..desk })
                && down_action == Action::Redraw
            &&& desk.scroll == 0 && desk.editor.next_line(width, false) is Some ==> down == (
            DeskView { editor: desk.editor.stepped(width, false), ..desk }) && down_action
                == Action::Redraw
            &&& desk.scroll == 0 && desk.editor.next_line(width, false) is None ==> down == desk
                && down_action == Action::Ignore
        }),
{
}

/// What keys do to the text under edit and to the session: text and line breaks are
/// put in and bring the journal to its end; Enter sends; Tab is the other speaker's
/// turn; Escape leaves. The key that interrupts drops the text, and without text
/// leaves, as the key that ends the input does; with text that one does nothing.
pub proof fn keys_edit_send_and_leave(
    desk: DeskView,
    text: Seq<char>,
    rows: int,
    width: int,
    height: int,
)
    ensures
        desk.applied(crate::input::EventView::Text(text), rows, width, height) == (
            DeskView { editor: desk.editor.inserted(text), who: desk.who, scroll: 0 },
            Action::Redraw,
        ),
        desk.applied(crate::input::EventView::Key(Event::NewLine), rows, width, height) == (
            DeskView { editor: desk.editor.inserted(seq!['\n']), who: desk.who, scroll: 0 },
            Action::Redraw,
        ),
        desk.applied(crate::input::EventView::Key(Event::Enter), rows, width, height) == (
            desk,
            Action::Send,
        ),
        desk.applied(crate::input::EventView::Key(Event::Escape), rows, width, height) == (
            desk,
            Action::Quit,
        ),
        ({
            let (after, action) = desk.applied(
                crate::input::EventView::Key(Event::Tab),
                rows,
                width,
                height,
            );
            &&& action == Action::Redraw
            &&& after.who != desk.who
            &&& after.editor == desk.editor && after.scroll == desk.scroll
        }),
        desk.editor.text.len() == 0 ==> {
            &&& desk.applied(crate::input::EventView::Key(Event::Interrupt), rows, width, height)
                == (desk, Action::Quit)
            &&& desk.applied(crate::input::EventView::Key(Event::Eof), rows, width, height) == (
                desk,
                Action::Quit,
            )
        },
        desk.editor.text.len() > 0 ==> ({
            let (after, action) = desk.applied(
                crate::input::EventView::Key(Event::Interrupt),
                rows,
                width,
                height,
            );
            &&& action == Action::Redraw
            &&& after.editor.text.len() == 0 && after.editor.cursor == 0
            &&& after.who == desk.who && after.scroll == desk.scroll
            &&& desk.applied(crate::input::EventView::Key(Event::Eof), rows, width, height) == (
                desk,
                Action::Ignore,
            )
        }),
{
}

/// Keys that edit do to the text under edit what they are named for, and nothing else.
pub proof fn keys_edit_the_text(desk: DeskView, rows: int, width: int, height: int)
    ensures
        desk.applied(crate::input::EventView::Key(Event::Backspace), rows, width, height) == (
            DeskView { editor: desk.editor.backspaced(), ..desk },
            Action::Redraw,
        ),
        desk.applied(crate::input::EventView::Key(Event::Delete), rows, width, height) == (
            DeskView { editor: desk.editor.deleted(), ..desk },
            Action::Redraw,
        ),
        desk.applied(crate::input::EventView::Key(Event::Left), rows, width, height) == (
            DeskView { editor: desk.editor.moved_left(), ..desk },
            Action::Redraw,
        ),
        desk.applied(crate::input::EventView::Key(Event::Right), rows, width, height) == (
            DeskView { editor: desk.editor.moved_right(), ..desk },
            Action::Redraw,
        ),
        desk.applied(crate::input::EventView::Key(Event::Home), rows, width, height) == (
            DeskView { editor: desk.editor.moved_home(width), ..desk },
            Action::Redraw,
        ),
        desk.applied(crate::input::EventView::Key(Event::End), rows, width, height) == (
            DeskView { editor: desk.editor.moved_end(width), ..desk },
            Action::Redraw,
        ),
{
}

/// A screen has as many columns and lines as the client says, one at least, if they
/// fit in sixteen bits.
pub proof fn screens_are_as_large_as_asked(asked: u32)
    ensures
        asked == 0 ==> extent(asked) == 1,
        1 <= asked <= 65535 ==> extent(asked) == asked,
        asked > 65535 ==> extent(asked) == asked % 65536,
{
}

} // verus!
