use kipp::agent::{put_string, AgentError};
use kipp::blackbox::{Blackbox, DataKey, Message, Record, SessionSlice, Who};
use kipp::chat::{Carry, Chat, Outcome, Signal, Turn};
use kipp::clock::{Date, Stamp};
use kipp::config::Config;
use kipp::editor::Editor;
use kipp::input::Event;
use kipp::server::{
    apply, enter_ui, failure_text, leave_ui, notice, refusal_text, show_cursor, unlock, Action,
    Connection, Ctx, Ending, Refusal, UnlockError,
};
use kipp::view::{Layout, Picture, Row};
use sha2::{Digest, Sha256};

const DAY: i64 = 86_400_000;
const TODAY: Date = Date { year: 1970, month: 1, day: 3 };
const TOMORROW: Date = Date { year: 1970, month: 1, day: 4 };

fn noon() -> Stamp {
    Stamp { date: TODAY, hour: 12, minute: 0, second: 0 }
}

fn digest(blob: &[u8]) -> [u8; 32] {
    Sha256::digest(blob).into()
}

fn ctx() -> Ctx {
    Ctx::new(Config::default(), vec![digest(b"first"), digest(b"second")])
}

#[test]
fn listed_keys_are_permitted() {
    assert!(ctx().permits(&digest(b"first")));
    assert!(ctx().permits(&digest(b"second")));
    assert!(!ctx().permits(&digest(b"third")));
    assert!(!Ctx::new(Config::default(), Vec::new()).permits(&[0u8; 32]));
}

#[test]
fn a_client_gets_a_shell_with_its_agent() {
    let mut client = Connection::new();
    assert!(!client.auth_publickey(&ctx(), "mallory", b"third".to_vec()));
    assert!(client.auth_publickey(&ctx(), "alice", b"second".to_vec()));
    assert!(!client.auth_publickey(&ctx(), "mallory", b"third".to_vec()));
    client.channel_open_session(5);
    assert!(!client.data(5));
    assert!(matches!(client.shell_request(), Err(Refusal::NoAgent)));
    assert!(!client.data(5));
    assert!(client.agent_request());
    assert_eq!(client.window_change_request(100, 50), None);
    match client.shell_request() {
        Ok(launch) => {
            assert_eq!(launch.username, "alice");
            assert_eq!(launch.key_blob, b"second");
            assert_eq!(launch.size, (100, 50));
        }
        Err(refusal) => panic!("{refusal:?}"),
    }
    assert!(client.data(5));
    assert!(!client.data(6));
    assert_eq!(client.window_change_request(0, 70000), Some((1, 4464)));
}

#[test]
fn a_screen_has_a_size_before_it_is_told() {
    let mut client = Connection::new();
    client.agent_request();
    match client.shell_request() {
        Ok(launch) => assert_eq!(launch.size, (80, 24)),
        Err(refusal) => panic!("{refusal:?}"),
    }
    client.pty_request(132, 0);
    match client.shell_request() {
        Ok(launch) => assert_eq!(launch.size, (132, 1)),
        Err(refusal) => panic!("{refusal:?}"),
    }
    client.pty_request(65536, 65537);
    match client.shell_request() {
        Ok(launch) => assert_eq!(launch.size, (0, 1)),
        Err(refusal) => panic!("{refusal:?}"),
    }
}

#[test]
fn clients_are_told_why() {
    assert_eq!(
        refusal_text(Refusal::NoAgent),
        "kipp: agent forwarding required, use ssh -A\r\n"
    );
    assert_eq!(refusal_text(Refusal::Unreachable), "kipp: cannot reach ssh-agent\r\n");
    assert_eq!(failure_text("no luck"), "\r\nkipp: no luck\r\n");
    assert_eq!(notice(Ending::Evicted), "\r[session is terminating]\r\n");
    assert_eq!(notice(Ending::Left), "\r[session is terminating]\r\n");
    assert_eq!(notice(Ending::TimedOut), "\r[session timed out]\r\n");
}

#[test]
fn the_terminal_is_prepared_and_given_back() {
    assert_eq!(
        enter_ui(),
        "\x1b[?1049h\x1b[?25l\x1b[?2004h\x1b[?1000h\x1b[?1006h\x1b[>1u"
    );
    assert_eq!(
        leave_ui(),
        "\x1b[<u\x1b[?1006l\x1b[?1000l\x1b[?2004l\x1b[?25h\x1b[?1049l"
    );
    assert_eq!(show_cursor(), "\x1b[?25h");
}

fn key_blob(algorithm: &[u8]) -> Vec<u8> {
    let mut blob = Vec::new();
    put_string(&mut blob, algorithm);
    put_string(&mut blob, &[1u8; 32]);
    blob
}

#[test]
fn an_archive_is_unlocked_by_its_owner() {
    let owner = key_blob(b"ssh-ed25519");
    let mut store = match Blackbox::open_with(b"", digest(&owner), [2u8; 32]) {
        Ok(opened) => opened.store,
        Err(error) => panic!("{error:?}"),
    };
    assert_eq!(unlock(&store, b"other").err(), Some(UnlockError::ForeignArchive));
    let listing = |key: &[u8]| {
        let mut answer = vec![12, 0, 0, 0, 1];
        put_string(&mut answer, key);
        put_string(&mut answer, b"");
        answer
    };
    let mut signed = vec![14];
    put_string(&mut signed, &key_blob(b"ssh-ed25519"));
    let questions = |store: &Blackbox| {
        let mut exchange = match unlock(store, &owner) {
            Ok(exchange) => exchange,
            Err(error) => panic!("{error:?}"),
        };
        let mut count = 0;
        let mut answer = listing(&owner);
        loop {
            count += 1;
            match exchange.reply(&answer) {
                kipp::agent::Step::Ask(next) => exchange = next,
                kipp::agent::Step::Key(_) => return count,
                kipp::agent::Step::Fail(error) => panic!("{error:?}"),
            }
            answer = signed.clone();
        }
    };
    assert_eq!(questions(&store), 3);
    match store.append(&DataKey::new([1u8; 32]), b"x") {
        Ok(staged) => assert_eq!(store.commit(staged), 0),
        Err(error) => panic!("{error:?}"),
    }
    assert_eq!(questions(&store), 2);
}

#[test]
fn an_owner_of_the_wrong_algorithm_unlocks_nothing() {
    let owner = key_blob(b"ssh-rsa");
    match Blackbox::open_with(b"", digest(&owner), [2u8; 32]) {
        Ok(opened) => assert_eq!(
            unlock(&opened.store, &owner).err(),
            Some(UnlockError::Agent(AgentError::Unsupported("ssh-rsa".to_owned())))
        ),
        Err(error) => panic!("{error:?}"),
    }
}

struct Desk {
    editor: Editor,
    who: Who,
    scroll: usize,
    rows: Vec<Row>,
}

impl Desk {
    fn new(text: &str, cursor: usize, scroll: usize) -> Desk {
        let mut editor = Editor::default();
        editor.restore(text.to_owned(), cursor);
        Desk { editor, who: Who::User, scroll, rows: vec![Row::SessionBreak; 30] }
    }

    fn apply(&mut self, event: Event) -> Action {
        let layout = Layout { who_width: 5, text_width: 20, gutter: 17, wide: false };
        apply(
            event,
            &mut self.editor,
            &mut self.who,
            &mut self.scroll,
            &self.rows,
            layout,
            11,
        )
    }
}

#[test]
fn events_write_and_move() {
    let mut desk = Desk::new("ab", 1, 9);
    assert_eq!(desk.apply(Event::Text("x".to_owned())), Action::Redraw);
    assert_eq!((desk.editor.text(), desk.editor.cursor(), desk.scroll), ("axb", 2, 0));
    desk.scroll = 9;
    assert_eq!(desk.apply(Event::NewLine), Action::Redraw);
    assert_eq!((desk.editor.text(), desk.editor.cursor(), desk.scroll), ("ax\nb", 3, 0));
    assert_eq!(desk.apply(Event::Backspace), Action::Redraw);
    assert_eq!(desk.editor.text(), "axb");
    assert_eq!(desk.apply(Event::Delete), Action::Redraw);
    assert_eq!(desk.editor.text(), "ax");
    assert_eq!(desk.apply(Event::Left), Action::Redraw);
    assert_eq!(desk.editor.cursor(), 1);
    assert_eq!(desk.apply(Event::Home), Action::Redraw);
    assert_eq!(desk.editor.cursor(), 0);
    assert_eq!(desk.apply(Event::Right), Action::Redraw);
    assert_eq!(desk.editor.cursor(), 1);
    assert_eq!(desk.apply(Event::End), Action::Redraw);
    assert_eq!(desk.editor.cursor(), 2);
}

#[test]
fn events_scroll_within_bounds() {
    let mut desk = Desk::new("", 0, 0);
    assert_eq!(desk.apply(Event::ScrollUp), Action::Redraw);
    assert_eq!(desk.scroll, 3);
    assert_eq!(desk.apply(Event::PageUp), Action::Redraw);
    assert_eq!(desk.scroll, 8);
    for _ in 0..9 {
        desk.apply(Event::PageUp);
    }
    assert_eq!(desk.scroll, 20);
    assert_eq!(desk.apply(Event::Up), Action::Redraw);
    assert_eq!(desk.scroll, 20);
    assert_eq!(desk.apply(Event::ScrollDown), Action::Redraw);
    assert_eq!(desk.scroll, 17);
    assert_eq!(desk.apply(Event::PageDown), Action::Redraw);
    assert_eq!(desk.scroll, 12);
    assert_eq!(desk.apply(Event::Down), Action::Redraw);
    assert_eq!(desk.scroll, 11);
    for _ in 0..9 {
        desk.apply(Event::PageDown);
    }
    assert_eq!(desk.scroll, 0);
    assert_eq!(desk.apply(Event::Down), Action::Ignore);
    desk.scroll = usize::MAX;
    assert_eq!(desk.apply(Event::ScrollUp), Action::Redraw);
    assert_eq!(desk.scroll, 20);
}

#[test]
fn up_and_down_move_in_the_text_first() {
    let mut desk = Desk::new("a\nb", 3, 0);
    assert_eq!(desk.apply(Event::Up), Action::Redraw);
    assert_eq!((desk.editor.cursor(), desk.scroll), (1, 0));
    assert_eq!(desk.apply(Event::Up), Action::Redraw);
    assert_eq!((desk.editor.cursor(), desk.scroll), (1, 1));
    assert_eq!(desk.apply(Event::Down), Action::Redraw);
    assert_eq!((desk.editor.cursor(), desk.scroll), (1, 0));
    assert_eq!(desk.apply(Event::Down), Action::Redraw);
    assert_eq!((desk.editor.cursor(), desk.scroll), (3, 0));
}

#[test]
fn events_change_the_speaker_send_and_leave() {
    let mut desk = Desk::new("a", 1, 0);
    assert_eq!(desk.apply(Event::Tab), Action::Redraw);
    assert_eq!(desk.who, Who::Kipp);
    assert_eq!(desk.apply(Event::Enter), Action::Send);
    assert_eq!(desk.apply(Event::Escape), Action::Quit);
    assert_eq!(desk.apply(Event::Eof), Action::Ignore);
    assert_eq!(desk.editor.text(), "a");
    assert_eq!(desk.apply(Event::Interrupt), Action::Redraw);
    assert_eq!(desk.editor.text(), "");
    assert_eq!(desk.apply(Event::Interrupt), Action::Quit);
    assert_eq!(desk.apply(Event::Eof), Action::Quit);
}

fn start(sessions: Vec<SessionSlice>, carry: Carry) -> Chat {
    let zone = Config::default().timezone();
    match Chat::start("alice".to_owned(), 72, (40, 9), zone, TODAY, sessions, carry) {
        Some(chat) => chat,
        None => panic!("no room"),
    }
}

fn painted(chat: &mut Chat) -> Picture {
    match chat.paint(&noon()) {
        Some(picture) => picture,
        None => panic!("not painted"),
    }
}

fn texts(chat: &mut Chat) -> Vec<String> {
    painted(chat).strokes.iter().map(|s| s.text.clone()).collect()
}

fn type_in(chat: &mut Chat, bytes: &[u8]) -> Vec<Outcome> {
    let events = chat.feed(bytes);
    events.into_iter().map(|event| chat.handle(event)).collect()
}

#[test]
fn a_session_starts_with_an_empty_page() {
    let mut chat = start(Vec::new(), Carry::default());
    assert!(chat.is_dirty());
    assert_eq!(texts(&mut chat), vec!["", "12:00:00 alice | ", ""]);
    assert!(!chat.is_dirty());
    let carry = chat.carry();
    assert_eq!((carry.text.as_str(), carry.cursor, carry.who, carry.scroll), ("", 0, Some(Who::User), 0));
}

#[test]
fn what_is_typed_is_shown_and_sent() {
    let mut chat = start(Vec::new(), Carry::default());
    painted(&mut chat);
    assert!(matches!(type_in(&mut chat, b"hi  ")[..], [Outcome::Continue]));
    assert!(chat.is_dirty());
    assert_eq!(painted(&mut chat).cursor, (21, 8));
    let text = match type_in(&mut chat, b"\r").pop() {
        Some(Outcome::Send(text)) => text,
        _ => panic!("nothing to send"),
    };
    assert_eq!(text, "hi");
    let records = chat.records(2 * DAY + 1000, &text);
    assert!(matches!(records[0], Record::SessionStart { started } if started == 2 * DAY + 1000));
    assert!(matches!(
        &records[1],
        Record::Message { ts, who: Who::User, text } if *ts == 2 * DAY + 1000 && text == "hi"
    ));
    assert_eq!(records.len(), 2);
    chat.sent(2 * DAY + 1000, text);
    assert!(chat.is_dirty());
    assert_eq!(
        texts(&mut chat),
        vec!["", "00:00:01 alice | ", "hi", "12:00:00 kipp  | ", ""]
    );
    let next = chat.records(2 * DAY + 2000, "yes");
    assert_eq!(next.len(), 1);
    assert!(matches!(&next[0], Record::Message { who: Who::Kipp, .. }));
    chat.sent(2 * DAY + 2000, "yes".to_owned());
    assert_eq!(chat.carry().who, Some(Who::User));
}

#[test]
fn blanks_are_not_sent() {
    let mut chat = start(Vec::new(), Carry::default());
    type_in(&mut chat, b"  \x1b[13;2u");
    painted(&mut chat);
    assert!(matches!(type_in(&mut chat, b"\r")[..], [Outcome::Continue]));
    assert!(!chat.is_dirty());
    assert_eq!(chat.carry().text, "");
}

#[test]
fn a_user_can_leave() {
    let mut chat = start(Vec::new(), Carry::default());
    assert!(matches!(type_in(&mut chat, b"\x03")[..], [Outcome::Quit]));
    assert!(matches!(type_in(&mut chat, b"\x1b[27u")[..], [Outcome::Quit]));
}

#[test]
fn nothing_is_lost_when_a_session_takes_over() {
    let mut first = start(Vec::new(), Carry::default());
    type_in(&mut first, "a漢b\x1b[D\t".as_bytes());
    let carry = first.carry();
    assert_eq!((carry.text.as_str(), carry.cursor, carry.who), ("a漢b", 4, Some(Who::Kipp)));
    let mut second = start(Vec::new(), carry);
    let again = second.carry();
    assert_eq!((again.text.as_str(), again.cursor, again.who), ("a漢b", 4, Some(Who::Kipp)));
    assert_eq!(painted(&mut second).cursor, (20, 8));
}

fn yesterday() -> Vec<SessionSlice> {
    vec![SessionSlice {
        messages: vec![Message { ts: DAY, who: Who::User, text: "old".to_owned() }],
    }]
}

#[test]
fn older_messages_have_dates() {
    let mut chat = start(yesterday(), Carry::default());
    assert_eq!(
        texts(&mut chat),
        vec![
            "",
            "1970-01-02 00:00:00 alice | ",
            "old",
            "- - - - - - -  1970-01-03  - - - - - - -",
            "           12:00:00 alice | ",
            "",
        ]
    );
}

#[test]
fn the_clock_moves_unless_the_journal_is_scrolled_back() {
    let mut chat = start(yesterday(), Carry::default());
    painted(&mut chat);
    chat.tick(TODAY);
    assert!(chat.is_dirty());
    painted(&mut chat);
    let mut carry = chat.carry();
    carry.scroll = 1;
    let mut back = start(yesterday(), carry);
    painted(&mut back);
    back.tick(TODAY);
    assert!(!back.is_dirty());
    back.tick(TOMORROW);
    assert!(back.is_dirty());
}

#[test]
fn a_new_day_is_shown() {
    let mut chat = start(Vec::new(), Carry::default());
    chat.sent(2 * DAY, "hi".to_owned());
    chat.tick(TOMORROW);
    chat.sent(3 * DAY, "yo".to_owned());
    let shown = texts(&mut chat);
    assert!(shown.iter().any(|text| text.contains("1970-01-04")));
}

#[test]
fn a_screen_can_change_its_size() {
    let mut chat = start(Vec::new(), Carry::default());
    chat.sent(2 * DAY, "hello world".to_owned());
    painted(&mut chat);
    chat.resize(23, 9);
    assert!(chat.is_dirty());
    assert_eq!(
        texts(&mut chat),
        vec![
            "",
            "00:00:00 alice | ",
            "hello ",
            "               | ",
            "world",
            "12:00:00 kipp  | ",
            "",
        ]
    );
}

#[test]
fn a_cursor_in_what_is_left_out_stops_the_session() {
    let carry = Carry { text: format!("\u{200b}{}", "a".repeat(40)), ..Carry::default() };
    let mut chat = start(Vec::new(), carry);
    assert!(chat.paint(&noon()).is_none());
    assert!(chat.is_dirty());
    assert!(matches!(chat.handle(Event::Up), Outcome::Lost));
    assert!(matches!(chat.handle(Event::Right), Outcome::Continue));
    assert!(chat.paint(&noon()).is_some());
}

#[test]
fn a_name_that_leaves_no_room_starts_nothing() {
    let zone = Config::default().timezone();
    let named = |len: usize| {
        Chat::start(
            "x".repeat(len),
            72,
            (40, 9),
            zone.clone(),
            TODAY,
            Vec::new(),
            Carry::default(),
        )
        .is_some()
    };
    assert!(named(65522));
    assert!(!named(65523));
}

#[test]
fn events_wait_for_their_turn() {
    let mut chat = start(Vec::new(), Carry::default());
    assert!(matches!(chat.next(), Turn::Wait { dirty: true }));
    painted(&mut chat);
    assert!(matches!(chat.next(), Turn::Wait { dirty: false }));
    chat.signal(Signal::Typed(b"one\rtwo\r\rthree".to_vec()));
    match chat.next() {
        Turn::Send(text) => chat.sent(2 * DAY, text),
        _ => panic!("nothing to send"),
    }
    match chat.next() {
        Turn::Send(text) => {
            assert_eq!(text, "two");
            chat.sent(2 * DAY + 1000, text);
        }
        _ => panic!("nothing to send"),
    }
    assert!(matches!(chat.next(), Turn::Wait { dirty: true }));
    assert_eq!(chat.carry().text, "three");
    assert_eq!(
        texts(&mut chat),
        vec![
            "",
            "00:00:00 alice | ",
            "one",
            "00:00:01 kipp  | ",
            "two",
            "12:00:00 alice | ",
            "three",
        ]
    );
}

#[test]
fn what_comes_after_leaving_is_not_handled() {
    let mut chat = start(Vec::new(), Carry::default());
    chat.signal(Signal::Typed(b"\x1b[27uabc\r".to_vec()));
    assert!(matches!(chat.next(), Turn::End(Ending::Left)));
    assert!(matches!(chat.next(), Turn::End(Ending::Left)));
    assert_eq!(chat.carry().text, "");
}

#[test]
fn signals_end_a_session() {
    let ending = |signal: Signal| {
        let mut chat = start(Vec::new(), Carry::default());
        chat.signal(signal);
        match chat.next() {
            Turn::End(ending) => ending,
            _ => panic!("not over"),
        }
    };
    assert_eq!(ending(Signal::Evicted), Ending::Evicted);
    assert_eq!(ending(Signal::Orphaned), Ending::Left);
    assert_eq!(ending(Signal::Closed), Ending::Left);
    assert_eq!(ending(Signal::Idle), Ending::TimedOut);
}

#[test]
fn signals_move_the_clock_and_the_screen() {
    let mut chat = start(Vec::new(), Carry::default());
    painted(&mut chat);
    chat.signal(Signal::Passed(TODAY));
    assert!(matches!(chat.next(), Turn::Wait { dirty: true }));
    painted(&mut chat);
    chat.signal(Signal::Resized(60, 12));
    assert!(matches!(chat.next(), Turn::Wait { dirty: true }));
    assert_eq!(painted(&mut chat).cursor, (17, 11));
}

#[test]
fn a_session_that_cannot_go_on_says_so() {
    let carry = Carry { text: format!("\u{200b}{}", "a".repeat(40)), ..Carry::default() };
    let mut chat = start(Vec::new(), carry);
    chat.signal(Signal::Typed(b"\x1b[A".to_vec()));
    assert!(matches!(chat.next(), Turn::Lost));
}
