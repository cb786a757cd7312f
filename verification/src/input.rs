//! The bytes that a terminal sends, read as keys and text.

use vstd::prelude::*;

use crate::slices::decode;

verus! {

pub const ESC: u8 = 0x1b;

pub const CR: u8 = 0x0d;

pub const LF: u8 = 0x0a;

pub const TAB: u8 = 0x09;

pub const BS: u8 = 0x08;

pub const DEL: u8 = 0x7f;

pub const CTRL_C: u8 = 0x03;

pub const CTRL_D: u8 = 0x04;

pub const MAX_CSI: usize = 32;

pub const KEY_ENTER: u16 = 13;

pub const KEY_ESC: u16 = 27;

pub const KEY_TAB: u16 = 9;

pub const KEY_BS: u16 = 127;

pub const KEY_BS_ALT: u16 = 8;

pub const KEY_C: u16 = 99;

pub const KEY_D: u16 = 100;

pub const MOD_CTRL: u16 = 4;

pub const PASTE_START: u16 = 200;

pub const PASTE_END: u16 = 201;

pub const WHEEL_UP: u16 = 64;

pub const WHEEL_DOWN: u16 = 65;

pub const VT_HOME_A: u16 = 1;

pub const VT_HOME_B: u16 = 7;

pub const VT_END_A: u16 = 4;

pub const VT_END_B: u16 = 8;

pub const VT_DELETE: u16 = 3;

pub const VT_PGUP: u16 = 5;

pub const VT_PGDN: u16 = 6;

/// What a user did.
#[derive(Debug, Clone, PartialEq, Eq)]
pub enum Event {
    Text(String),
    Enter,
    NewLine,
    Backspace,
    Delete,
    Left,
    Right,
    Up,
    Down,
    Home,
    End,
    PageUp,
    PageDown,
    Tab,
    Escape,
    Interrupt,
    Eof,
    ScrollUp,
    ScrollDown,
}

/// An event, with its text as characters.
#[verifier::ext_equal]
pub enum EventView {
    Text(Seq<char>),
    Key(Event),
}

impl View for Event {
    type V = EventView;

    open spec fn view(&self) -> EventView {
        match self {
            Event::Text(text) => EventView::Text(text@),
            _ => EventView::Key(*self),
        }
    }
}

pub open spec fn event_views(events: Seq<Event>) -> Seq<EventView> {
    Seq::new(events.len(), |i: int| events[i]@)
}

/// What the parser is in the middle of.
#[derive(Debug, Clone, Copy, PartialEq, Eq)]
pub enum State {
    Ground,
    Escape,
    Csi,
    Utf8,
}

/// Everything that a parser holds.
#[verifier::ext_equal]
pub struct ParserView {
    pub state: State,
    /// The control sequence so far, without its introducer.
    pub sequence: Seq<u8>,
    /// The bytes so far of a character of more than one byte.
    pub utf8: Seq<u8>,
    /// The bytes that are still to come of it.
    pub pending: int,
    /// Whether a paste is going on.
    pub pasting: bool,
    /// The text pasted so far.
    pub paste: Seq<char>,
}

/// A parser and the events that it has found.
#[verifier::ext_equal]
pub struct Parsed {
    pub parser: ParserView,
    pub events: Seq<EventView>,
}

impl ParserView {
    /// Whether the parts of a parser agree: a control sequence is of bounded
    /// length, a character that is not complete waits for bytes, and where neither
    /// is being read nothing is kept of one.
    pub open spec fn valid(self) -> bool {
        &&& self.sequence.len() <= MAX_CSI
        &&& self.state != State::Csi ==> self.sequence.len() == 0
        &&& self.state == State::Utf8 ==> self.pending > 0
        &&& self.state != State::Utf8 ==> self.utf8.len() == 0 && self.pending == 0
    }

    pub open spec fn initial() -> ParserView {
        ParserView {
            state: State::Ground,
            sequence: seq![],
            utf8: seq![],
            pending: 0,
            pasting: false,
            paste: seq![],
        }
    }
}

/// Text has been read: pasted text is kept for later, typed text joins the text
/// before it.
pub open spec fn emitted(parser: ParserView, text: Seq<char>, events: Seq<EventView>) -> Parsed {
    if parser.pasting {
        Parsed { parser: ParserView { paste: parser.paste + text, ..parser }, events }
    } else if events.len() > 0 && events.last() is Text {
        Parsed {
            parser,
            events: events.drop_last().push(EventView::Text(events.last()->Text_0 + text)),
        }
    } else {
        Parsed { parser, events: events.push(EventView::Text(text)) }
    }
}

/// A key has been read.
pub open spec fn keyed(parser: ParserView, key: Event, events: Seq<EventView>) -> Parsed {
    Parsed { parser, events: events.push(EventView::Key(key)) }
}

/// A key has been read that stands for a character in a paste.
pub open spec fn keyed_or_pasted(
    parser: ParserView,
    key: Event,
    c: char,
    events: Seq<EventView>,
) -> Parsed {
    if parser.pasting {
        Parsed { parser: ParserView { paste: parser.paste.push(c), ..parser }, events }
    } else {
        keyed(parser, key, events)
    }
}

/// The first byte has been read of a character that has `pending` more.
pub open spec fn begun(
    parser: ParserView,
    lead: u8,
    pending: int,
    events: Seq<EventView>,
) -> Parsed {
    Parsed {
        parser: ParserView { utf8: seq![lead], pending, state: State::Utf8, ..parser },
        events,
    }
}

/// A byte that is not in the middle of anything.
pub open spec fn grounded(parser: ParserView, byte: u8, events: Seq<EventView>) -> Parsed {
    if byte == ESC {
        Parsed { parser: ParserView { state: State::Escape, ..parser }, events }
    } else if byte == CR || byte == LF {
        keyed_or_pasted(parser, Event::Enter, '\n', events)
    } else if byte == TAB {
        keyed_or_pasted(parser, Event::Tab, '\t', events)
    } else if (byte == DEL || byte == BS) && !parser.pasting {
        keyed(parser, Event::Backspace, events)
    } else if byte == CTRL_C && !parser.pasting {
        keyed(parser, Event::Interrupt, events)
    } else if byte == CTRL_D && !parser.pasting {
        keyed(parser, Event::Eof, events)
    } else if 0x20 <= byte <= 0x7f {
        emitted(parser, seq![byte as char], events)
    } else if 0xc0 <= byte <= 0xdf {
        begun(parser, byte, 1, events)
    } else if 0xe0 <= byte <= 0xef {
        begun(parser, byte, 2, events)
    } else if 0xf0 <= byte <= 0xf7 {
        begun(parser, byte, 3, events)
    } else {
        Parsed { parser, events }
    }
}

/// The fields of a control sequence, which semicolons part.
pub open spec fn fields(body: Seq<u8>) -> Seq<Seq<u8>>
    decreases body.len(),
{
    if body.len() == 0 {
        seq![seq![]]
    } else {
        let before = fields(body.drop_last());
        if body.last() == 0x3b {
            before.push(seq![])
        } else {
            before.drop_last().push(before.last().push(body.last()))
        }
    }
}

/// The number that the decimal digits among some bytes write.
pub open spec fn decimal(field: Seq<u8>) -> int
    decreases field.len(),
{
    if field.len() == 0 {
        0
    } else if 0x30 <= field.last() <= 0x39 {
        10 * decimal(field.drop_last()) + (field.last() - 0x30)
    } else {
        decimal(field.drop_last())
    }
}

/// The value of a field: its number, but no more than the type can hold.
pub open spec fn parameter(field: Seq<u8>) -> u16 {
    if decimal(field) > u16::MAX {
        u16::MAX
    } else {
        decimal(field) as u16
    }
}

/// The values of the fields of a control sequence.
pub open spec fn parameters(body: Seq<u8>) -> Seq<u16> {
    Seq::new(fields(body).len(), |i: int| parameter(fields(body)[i]))
}

/// Enter is a line break within the text when a modifier is held.
pub open spec fn entered(modifiers: u16) -> Event {
    if modifiers > 1 {
        Event::NewLine
    } else {
        Event::Enter
    }
}

/// Whether the control key is among some modifiers, which are sent as one more
/// than the sum of their bits.
pub open spec fn with_control(modifiers: u16) -> bool {
    modifiers >= 1 && ((modifiers - 1) / 4) % 2 == 1
}

/// The event for a key that is sent by its code.
pub open spec fn key_coded(code: u16, modifiers: u16) -> Option<Event> {
    if code == KEY_ENTER {
        Some(entered(modifiers))
    } else if code == KEY_ESC {
        Some(Event::Escape)
    } else if code == KEY_TAB {
        Some(Event::Tab)
    } else if code == KEY_BS || code == KEY_BS_ALT {
        Some(Event::Backspace)
    } else if code == KEY_C && with_control(modifiers) {
        Some(Event::Interrupt)
    } else if code == KEY_D && with_control(modifiers) {
        Some(Event::Eof)
    } else {
        None
    }
}

/// The event for a key that is sent by a control sequence.
pub open spec fn key_sequenced(last: u8, params: Seq<u16>) -> Option<Event> {
    if last == 0x75 {
        key_coded(
            params[0],
            if params.len() > 1 {
                params[1]
            } else {
                1
            },
        )
    } else if last == 0x7e && params.len() == 3 && params[0] == KEY_ESC && params[2] == KEY_ENTER {
        Some(entered(params[1]))
    } else if last == 0x41 {
        Some(Event::Up)
    } else if last == 0x42 {
        Some(Event::Down)
    } else if last == 0x43 {
        Some(Event::Right)
    } else if last == 0x44 {
        Some(Event::Left)
    } else if last == 0x48 {
        Some(Event::Home)
    } else if last == 0x46 {
        Some(Event::End)
    } else if last == 0x7e {
        if params[0] == VT_HOME_A || params[0] == VT_HOME_B {
            Some(Event::Home)
        } else if params[0] == VT_END_A || params[0] == VT_END_B {
            Some(Event::End)
        } else if params[0] == VT_DELETE {
            Some(Event::Delete)
        } else if params[0] == VT_PGUP {
            Some(Event::PageUp)
        } else if params[0] == VT_PGDN {
            Some(Event::PageDown)
        } else {
            None
        }
    } else {
        None
    }
}

/// The event for a report of the mouse.
pub open spec fn wheel_turned(last: u8, params: Seq<u16>) -> Option<Event> {
    if last != 0x4d {
        None
    } else if params[0] == WHEEL_UP {
        Some(Event::ScrollUp)
    } else if params[0] == WHEEL_DOWN {
        Some(Event::ScrollDown)
    } else {
        None
    }
}

/// A key may have been read; none is while a paste is going on.
pub open spec fn keyed_if(
    parser: ParserView,
    key: Option<Event>,
    events: Seq<EventView>,
) -> Parsed {
    match key {
        Some(event) if !parser.pasting => keyed(parser, event, events),
        _ => Parsed { parser, events },
    }
}

/// A control sequence is complete: `body` and the byte that ends it.
pub open spec fn sequenced(
    parser: ParserView,
    body: Seq<u8>,
    last: u8,
    events: Seq<EventView>,
) -> Parsed {
    let params = parameters(body);
    if body.len() > 0 && body[0] == 0x3c {
        keyed_if(parser, wheel_turned(last, parameters(body.skip(1))), events)
    } else if last == 0x7e && params.len() == 1 && params[0] == PASTE_START {
        Parsed { parser: ParserView { pasting: true, paste: seq![], ..parser }, events }
    } else if last == 0x7e && params.len() == 1 && params[0] == PASTE_END {
        Parsed {
            parser: ParserView { pasting: false, paste: seq![], ..parser },
            events: if parser.paste.len() == 0 {
                events
            } else {
                events.push(EventView::Text(parser.paste))
            },
        }
    } else {
        keyed_if(parser, key_sequenced(last, params), events)
    }
}

/// One byte more.
pub open spec fn stepped(parser: ParserView, byte: u8, events: Seq<EventView>) -> Parsed {
    match parser.state {
        State::Ground => grounded(parser, byte, events),
        State::Escape => Parsed {
            parser: if byte == 0x5b {
                ParserView { sequence: seq![], state: State::Csi, ..parser }
            } else {
                ParserView { state: State::Ground, ..parser }
            },
            events,
        },
        State::Csi => if 0x40 <= byte <= 0x7e {
            sequenced(
                ParserView { sequence: seq![], state: State::Ground, ..parser },
                parser.sequence,
                byte,
                events,
            )
        } else if parser.sequence.len() < MAX_CSI {
            Parsed {
                parser: ParserView { sequence: parser.sequence.push(byte), ..parser },
                events,
            }
        } else {
            Parsed {
                parser: ParserView { sequence: seq![], state: State::Ground, ..parser },
                events,
            }
        },
        State::Utf8 => if !(0x80 <= byte <= 0xbf) {
            grounded(
                ParserView { utf8: seq![], pending: 0, state: State::Ground, ..parser },
                byte,
                events,
            )
        } else if parser.pending > 1 {
            Parsed {
                parser: ParserView {
                    utf8: parser.utf8.push(byte),
                    pending: parser.pending - 1,
                    ..parser
                },
                events,
            }
        } else {
            let bytes = parser.utf8.push(byte);
            let rest = ParserView { utf8: seq![], pending: 0, state: State::Ground, ..parser };
            if vstd::utf8::valid_utf8(bytes) {
                emitted(rest, vstd::utf8::decode_utf8(bytes), events)
            } else {
                Parsed { parser: rest, events }
            }
        },
    }
}

/// Some bytes more.
pub open spec fn fed(parser: ParserView, bytes: Seq<u8>, events: Seq<EventView>) -> Parsed
    decreases bytes.len(),
{
    if bytes.len() == 0 {
        Parsed { parser, events }
    } else {
        let before = fed(parser, bytes.drop_last(), events);
        stepped(before.parser, bytes.last(), before.events)
    }
}

/// A byte that reads as text.
fn letter(byte: u8) -> (text: String)
    requires
        byte <= 0x7f,
    ensures
        text@ == seq![byte as char],
{
    let mut text: String = String::new();
    text.push(byte as char);
    text
}

/// Enter is a line break within the text when a modifier is held.
fn enter_with(modifiers: u16) -> (event: Event)
    ensures
        event == entered(modifiers),
{
    if modifiers > 1 {
        Event::NewLine
    } else {
        Event::Enter
    }
}

/// The event for a key that is sent by its code.
pub fn key_u(code: u16, modifiers: u16) -> (event: Option<Event>)
    ensures
        event == key_coded(code, modifiers),
{
    let bits: u16 = modifiers.saturating_sub(1);
    let ctrl: bool = bits & MOD_CTRL != 0;
    proof {
        assert((bits & 4 != 0) == ((bits / 4) % 2 == 1)) by (bit_vector);
    }
    if code == KEY_ENTER {
        Some(enter_with(modifiers))
    } else if code == KEY_ESC {
        Some(Event::Escape)
    } else if code == KEY_TAB {
        Some(Event::Tab)
    } else if code == KEY_BS || code == KEY_BS_ALT {
        Some(Event::Backspace)
    } else if code == KEY_C && ctrl {
        Some(Event::Interrupt)
    } else if code == KEY_D && ctrl {
        Some(Event::Eof)
    } else {
        None
    }
}

/// There is always a field.
proof fn some_field(body: Seq<u8>)
    ensures
        fields(body).len() > 0,
    decreases body.len(),
{
    if body.len() > 0 {
        some_field(body.drop_last());
    }
}

proof fn decimal_nonnegative(field: Seq<u8>)
    ensures
        decimal(field) >= 0,
    decreases field.len(),
{
    if field.len() > 0 {
        decimal_nonnegative(field.drop_last());
    }
}

/// One more digit, with the bound of the type kept.
fn shifted(value: u16, byte: u8, Ghost(field): Ghost<Seq<u8>>) -> (next: u16)
    requires
        value == parameter(field),
        0x30 <= byte <= 0x39,
    ensures
        next == parameter(field.push(byte)),
{
    proof {
        decimal_nonnegative(field);
        assert(field.push(byte).drop_last() =~= field);
    }
    let wide: u32 = value as u32 * 10 + (byte - 0x30) as u32;
    if wide > u16::MAX as u32 {
        u16::MAX
    } else {
        wide as u16
    }
}

/// The values of the fields of a control sequence.
pub fn parse_params(body: &[u8]) -> (params: Vec<u16>)
    ensures
        params@ == parameters(body@),
        params@.len() > 0,
{
    let mut params: Vec<u16> = Vec::new();
    params.push(0);
    let mut i: usize = 0;
    assert(body@.take(0) =~= seq![]);
    assert(params@ =~= parameters(body@.take(0)));
    while i < body.len()
        invariant
            i <= body.len(),
            params@ == parameters(body@.take(i as int)),
            params@.len() > 0,
        decreases body.len() - i,
    {
        let byte: u8 = body[i];
        let ghost before = body@.take(i as int);
        let ghost after = body@.take(i + 1);
        let ghost field = fields(before).last();
        let ghost prior = params@;
        proof {
            some_field(before);
            assert(after.drop_last() =~= before);
            assert(after.last() == byte);
        }
        if byte == 0x3b {
            params.push(0);
            proof {
                assert(parameter(Seq::<u8>::empty()) == 0);
                assert(params@ =~= parameters(after)) by {
                    assert forall|k: int| 0 <= k < params@.len() implies params@[k] == parameters(
                        after,
                    )[k] by {
                        if k < prior.len() {
                            assert(fields(after)[k] == fields(before)[k]);
                        }
                    }
                }
            }
        } else {
            let at: usize = params.len() - 1;
            if 0x30 <= byte && byte <= 0x39 {
                let next: u16 = shifted(params[at], byte, Ghost(field));
                params.set(at, next);
            }
            proof {
                assert(field.push(byte).drop_last() =~= field);
                assert(fields(after).last() == field.push(byte));
                assert(params@[at as int] == parameter(field.push(byte)));
                assert(params@ =~= parameters(after)) by {
                    assert forall|k: int| 0 <= k < params@.len() implies params@[k] == parameters(
                        after,
                    )[k] by {
                        if k < at {
                            assert(fields(after)[k] == fields(before)[k]);
                        }
                    }
                }
            }
        }
        i = i + 1;
    }
    assert(body@.take(body@.len() as int) =~= body@);
    params
}

/// The event for a key that is sent by a control sequence.
fn key_of_sequence(last: u8, params: &Vec<u16>) -> (event: Option<Event>)
    requires
        params@.len() > 0,
    ensures
        event == key_sequenced(last, params@),
{
    if last == 0x75 {
        let modifiers: u16 = if params.len() > 1 {
            params[1]
        } else {
            1
        };
        key_u(params[0], modifiers)
    } else if last == 0x7e && params.len() == 3 && params[0] == KEY_ESC && params[2] == KEY_ENTER {
        Some(enter_with(params[1]))
    } else if last == 0x41 {
        Some(Event::Up)
    } else if last == 0x42 {
        Some(Event::Down)
    } else if last == 0x43 {
        Some(Event::Right)
    } else if last == 0x44 {
        Some(Event::Left)
    } else if last == 0x48 {
        Some(Event::Home)
    } else if last == 0x46 {
        Some(Event::End)
    } else if last == 0x7e {
        let code: u16 = params[0];
        if code == VT_HOME_A || code == VT_HOME_B {
            Some(Event::Home)
        } else if code == VT_END_A || code == VT_END_B {
            Some(Event::End)
        } else if code == VT_DELETE {
            Some(Event::Delete)
        } else if code == VT_PGUP {
            Some(Event::PageUp)
        } else if code == VT_PGDN {
            Some(Event::PageDown)
        } else {
            None
        }
    } else {
        None
    }
}

/// Reads what a terminal sends, however it is cut into chunks.
#[derive(Debug)]
pub struct Parser {
    state: State,
    sequence: Vec<u8>,
    utf8: Vec<u8>,
    pending: usize,
    pasting: bool,
    paste: String,
}

impl View for Parser {
    type V = ParserView;

    closed spec fn view(&self) -> ParserView {
        ParserView {
            state: self.state,
            sequence: self.sequence@,
            utf8: self.utf8@,
            pending: self.pending as int,
            pasting: self.pasting,
            paste: self.paste@,
        }
    }
}

impl Default for Parser {
    /// A parser at the start of what a terminal sends.
    fn default() -> (parser: Self)
        ensures
            parser@ == ParserView::initial(),
            parser@.valid(),
    {
        Parser {
            state: State::Ground,
            sequence: Vec::new(),
            utf8: Vec::new(),
            pending: 0,
            pasting: false,
            paste: String::new(),
        }
    }
}

impl Parser {
    /// Reads some bytes and says what the user did. What is not complete is kept
    /// for the next call.
    pub fn feed(&mut self, bytes: &[u8]) -> (events: Vec<Event>)
        requires
            old(self)@.valid(),
        ensures
            final(self)@ == fed(old(self)@, bytes@, seq![]).parser,
            event_views(events@) == fed(old(self)@, bytes@, seq![]).events,
            final(self)@.valid(),
    {
        let ghost start = self@;
        let mut events: Vec<Event> = Vec::new();
        let mut i: usize = 0;
        assert(bytes@.take(0) =~= seq![]);
        assert(event_views(events@) =~= seq![]);
        while i < bytes.len()
            invariant
                i <= bytes.len(),
                self@.valid(),
                self@ == fed(start, bytes@.take(i as int), seq![]).parser,
                event_views(events@) == fed(start, bytes@.take(i as int), seq![]).events,
            decreases bytes.len() - i,
        {
            proof {
                assert(bytes@.take(i + 1).drop_last() =~= bytes@.take(i as int));
            }
            self.step(bytes[i], &mut events);
            i = i + 1;
        }
        assert(bytes@.take(bytes@.len() as int) =~= bytes@);
        events
    }

    fn step(&mut self, byte: u8, events: &mut Vec<Event>)
        requires
            old(self)@.valid(),
        ensures
            final(self)@ == stepped(old(self)@, byte, event_views(old(events)@)).parser,
            event_views(final(events)@) == stepped(
                old(self)@,
                byte,
                event_views(old(events)@),
            ).events,
            final(self)@.valid(),
    {
        match self.state {
            State::Ground => self.ground(byte, events),
            State::Escape => {
                if byte == 0x5b {
                    self.sequence.clear();
                    self.state = State::Csi;
                } else {
                    self.state = State::Ground;
                }
            },
            State::Csi => {
                if 0x40 <= byte && byte <= 0x7e {
                    let mut sequence: Vec<u8> = Vec::new();
                    std::mem::swap(&mut sequence, &mut self.sequence);
                    self.state = State::Ground;
                    self.csi(&sequence, byte, events);
                } else if self.sequence.len() < MAX_CSI {
                    self.sequence.push(byte);
                } else {
                    self.sequence.clear();
                    self.state = State::Ground;
                }
            },
            State::Utf8 => {
                if !(0x80 <= byte && byte <= 0xbf) {
                    self.utf8.clear();
                    self.pending = 0;
                    self.state = State::Ground;
                    self.ground(byte, events);
                    return;
                }
                self.utf8.push(byte);
                self.pending = self.pending - 1;
                if self.pending == 0 {
                    let mut bytes: Vec<u8> = Vec::new();
                    std::mem::swap(&mut bytes, &mut self.utf8);
                    self.state = State::Ground;
                    if let Some(text) = decode(bytes.as_slice()) {
                        proof {
                            vstd::utf8::encode_utf8_decode_utf8(text@);
                        }
                        self.emit_text(text, events);
                    }
                }
            },
        }
    }

    fn ground(&mut self, byte: u8, events: &mut Vec<Event>)
        requires
            old(self)@.valid(),
            old(self)@.state == State::Ground,
        ensures
            final(self)@ == grounded(old(self)@, byte, event_views(old(events)@)).parser,
            event_views(final(events)@) == grounded(
                old(self)@,
                byte,
                event_views(old(events)@),
            ).events,
            final(self)@.valid(),
    {
        if byte == ESC {
            self.state = State::Escape;
        } else if byte == CR || byte == LF {
            if self.pasting {
                self.paste.push('\n');
            } else {
                Self::key(Event::Enter, events);
            }
        } else if byte == TAB {
            if self.pasting {
                self.paste.push('\t');
            } else {
                Self::key(Event::Tab, events);
            }
        } else if (byte == DEL || byte == BS) && !self.pasting {
            Self::key(Event::Backspace, events);
        } else if byte == CTRL_C && !self.pasting {
            Self::key(Event::Interrupt, events);
        } else if byte == CTRL_D && !self.pasting {
            Self::key(Event::Eof, events);
        } else if 0x20 <= byte && byte <= 0x7f {
            let text: String = letter(byte);
            self.emit_text(text.as_str(), events);
        } else if 0xc0 <= byte && byte <= 0xdf {
            self.begin_utf8(byte, 1);
        } else if 0xe0 <= byte && byte <= 0xef {
            self.begin_utf8(byte, 2);
        } else if 0xf0 <= byte && byte <= 0xf7 {
            self.begin_utf8(byte, 3);
        }
    }

    fn key(event: Event, events: &mut Vec<Event>)
        requires
            event !is Text,
        ensures
            event_views(final(events)@) == event_views(old(events)@).push(EventView::Key(event)),
    {
        events.push(event);
        assert(event_views(events@) =~= event_views(old(events)@).push(EventView::Key(event)));
    }

    fn begin_utf8(&mut self, lead: u8, pending: usize)
        requires
            pending > 0,
            old(self)@.valid(),
            old(self)@.state == State::Ground,
        ensures
            final(self)@ == begun(old(self)@, lead, pending as int, seq![]).parser,
            final(self)@.valid(),
    {
        self.utf8.clear();
        self.utf8.push(lead);
        self.pending = pending;
        self.state = State::Utf8;
        assert(self.utf8@ =~= seq![lead]);
    }

    fn emit_text(&mut self, text: &str, events: &mut Vec<Event>)
        requires
            old(self)@.valid(),
        ensures
            final(self)@ == emitted(old(self)@, text@, event_views(old(events)@)).parser,
            event_views(final(events)@) == emitted(
                old(self)@,
                text@,
                event_views(old(events)@),
            ).events,
            final(self)@.valid(),
    {
        let ghost before = event_views(events@);
        let ghost wanted = emitted(self@, text@, before).events;
        if self.pasting {
            self.paste.append(text);
        } else {
            match events.pop() {
                Some(Event::Text(buffer)) => {
                    let mut longer: String = buffer;
                    longer.append(text);
                    events.push(Event::Text(longer));
                    assert(event_views(events@) =~= wanted);
                },
                Some(other) => {
                    events.push(other);
                    events.push(Event::Text(text.to_owned()));
                    assert(event_views(events@) =~= wanted);
                },
                None => {
                    events.push(Event::Text(text.to_owned()));
                    assert(event_views(events@) =~= wanted);
                },
            }
        }
    }

    fn csi(&mut self, body: &Vec<u8>, last: u8, events: &mut Vec<Event>)
        requires
            old(self)@.valid(),
            old(self)@.state == State::Ground,
        ensures
            final(self)@ == sequenced(old(self)@, body@, last, event_views(old(events)@)).parser,
            event_views(final(events)@) == sequenced(
                old(self)@,
                body@,
                last,
                event_views(old(events)@),
            ).events,
            final(self)@.valid(),
    {
        if body.len() > 0 && body[0] == 0x3c {
            self.mouse(vstd::slice::slice_subrange(body.as_slice(), 1, body.len()), last, events);
            assert(body@.subrange(1, body@.len() as int) =~= body@.skip(1));
            return;
        }
        let params: Vec<u16> = parse_params(body.as_slice());
        if last == 0x7e && params.len() == 1 && params[0] == PASTE_START {
            self.pasting = true;
            self.paste = String::new();
        } else if last == 0x7e && params.len() == 1 && params[0] == PASTE_END {
            self.pasting = false;
            let mut pasted: String = String::new();
            std::mem::swap(&mut pasted, &mut self.paste);
            if !pasted.as_str().is_empty() {
                events.push(Event::Text(pasted));
                assert(event_views(events@) =~= event_views(old(events)@).push(
                    EventView::Text(old(self)@.paste),
                ));
            }
        } else if !self.pasting {
            if let Some(event) = key_of_sequence(last, &params) {
                Self::key(event, events);
            }
        }
    }

    fn mouse(&mut self, body: &[u8], last: u8, events: &mut Vec<Event>)
        ensures
            final(self)@ == old(self)@,
            event_views(final(events)@) == keyed_if(
                old(self)@,
                wheel_turned(last, parameters(body@)),
                event_views(old(events)@),
            ).events,
    {
        if last != 0x4d || self.pasting {
            return;
        }
        let params: Vec<u16> = parse_params(body);
        if params[0] == WHEEL_UP {
            Self::key(Event::ScrollUp, events);
        } else if params[0] == WHEEL_DOWN {
            Self::key(Event::ScrollDown, events);
        }
    }
}

/// Whether no event is a text of nothing.
pub open spec fn texts_say_something(events: Seq<EventView>) -> bool {
    forall|i: int|
        0 <= i < events.len() ==> (#[trigger] events[i] matches EventView::Text(text) ==> text.len()
            > 0)
}

proof fn emitted_says_something(parser: ParserView, text: Seq<char>, events: Seq<EventView>)
    requires
        texts_say_something(events),
        text.len() > 0,
    ensures
        texts_say_something(emitted(parser, text, events).events),
{
    let after = emitted(parser, text, events).events;
    assert forall|i: int| 0 <= i < after.len() implies (#[trigger] after[i] matches EventView::Text(
        found,
    ) ==> found.len() > 0) by {
        if i < events.len() - 1 {
            assert(after[i] == events[i]);
        } else if i == events.len() - 1 && !(events.last() is Text) {
            assert(after[i] == events[i]);
        }
    }
}

proof fn step_says_something(parser: ParserView, byte: u8, events: Seq<EventView>)
    requires
        texts_say_something(events),
    ensures
        texts_say_something(stepped(parser, byte, events).events),
{
    let lead = ParserView { utf8: seq![], pending: 0, state: State::Ground, ..parser };
    let bytes = parser.utf8.push(byte);
    emitted_says_something(parser, seq![byte as char], events);
    emitted_says_something(lead, seq![byte as char], events);
    if vstd::utf8::valid_utf8(bytes) {
        emitted_says_something(lead, vstd::utf8::decode_utf8(bytes), events);
    }
}

/// An event that is text holds a character at least.
pub proof fn no_text_is_empty(parser: ParserView, bytes: Seq<u8>, events: Seq<EventView>)
    requires
        texts_say_something(events),
    ensures
        texts_say_something(fed(parser, bytes, events).events),
    decreases bytes.len(),
{
    if bytes.len() > 0 {
        no_text_is_empty(parser, bytes.drop_last(), events);
        let before = fed(parser, bytes.drop_last(), events);
        step_says_something(before.parser, bytes.last(), before.events);
    }
}

/// What an event says, character by character.
pub open spec fn told(event: EventView) -> Seq<EventView> {
    match event {
        EventView::Text(text) => Seq::new(text.len(), |i: int| EventView::Text(seq![text[i]])),
        EventView::Key(_) => seq![event],
    }
}

/// What a sequence of events says, character by character.
pub open spec fn typed(events: Seq<EventView>) -> Seq<EventView>
    decreases events.len(),
{
    if events.len() == 0 {
        seq![]
    } else {
        typed(events.drop_last()) + told(events.last())
    }
}

proof fn typed_push(events: Seq<EventView>, event: EventView)
    ensures
        typed(events.push(event)) == typed(events) + told(event),
{
    assert(events.push(event).drop_last() =~= events);
}

proof fn told_join(head: Seq<char>, text: Seq<char>)
    ensures
        told(EventView::Text(head + text)) == told(EventView::Text(head)) + told(
            EventView::Text(text),
        ),
{
    assert(told(EventView::Text(head + text)) =~= told(EventView::Text(head)) + told(
        EventView::Text(text),
    ));
}

proof fn typed_text(parser: ParserView, text: Seq<char>, events: Seq<EventView>)
    ensures
        ({
            let alone = emitted(parser, text, seq![]);
            let after = emitted(parser, text, events);
            &&& after.parser == alone.parser
            &&& typed(after.events) == typed(events) + typed(alone.events)
        }),
{
    if parser.pasting {
        assert(typed(seq![]) =~= seq![]);
    } else {
        typed_push(seq![], EventView::Text(text));
        if events.len() > 0 && events.last() is Text {
            let head = events.last()->Text_0;
            let joint = head + text;
            assert(events.last() == EventView::Text(head));
            told_join(head, text);
            typed_push(events.drop_last(), EventView::Text(joint));
        } else {
            typed_push(events, EventView::Text(text));
        }
        assert(typed(emitted(parser, text, events).events) =~= typed(events) + typed(
            emitted(parser, text, seq![]).events,
        ));
    }
}

/// What a byte adds to the events does not depend on those before it.
proof fn typed_step(parser: ParserView, byte: u8, events: Seq<EventView>)
    ensures
        ({
            let alone = stepped(parser, byte, seq![]);
            let after = stepped(parser, byte, events);
            &&& after.parser == alone.parser
            &&& typed(after.events) == typed(events) + typed(alone.events)
        }),
{
    let none = Seq::<EventView>::empty();
    assert(typed(events) + typed(none) =~= typed(events));
    assert forall|event: EventView| typed(#[trigger] events.push(event)) == typed(events) + typed(
        none.push(event),
    ) by {
        typed_push(events, event);
        typed_push(none, event);
        assert(typed(none) + told(event) =~= told(event));
    }
    let lead = ParserView { utf8: seq![], pending: 0, state: State::Ground, ..parser };
    typed_text(parser, seq![byte as char], events);
    typed_text(lead, seq![byte as char], events);
    typed_text(lead, vstd::utf8::decode_utf8(parser.utf8.push(byte)), events);
}

proof fn typed_run(parser: ParserView, bytes: Seq<u8>, events: Seq<EventView>)
    ensures
        ({
            let alone = fed(parser, bytes, seq![]);
            let after = fed(parser, bytes, events);
            &&& after.parser == alone.parser
            &&& typed(after.events) == typed(events) + typed(alone.events)
        }),
    decreases bytes.len(),
{
    if bytes.len() == 0 {
        assert(typed(events) + typed(seq![]) =~= typed(events));
    } else {
        typed_run(parser, bytes.drop_last(), events);
        let alone = fed(parser, bytes.drop_last(), seq![]);
        let after = fed(parser, bytes.drop_last(), events);
        typed_step(after.parser, bytes.last(), after.events);
        typed_step(alone.parser, bytes.last(), alone.events);
        let one = stepped(alone.parser, bytes.last(), seq![]).events;
        assert(typed(events) + typed(alone.events) + typed(one) =~= typed(events) + (typed(
            alone.events,
        ) + typed(one)));
    }
}

/// Reading two chunks one after the other is reading them in one.
pub proof fn feeding_in_turn(
    parser: ParserView,
    first: Seq<u8>,
    second: Seq<u8>,
    events: Seq<EventView>,
)
    ensures
        ({
            let before = fed(parser, first, events);
            fed(parser, first + second, events) == fed(before.parser, second, before.events)
        }),
    decreases second.len(),
{
    if second.len() == 0 {
        assert(first + second =~= first);
    } else {
        assert((first + second).drop_last() =~= first + second.drop_last());
        assert((first + second).last() == second.last());
        feeding_in_turn(parser, first, second.drop_last(), events);
    }
}

/// How what a terminal sends is cut into chunks changes neither what the user is
/// found to have done nor the parser that is left.
pub proof fn chunks_do_not_matter(parser: ParserView, first: Seq<u8>, second: Seq<u8>)
    ensures
        ({
            let whole = fed(parser, first + second, seq![]);
            let before = fed(parser, first, seq![]);
            let after = fed(before.parser, second, seq![]);
            &&& whole.parser == after.parser
            &&& typed(whole.events) == typed(before.events) + typed(after.events)
        }),
{
    feeding_in_turn(parser, first, second, seq![]);
    let before = fed(parser, first, seq![]);
    typed_run(before.parser, second, before.events);
}

/// The first bytes of a character of more than one byte are kept.
proof fn part_read(parser: ParserView, bytes: Seq<u8>, n: int, events: Seq<EventView>)
    requires
        parser.state == State::Ground,
        1 <= n < bytes.len() <= 4,
        bytes.len() == 2 ==> 0xc0 <= bytes[0] <= 0xdf,
        bytes.len() == 3 ==> 0xe0 <= bytes[0] <= 0xef,
        bytes.len() == 4 ==> 0xf0 <= bytes[0] <= 0xf7,
        forall|i: int| 1 <= i < bytes.len() ==> 0x80 <= #[trigger] bytes[i] <= 0xbf,
    ensures
        fed(parser, bytes.take(n), events) == (Parsed {
            parser: ParserView {
                utf8: bytes.take(n),
                pending: bytes.len() - n,
                state: State::Utf8,
                ..parser
            },
            events,
        }),
    decreases n,
{
    let part = bytes.take(n);
    if n == 1 {
        assert(part.drop_last() =~= seq![]);
        assert(part =~= seq![bytes[0]]);
        assert(fed(parser, part.drop_last(), events) == (Parsed { parser, events }));
        assert(part.last() == bytes[0]);
    } else {
        part_read(parser, bytes, n - 1, events);
        assert(part.drop_last() =~= bytes.take(n - 1));
        assert(bytes.take(n - 1).push(bytes[n - 1]) =~= part);
    }
}

/// A character of more than one byte is read when its last byte is.
proof fn wide_read(parser: ParserView, bytes: Seq<u8>, events: Seq<EventView>)
    requires
        parser.valid(),
        parser.state == State::Ground,
        2 <= bytes.len() <= 4,
        bytes.len() == 2 ==> 0xc0 <= bytes[0] <= 0xdf,
        bytes.len() == 3 ==> 0xe0 <= bytes[0] <= 0xef,
        bytes.len() == 4 ==> 0xf0 <= bytes[0] <= 0xf7,
        forall|i: int| 1 <= i < bytes.len() ==> 0x80 <= #[trigger] bytes[i] <= 0xbf,
        vstd::utf8::valid_utf8(bytes),
    ensures
        fed(parser, bytes, events) == emitted(parser, vstd::utf8::decode_utf8(bytes), events),
{
    let n = bytes.len() - 1;
    part_read(parser, bytes, n, events);
    assert(bytes.drop_last() =~= bytes.take(n));
    assert(bytes.take(n).push(bytes[n]) =~= bytes);
    assert(parser.utf8 =~= seq![]);
}

/// The bytes of a character have the form that the number of them asks for.
proof fn encoding_form(c: char)
    ensures
        ({
            let bytes = vstd::utf8::encode_utf8(seq![c]);
            &&& 1 <= bytes.len() <= 4
            &&& bytes.len() == 1 <==> c <= '\u{7f}'
            &&& bytes.len() == 1 ==> bytes[0] as char == c && bytes[0] == c as u32
            &&& bytes.len() == 2 ==> 0xc0 <= bytes[0] <= 0xdf
            &&& bytes.len() == 3 ==> 0xe0 <= bytes[0] <= 0xef
            &&& bytes.len() == 4 ==> 0xf0 <= bytes[0] <= 0xf7
            &&& forall|i: int| 1 <= i < bytes.len() ==> 0x80 <= #[trigger] bytes[i] <= 0xbf
        }),
{
    let scalar = c as u32;
    let bytes = vstd::utf8::encode_utf8(seq![c]);
    assert(c as int == scalar as int);
    assert(bytes =~= vstd::utf8::encode_scalar(scalar)) by {
        assert(vstd::utf8::encode_utf8(seq![c].drop_first()) =~= seq![]);
    }
    assert(scalar <= 0x7f ==> (scalar & 0x7F) == scalar) by (bit_vector);
    let two = ((scalar >> 6) & 0x1F) as u8;
    assert(0xc0 <= 0xC0u8 | two <= 0xdf) by (bit_vector)
        requires
            two == ((scalar >> 6) & 0x1F) as u8,
    ;
    let three = ((scalar >> 12) & 0x0F) as u8;
    assert(0xe0 <= 0xE0u8 | three <= 0xef) by (bit_vector)
        requires
            three == ((scalar >> 12) & 0x0F) as u8,
    ;
    let four = ((scalar >> 18) & 0x7) as u8;
    assert(0xf0 <= 0xF0u8 | four <= 0xf7) by (bit_vector)
        requires
            four == ((scalar >> 18) & 0x7) as u8,
    ;
    let last = (scalar & 0x3f) as u8;
    assert(0x80 <= 0x80u8 | last <= 0xbf) by (bit_vector)
        requires
            last == (scalar & 0x3f) as u8,
    ;
    let middle = ((scalar >> 6) & 0x3f) as u8;
    assert(0x80 <= 0x80u8 | middle <= 0xbf) by (bit_vector)
        requires
            middle == ((scalar >> 6) & 0x3f) as u8,
    ;
    let second = ((scalar >> 12) & 0x3f) as u8;
    assert(0x80 <= 0x80u8 | second <= 0xbf) by (bit_vector)
        requires
            second == ((scalar >> 12) & 0x3f) as u8,
    ;
}

/// A character that is no control character is read as text.
proof fn char_read(parser: ParserView, c: char, events: Seq<EventView>)
    requires
        parser.valid(),
        parser.state == State::Ground,
        ' ' <= c,
        c == '\u{7f}' ==> parser.pasting,
    ensures
        fed(parser, vstd::utf8::encode_utf8(seq![c]), events) == emitted(parser, seq![c], events),
{
    let bytes = vstd::utf8::encode_utf8(seq![c]);
    encoding_form(c);
    vstd::utf8::encode_utf8_valid_utf8(seq![c]);
    vstd::utf8::encode_utf8_decode_utf8(seq![c]);
    if bytes.len() == 1 {
        assert(bytes.drop_last() =~= seq![]);
        assert(fed(parser, bytes.drop_last(), events) == (Parsed { parser, events }));
        assert(bytes.last() == bytes[0]);
    } else {
        wide_read(parser, bytes, events);
    }
}

/// Text that is typed arrives as it was typed, whatever its characters, unless one
/// is a control character of ASCII.
pub proof fn typed_text_is_read(parser: ParserView, text: Seq<char>)
    requires
        parser.valid(),
        parser.state == State::Ground,
        !parser.pasting,
        text.len() > 0,
        forall|i: int| 0 <= i < text.len() ==> ' ' <= #[trigger] text[i] && text[i] != '\u{7f}',
    ensures
        fed(parser, vstd::utf8::encode_utf8(text), seq![]) == (Parsed {
            parser,
            events: seq![EventView::Text(text)],
        }),
    decreases text.len(),
{
    let none = Seq::<EventView>::empty();
    let before = text.drop_last();
    let last = seq![text.last()];
    assert(text =~= before + last);
    crate::slices::encode_concat(before, last);
    feeding_in_turn(
        parser,
        vstd::utf8::encode_utf8(before),
        vstd::utf8::encode_utf8(last),
        none,
    );
    if before.len() == 0 {
        assert(before =~= seq![]);
        assert(vstd::utf8::encode_utf8(before) =~= seq![]);
        char_read(parser, text.last(), none);
        assert(none.push(EventView::Text(last)) =~= seq![EventView::Text(text)]);
    } else {
        typed_text_is_read(parser, before);
        let events = seq![EventView::Text(before)];
        char_read(parser, text.last(), events);
        assert(events.drop_last().push(EventView::Text(before + last)) =~= seq![
            EventView::Text(text),
        ]);
    }
}

/// The text that a paste makes: line ends become line feeds, tabs are kept, other
/// control characters of ASCII are left out.
pub open spec fn pasted(text: Seq<char>) -> Seq<char>
    decreases text.len(),
{
    if text.len() == 0 {
        seq![]
    } else {
        let before = pasted(text.drop_last());
        let c = text.last();
        if c == '\r' || c == '\n' {
            before.push('\n')
        } else if c < ' ' && c != '\t' {
            before
        } else {
            before.push(c)
        }
    }
}

/// What a terminal sends before a paste, and what it sends after it.
pub open spec fn paste_mark(last: u8) -> Seq<u8> {
    seq![ESC, 0x5b, 0x32, 0x30, last, 0x7e]
}

proof fn pasting_collects(parser: ParserView, text: Seq<char>, events: Seq<EventView>)
    requires
        parser.valid(),
        parser.state == State::Ground,
        parser.pasting,
        forall|i: int| 0 <= i < text.len() ==> #[trigger] text[i] != '\u{1b}',
    ensures
        fed(parser, vstd::utf8::encode_utf8(text), events) == (Parsed {
            parser: ParserView { paste: parser.paste + pasted(text), ..parser },
            events,
        }),
    decreases text.len(),
{
    if text.len() == 0 {
        assert(parser.paste + pasted(text) =~= parser.paste);
    } else {
        let before = text.drop_last();
        let c = text.last();
        let last = seq![c];
        assert(text =~= before + last);
        crate::slices::encode_concat(before, last);
        feeding_in_turn(
            parser,
            vstd::utf8::encode_utf8(before),
            vstd::utf8::encode_utf8(last),
            events,
        );
        pasting_collects(parser, before, events);
        let kept = parser.paste + pasted(before);
        let part = ParserView { paste: kept, ..parser };
        assert(kept.push(c) =~= kept + last);
        assert(kept.push(c) =~= parser.paste + pasted(before).push(c));
        assert(kept.push('\n') =~= parser.paste + pasted(before).push('\n'));
        if ' ' <= c {
            char_read(part, c, events);
        } else {
            let bytes = vstd::utf8::encode_utf8(last);
            encoding_form(c);
            assert(bytes.drop_last() =~= seq![]);
            assert(fed(part, bytes.drop_last(), events) == (Parsed { parser: part, events }));
            assert(bytes.last() == bytes[0]);
        }
    }
}

proof fn mark_read(parser: ParserView, last: u8, events: Seq<EventView>)
    requires
        parser.valid(),
        parser.state == State::Ground,
        last == 0x30 || last == 0x31,
    ensures
        fed(parser, paste_mark(last), events) == sequenced(
            parser,
            seq![0x32, 0x30, last],
            0x7e,
            events,
        ),
        parameters(seq![0x32, 0x30, last]) == seq![(200 + (last - 0x30)) as u16],
{
    assert(parser.sequence =~= seq![]);
    let mark = paste_mark(last);
    let m5 = mark.drop_last();
    let m4 = m5.drop_last();
    let m3 = m4.drop_last();
    let m2 = m3.drop_last();
    let m1 = m2.drop_last();
    assert(m1.drop_last() =~= seq![]);
    assert(fed(parser, m1.drop_last(), events) == (Parsed { parser, events }));
    let p1 = ParserView { state: State::Escape, ..parser };
    assert(fed(parser, m1, events) == (Parsed { parser: p1, events }));
    let p2 = ParserView { state: State::Csi, sequence: seq![], ..parser };
    assert(fed(parser, m2, events) == (Parsed { parser: p2, events }));
    let p3 = ParserView { sequence: seq![0x32], ..p2 };
    assert(p2.sequence.push(0x32) =~= p3.sequence);
    assert(fed(parser, m3, events) == (Parsed { parser: p3, events }));
    let p4 = ParserView { sequence: seq![0x32, 0x30], ..p2 };
    assert(p3.sequence.push(0x30) =~= p4.sequence);
    assert(fed(parser, m4, events) == (Parsed { parser: p4, events }));
    let p5 = ParserView { sequence: seq![0x32, 0x30, last], ..p2 };
    assert(p4.sequence.push(last) =~= p5.sequence);
    assert(fed(parser, m5, events) == (Parsed { parser: p5, events }));
    let s3 = seq![0x32u8, 0x30, last];
    let s2 = s3.drop_last();
    let s1 = s2.drop_last();
    let s0 = s1.drop_last();
    assert(s0 =~= seq![]);
    assert(fields(s0) == seq![Seq::<u8>::empty()]);
    assert(fields(s1) =~= seq![seq![0x32u8]]) by {
        assert(Seq::<u8>::empty().push(0x32) =~= seq![0x32u8]);
    }
    assert(fields(s2) =~= seq![s2]) by {
        assert(seq![0x32u8].push(0x30) =~= s2);
    }
    assert(fields(s3) =~= seq![s3]) by {
        assert(s2.push(last) =~= s3);
    }
    assert(decimal(s0) == 0);
    assert(decimal(s1) == 2);
    assert(decimal(s2) == 20);
    assert(decimal(s3) == 200 + (last - 0x30));
    assert(parameters(s3) =~= seq![(200 + (last - 0x30)) as u16]);
}

/// What is pasted arrives as one text, line ends and tabs included, and triggers
/// no key, as long as no escape is in it.
pub proof fn paste_is_one_text(parser: ParserView, text: Seq<char>)
    requires
        parser.valid(),
        parser.state == State::Ground,
        forall|i: int| 0 <= i < text.len() ==> #[trigger] text[i] != '\u{1b}',
    ensures
        fed(
            parser,
            paste_mark(0x30) + vstd::utf8::encode_utf8(text) + paste_mark(0x31),
            seq![],
        ) == (Parsed {
            parser: ParserView { pasting: false, paste: seq![], ..parser },
            events: if pasted(text).len() == 0 {
                seq![]
            } else {
                seq![EventView::Text(pasted(text))]
            },
        }),
{
    let none = Seq::<EventView>::empty();
    let bytes = vstd::utf8::encode_utf8(text);
    feeding_in_turn(parser, paste_mark(0x30) + bytes, paste_mark(0x31), none);
    feeding_in_turn(parser, paste_mark(0x30), bytes, none);
    mark_read(parser, 0x30, none);
    let open = ParserView { pasting: true, paste: seq![], ..parser };
    assert(fed(parser, paste_mark(0x30), none) == (Parsed { parser: open, events: none }));
    pasting_collects(open, text, none);
    assert(Seq::<char>::empty() + pasted(text) =~= pasted(text));
    let full = ParserView { paste: pasted(text), ..open };
    mark_read(full, 0x31, none);
    assert(none.push(EventView::Text(pasted(text))) =~= seq![EventView::Text(pasted(text))]);
}

/// Whether a control sequence marks where a paste begins or, with the other number,
/// where it ends.
pub open spec fn marks_paste(body: Seq<u8>, last: u8, mark: u16) -> bool {
    &&& !(body.len() > 0 && body[0] == 0x3c)
    &&& last == 0x7e
    &&& parameters(body).len() == 1
    &&& parameters(body)[0] == mark
}

/// A control sequence within a paste does nothing, unless it marks where a paste
/// begins or ends: no key acts, and the text that is being pasted is not touched.
pub proof fn paste_ignores_sequences(
    parser: ParserView,
    body: Seq<u8>,
    last: u8,
    events: Seq<EventView>,
)
    requires
        parser.pasting,
        !marks_paste(body, last, PASTE_START),
        !marks_paste(body, last, PASTE_END),
    ensures
        sequenced(parser, body, last, events) == (Parsed { parser, events }),
{
}

proof fn body_read(parser: ParserView, body: Seq<u8>, events: Seq<EventView>)
    requires
        parser.valid(),
        parser.state == State::Ground,
        body.len() <= MAX_CSI,
        forall|i: int| 0 <= i < body.len() ==> !(0x40 <= #[trigger] body[i] <= 0x7e),
    ensures
        fed(parser, seq![ESC, 0x5b] + body, events) == (Parsed {
            parser: ParserView { state: State::Csi, sequence: body, ..parser },
            events,
        }),
    decreases body.len(),
{
    let begin = seq![ESC, 0x5bu8];
    if body.len() == 0 {
        assert(begin + body =~= begin);
        assert(body =~= seq![]);
        let one = begin.drop_last();
        assert(one.drop_last() =~= seq![]);
        assert(fed(parser, one.drop_last(), events) == (Parsed { parser, events }));
        let p1 = ParserView { state: State::Escape, ..parser };
        assert(fed(parser, one, events) == (Parsed { parser: p1, events }));
    } else {
        let bytes = begin + body;
        assert(bytes.drop_last() =~= begin + body.drop_last());
        assert(bytes.last() == body.last());
        assert forall|i: int| 0 <= i < body.drop_last().len() implies !(0x40
            <= #[trigger] body.drop_last()[i] <= 0x7e) by {
            assert(body.drop_last()[i] == body[i]);
        }
        body_read(parser, body.drop_last(), events);
        assert(body.drop_last().push(body.last()) =~= body);
        assert(!(0x40 <= body[body.len() - 1] <= 0x7e));
    }
}

/// A control sequence that a terminal sends is read as a whole: the escape, the
/// bracket, the bytes between and the byte that ends it do together what the
/// sequence does.
pub proof fn sequence_is_read(
    parser: ParserView,
    body: Seq<u8>,
    last: u8,
    events: Seq<EventView>,
)
    requires
        parser.valid(),
        parser.state == State::Ground,
        body.len() <= MAX_CSI,
        forall|i: int| 0 <= i < body.len() ==> !(0x40 <= #[trigger] body[i] <= 0x7e),
        0x40 <= last <= 0x7e,
    ensures
        fed(parser, (seq![ESC, 0x5b] + body).push(last), events) == sequenced(
            parser,
            body,
            last,
            events,
        ),
{
    let begin = seq![ESC, 0x5bu8] + body;
    body_read(parser, body, events);
    assert(begin.push(last).drop_last() =~= begin);
    assert(parser.sequence =~= seq![]);
}

/// Keys that are sent as control sequences do nothing within a paste: the parser is
/// left as it was, and so is what the user is found to have done.
pub proof fn keys_do_nothing_in_a_paste(
    parser: ParserView,
    body: Seq<u8>,
    last: u8,
    events: Seq<EventView>,
)
    requires
        parser.valid(),
        parser.state == State::Ground,
        parser.pasting,
        body.len() <= MAX_CSI,
        forall|i: int| 0 <= i < body.len() ==> !(0x40 <= #[trigger] body[i] <= 0x7e),
        0x40 <= last <= 0x7e,
        !marks_paste(body, last, PASTE_START),
        !marks_paste(body, last, PASTE_END),
    ensures
        fed(parser, (seq![ESC, 0x5b] + body).push(last), events) == (Parsed { parser, events }),
{
    sequence_is_read(parser, body, last, events);
    paste_ignores_sequences(parser, body, last, events);
}

/// Whatever is read within a paste, the user is found to have done nothing until the
/// paste ends.
pub proof fn nothing_is_done_in_a_paste(parser: ParserView, byte: u8, events: Seq<EventView>)
    requires
        parser.pasting,
        !(parser.state == State::Csi && marks_paste(parser.sequence, byte, PASTE_END)),
    ensures
        stepped(parser, byte, events).events == events,
        stepped(parser, byte, events).parser.pasting,
{
}

/// What a byte does that comes by itself while nothing is pasted: carriage return and
/// line feed are Enter, then there are Tab, Backspace and the keys that interrupt and
/// that end the input; other control bytes do nothing.
pub proof fn control_bytes_are_keys(parser: ParserView, byte: u8, events: Seq<EventView>)
    requires
        parser.state == State::Ground,
        !parser.pasting,
    ensures
        ({
            let after = stepped(parser, byte, events);
            &&& byte == 13 || byte == 10 ==> after == (Parsed {
                parser,
                events: events.push(EventView::Key(Event::Enter)),
            })
            &&& byte == 9 ==> after == (Parsed {
                parser,
                events: events.push(EventView::Key(Event::Tab)),
            })
            &&& byte == 8 || byte == 127 ==> after == (Parsed {
                parser,
                events: events.push(EventView::Key(Event::Backspace)),
            })
            &&& byte == 3 ==> after == (Parsed {
                parser,
                events: events.push(EventView::Key(Event::Interrupt)),
            })
            &&& byte == 4 ==> after == (Parsed {
                parser,
                events: events.push(EventView::Key(Event::Eof)),
            })
            &&& byte < 32 && byte != 13 && byte != 10 && byte != 9 && byte != 8 && byte != 3
                && byte != 4 && byte != 27 ==> after == (Parsed { parser, events })
            &&& 128 <= byte <= 191 || byte >= 248 ==> after == (Parsed { parser, events })
            &&& byte == 27 ==> after == (Parsed {
                parser: ParserView { state: State::Escape, ..parser },
                events,
            })
        }),
{
}

/// Text that is typed joins the text typed before it; the first after a key is a text
/// of its own.
pub proof fn letters_join_into_texts(parser: ParserView, byte: u8, events: Seq<EventView>)
    requires
        parser.state == State::Ground,
        !parser.pasting,
        32 <= byte <= 126,
    ensures
        ({
            let after = stepped(parser, byte, events);
            &&& after.parser == parser
            &&& events.len() > 0 ==> (events.last() matches EventView::Text(text) ==> after.events
                == events.drop_last().push(EventView::Text(text.push(byte as char))))
            &&& events.len() == 0 || events.last() is Key ==> after.events == events.push(
                EventView::Text(seq![byte as char]),
            )
        }),
{
    if events.len() > 0 && events.last() is Text {
        let text = events.last()->Text_0;
        assert(text + seq![byte as char] =~= text.push(byte as char));
    }
}

/// What control sequences do while nothing is pasted: the arrows and Home and End by
/// the letter that ends them; Home, End, Delete and the keys that turn pages by their
/// number before `~`; the wheel by its number behind `<`.
pub proof fn sequences_are_keys(
    parser: ParserView,
    body: Seq<u8>,
    last: u8,
    events: Seq<EventView>,
)
    requires
        !parser.pasting,
        body.len() == 0 || body[0] != 0x3c,
    ensures
        ({
            let after = sequenced(parser, body, last, events);
            let n = parameters(body)[0];
            let alone = parameters(body).len() == 1;
            &&& last == 65 ==> after == keyed(parser, Event::Up, events)
            &&& last == 66 ==> after == keyed(parser, Event::Down, events)
            &&& last == 67 ==> after == keyed(parser, Event::Right, events)
            &&& last == 68 ==> after == keyed(parser, Event::Left, events)
            &&& last == 72 ==> after == keyed(parser, Event::Home, events)
            &&& last == 70 ==> after == keyed(parser, Event::End, events)
            &&& last == 126 && alone && (n == 1 || n == 7) ==> after == keyed(
                parser,
                Event::Home,
                events,
            )
            &&& last == 126 && alone && (n == 4 || n == 8) ==> after == keyed(
                parser,
                Event::End,
                events,
            )
            &&& last == 126 && alone && n == 3 ==> after == keyed(parser, Event::Delete, events)
            &&& last == 126 && alone && n == 5 ==> after == keyed(parser, Event::PageUp, events)
            &&& last == 126 && alone && n == 6 ==> after == keyed(parser, Event::PageDown, events)
            &&& last == 126 && alone && n == 200 ==> after == (Parsed {
                parser: ParserView { pasting: true, paste: seq![], ..parser },
                events,
            })
            &&& last == 126 && alone && n != 1 && n != 3 && n != 4 && n != 5 && n != 6 && n != 7
                && n != 8 && n != 200 && n != 201 ==> after == (Parsed { parser, events })
            &&& last != 65 && last != 66 && last != 67 && last != 68 && last != 70 && last != 72
                && last != 117 && last != 126 ==> after == (Parsed { parser, events })
        }),
{
}

/// What keys do that are sent by their code: Enter, with a modifier a line break;
/// Escape, Tab, Backspace; and C and D with the control key, whose bit is the third of
/// the number less one.
pub proof fn codes_are_keys(parser: ParserView, body: Seq<u8>, events: Seq<EventView>)
    requires
        !parser.pasting,
        body.len() == 0 || body[0] != 0x3c,
        parameters(body).len() >= 1,
    ensures
        ({
            let after = sequenced(parser, body, 117, events);
            let code = parameters(body)[0];
            let modifiers: int = if parameters(body).len() > 1 {
                parameters(body)[1] as int
            } else {
                1
            };
            let control = modifiers >= 1 && ((modifiers - 1) / 4) % 2 == 1;
            &&& code == 13 && modifiers <= 1 ==> after == keyed(parser, Event::Enter, events)
            &&& code == 13 && modifiers > 1 ==> after == keyed(parser, Event::NewLine, events)
            &&& code == 27 ==> after == keyed(parser, Event::Escape, events)
            &&& code == 9 ==> after == keyed(parser, Event::Tab, events)
            &&& code == 127 || code == 8 ==> after == keyed(parser, Event::Backspace, events)
            &&& code == 99 && control ==> after == keyed(parser, Event::Interrupt, events)
            &&& code == 100 && control ==> after == keyed(parser, Event::Eof, events)
            &&& (code == 99 || code == 100) && !control ==> after == (Parsed { parser, events })
            &&& code != 8 && code != 9 && code != 13 && code != 27 && code != 99 && code != 100
                && code != 127 ==> after == (Parsed { parser, events })
        }),
{
}

/// What Enter is in the older way of telling keys apart: 27, the modifiers and 13
/// before `~`.
pub proof fn older_codes_are_enter(parser: ParserView, body: Seq<u8>, events: Seq<EventView>)
    requires
        !parser.pasting,
        body.len() == 0 || body[0] != 0x3c,
        parameters(body).len() == 3,
        parameters(body)[0] == 27,
        parameters(body)[2] == 13,
    ensures
        sequenced(parser, body, 126, events) == keyed(
            parser,
            if parameters(body)[1] > 1 {
                Event::NewLine
            } else {
                Event::Enter
            },
            events,
        ),
{
}

/// What reports of the mouse do: the wheel scrolls, by the numbers 64 and 65 before
/// `M`, and nothing else does anything.
pub proof fn wheel_scrolls(parser: ParserView, body: Seq<u8>, last: u8, events: Seq<EventView>)
    requires
        !parser.pasting,
    ensures
        ({
            let after = sequenced(parser, seq![0x3cu8] + body, last, events);
            let n = parameters(body)[0];
            &&& last == 77 && n == 64 ==> after == keyed(parser, Event::ScrollUp, events)
            &&& last == 77 && n == 65 ==> after == keyed(parser, Event::ScrollDown, events)
            &&& last != 77 || (n != 64 && n != 65) ==> after == (Parsed { parser, events })
        }),
{
    let whole = seq![0x3cu8] + body;
    assert(whole.skip(1) =~= body);
}

proof fn fields_join(first: Seq<u8>, second: Seq<u8>)
    ensures
        fields(first.push(0x3b) + second) == fields(first) + fields(second),
        fields(second).len() > 0,
    decreases second.len(),
{
    let body = first.push(0x3b) + second;
    if second.len() == 0 {
        assert(body =~= first.push(0x3b));
        assert(body.drop_last() =~= first);
        assert(fields(body) =~= fields(first) + fields(second));
    } else {
        fields_join(first, second.drop_last());
        assert(body.drop_last() =~= first.push(0x3b) + second.drop_last());
        assert(body.last() == second.last());
        let before = fields(second.drop_last());
        assert((fields(first) + before).drop_last() =~= fields(first) + before.drop_last());
        assert((fields(first) + before).last() == before.last());
        assert(fields(body) =~= fields(first) + fields(second));
    }
}

/// The numbers of a control sequence are parted by semicolons.
pub proof fn numbers_are_parted_by_semicolons(first: Seq<u8>, second: Seq<u8>)
    ensures
        parameters(first.push(0x3b) + second) == parameters(first) + parameters(second),
{
    fields_join(first, second);
    assert(parameters(first.push(0x3b) + second) =~= parameters(first) + parameters(second));
}

proof fn one_field(field: Seq<u8>)
    requires
        forall|i: int| 0 <= i < field.len() ==> #[trigger] field[i] != 0x3b,
    ensures
        fields(field) == seq![field],
    decreases field.len(),
{
    if field.len() > 0 {
        assert(field[field.len() - 1] != 0x3b);
        assert forall|i: int| 0 <= i < field.drop_last().len() implies (
        #[trigger] field.drop_last()[i]) != 0x3b by {
            assert(field.drop_last()[i] == field[i]);
        }
        one_field(field.drop_last());
        assert(field.drop_last().push(field.last()) =~= field);
        assert(fields(field) =~= seq![field]);
    } else {
        assert(field =~= seq![]);
    }
}

/// A number is written in decimal digits: none write 0, and a digit more counts the
/// number before it ten times. No number is above 65535.
pub proof fn numbers_are_decimal(field: Seq<u8>, digit: u8)
    requires
        forall|i: int| 0 <= i < field.len() ==> 0x30 <= #[trigger] field[i] <= 0x39,
        0x30 <= digit <= 0x39,
    ensures
        parameters(seq![]) == seq![0u16],
        parameters(field).len() == 1,
        parameters(field.push(digit)).len() == 1,
        10 * parameters(field)[0] + (digit - 48) <= 65535 ==> parameters(field.push(digit))[0] == 10
            * parameters(field)[0] + (digit - 48),
        10 * parameters(field)[0] + (digit - 48) > 65535 ==> parameters(field.push(digit))[0]
            == 65535,
{
    one_field(seq![]);
    assert(parameters(seq![]) =~= seq![0u16]);
    one_field(field);
    let longer = field.push(digit);
    assert forall|i: int| 0 <= i < longer.len() implies #[trigger] longer[i] != 0x3b by {
        if i < field.len() {
            assert(longer[i] == field[i]);
        }
    }
    one_field(longer);
    assert(longer.drop_last() =~= field);
    decimal_nonnegative(field);
    assert(decimal(longer) == 10 * decimal(field) + (digit - 0x30));
    assert(parameters(field)[0] == parameter(field));
    assert(parameters(longer)[0] == parameter(longer));
}

/// A text without control characters but line feeds and tabs is pasted as it is.
pub proof fn clean_text_is_pasted_whole(text: Seq<char>)
    requires
        forall|i: int|
            0 <= i < text.len() ==> (#[trigger] text[i]) as u32 >= 0x20 || text[i] == '\n'
                || text[i] == '\t',
    ensures
        pasted(text) == text,
    decreases text.len(),
{
    if text.len() > 0 {
        let before = text.drop_last();
        assert forall|i: int| 0 <= i < before.len() implies (#[trigger] before[i]) as u32 >= 0x20
            || before[i] == '\n' || before[i] == '\t' by {
            assert(before[i] == text[i]);
        }
        clean_text_is_pasted_whole(before);
        let c = text[text.len() - 1];
        code_of(c);
        assert(before.push(c) =~= text);
    } else {
        assert(text =~= seq![]);
    }
}

proof fn code_of(c: char)
    ensures
        c as u32 >= 0x20 <==> c >= ' ',
{
    let code = c as u32;
    assert(c as int == code as int);
}

/// A carriage return is pasted as a line feed, and other control characters but tabs
/// and line feeds are not pasted.
pub proof fn controls_are_not_pasted(text: Seq<char>, c: char)
    ensures
        c == '\r' ==> pasted(text.push(c)) == pasted(text).push('\n'),
        (c as u32) < 0x20 && c != '\r' && c != '\n' && c != '\t' ==> pasted(text.push(c)) == pasted(
            text,
        ),
{
    code_of(c);
    assert(text.push(c).drop_last() =~= text);
}

/// A byte behind an escape is swallowed, unless it is the bracket that begins a
/// control sequence.
pub proof fn escape_swallows_a_byte(parser: ParserView, byte: u8, events: Seq<EventView>)
    requires
        parser.state == State::Escape,
    ensures
        byte == 91 ==> stepped(parser, byte, events) == (Parsed {
            parser: ParserView { state: State::Csi, sequence: seq![], ..parser },
            events,
        }),
        byte != 91 ==> stepped(parser, byte, events) == (Parsed {
            parser: ParserView { state: State::Ground, ..parser },
            events,
        }),
{
}

/// A control sequence goes on up to a byte from `@` to `~`, and is given up with the
/// byte behind its thirty-second.
pub proof fn sequence_goes_on(parser: ParserView, byte: u8, events: Seq<EventView>)
    requires
        parser.state == State::Csi,
    ensures
        64 <= byte <= 126 ==> stepped(parser, byte, events) == sequenced(
            ParserView { state: State::Ground, sequence: seq![], ..parser },
            parser.sequence,
            byte,
            events,
        ),
        !(64 <= byte <= 126) && parser.sequence.len() < 32 ==> stepped(parser, byte, events) == (
        Parsed {
            parser: ParserView { sequence: parser.sequence.push(byte), ..parser },
            events,
        }),
        !(64 <= byte <= 126) && parser.sequence.len() >= 32 ==> stepped(parser, byte, events) == (
        Parsed {
            parser: ParserView { state: State::Ground, sequence: seq![], ..parser },
            events,
        }),
{
}

/// A character of more bytes that is broken off is dropped, and the byte that broke it
/// off is read as if it came by itself; one whose bytes are no character is dropped.
pub proof fn broken_characters_are_dropped(parser: ParserView, byte: u8, events: Seq<EventView>)
    requires
        parser.state == State::Utf8,
    ensures
        ({
            let ground = ParserView { state: State::Ground, utf8: seq![], pending: 0, ..parser };
            let bytes = parser.utf8.push(byte);
            &&& byte < 128 || byte > 191 ==> stepped(parser, byte, events) == stepped(
                ground,
                byte,
                events,
            )
            &&& 128 <= byte <= 191 && parser.pending <= 1 && !vstd::utf8::valid_utf8(bytes)
                ==> stepped(parser, byte, events) == (Parsed { parser: ground, events })
            &&& 128 <= byte <= 191 && parser.pending > 1 ==> stepped(parser, byte, events).events
                == events
        }),
{
}

/// A byte that is no digit and parts no numbers does not count.
pub proof fn other_bytes_do_not_count(field: Seq<u8>, byte: u8)
    requires
        forall|i: int| 0 <= i < field.len() ==> #[trigger] field[i] != 0x3b,
        byte != 0x3b,
        byte < 0x30 || byte > 0x39,
    ensures
        parameters(field.push(byte)) == parameters(field),
{
    one_field(field);
    let longer = field.push(byte);
    assert forall|i: int| 0 <= i < longer.len() implies #[trigger] longer[i] != 0x3b by {
        if i < field.len() {
            assert(longer[i] == field[i]);
        }
    }
    one_field(longer);
    assert(longer.drop_last() =~= field);
    assert(parameters(longer) =~= parameters(field));
}

} // verus!
