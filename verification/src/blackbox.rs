//! The archive: a header and a chain of sealed frames, one for each record.

use vstd::prelude::*;

use crate::bytes::{get_le32, put_le32, put_le64, take16, take24, take32};
use crate::crypto::{compress, decompress, decrypt, encrypt, random, same};

pub use crate::crypto::DataKey;

verus! {

pub const MAGIC: [u8; 4] = [0x4b, 0x49, 0x50, 0x50];

pub const VERSION: u8 = 1;

pub const KEY_LEN: usize = 32;

pub const VERSION_AT: usize = 4;

pub const FINGERPRINT_AT: usize = VERSION_AT + 1;

pub const CHALLENGE_AT: usize = FINGERPRINT_AT + KEY_LEN;

pub const HEADER_LEN: usize = CHALLENGE_AT + KEY_LEN;

pub const NONCE_LEN: usize = 24;

pub const TAG_LEN: usize = 16;

pub const LEN_PREFIX: usize = 4;

pub const MAX_FRAME: u32 = 1048576;

pub const ZSTD_LEVEL: i32 = 19;

pub const FLAG_RAW: u8 = 0;

pub const FLAG_ZSTD: u8 = 1;

/// Who speaks.
#[derive(Debug, Clone, Copy, PartialEq, Eq)]
pub enum Who {
    User,
    Kipp,
}

impl Who {
    pub open spec fn other(self) -> Who {
        match self {
            Who::User => Who::Kipp,
            Who::Kipp => Who::User,
        }
    }

    /// The other speaker.
    pub fn toggled(self) -> (who: Self)
        ensures
            who == self.other(),
    {
        match self {
            Who::User => Who::Kipp,
            Who::Kipp => Who::User,
        }
    }
}

/// The other speaker's other is the first.
pub proof fn toggling_twice(who: Who)
    ensures
        who.other().other() == who,
        who.other() != who,
{
}

/// What a frame holds.
#[derive(Debug, Clone)]
pub enum Record {
    SessionStart { started: i64 },
    Message { ts: i64, who: Who, text: String },
}

/// A message of a session.
#[derive(Debug, Clone)]
pub struct Message {
    pub ts: i64,
    pub who: Who,
    pub text: String,
}

/// The messages of a session.
#[derive(Debug, Clone)]
pub struct SessionSlice {
    pub messages: Vec<Message>,
}

#[verifier::ext_equal]
pub struct MessageView {
    pub ts: i64,
    pub who: Who,
    pub text: Seq<char>,
}

#[verifier::ext_equal]
pub enum RecordView {
    SessionStart { started: i64 },
    Message { message: MessageView },
}

impl View for Record {
    type V = RecordView;

    open spec fn view(&self) -> RecordView {
        match self {
            Record::SessionStart { started } => RecordView::SessionStart { started: *started },
            Record::Message { ts, who, text } => RecordView::Message {
                message: MessageView { ts: *ts, who: *who, text: text@ },
            },
        }
    }
}

impl View for Message {
    type V = MessageView;

    open spec fn view(&self) -> MessageView {
        MessageView { ts: self.ts, who: self.who, text: self.text@ }
    }
}

impl View for SessionSlice {
    type V = Seq<MessageView>;

    open spec fn view(&self) -> Seq<MessageView> {
        Seq::new(self.messages@.len(), |i: int| self.messages@[i]@)
    }
}

pub open spec fn record_views(records: Seq<Record>) -> Seq<RecordView> {
    Seq::new(records.len(), |i: int| records[i]@)
}

pub open spec fn session_views(sessions: Seq<SessionSlice>) -> Seq<Seq<MessageView>> {
    Seq::new(sessions.len(), |i: int| sessions[i]@)
}

/// The messages of each session: a start opens a session, a message belongs to
/// the session that was opened last, and one before any start to none.
pub open spec fn grouped(records: Seq<RecordView>) -> Seq<Seq<MessageView>>
    decreases records.len(),
{
    if records.len() == 0 {
        seq![]
    } else {
        let before = grouped(records.drop_last());
        match records.last() {
            RecordView::SessionStart { started } => before.push(seq![]),
            RecordView::Message { message } => if before.len() == 0 {
                before
            } else {
                before.drop_last().push(before.last().push(message))
            },
        }
    }
}

/// The number of session starts among some records.
pub open spec fn starts(records: Seq<RecordView>) -> int
    decreases records.len(),
{
    if records.len() == 0 {
        0
    } else {
        starts(records.drop_last()) + if records.last() is SessionStart {
            1int
        } else {
            0
        }
    }
}

/// The messages among some records that come after a session start, in order.
pub open spec fn kept(records: Seq<RecordView>) -> Seq<MessageView>
    decreases records.len(),
{
    if records.len() == 0 {
        seq![]
    } else {
        match records.last() {
            RecordView::Message { message } if starts(records.drop_last()) > 0 => kept(
                records.drop_last(),
            ).push(message),
            _ => kept(records.drop_last()),
        }
    }
}

/// The messages of all sessions, in order.
pub open spec fn flat(sessions: Seq<Seq<MessageView>>) -> Seq<MessageView>
    decreases sessions.len(),
{
    if sessions.len() == 0 {
        seq![]
    } else {
        flat(sessions.drop_last()) + sessions.last()
    }
}

/// There are as many sessions as starts, and they hold the messages in order.
pub proof fn grouping_keeps_order(records: Seq<RecordView>)
    ensures
        grouped(records).len() == starts(records),
        flat(grouped(records)) == kept(records),
    decreases records.len(),
{
    if records.len() > 0 {
        grouping_keeps_order(records.drop_last());
        let before = grouped(records.drop_last());
        match records.last() {
            RecordView::SessionStart { started } => {
                assert(before.push(seq![]).drop_last() =~= before);
                assert(flat(before) + Seq::<MessageView>::empty() =~= flat(before));
            },
            RecordView::Message { message } => {
                if before.len() > 0 {
                    let longer = before.last().push(message);
                    assert(before.drop_last().push(longer).drop_last() =~= before.drop_last());
                    assert(flat(before.drop_last()) + longer =~= flat(before).push(message));
                }
            },
        }
    }
}

/// Puts records into sessions.
pub fn group(records: Vec<Record>) -> (sessions: Vec<SessionSlice>)
    ensures
        session_views(sessions@) == grouped(record_views(records@)),
{
    let ghost views = record_views(records@);
    let mut sessions: Vec<SessionSlice> = Vec::new();
    assert(views.take(0) =~= seq![]);
    assert(session_views(sessions@) =~= seq![]);
    for record in it: records.into_iter()
        invariant
            it.seq() == records@,
            views == record_views(records@),
            session_views(sessions@) == grouped(views.take(it.index() as int)),
    {
        let ghost at = it.index() as int;
        let ghost before = session_views(sessions@);
        proof {
            assert(views.take(at + 1).drop_last() =~= views.take(at));
            assert(views.take(at + 1).last() == record@);
        }
        match record {
            Record::SessionStart { started } => {
                let fresh: SessionSlice = SessionSlice { messages: Vec::new() };
                assert(fresh@ =~= seq![]);
                sessions.push(fresh);
                assert(session_views(sessions@) =~= before.push(seq![]));
            },
            Record::Message { ts, who, text } => {
                if let Some(current) = sessions.pop() {
                    let ghost message = MessageView { ts, who, text: text@ };
                    let ghost prior = current@;
                    let mut current: SessionSlice = current;
                    current.messages.push(Message { ts, who, text });
                    assert(current@ =~= prior.push(message));
                    sessions.push(current);
                    assert(session_views(sessions@) =~= before.drop_last().push(
                        prior.push(message),
                    ));
                }
            },
        }
    }
    assert(views.take(views.len() as int) =~= views);
    sessions
}

/// The part of an archive before its frames.
#[derive(Debug, Clone, Copy)]
pub struct Header {
    pub fingerprint: [u8; KEY_LEN],
    pub challenge: [u8; KEY_LEN],
}

#[verifier::ext_equal]
pub struct HeaderView {
    pub fingerprint: Seq<u8>,
    pub challenge: Seq<u8>,
}

impl View for Header {
    type V = HeaderView;

    open spec fn view(&self) -> HeaderView {
        HeaderView { fingerprint: self.fingerprint@, challenge: self.challenge@ }
    }
}

/// What can be wrong with an archive.
#[derive(Debug, Clone, Copy, PartialEq, Eq)]
pub enum OpenError {
    /// The file is too short for a header.
    Truncated,
    /// The file does not begin as an archive does.
    NotBlackbox,
    /// The archive is of a version that is not known.
    Version(u8),
}

/// A header as bytes.
pub open spec fn header_bytes(header: HeaderView) -> Seq<u8> {
    MAGIC@ + seq![VERSION] + header.fingerprint + header.challenge
}

/// The header that bytes hold.
pub open spec fn header_read(raw: Seq<u8>) -> Result<HeaderView, OpenError> {
    if raw.subrange(0, VERSION_AT as int) != MAGIC@ {
        Err(OpenError::NotBlackbox)
    } else if raw[VERSION_AT as int] != VERSION {
        Err(OpenError::Version(raw[VERSION_AT as int]))
    } else {
        Ok(
            HeaderView {
                fingerprint: raw.subrange(FINGERPRINT_AT as int, CHALLENGE_AT as int),
                challenge: raw.subrange(CHALLENGE_AT as int, HEADER_LEN as int),
            },
        )
    }
}

/// Reading a header gives back the one that was written.
pub proof fn header_round_trip(header: HeaderView)
    requires
        header.fingerprint.len() == KEY_LEN,
        header.challenge.len() == KEY_LEN,
    ensures
        header_bytes(header).len() == HEADER_LEN,
        header_read(header_bytes(header)) == Ok::<HeaderView, OpenError>(header),
{
    let raw = header_bytes(header);
    assert(raw.subrange(0, VERSION_AT as int) =~= MAGIC@);
    assert(raw.subrange(FINGERPRINT_AT as int, CHALLENGE_AT as int) =~= header.fingerprint);
    assert(raw.subrange(CHALLENGE_AT as int, HEADER_LEN as int) =~= header.challenge);
}

/// Only the bytes of a header read as that header.
pub proof fn header_is_what_was_read(raw: Seq<u8>)
    requires
        raw.len() == HEADER_LEN,
        header_read(raw) is Ok,
    ensures
        header_bytes(header_read(raw)->Ok_0) == raw,
{
    let magic = raw.subrange(0, VERSION_AT as int);
    assert(magic == MAGIC@);
    let bytes = header_bytes(header_read(raw)->Ok_0);
    assert forall|i: int| 0 <= i < HEADER_LEN implies bytes[i] == raw[i] by {
        if i < VERSION_AT {
            assert(magic[i] == raw[i]);
        }
    }
    assert(bytes =~= raw);
}

impl Header {
    /// The header as bytes.
    pub fn encode(&self) -> (raw: Vec<u8>)
        ensures
            raw@ == header_bytes(self@),
            raw@.len() == HEADER_LEN,
    {
        let mut raw: Vec<u8> = Vec::new();
        raw.extend_from_slice(MAGIC.as_slice());
        raw.push(VERSION);
        raw.extend_from_slice(self.fingerprint.as_slice());
        raw.extend_from_slice(self.challenge.as_slice());
        assert(raw@ =~= header_bytes(self@));
        raw
    }

    /// The header that bytes hold.
    pub fn decode(raw: &[u8]) -> (header: Result<Self, OpenError>)
        requires
            raw@.len() == HEADER_LEN,
        ensures
            match header {
                Ok(found) => header_read(raw@) == Ok::<HeaderView, OpenError>(found@),
                Err(error) => header_read(raw@) == Err::<HeaderView, OpenError>(error),
            },
    {
        let magic: [u8; 4] = MAGIC;
        let matched: bool = raw[0] == magic[0] && raw[1] == magic[1] && raw[2] == magic[2] && raw[3]
            == magic[3];
        assert(matched == (raw@.subrange(0, VERSION_AT as int) == MAGIC@)) by {
            let found = raw@.subrange(0, VERSION_AT as int);
            assert(forall|i: int| 0 <= i < 4 ==> #[trigger] found[i] == raw@[i]);
            if matched {
                assert(found =~= MAGIC@);
            } else {
                assert(found[0] != MAGIC@[0] || found[1] != MAGIC@[1] || found[2] != MAGIC@[2]
                    || found[3] != MAGIC@[3]);
            }
        }
        if !matched {
            return Err(OpenError::NotBlackbox);
        }
        if raw[VERSION_AT] != VERSION {
            return Err(OpenError::Version(raw[VERSION_AT]));
        }
        let fingerprint: [u8; 32] = take32(raw, FINGERPRINT_AT);
        let challenge: [u8; 32] = take32(raw, CHALLENGE_AT);
        Ok(Header { fingerprint, challenge })
    }
}

/// Where a frame is, and its tag.
#[derive(Debug, Clone, Copy)]
pub struct FrameLoc {
    pub offset: u64,
    pub len: u32,
    pub tag: [u8; TAG_LEN],
}

#[verifier::ext_equal]
pub struct FrameView {
    /// Where in the archive the frame begins.
    pub offset: int,
    /// The length of the ciphertext.
    pub len: int,
    /// The tag, which ends the ciphertext.
    pub tag: Seq<u8>,
}

impl View for FrameLoc {
    type V = FrameView;

    open spec fn view(&self) -> FrameView {
        FrameView { offset: self.offset as int, len: self.len as int, tag: self.tag@ }
    }
}

pub open spec fn frame_views(frames: Seq<FrameLoc>) -> Seq<FrameView> {
    Seq::new(frames.len(), |i: int| frames[i]@)
}

impl FrameView {
    /// Where the ciphertext begins.
    pub open spec fn body(self) -> int {
        self.offset + LEN_PREFIX + NONCE_LEN
    }

    /// Where the frame ends.
    pub open spec fn end(self) -> int {
        self.body() + self.len
    }
}

/// The frame at an offset of an archive, if a whole one is there: the length of
/// the ciphertext, the nonce, the ciphertext.
pub open spec fn frame_at(contents: Seq<u8>, offset: int) -> Option<FrameView> {
    let size = contents.len();
    let len = crate::bytes::le32_value(contents.subrange(offset, offset + LEN_PREFIX));
    let frame = FrameView {
        offset,
        len,
        tag: contents.subrange(
            offset + LEN_PREFIX + NONCE_LEN + len - TAG_LEN,
            offset + LEN_PREFIX + NONCE_LEN + len,
        ),
    };
    if size - offset < LEN_PREFIX + NONCE_LEN + TAG_LEN {
        None
    } else if len < TAG_LEN || len > MAX_FRAME {
        None
    } else if frame.end() > size {
        None
    } else {
        Some(frame)
    }
}

/// The frames of an archive from an offset on, up to where no whole one is.
pub open spec fn frames_from(contents: Seq<u8>, offset: int) -> Seq<FrameView>
    decreases contents.len() - offset,
{
    match frame_at(contents, offset) {
        Some(frame) if offset >= 0 => seq![frame] + frames_from(contents, frame.end()),
        _ => seq![],
    }
}

/// Where the last of these frames ends.
pub open spec fn frames_end(contents: Seq<u8>, offset: int) -> int
    decreases contents.len() - offset,
{
    match frame_at(contents, offset) {
        Some(frame) if offset >= 0 => frames_end(contents, frame.end()),
        _ => offset,
    }
}

/// The data that a frame authenticates beside its own: its number and the tag of
/// the frame before it.
pub open spec fn chained(frames: Seq<FrameView>, index: int) -> Seq<u8> {
    crate::bytes::le64(index) + if index > 0 {
        frames[index - 1].tag
    } else {
        Seq::new(TAG_LEN as nat, |i: int| 0u8)
    }
}

/// What can keep a frame from being read.
#[derive(Debug, Clone, Copy, PartialEq, Eq)]
pub enum FrameError {
    /// There is no frame of that number.
    OutOfRange,
    /// The archive ends before the frame does.
    Missing,
    /// The frame is not what was sealed with this key at this place.
    Authentication,
    /// The frame holds nothing.
    Empty,
    /// The frame holds data that do not decompress.
    Decompression,
    /// The frame holds data of a kind that is not known.
    Flag(u8),
}

/// A record's bytes as the payload of a frame: compressed if that makes them
/// shorter.
pub open spec fn packed(cbor: Seq<u8>, squeezed: Option<Seq<u8>>) -> Seq<u8> {
    match squeezed {
        Some(bytes) if bytes.len() < cbor.len() => seq![FLAG_ZSTD] + bytes,
        _ => seq![FLAG_RAW] + cbor,
    }
}

/// The record's bytes that a payload holds, where `inflated` is what its
/// compressed data decompress to.
pub open spec fn unpacked_with(plain: Seq<u8>, inflated: Option<Seq<u8>>) -> Result<
    Seq<u8>,
    FrameError,
> {
    if plain.len() == 0 {
        Err(FrameError::Empty)
    } else if plain[0] == FLAG_RAW {
        Ok(plain.skip(1))
    } else if plain[0] == FLAG_ZSTD {
        match inflated {
            Some(cbor) => Ok(cbor),
            None => Err(FrameError::Decompression),
        }
    } else {
        Err(FrameError::Flag(plain[0]))
    }
}

/// The record's bytes that a payload holds.
pub open spec fn unpacked(plain: Seq<u8>) -> Result<Seq<u8>, FrameError> {
    unpacked_with(plain, crate::crypto::decompressed(plain.skip(1), MAX_FRAME as usize))
}

/// A result over bytes, as one over sequences.
pub open spec fn result_view(result: Result<Vec<u8>, FrameError>) -> Result<Seq<u8>, FrameError> {
    match result {
        Ok(bytes) => Ok(bytes@),
        Err(error) => Err(error),
    }
}

pub open spec fn option_view(option: Option<Vec<u8>>) -> Option<Seq<u8>> {
    match option {
        Some(bytes) => Some(bytes@),
        None => None,
    }
}

/// A record's bytes as the payload of a frame, given what compression made of
/// them.
pub fn pack(cbor: &[u8], squeezed: Option<Vec<u8>>) -> (plain: Vec<u8>)
    ensures
        plain@ == packed(cbor@, option_view(squeezed)),
{
    let mut plain: Vec<u8> = Vec::new();
    match squeezed {
        Some(bytes) if bytes.len() < cbor.len() => {
            plain.push(FLAG_ZSTD);
            plain.extend_from_slice(bytes.as_slice());
            assert(plain@ =~= seq![FLAG_ZSTD] + bytes@);
        },
        _ => {
            plain.push(FLAG_RAW);
            plain.extend_from_slice(cbor);
            assert(plain@ =~= seq![FLAG_RAW] + cbor@);
        },
    }
    plain
}

/// A record's bytes as the payload of a frame: compressed if that makes them
/// shorter, and as they are only otherwise or where they could not be compressed.
/// What the payload holds is the record's bytes again, if there are no more of them
/// than a frame may have.
pub fn encode_payload(cbor: &[u8]) -> (plain: Vec<u8>)
    requires
        crate::crypto::compressible(cbor@.len() as int),
    ensures
        payload_of(plain@, cbor@),
        !crate::crypto::can_fail(cbor@, ZSTD_LEVEL) ==> plain@ == packed(
            cbor@,
            Some(crate::crypto::compressed(cbor@, ZSTD_LEVEL)),
        ),
        plain@.len() <= cbor@.len() + 1,
        cbor@.len() <= MAX_FRAME ==> unpacked(plain@) == Ok::<Seq<u8>, FrameError>(cbor@),
{
    let squeezed: Option<Vec<u8>> = compress(cbor, ZSTD_LEVEL);
    let ghost outcome = option_view(squeezed);
    let plain: Vec<u8> = pack(cbor, squeezed);
    proof {
        match outcome {
            Some(bytes) if bytes.len() < cbor@.len() => {
                assert(plain@.skip(1) =~= bytes);
            },
            _ => {
                assert(plain@.skip(1) =~= cbor@);
            },
        }
    }
    plain
}

/// The record's bytes that a payload holds, given what its compressed data
/// decompress to.
pub fn unpack(plain: &[u8], inflated: Option<Vec<u8>>) -> (cbor: Result<Vec<u8>, FrameError>)
    ensures
        result_view(cbor) == unpacked_with(plain@, option_view(inflated)),
{
    if plain.len() == 0 {
        return Err(FrameError::Empty);
    }
    let flag: u8 = plain[0];
    if flag == FLAG_RAW {
        let body: &[u8] = vstd::slice::slice_subrange(plain, 1, plain.len());
        assert(body@ =~= plain@.skip(1));
        let cbor: Vec<u8> = vstd::slice::slice_to_vec(body);
        Ok(cbor)
    } else if flag == FLAG_ZSTD {
        match inflated {
            Some(cbor) => Ok(cbor),
            None => Err(FrameError::Decompression),
        }
    } else {
        Err(FrameError::Flag(flag))
    }
}

/// The record's bytes that a payload holds.
pub fn decode_payload(plain: &[u8]) -> (cbor: Result<Vec<u8>, FrameError>)
    ensures
        result_view(cbor) == unpacked(plain@),
{
    if plain.len() == 0 {
        return unpack(plain, None);
    }
    let body: &[u8] = vstd::slice::slice_subrange(plain, 1, plain.len());
    assert(body@ =~= plain@.skip(1));
    let inflated: Option<Vec<u8>> = if plain[0] == FLAG_ZSTD {
        decompress(body, MAX_FRAME as usize)
    } else {
        None
    };
    unpack(plain, inflated)
}

/// An archive: its header, where its frames are, and where the next one goes.
pub struct Blackbox {
    header: Header,
    frames: Vec<FrameLoc>,
    end: u64,
}

#[verifier::ext_equal]
pub struct BlackboxView {
    pub header: HeaderView,
    pub frames: Seq<FrameView>,
    pub end: int,
}

impl View for Blackbox {
    type V = BlackboxView;

    closed spec fn view(&self) -> BlackboxView {
        BlackboxView {
            header: self.header@,
            frames: frame_views(self.frames@),
            end: self.end as int,
        }
    }
}

impl BlackboxView {
    /// Whether the frames are whole and end before the next one goes.
    pub open spec fn valid(self) -> bool {
        &&& HEADER_LEN <= self.end <= u64::MAX
        &&& self.header.fingerprint.len() == KEY_LEN
        &&& self.header.challenge.len() == KEY_LEN
        &&& forall|i: int|
            0 <= i < self.frames.len() ==> {
                &&& HEADER_LEN <= (#[trigger] self.frames[i]).offset
                &&& TAG_LEN <= self.frames[i].len <= MAX_FRAME
                &&& self.frames[i].tag.len() == TAG_LEN
                &&& self.frames[i].end() <= self.end
            }
    }

    /// Whether this is the archive that a file holds, to its last byte.
    pub open spec fn describes(self, contents: Seq<u8>) -> bool {
        &&& contents.len() == self.end
        &&& header_read(contents.take(HEADER_LEN as int)) == Ok::<HeaderView, OpenError>(
            self.header,
        )
        &&& self.frames == frames_from(contents, HEADER_LEN as int)
        &&& self.end == frames_end(contents, HEADER_LEN as int)
    }

    /// The archive with one more frame.
    pub open spec fn with_frame(self, frame: FrameView) -> BlackboxView {
        BlackboxView { frames: self.frames.push(frame), end: frame.end(), ..self }
    }
}

/// An archive that was opened, and what is to be done to its file.
pub struct Opened {
    pub store: Blackbox,
    /// The header to be written, if the file was empty.
    pub header: Option<Vec<u8>>,
    /// The length that the file is to be cut to, if it ends in what is no frame.
    pub cut: Option<u64>,
}

#[verifier::ext_equal]
pub struct OpenedView {
    pub store: BlackboxView,
    pub header: Option<Seq<u8>>,
    pub cut: Option<int>,
}

impl View for Opened {
    type V = OpenedView;

    open spec fn view(&self) -> OpenedView {
        OpenedView {
            store: self.store@,
            header: option_view(self.header),
            cut: match self.cut {
                Some(len) => Some(len as int),
                None => None,
            },
        }
    }
}

/// What opening a file gives: a new archive with this challenge if the file is
/// empty, else the archive that it holds.
pub open spec fn opening(
    contents: Seq<u8>,
    fingerprint: Seq<u8>,
    challenge: Seq<u8>,
) -> Result<OpenedView, OpenError> {
    if contents.len() == 0 {
        let header = HeaderView { fingerprint, challenge };
        Ok(
            OpenedView {
                store: BlackboxView { header, frames: seq![], end: HEADER_LEN as int },
                header: Some(header_bytes(header)),
                cut: None,
            },
        )
    } else if contents.len() < HEADER_LEN {
        Err(OpenError::Truncated)
    } else {
        match header_read(contents.take(HEADER_LEN as int)) {
            Err(error) => Err(error),
            Ok(header) => {
                let end = frames_end(contents, HEADER_LEN as int);
                Ok(
                    OpenedView {
                        store: BlackboxView {
                            header,
                            frames: frames_from(contents, HEADER_LEN as int),
                            end,
                        },
                        header: None,
                        cut: if end < contents.len() {
                            Some(end)
                        } else {
                            None
                        },
                    },
                )
            },
        }
    }
}

pub open spec fn opened_view(result: Result<Opened, OpenError>) -> Result<OpenedView, OpenError> {
    match result {
        Ok(opened) => Ok(opened@),
        Err(error) => Err(error),
    }
}

/// The record's bytes that the frame of a number holds.
pub open spec fn frame_opened(
    frames: Seq<FrameView>,
    key: Seq<u8>,
    contents: Seq<u8>,
    index: int,
) -> Result<Seq<u8>, FrameError> {
    if index >= frames.len() {
        Err(FrameError::OutOfRange)
    } else {
        let frame = frames[index];
        if frame.end() > contents.len() {
            Err(FrameError::Missing)
        } else {
            match crate::crypto::opened(
                key,
                contents.subrange(frame.offset + LEN_PREFIX, frame.body()),
                chained(frames, index),
                contents.subrange(frame.body(), frame.end()),
            ) {
                None => Err(FrameError::Authentication),
                Some(plain) => unpacked(plain),
            }
        }
    }
}

/// The records' bytes that the first `n` frames hold, or the first frame that
/// cannot be read.
pub open spec fn all_opened(
    frames: Seq<FrameView>,
    key: Seq<u8>,
    contents: Seq<u8>,
    n: int,
) -> Result<Seq<Seq<u8>>, (int, FrameError)>
    decreases n,
{
    if n <= 0 {
        Ok(seq![])
    } else {
        match all_opened(frames, key, contents, n - 1) {
            Err(error) => Err(error),
            Ok(before) => match frame_opened(frames, key, contents, n - 1) {
                Err(error) => Err((n - 1, error)),
                Ok(cbor) => Ok(before.push(cbor)),
            },
        }
    }
}

/// What can keep a record from being added.
#[derive(Debug, Clone, Copy, PartialEq, Eq)]
pub enum AppendError {
    /// The record could not be sealed.
    Encryption,
    /// The record is longer than a frame may be.
    TooLarge,
}

/// A frame that is to be written, and then to be counted in.
pub struct Staged {
    /// The number of the frame.
    pub index: usize,
    /// Where the frame goes.
    pub frame: FrameLoc,
    /// The bytes of the frame.
    pub bytes: Vec<u8>,
}

#[verifier::ext_equal]
pub struct StagedView {
    pub index: int,
    pub frame: FrameView,
    pub bytes: Seq<u8>,
}

impl View for Staged {
    type V = StagedView;

    open spec fn view(&self) -> StagedView {
        StagedView { index: self.index as int, frame: self.frame@, bytes: self.bytes@ }
    }
}

pub open spec fn staged_view(result: Result<Staged, AppendError>) -> Result<
    StagedView,
    AppendError,
> {
    match result {
        Ok(staged) => Ok(staged@),
        Err(error) => Err(error),
    }
}

/// The frame that a nonce and a ciphertext make at the end of an archive.
pub open spec fn frame_staged(
    store: BlackboxView,
    nonce: Seq<u8>,
    ciphertext: Option<Seq<u8>>,
) -> Result<StagedView, AppendError> {
    match ciphertext {
        None => Err(AppendError::Encryption),
        Some(bytes) => if bytes.len() > MAX_FRAME {
            Err(AppendError::TooLarge)
        } else {
            Ok(
                StagedView {
                    index: store.frames.len() as int,
                    frame: FrameView {
                        offset: store.end,
                        len: bytes.len() as int,
                        tag: bytes.subrange(bytes.len() - TAG_LEN, bytes.len() as int),
                    },
                    bytes: crate::bytes::le32(bytes.len() as int) + nonce + bytes,
                },
            )
        },
    }
}

/// The frame that a payload makes at the end of an archive. A payload of 2^32 - 1
/// blocks of 64 bytes or more cannot be sealed at all.
pub open spec fn payload_staged(
    store: BlackboxView,
    key: Seq<u8>,
    nonce: Seq<u8>,
    plain: Seq<u8>,
) -> Result<StagedView, AppendError> {
    if plain.len() / 64 >= 0xffff_ffff {
        Err(AppendError::Encryption)
    } else if plain.len() + TAG_LEN > MAX_FRAME {
        Err(AppendError::TooLarge)
    } else {
        frame_staged(
            store,
            nonce,
            Some(
                crate::crypto::sealed(
                    key,
                    nonce,
                    chained(store.frames, store.frames.len() as int),
                    plain,
                ),
            ),
        )
    }
}

/// Whether some bytes are the payload of a record's bytes. These are compressed if
/// that makes them shorter, unless compressing them can fail.
pub open spec fn payload_of(plain: Seq<u8>, cbor: Seq<u8>) -> bool {
    ||| plain == packed(cbor, Some(crate::crypto::compressed(cbor, ZSTD_LEVEL)))
    ||| crate::crypto::can_fail(cbor, ZSTD_LEVEL) && plain == packed(cbor, None)
}

/// Whether a frame is the next one of an archive.
pub open spec fn next_frame(store: BlackboxView, staged: StagedView) -> bool {
    &&& staged.index == store.frames.len()
    &&& staged.frame.offset == store.end
    &&& TAG_LEN <= staged.frame.len <= MAX_FRAME
    &&& staged.frame.tag.len() == TAG_LEN
    &&& staged.bytes.len() == staged.frame.end() - staged.frame.offset
}

/// Reads the frame at an offset of an archive, if a whole one is there.
fn locate(contents: &[u8], offset: usize) -> (frame: Option<FrameLoc>)
    requires
        offset <= contents@.len(),
    ensures
        match frame {
            Some(found) => frame_at(contents@, offset as int) == Some(found@),
            None => frame_at(contents@, offset as int) is None,
        },
{
    let size: usize = contents.len();
    if size - offset < LEN_PREFIX + NONCE_LEN + TAG_LEN {
        return None;
    }
    let len: u32 = get_le32(contents, offset);
    if len < TAG_LEN as u32 || len > MAX_FRAME {
        return None;
    }
    let body: usize = NONCE_LEN + len as usize;
    if size - offset - LEN_PREFIX < body {
        return None;
    }
    let next: usize = offset + LEN_PREFIX + body;
    let tag: [u8; 16] = take16(contents, next - TAG_LEN);
    Some(FrameLoc { offset: offset as u64, len, tag })
}

/// Frames lie one behind the other and within the file.
proof fn frames_lie_within(contents: Seq<u8>, offset: int)
    requires
        0 <= offset <= contents.len(),
    ensures
        offset <= frames_end(contents, offset) <= contents.len(),
        forall|i: int|
            0 <= i < frames_from(contents, offset).len() ==> {
                let frame = #[trigger] frames_from(contents, offset)[i];
                &&& offset <= frame.offset
                &&& TAG_LEN <= frame.len <= MAX_FRAME
                &&& frame.tag.len() == TAG_LEN
                &&& frame.end() <= frames_end(contents, offset)
            },
    decreases contents.len() - offset,
{
    if let Some(frame) = frame_at(contents, offset) {
        frames_lie_within(contents, frame.end());
        let rest = frames_from(contents, frame.end());
        assert forall|i: int| 0 <= i < frames_from(contents, offset).len() implies {
            let found = #[trigger] frames_from(contents, offset)[i];
            &&& offset <= found.offset
            &&& TAG_LEN <= found.len <= MAX_FRAME
            &&& found.tag.len() == TAG_LEN
            &&& found.end() <= frames_end(contents, offset)
        } by {
            if i > 0 {
                assert(frames_from(contents, offset)[i] == rest[i - 1]);
            }
        }
    }
}

impl Blackbox {
    /// Opens the archive that a file holds, or makes one with a challenge drawn by
    /// chance if the file is empty.
    pub fn open_or_create(contents: &[u8], fingerprint: [u8; KEY_LEN]) -> (opened: Result<
        Opened,
        OpenError,
    >)
        ensures
            exists|challenge: Seq<u8>|
                challenge.len() == KEY_LEN && #[trigger] opening(
                    contents@,
                    fingerprint@,
                    challenge,
                ) == opened_view(opened),
            opened matches Ok(found) ==> found.store@.valid(),
    {
        let challenge: [u8; 32] = if contents.len() == 0 {
            let drawn: Vec<u8> = random(KEY_LEN);
            take32(drawn.as_slice(), 0)
        } else {
            [0u8; 32]
        };
        let opened: Result<Opened, OpenError> = Self::open_with(contents, fingerprint, challenge);
        assert(opening(contents@, fingerprint@, challenge@) == opened_view(opened));
        opened
    }

    /// Opens the archive that a file holds, or makes one with this challenge if the
    /// file is empty.
    pub fn open_with(
        contents: &[u8],
        fingerprint: [u8; KEY_LEN],
        challenge: [u8; KEY_LEN],
    ) -> (opened: Result<Opened, OpenError>)
        ensures
            opened_view(opened) == opening(contents@, fingerprint@, challenge@),
            opened matches Ok(found) ==> found.store@.valid(),
    {
        if contents.len() == 0 {
            let header: Header = Header { fingerprint, challenge };
            let raw: Vec<u8> = header.encode();
            let store: Blackbox = Blackbox { header, frames: Vec::new(), end: HEADER_LEN as u64 };
            assert(store@.frames =~= seq![]);
            return Ok(Opened { store, header: Some(raw), cut: None });
        }
        if contents.len() < HEADER_LEN {
            return Err(OpenError::Truncated);
        }
        let raw: &[u8] = vstd::slice::slice_subrange(contents, 0, HEADER_LEN);
        assert(raw@ =~= contents@.take(HEADER_LEN as int));
        match Header::decode(raw) {
            Err(error) => Err(error),
            Ok(header) => {
                let mut store: Blackbox = Blackbox {
                    header,
                    frames: Vec::new(),
                    end: HEADER_LEN as u64,
                };
                let cut: Option<u64> = store.rebuild_index(contents);
                Ok(Opened { store, header: None, cut })
            },
        }
    }

    /// Finds the frames of an archive. What comes after the last whole one is to be
    /// cut off: the length that is left is returned if anything does.
    pub fn rebuild_index(&mut self, contents: &[u8]) -> (cut: Option<u64>)
        requires
            contents@.len() >= HEADER_LEN,
        ensures
            final(self)@.header == old(self)@.header,
            final(self)@.frames == frames_from(contents@, HEADER_LEN as int),
            final(self)@.end == frames_end(contents@, HEADER_LEN as int),
            final(self)@.valid(),
            cut == (if final(self)@.end < contents@.len() {
                Some(final(self)@.end as u64)
            } else {
                None
            }),
    {
        let size: usize = contents.len();
        let mut frames: Vec<FrameLoc> = Vec::new();
        let mut offset: usize = HEADER_LEN;
        let mut more: bool = true;
        let ghost start = HEADER_LEN as int;
        proof {
            frames_lie_within(contents@, start);
            assert(frame_views(frames@) + frames_from(contents@, start) =~= frames_from(
                contents@,
                start,
            ));
        }
        while more
            invariant
                size == contents@.len(),
                start <= offset <= size,
                start == HEADER_LEN,
                frames_from(contents@, start) == frame_views(frames@) + frames_from(
                    contents@,
                    offset as int,
                ),
                frames_end(contents@, start) == frames_end(contents@, offset as int),
                !more ==> frame_at(contents@, offset as int) is None,
            decreases
                size - offset,
                if more {
                    1int
                } else {
                    0
                },
        {
            match locate(contents, offset) {
                None => {
                    more = false;
                },
                Some(frame) => {
                    let ghost before = frame_views(frames@);
                    let next: usize = offset + LEN_PREFIX + NONCE_LEN + frame.len as usize;
                    frames.push(frame);
                    proof {
                        assert(frame_views(frames@) =~= before.push(frame@));
                        let rest = frames_from(contents@, next as int);
                        assert(before + (seq![frame@] + rest) =~= before.push(frame@) + rest);
                    }
                    offset = next;
                },
            }
        }
        assert(frame_views(frames@) + Seq::<FrameView>::empty() =~= frame_views(frames@));
        self.frames = frames;
        self.end = offset as u64;
        if offset < size {
            Some(offset as u64)
        } else {
            None
        }
    }

    /// The header.
    pub fn header(&self) -> (header: &Header)
        ensures
            header@ == self@.header,
    {
        &self.header
    }

    /// The number of frames.
    pub fn frame_count(&self) -> (count: usize)
        ensures
            count == self@.frames.len(),
    {
        self.frames.len()
    }

    /// Whether the archive belongs to the key with this fingerprint.
    pub fn matches_key(&self, fingerprint: &[u8; KEY_LEN]) -> (matched: bool)
        ensures
            matched == (self@.header.fingerprint == fingerprint@),
    {
        same(self.header.fingerprint.as_slice(), fingerprint.as_slice())
    }

    /// The data that the frame of a number authenticates beside its own.
    fn aad(&self, index: usize) -> (data: Vec<u8>)
        requires
            index <= self@.frames.len(),
        ensures
            data@ == chained(self@.frames, index as int),
    {
        let mut data: Vec<u8> = Vec::new();
        put_le64(&mut data, index as u64);
        if index > 0 {
            data.extend_from_slice(self.frames[index - 1].tag.as_slice());
            assert(self@.frames[index - 1].tag == self.frames@[index - 1].tag@);
        } else {
            let none: [u8; 16] = [0u8; 16];
            data.extend_from_slice(none.as_slice());
            assert(none@ =~= Seq::new(TAG_LEN as nat, |i: int| 0u8));
        }
        assert(data@ =~= chained(self@.frames, index as int));
        data
    }

    /// The record's bytes that the frame of a number holds.
    pub fn decrypt(&self, key: &DataKey, contents: &[u8], index: usize) -> (cbor: Result<
        Vec<u8>,
        FrameError,
    >)
        requires
            self@.valid(),
        ensures
            result_view(cbor) == frame_opened(self@.frames, key@, contents@, index as int),
    {
        if index >= self.frames.len() {
            return Err(FrameError::OutOfRange);
        }
        let frame: FrameLoc = self.frames[index];
        assert(self@.frames[index as int] == frame@);
        let end: u64 = frame.offset + LEN_PREFIX as u64 + NONCE_LEN as u64 + frame.len as u64;
        if end > contents.len() as u64 {
            return Err(FrameError::Missing);
        }
        let aad: Vec<u8> = self.aad(index);
        let at: usize = frame.offset as usize + LEN_PREFIX;
        let nonce: [u8; 24] = take24(contents, at);
        let ciphertext: &[u8] = vstd::slice::slice_subrange(
            contents,
            at + NONCE_LEN,
            end as usize,
        );
        match decrypt(key.bytes(), &nonce, aad.as_slice(), ciphertext) {
            None => Err(FrameError::Authentication),
            Some(plain) => decode_payload(plain.as_slice()),
        }
    }

    /// The records' bytes that the frames hold, in order, or the number of the first
    /// frame that cannot be read and the reason.
    pub fn load_all(&self, key: &DataKey, contents: &[u8]) -> (records: Result<
        Vec<Vec<u8>>,
        (usize, FrameError),
    >)
        requires
            self@.valid(),
        ensures
            match records {
                Ok(found) => all_opened(
                    self@.frames,
                    key@,
                    contents@,
                    self@.frames.len() as int,
                ) == Ok::<Seq<Seq<u8>>, (int, FrameError)>(
                    Seq::new(found@.len(), |i: int| found@[i]@),
                ),
                Err((index, error)) => all_opened(
                    self@.frames,
                    key@,
                    contents@,
                    self@.frames.len() as int,
                ) == Err::<Seq<Seq<u8>>, (int, FrameError)>((index as int, error)),
            },
    {
        let mut records: Vec<Vec<u8>> = Vec::new();
        let mut i: usize = 0;
        let ghost frames = self@.frames;
        assert(Seq::new(records@.len(), |k: int| records@[k]@) =~= seq![]);
        while i < self.frames.len()
            invariant
                i <= self.frames.len(),
                self@.valid(),
                frames == self@.frames,
                frames.len() == self.frames@.len(),
                all_opened(frames, key@, contents@, i as int) == Ok::<
                    Seq<Seq<u8>>,
                    (int, FrameError),
                >(Seq::new(records@.len(), |k: int| records@[k]@)),
            decreases self.frames.len() - i,
        {
            let ghost before = Seq::new(records@.len(), |k: int| records@[k]@);
            match self.decrypt(key, contents, i) {
                Err(error) => {
                    proof {
                        failure_stays(
                            frames,
                            key@,
                            contents@,
                            i + 1,
                            frames.len() as int,
                        );
                    }
                    return Err((i, error));
                },
                Ok(cbor) => {
                    records.push(cbor);
                    assert(Seq::new(records@.len(), |k: int| records@[k]@) =~= before.push(
                        cbor@,
                    ));
                },
            }
            i = i + 1;
        }
        Ok(records)
    }

    /// The record's bytes of the first frame, if there is one: no other key opens it.
    pub fn verify_key(&self, key: &DataKey, contents: &[u8]) -> (first: Result<
        Option<Vec<u8>>,
        FrameError,
    >)
        requires
            self@.valid(),
        ensures
            self@.frames.len() == 0 ==> first == Ok::<Option<Vec<u8>>, FrameError>(None),
            self@.frames.len() > 0 ==> match first {
                Ok(Some(cbor)) => frame_opened(self@.frames, key@, contents@, 0) == Ok::<
                    Seq<u8>,
                    FrameError,
                >(cbor@),
                Ok(None) => false,
                Err(error) => frame_opened(self@.frames, key@, contents@, 0) == Err::<
                    Seq<u8>,
                    FrameError,
                >(error),
            },
    {
        if self.frames.len() == 0 {
            return Ok(None);
        }
        match self.decrypt(key, contents, 0) {
            Ok(cbor) => Ok(Some(cbor)),
            Err(error) => Err(error),
        }
    }

    /// Seals a record's bytes as the next frame, under a nonce drawn by chance. What
    /// the frame holds is the record's bytes again once it is written, if there are no
    /// more of them than a frame may have.
    pub fn append(&self, key: &DataKey, cbor: &[u8]) -> (staged: Result<Staged, AppendError>)
        requires
            self@.valid(),
            crate::crypto::compressible(cbor@.len() as int),
        ensures
            exists|nonce: Seq<u8>, plain: Seq<u8>|
                {
                    &&& nonce.len() == NONCE_LEN
                    &&& payload_of(plain, cbor@)
                    &&& #[trigger] payload_staged(self@, key@, nonce, plain) == staged_view(staged)
                    &&& staged is Ok <==> plain.len() + TAG_LEN <= MAX_FRAME
                    &&& staged matches Ok(frame) ==> frame@.frame.len == plain.len() + TAG_LEN
                },
            cbor@.len() + 1 + TAG_LEN <= MAX_FRAME ==> staged is Ok,
            !crate::crypto::can_fail(cbor@, ZSTD_LEVEL) ==> (staged is Ok <==> packed(
                cbor@,
                Some(crate::crypto::compressed(cbor@, ZSTD_LEVEL)),
            ).len() + TAG_LEN <= MAX_FRAME),
            staged matches Ok(frame) ==> next_frame(self@, frame@),
            staged matches Ok(frame) ==> forall|contents: Seq<u8>|
                contents.len() == self@.end && cbor@.len() <= MAX_FRAME
                    ==> #[trigger] frame_opened(
                    self@.frames.push(frame@.frame),
                    key@,
                    contents + frame@.bytes,
                    frame@.index,
                ) == Ok::<Seq<u8>, FrameError>(cbor@),
    {
        let plain: Vec<u8> = encode_payload(cbor);
        let drawn: Vec<u8> = random(NONCE_LEN);
        let nonce: [u8; 24] = take24(drawn.as_slice(), 0);
        let staged: Result<Staged, AppendError> = self.seal(key, &nonce, plain.as_slice());
        proof {
            assert(payload_of(plain@, cbor@));
            assert(payload_staged(self@, key@, nonce@, plain@) == staged_view(staged));
        }
        staged
    }

    /// Seals a payload as the next frame, under this nonce.
    pub fn seal(&self, key: &DataKey, nonce: &[u8; NONCE_LEN], plain: &[u8]) -> (staged: Result<
        Staged,
        AppendError,
    >)
        requires
            self@.valid(),
        ensures
            staged_view(staged) == payload_staged(self@, key@, nonce@, plain@),
            staged is Ok <==> plain@.len() + TAG_LEN <= MAX_FRAME,
            staged matches Ok(frame) ==> frame@.frame.len == plain@.len() + TAG_LEN,
            staged matches Ok(frame) ==> next_frame(self@, frame@),
            staged matches Ok(frame) ==> forall|contents: Seq<u8>|
                contents.len() == self@.end ==> #[trigger] frame_opened(
                    self@.frames.push(frame@.frame),
                    key@,
                    contents + frame@.bytes,
                    frame@.index,
                ) == unpacked(plain@),
    {
        if plain.len() > MAX_FRAME as usize - TAG_LEN {
            return Err(
                if plain.len() / 64 >= 0xffff_ffff {
                    AppendError::Encryption
                } else {
                    AppendError::TooLarge
                },
            );
        }
        let index: usize = self.frames.len();
        let aad: Vec<u8> = self.aad(index);
        let ciphertext: Option<Vec<u8>> = encrypt(key.bytes(), nonce, aad.as_slice(), plain);
        let ghost outcome = option_view(ciphertext);
        let staged: Result<Staged, AppendError> = self.stage(nonce, ciphertext);
        proof {
            if let Ok(frame) = staged_view(staged) {
                let bytes = outcome->Some_0;
                let loc = frame.frame;
                assert forall|contents: Seq<u8>| contents.len() == self@.end implies (
                #[trigger] frame_opened(
                    self@.frames.push(loc),
                    key@,
                    contents + frame.bytes,
                    frame.index,
                )) == unpacked(plain@) by {
                    let file = contents + frame.bytes;
                    assert(file.subrange(loc.offset + LEN_PREFIX, loc.body()) =~= nonce@);
                    assert(file.subrange(loc.body(), loc.end()) =~= bytes);
                    assert(chained(self@.frames.push(loc), index as int) =~= chained(
                        self@.frames,
                        index as int,
                    ));
                }
            }
        }
        staged
    }

    /// Makes the next frame of a nonce and of what sealing a payload gave.
    pub fn stage(&self, nonce: &[u8; NONCE_LEN], ciphertext: Option<Vec<u8>>) -> (staged: Result<
        Staged,
        AppendError,
    >)
        requires
            ciphertext matches Some(bytes) ==> bytes@.len() >= TAG_LEN,
        ensures
            staged_view(staged) == frame_staged(self@, nonce@, option_view(ciphertext)),
            staged matches Ok(frame) ==> next_frame(self@, frame@),
    {
        match ciphertext {
            None => Err(AppendError::Encryption),
            Some(bytes) => {
                if bytes.len() > MAX_FRAME as usize {
                    return Err(AppendError::TooLarge);
                }
                let len: u32 = bytes.len() as u32;
                let mut framed: Vec<u8> = Vec::new();
                put_le32(&mut framed, len);
                framed.extend_from_slice(nonce.as_slice());
                framed.extend_from_slice(bytes.as_slice());
                let tag: [u8; 16] = take16(bytes.as_slice(), bytes.len() - TAG_LEN);
                assert(framed@ =~= crate::bytes::le32(len as int) + nonce@ + bytes@);
                Ok(
                    Staged {
                        index: self.frames.len(),
                        frame: FrameLoc { offset: self.end, len, tag },
                        bytes: framed,
                    },
                )
            },
        }
    }

    /// Counts in a frame that has been written.
    pub fn commit(&mut self, staged: Staged) -> (index: usize)
        requires
            old(self)@.valid(),
            next_frame(old(self)@, staged@),
            staged@.frame.end() <= u64::MAX,
        ensures
            final(self)@ == old(self)@.with_frame(staged@.frame),
            final(self)@.valid(),
            final(self)@.header == old(self)@.header,
            final(self)@.frames == old(self)@.frames.push(staged@.frame),
            final(self)@.end == old(self)@.end + staged@.bytes.len(),
            index == old(self)@.frames.len(),
    {
        let ghost before = self@;
        let index: usize = self.frames.len();
        let end: u64 = self.end + staged.bytes.len() as u64;
        self.frames.push(staged.frame);
        self.end = end;
        proof {
            assert(self@.frames =~= before.frames.push(staged@.frame));
            assert forall|i: int| 0 <= i < self@.frames.len() implies {
                &&& HEADER_LEN <= (#[trigger] self@.frames[i]).offset
                &&& TAG_LEN <= self@.frames[i].len <= MAX_FRAME
                &&& self@.frames[i].tag.len() == TAG_LEN
                &&& self@.frames[i].end() <= self@.end
            } by {
                if i < before.frames.len() {
                    assert(self@.frames[i] == before.frames[i]);
                }
            }
        }
        index
    }
}

/// Once a frame cannot be read, the frames after it change nothing.
proof fn failure_stays(
    frames: Seq<FrameView>,
    key: Seq<u8>,
    contents: Seq<u8>,
    n: int,
    m: int,
)
    requires
        all_opened(frames, key, contents, n) is Err,
        n <= m,
    ensures
        all_opened(frames, key, contents, m) == all_opened(frames, key, contents, n),
    decreases m - n,
{
    if n < m {
        failure_stays(frames, key, contents, n, m - 1);
    }
}

/// A frame that is whole stays where it is when the file is longer or is cut
/// behind it.
proof fn frame_stays(contents: Seq<u8>, other: Seq<u8>, offset: int)
    requires
        0 <= offset,
        frame_at(contents, offset) is Some,
        frame_at(contents, offset)->Some_0.end() <= other.len(),
        forall|i: int|
            0 <= i < frame_at(contents, offset)->Some_0.end() ==> contents[i] == other[i],
    ensures
        frame_at(other, offset) == frame_at(contents, offset),
{
    let frame = frame_at(contents, offset)->Some_0;
    assert(other.subrange(offset, offset + LEN_PREFIX) =~= contents.subrange(
        offset,
        offset + LEN_PREFIX,
    ));
    assert(other.subrange(frame.end() - TAG_LEN, frame.end()) =~= contents.subrange(
        frame.end() - TAG_LEN,
        frame.end(),
    ));
}

/// What is written behind the last frame leaves the frames before it.
proof fn frames_stay(contents: Seq<u8>, more: Seq<u8>, offset: int)
    requires
        0 <= offset <= contents.len(),
        frames_end(contents, offset) == contents.len(),
    ensures
        frames_from(contents + more, offset) == frames_from(contents, offset) + frames_from(
            contents + more,
            contents.len() as int,
        ),
        frames_end(contents + more, offset) == frames_end(
            contents + more,
            contents.len() as int,
        ),
    decreases contents.len() - offset,
{
    match frame_at(contents, offset) {
        None => {
            assert(frames_from(contents, offset) + frames_from(contents + more, offset)
                =~= frames_from(contents + more, offset));
        },
        Some(frame) => {
            frame_stays(contents, contents + more, offset);
            frames_stay(contents, more, frame.end());
            let tail = frames_from(contents + more, contents.len() as int);
            assert(seq![frame] + (frames_from(contents, frame.end()) + tail) =~= (seq![frame]
                + frames_from(contents, frame.end())) + tail);
        },
    }
}

/// Frames stay where they are when the file is cut behind the last of them.
proof fn frames_stay_when_cut(contents: Seq<u8>, offset: int)
    requires
        0 <= offset <= contents.len(),
    ensures
        ({
            let short = contents.take(frames_end(contents, offset));
            &&& frames_from(short, offset) == frames_from(contents, offset)
            &&& frames_end(short, offset) == frames_end(contents, offset)
        }),
    decreases contents.len() - offset,
{
    frames_lie_within(contents, offset);
    let short = contents.take(frames_end(contents, offset));
    if let Some(frame) = frame_at(contents, offset) {
        frames_lie_within(contents, frame.end());
        frame_stays(contents, short, offset);
        frames_stay_when_cut(contents, frame.end());
    }
}

/// A frame that is written at the end of an archive is found there, behind the
/// frames that were there before.
pub proof fn written_frame_is_found(
    store: BlackboxView,
    contents: Seq<u8>,
    nonce: Seq<u8>,
    ciphertext: Seq<u8>,
    staged: StagedView,
)
    requires
        store.valid(),
        store.describes(contents),
        nonce.len() == NONCE_LEN,
        ciphertext.len() >= TAG_LEN,
        frame_staged(store, nonce, Some(ciphertext)) == Ok::<StagedView, AppendError>(staged),
    ensures
        store.with_frame(staged.frame).describes(contents + staged.bytes),
{
    let file = contents + staged.bytes;
    let start = HEADER_LEN as int;
    let len = ciphertext.len() as int;
    frames_stay(contents, staged.bytes, start);
    crate::bytes::le32_round_trip(len);
    assert(file.subrange(store.end, store.end + LEN_PREFIX) =~= crate::bytes::le32(len));
    assert(file.subrange(
        staged.frame.end() - TAG_LEN,
        staged.frame.end(),
    ) =~= staged.frame.tag);
    assert(frame_at(file, store.end) == Some(staged.frame));
    assert(frame_at(file, staged.frame.end()) is None);
    assert(frames_from(file, staged.frame.end()) =~= seq![]);
    assert(frames_from(file, store.end) =~= seq![staged.frame]);
    assert(frames_end(file, staged.frame.end()) == staged.frame.end());
    assert(frames_end(file, store.end) == staged.frame.end());
    assert(store.frames + seq![staged.frame] =~= store.frames.push(staged.frame));
    assert(file.take(start) =~= contents.take(start));
}

/// If writing a frame is broken off, opening the file finds the archive as it was
/// before and has what was written of the frame cut off.
pub proof fn torn_frame_is_cut_off(
    store: BlackboxView,
    contents: Seq<u8>,
    nonce: Seq<u8>,
    ciphertext: Seq<u8>,
    staged: StagedView,
    written: int,
    fingerprint: Seq<u8>,
    challenge: Seq<u8>,
)
    requires
        store.valid(),
        store.describes(contents),
        nonce.len() == NONCE_LEN,
        ciphertext.len() >= TAG_LEN,
        frame_staged(store, nonce, Some(ciphertext)) == Ok::<StagedView, AppendError>(staged),
        0 <= written < staged.bytes.len(),
    ensures
        opening(contents + staged.bytes.take(written), fingerprint, challenge) == Ok::<
            OpenedView,
            OpenError,
        >(
            OpenedView {
                store,
                header: None,
                cut: if written > 0 {
                    Some(store.end)
                } else {
                    None
                },
            },
        ),
{
    let part = staged.bytes.take(written);
    let file = contents + part;
    let start = HEADER_LEN as int;
    let len = ciphertext.len() as int;
    frames_stay(contents, part, start);
    crate::bytes::le32_round_trip(len);
    if written >= LEN_PREFIX {
        assert(file.subrange(store.end, store.end + LEN_PREFIX) =~= crate::bytes::le32(len));
    }
    assert(frame_at(file, store.end) is None);
    assert(frames_from(file, store.end) =~= seq![]);
    assert(store.frames + Seq::<FrameView>::empty() =~= store.frames);
    assert(file.take(start) =~= contents.take(start));
}

/// Opening a file again, after what was to be done to it, finds the same archive
/// and leaves nothing to be done.
pub proof fn opening_again(contents: Seq<u8>, fingerprint: Seq<u8>, challenge: Seq<u8>)
    requires
        opening(contents, fingerprint, challenge) is Ok,
        fingerprint.len() == KEY_LEN,
        challenge.len() == KEY_LEN,
    ensures
        ({
            let first = opening(contents, fingerprint, challenge)->Ok_0;
            let file = match first.header {
                Some(raw) => raw,
                None => contents.take(first.store.end),
            };
            &&& first.store.describes(file)
            &&& opening(file, fingerprint, challenge) == Ok::<OpenedView, OpenError>(
                OpenedView { store: first.store, header: None, cut: None },
            )
        }),
{
    let first = opening(contents, fingerprint, challenge)->Ok_0;
    let start = HEADER_LEN as int;
    if contents.len() == 0 {
        header_round_trip(first.store.header);
        let file = header_bytes(first.store.header);
        assert(file.take(start) =~= file);
        assert(frame_at(file, start) is None);
        assert(frames_from(file, start) =~= seq![]);
    } else {
        frames_lie_within(contents, start);
        frames_stay_when_cut(contents, start);
        let file = contents.take(first.store.end);
        assert(file.take(start) =~= contents.take(start));
    }
}

/// Finding the frames again, once what comes after the last whole one is cut off,
/// finds the same and leaves nothing to be cut off.
pub proof fn rebuilding_again(contents: Seq<u8>)
    requires
        contents.len() >= HEADER_LEN,
    ensures
        ({
            let end = frames_end(contents, HEADER_LEN as int);
            let file = contents.take(end);
            &&& HEADER_LEN <= end <= contents.len()
            &&& frames_from(file, HEADER_LEN as int) == frames_from(contents, HEADER_LEN as int)
            &&& frames_end(file, HEADER_LEN as int) == file.len()
        }),
{
    frames_lie_within(contents, HEADER_LEN as int);
    frames_stay_when_cut(contents, HEADER_LEN as int);
}

/// A frame more leaves the frames before it as they were read.
pub proof fn earlier_frames_stay(
    store: BlackboxView,
    frame: FrameView,
    key: Seq<u8>,
    contents: Seq<u8>,
    more: Seq<u8>,
    index: int,
)
    requires
        store.valid(),
        contents.len() == store.end,
        0 <= index < store.frames.len(),
    ensures
        frame_opened(store.frames.push(frame), key, contents + more, index) == frame_opened(
            store.frames,
            key,
            contents,
            index,
        ),
{
    let found = store.frames[index];
    let file = contents + more;
    assert(store.frames.push(frame)[index] == found);
    assert(file.subrange(found.offset + LEN_PREFIX, found.body()) =~= contents.subrange(
        found.offset + LEN_PREFIX,
        found.body(),
    ));
    assert(file.subrange(found.body(), found.end()) =~= contents.subrange(
        found.body(),
        found.end(),
    ));
    if index > 0 {
        assert(store.frames.push(frame)[index - 1] == store.frames[index - 1]);
    }
}

/// What is read after a record has been added is what was read before, and that
/// record.
pub proof fn history_grows(
    store: BlackboxView,
    frame: FrameView,
    key: Seq<u8>,
    contents: Seq<u8>,
    more: Seq<u8>,
    n: int,
)
    requires
        store.valid(),
        contents.len() == store.end,
        0 <= n <= store.frames.len(),
    ensures
        all_opened(store.frames.push(frame), key, contents + more, n) == all_opened(
            store.frames,
            key,
            contents,
            n,
        ),
        n == store.frames.len() ==> match (
            all_opened(store.frames, key, contents, n),
            frame_opened(store.frames.push(frame), key, contents + more, n),
        ) {
            (Ok(before), Ok(cbor)) => all_opened(
                store.frames.push(frame),
                key,
                contents + more,
                n + 1,
            ) == Ok::<Seq<Seq<u8>>, (int, FrameError)>(before.push(cbor)),
            _ => true,
        },
    decreases n,
{
    if n > 0 {
        history_grows(store, frame, key, contents, more, n - 1);
        earlier_frames_stay(store, frame, key, contents, more, n - 1);
    }
}

/// An archive to which a record was added is opened again as it is, and gives what
/// was read before and that record.
pub proof fn added_record_is_read_after_opening(
    store: BlackboxView,
    key: Seq<u8>,
    contents: Seq<u8>,
    nonce: Seq<u8>,
    plain: Seq<u8>,
    staged: StagedView,
    before: Seq<Seq<u8>>,
    cbor: Seq<u8>,
    fingerprint: Seq<u8>,
    challenge: Seq<u8>,
)
    requires
        store.valid(),
        store.describes(contents),
        nonce.len() == NONCE_LEN,
        payload_staged(store, key, nonce, plain) == Ok::<StagedView, AppendError>(staged),
        next_frame(store, staged),
        all_opened(store.frames, key, contents, store.frames.len() as int) == Ok::<
            Seq<Seq<u8>>,
            (int, FrameError),
        >(before),
        frame_opened(
            store.frames.push(staged.frame),
            key,
            contents + staged.bytes,
            staged.index,
        ) == Ok::<Seq<u8>, FrameError>(cbor),
    ensures
        ({
            let file = contents + staged.bytes;
            let after = store.with_frame(staged.frame);
            &&& opening(file, fingerprint, challenge) == Ok::<OpenedView, OpenError>(
                OpenedView { store: after, header: None, cut: None },
            )
            &&& all_opened(after.frames, key, file, after.frames.len() as int) == Ok::<
                Seq<Seq<u8>>,
                (int, FrameError),
            >(before.push(cbor))
        }),
{
    let ciphertext = crate::crypto::sealed(
        key,
        nonce,
        chained(store.frames, store.frames.len() as int),
        plain,
    );
    written_frame_is_found(store, contents, nonce, ciphertext, staged);
    history_grows(
        store,
        staged.frame,
        key,
        contents,
        staged.bytes,
        store.frames.len() as int,
    );
}

/// An archive to which frames were added one after the other.
pub open spec fn grown(store: BlackboxView, added: Seq<StagedView>) -> BlackboxView
    decreases added.len(),
{
    if added.len() == 0 {
        store
    } else {
        grown(store, added.drop_last()).with_frame(added.last().frame)
    }
}

/// A file to which frames were written one after the other.
pub open spec fn lengthened(contents: Seq<u8>, added: Seq<StagedView>) -> Seq<u8>
    decreases added.len(),
{
    if added.len() == 0 {
        contents
    } else {
        lengthened(contents, added.drop_last()) + added.last().bytes
    }
}

/// Whether a frame is one that adding a record to an archive gives.
pub open spec fn holds_record(
    store: BlackboxView,
    key: Seq<u8>,
    contents: Seq<u8>,
    staged: StagedView,
    cbor: Seq<u8>,
) -> bool {
    &&& exists|nonce: Seq<u8>, plain: Seq<u8>|
        nonce.len() == NONCE_LEN && #[trigger] payload_staged(store, key, nonce, plain) == Ok::<
            StagedView,
            AppendError,
        >(staged)
    &&& next_frame(store, staged)
    &&& frame_opened(
        store.frames.push(staged.frame),
        key,
        contents + staged.bytes,
        staged.index,
    ) == Ok::<Seq<u8>, FrameError>(cbor)
}

/// Whether frames are those that adding records to an archive one after the other
/// gives.
pub open spec fn hold_records(
    store: BlackboxView,
    key: Seq<u8>,
    contents: Seq<u8>,
    added: Seq<StagedView>,
    records: Seq<Seq<u8>>,
) -> bool
    decreases added.len(),
{
    added.len() == records.len() && (added.len() == 0 || {
        &&& hold_records(store, key, contents, added.drop_last(), records.drop_last())
        &&& holds_record(
            grown(store, added.drop_last()),
            key,
            lengthened(contents, added.drop_last()),
            added.last(),
            records.last(),
        )
    })
}

/// However many records were added to an archive, it is opened again as it is and
/// gives what was read before and then those records, in order.
pub proof fn added_records_are_read_after_opening(
    store: BlackboxView,
    key: Seq<u8>,
    contents: Seq<u8>,
    added: Seq<StagedView>,
    before: Seq<Seq<u8>>,
    records: Seq<Seq<u8>>,
    fingerprint: Seq<u8>,
    challenge: Seq<u8>,
)
    requires
        store.valid(),
        store.describes(contents),
        hold_records(store, key, contents, added, records),
        grown(store, added).end <= u64::MAX,
        all_opened(store.frames, key, contents, store.frames.len() as int) == Ok::<
            Seq<Seq<u8>>,
            (int, FrameError),
        >(before),
    ensures
        ({
            let file = lengthened(contents, added);
            let after = grown(store, added);
            &&& after.valid()
            &&& after.describes(file)
            &&& opening(file, fingerprint, challenge) == Ok::<OpenedView, OpenError>(
                OpenedView { store: after, header: None, cut: None },
            )
            &&& all_opened(after.frames, key, file, after.frames.len() as int) == Ok::<
                Seq<Seq<u8>>,
                (int, FrameError),
            >(before + records)
        }),
    decreases added.len(),
{
    if added.len() == 0 {
        assert(before + records =~= before);
    } else {
        let staged = added.last();
        let cbor = records.last();
        let prior = grown(store, added.drop_last());
        let file = lengthened(contents, added.drop_last());
        added_records_are_read_after_opening(
            store,
            key,
            contents,
            added.drop_last(),
            before,
            records.drop_last(),
            fingerprint,
            challenge,
        );
        let read = before + records.drop_last();
        let (nonce, plain) = choose|nonce: Seq<u8>, plain: Seq<u8>|
            nonce.len() == NONCE_LEN && #[trigger] payload_staged(prior, key, nonce, plain) == Ok::<
                StagedView,
                AppendError,
            >(staged);
        added_record_is_read_after_opening(
            prior,
            key,
            file,
            nonce,
            plain,
            staged,
            read,
            cbor,
            fingerprint,
            challenge,
        );
        written_frame_is_found(
            prior,
            file,
            nonce,
            crate::crypto::sealed(
                key,
                nonce,
                chained(prior.frames, prior.frames.len() as int),
                plain,
            ),
            staged,
        );
        let after = grown(store, added);
        assert forall|i: int| 0 <= i < after.frames.len() implies {
            &&& HEADER_LEN <= (#[trigger] after.frames[i]).offset
            &&& TAG_LEN <= after.frames[i].len <= MAX_FRAME
            &&& after.frames[i].tag.len() == TAG_LEN
            &&& after.frames[i].end() <= after.end
        } by {
            if i < prior.frames.len() {
                assert(after.frames[i] == prior.frames[i]);
            }
        }
        assert(read.push(cbor) =~= before + records);
    }
}

/// The nonce of a frame, as a file has it.
pub open spec fn nonce_in(frame: FrameView, contents: Seq<u8>) -> Seq<u8> {
    contents.subrange(frame.offset + LEN_PREFIX, frame.body())
}

/// The ciphertext of a frame, as a file has it.
pub open spec fn ciphertext_in(frame: FrameView, contents: Seq<u8>) -> Seq<u8> {
    contents.subrange(frame.body(), frame.end())
}

/// Whether the frame of a number is there and is authentic under its number and the
/// tag of the frame before it.
pub open spec fn authentic(
    frames: Seq<FrameView>,
    key: Seq<u8>,
    contents: Seq<u8>,
    index: int,
) -> bool {
    &&& frames[index].end() <= contents.len()
    &&& crate::crypto::opened(
        key,
        nonce_in(frames[index], contents),
        chained(frames, index),
        ciphertext_in(frames[index], contents),
    ) is Some
}

/// Reading is all or nothing. A history is given only if every frame can be read:
/// each is then authentic under its number and the tag of the frame before it, and
/// each record is what its frame holds. Otherwise there is no record at all, only
/// the number of the first frame that cannot be read, and what is wrong with it.
pub proof fn history_is_whole_or_nothing(
    frames: Seq<FrameView>,
    key: Seq<u8>,
    contents: Seq<u8>,
    n: int,
)
    requires
        0 <= n <= frames.len(),
    ensures
        all_opened(frames, key, contents, n) is Ok <==> forall|i: int|
            0 <= i < n ==> (#[trigger] frame_opened(frames, key, contents, i)) is Ok,
        match all_opened(frames, key, contents, n) {
            Ok(records) => {
                &&& records.len() == n
                &&& forall|i: int|
                    0 <= i < n ==> {
                        &&& authentic(frames, key, contents, i)
                        &&& #[trigger] frame_opened(frames, key, contents, i) == Ok::<
                            Seq<u8>,
                            FrameError,
                        >(records[i])
                    }
            },
            Err((index, error)) => {
                &&& 0 <= index < n
                &&& frame_opened(frames, key, contents, index) == Err::<Seq<u8>, FrameError>(error)
                &&& forall|i: int|
                    0 <= i < index ==> (#[trigger] frame_opened(frames, key, contents, i)) is Ok
            },
        },
    decreases n,
{
    if n > 0 {
        history_is_whole_or_nothing(frames, key, contents, n - 1);
        let last = frame_opened(frames, key, contents, n - 1);
        match all_opened(frames, key, contents, n - 1) {
            Ok(before) => {
                if let Ok(cbor) = last {
                    let records = before.push(cbor);
                    assert forall|i: int| 0 <= i < n implies {
                        &&& authentic(frames, key, contents, i)
                        &&& #[trigger] frame_opened(frames, key, contents, i) == Ok::<
                            Seq<u8>,
                            FrameError,
                        >(records[i])
                    } by {
                        if i < n - 1 {
                            assert(frame_opened(frames, key, contents, i) == Ok::<
                                Seq<u8>,
                                FrameError,
                            >(before[i]));
                        }
                    }
                }
            },
            Err((index, error)) => {
                assert(frame_opened(frames, key, contents, index) is Err);
            },
        }
    }
}

/// One frame that is not authentic where it stands, and nothing of the archive is
/// read.
pub proof fn one_false_frame_is_enough(
    frames: Seq<FrameView>,
    key: Seq<u8>,
    contents: Seq<u8>,
    index: int,
    n: int,
)
    requires
        0 <= index < n <= frames.len(),
        !authentic(frames, key, contents, index),
    ensures
        all_opened(frames, key, contents, n) is Err,
{
    history_is_whole_or_nothing(frames, key, contents, n);
    assert(frame_opened(frames, key, contents, index) is Err);
}

/// No two places of an archive are sealed alike: what a frame authenticates beside
/// its own data gives its number, and the tag of the frame before it.
pub proof fn place_is_sealed(
    frames: Seq<FrameView>,
    others: Seq<FrameView>,
    index: int,
    other: int,
)
    requires
        0 <= index < frames.len(),
        0 <= other < others.len(),
        frames.len() <= u64::MAX,
        others.len() <= u64::MAX,
        chained(frames, index) == chained(others, other),
    ensures
        index == other,
        index > 0 ==> frames[index - 1].tag == others[index - 1].tag,
{
    let a = chained(frames, index);
    let b = chained(others, other);
    let low: int = index % 4294967296;
    let high: int = index / 4294967296;
    let other_low: int = other % 4294967296;
    let other_high: int = other / 4294967296;
    assert(a.subrange(0, 4) =~= crate::bytes::le32(low));
    assert(a.subrange(4, 8) =~= crate::bytes::le32(high));
    assert(b.subrange(0, 4) =~= crate::bytes::le32(other_low));
    assert(b.subrange(4, 8) =~= crate::bytes::le32(other_high));
    crate::bytes::le32_round_trip(low);
    crate::bytes::le32_round_trip(high);
    crate::bytes::le32_round_trip(other_low);
    crate::bytes::le32_round_trip(other_high);
    if index > 0 {
        assert(a.skip(8) =~= frames[index - 1].tag);
        assert(b.skip(8) =~= others[index - 1].tag);
    }
}

/// Whether these are the nonce, the data beside and the ciphertext of a frame.
pub open spec fn stands_at(
    frames: Seq<FrameView>,
    contents: Seq<u8>,
    index: int,
    nonce: Seq<u8>,
    associated: Seq<u8>,
    ciphertext: Seq<u8>,
) -> bool {
    &&& nonce == nonce_in(frames[index], contents)
    &&& associated == chained(frames, index)
    &&& ciphertext == ciphertext_in(frames[index], contents)
}

/// Whether nothing is authentic under a key but the frames of an archive, each at
/// its place.
pub open spec fn opens_nothing_else(
    frames: Seq<FrameView>,
    key: Seq<u8>,
    contents: Seq<u8>,
) -> bool {
    forall|nonce: Seq<u8>, associated: Seq<u8>, ciphertext: Seq<u8>|
        (#[trigger] crate::crypto::opened(key, nonce, associated, ciphertext)) is Some ==> exists|
            index: int,
        |
            0 <= index < frames.len() && #[trigger] stands_at(
                frames,
                contents,
                index,
                nonce,
                associated,
                ciphertext,
            )
}

proof fn frames_are_few(contents: Seq<u8>, offset: int)
    requires
        0 <= offset <= contents.len(),
    ensures
        frames_from(contents, offset).len() <= contents.len() - offset,
    decreases contents.len() - offset,
{
    if let Some(frame) = frame_at(contents, offset) {
        frames_are_few(contents, frame.end());
    }
}

/// Where nothing is authentic under a key but the frames that were written, what is
/// read of any file is what the first of them hold: frames that were changed, left
/// out before the last, put in or put elsewhere make the file unreadable.
pub proof fn only_what_was_written_is_read(
    store: BlackboxView,
    contents: Seq<u8>,
    other: BlackboxView,
    file: Seq<u8>,
    key: Seq<u8>,
)
    requires
        store.valid(),
        store.describes(contents),
        opens_nothing_else(store.frames, key, contents),
        other.valid(),
        other.describes(file),
        all_opened(other.frames, key, file, other.frames.len() as int) is Ok,
    ensures
        other.frames.len() <= store.frames.len(),
        forall|i: int|
            0 <= i < other.frames.len() ==> {
                &&& nonce_in(#[trigger] other.frames[i], file) == nonce_in(
                    store.frames[i],
                    contents,
                )
                &&& ciphertext_in(other.frames[i], file) == ciphertext_in(
                    store.frames[i],
                    contents,
                )
            },
        all_opened(other.frames, key, file, other.frames.len() as int) == all_opened(
            store.frames,
            key,
            contents,
            other.frames.len() as int,
        ),
{
    frames_are_few(contents, HEADER_LEN as int);
    frames_are_few(file, HEADER_LEN as int);
    read_alike(store, contents, other, file, key, other.frames.len() as int);
}

proof fn read_alike(
    store: BlackboxView,
    contents: Seq<u8>,
    other: BlackboxView,
    file: Seq<u8>,
    key: Seq<u8>,
    n: int,
)
    requires
        store.valid(),
        contents.len() == store.end,
        store.frames.len() <= u64::MAX,
        opens_nothing_else(store.frames, key, contents),
        other.frames.len() <= u64::MAX,
        0 <= n <= other.frames.len(),
        all_opened(other.frames, key, file, n) is Ok,
    ensures
        n <= store.frames.len(),
        forall|i: int|
            0 <= i < n ==> {
                &&& nonce_in(#[trigger] other.frames[i], file) == nonce_in(
                    store.frames[i],
                    contents,
                )
                &&& ciphertext_in(other.frames[i], file) == ciphertext_in(
                    store.frames[i],
                    contents,
                )
            },
        all_opened(other.frames, key, file, n) == all_opened(store.frames, key, contents, n),
    decreases n,
{
    if n > 0 {
        let i: int = n - 1;
        read_alike(store, contents, other, file, key, i);
        history_is_whole_or_nothing(other.frames, key, file, n);
        assert(frame_opened(other.frames, key, file, i) is Ok);
        let nonce = nonce_in(other.frames[i], file);
        let associated = chained(other.frames, i);
        let ciphertext = ciphertext_in(other.frames[i], file);
        assert(crate::crypto::opened(key, nonce, associated, ciphertext) is Some);
        let index: int = choose|index: int|
            0 <= index < store.frames.len() && #[trigger] stands_at(
                store.frames,
                contents,
                index,
                nonce,
                associated,
                ciphertext,
            );
        place_is_sealed(other.frames, store.frames, i, index);
        assert(store.frames[i].end() <= contents.len());
    }
}

/// Messages as records.
pub open spec fn message_records(messages: Seq<MessageView>) -> Seq<RecordView> {
    Seq::new(messages.len(), |i: int| RecordView::Message { message: messages[i] })
}

/// A session holds the messages that follow its start, up to the next start, whatever
/// was written before; messages before any start are in none.
pub proof fn session_is_what_follows_its_start(
    before: Seq<RecordView>,
    started: i64,
    messages: Seq<MessageView>,
)
    ensures
        grouped(message_records(messages)) == Seq::<Seq<MessageView>>::empty(),
        grouped(
            before.push(RecordView::SessionStart { started }) + message_records(messages),
        ) == grouped(before).push(messages),
    decreases messages.len(),
{
    let start = before.push(RecordView::SessionStart { started });
    let records = message_records(messages);
    if messages.len() == 0 {
        assert(start + records =~= start);
        assert(start.drop_last() =~= before);
        assert(messages =~= seq![]);
    } else {
        let fewer = messages.drop_last();
        session_is_what_follows_its_start(before, started, fewer);
        assert(records.drop_last() =~= message_records(fewer));
        assert((start + records).drop_last() =~= start + message_records(fewer));
        assert((start + records).last() == records.last());
        let sessions = grouped(before).push(fewer);
        assert(sessions.drop_last() =~= grouped(before));
        assert(fewer.push(messages.last()) =~= messages);
    }
}

/// An archive begins with "KIPP", the number 1, and two keys of 32 bytes; what begins
/// otherwise is refused, for what is wrong first.
pub proof fn header_is_sixty_nine_bytes(raw: Seq<u8>)
    requires
        raw.len() == 69,
    ensures
        HEADER_LEN == 69,
        ({
            let named = raw[0] == 0x4b && raw[1] == 0x49 && raw[2] == 0x50 && raw[3] == 0x50;
            &&& !named ==> header_read(raw) == Err::<HeaderView, OpenError>(OpenError::NotBlackbox)
            &&& named && raw[4] != 1 ==> header_read(raw) == Err::<HeaderView, OpenError>(
                OpenError::Version(raw[4]),
            )
            &&& named && raw[4] == 1 ==> header_read(raw) == Ok::<HeaderView, OpenError>(
                HeaderView {
                    fingerprint: raw.subrange(5, 37),
                    challenge: raw.subrange(37, 69),
                },
            )
        }),
{
    let magic = raw.subrange(0, 4);
    assert(magic[0] == raw[0] && magic[1] == raw[1] && magic[2] == raw[2] && magic[3] == raw[3]);
    assert(MAGIC@[0] == 0x4b && MAGIC@[1] == 0x49 && MAGIC@[2] == 0x50 && MAGIC@[3] == 0x50);
    if raw[0] == 0x4b && raw[1] == 0x49 && raw[2] == 0x50 && raw[3] == 0x50 {
        assert(magic =~= MAGIC@);
    }
}

/// A header is written as "KIPP", the number 1, the fingerprint and the challenge.
pub proof fn header_is_written_in_order(header: HeaderView)
    ensures
        header_bytes(header) == seq![0x4bu8, 0x49, 0x50, 0x50, 1] + header.fingerprint
            + header.challenge,
{
    assert(MAGIC@ + seq![VERSION] =~= seq![0x4bu8, 0x49, 0x50, 0x50, 1]);
}

/// A frame as bytes: the length of the ciphertext in four bytes, the least
/// significant first, the nonce, the ciphertext.
pub open spec fn frame_bytes(nonce: Seq<u8>, ciphertext: Seq<u8>) -> Seq<u8> {
    crate::bytes::le32(ciphertext.len() as int) + nonce + ciphertext
}

/// Frames as bytes, one behind the other.
pub open spec fn frames_bytes(frames: Seq<(Seq<u8>, Seq<u8>)>) -> Seq<u8>
    decreases frames.len(),
{
    if frames.len() == 0 {
        seq![]
    } else {
        frame_bytes(frames[0].0, frames[0].1) + frames_bytes(frames.drop_first())
    }
}

/// Whether nonces are of 24 bytes, and ciphertexts of 16 to 1048576.
pub open spec fn can_be_framed(frames: Seq<(Seq<u8>, Seq<u8>)>) -> bool {
    forall|i: int|
        0 <= i < frames.len() ==> (#[trigger] frames[i]).0.len() == 24 && 16 <= frames[i].1.len()
            <= 1048576
}

/// Whether some bytes begin with a whole frame.
pub open spec fn begins_with_frame(bytes: Seq<u8>) -> bool {
    let len = bytes[0] + 256 * bytes[1] + 65536 * bytes[2] + 16777216 * bytes[3];
    bytes.len() >= 44 && 16 <= len <= 1048576 && bytes.len() >= 28 + len
}

proof fn frame_is_found_at(head: Seq<u8>, nonce: Seq<u8>, ciphertext: Seq<u8>, rest: Seq<u8>)
    requires
        nonce.len() == 24,
        16 <= ciphertext.len() <= 1048576,
    ensures
        ({
            let contents = head + frame_bytes(nonce, ciphertext) + rest;
            let frame = FrameView {
                offset: head.len() as int,
                len: ciphertext.len() as int,
                tag: ciphertext.subrange(ciphertext.len() - 16, ciphertext.len() as int),
            };
            &&& frame_at(contents, head.len() as int) == Some(frame)
            &&& nonce_in(frame, contents) == nonce
            &&& ciphertext_in(frame, contents) == ciphertext
            &&& frame.end() == head.len() + frame_bytes(nonce, ciphertext).len()
        }),
{
    let contents = head + frame_bytes(nonce, ciphertext) + rest;
    let at = head.len() as int;
    let len = ciphertext.len() as int;
    crate::bytes::le32_round_trip(len);
    assert(contents.subrange(at, at + 4) =~= crate::bytes::le32(len));
    assert(contents.subrange(at + 4, at + 28) =~= nonce);
    assert(contents.subrange(at + 28, at + 28 + len) =~= ciphertext);
    assert(contents.subrange(at + 28 + len - 16, at + 28 + len) =~= ciphertext.subrange(
        len - 16,
        len,
    ));
}

proof fn no_frame_found_at(head: Seq<u8>, rest: Seq<u8>)
    requires
        !begins_with_frame(rest),
    ensures
        frame_at(head + rest, head.len() as int) is None,
{
    let contents = head + rest;
    let at = head.len() as int;
    if rest.len() >= 4 {
        let prefix = contents.subrange(at, at + 4);
        assert(prefix[0] == rest[0] && prefix[1] == rest[1] && prefix[2] == rest[2] && prefix[3]
            == rest[3]);
    }
}

/// The frames of a file are found where they were put, each with its nonce, its
/// ciphertext and the last sixteen bytes of that as its tag, up to where no whole
/// frame follows.
pub proof fn frames_are_found_in_order(
    head: Seq<u8>,
    frames: Seq<(Seq<u8>, Seq<u8>)>,
    rest: Seq<u8>,
)
    requires
        can_be_framed(frames),
        !begins_with_frame(rest),
    ensures
        ({
            let contents = head + frames_bytes(frames) + rest;
            let found = frames_from(contents, head.len() as int);
            &&& found.len() == frames.len()
            &&& frames_end(contents, head.len() as int) == head.len() + frames_bytes(frames).len()
            &&& forall|i: int|
                0 <= i < frames.len() ==> {
                    &&& nonce_in(#[trigger] found[i], contents) == frames[i].0
                    &&& ciphertext_in(found[i], contents) == frames[i].1
                    &&& found[i].tag == frames[i].1.subrange(
                        frames[i].1.len() - 16,
                        frames[i].1.len() as int,
                    )
                    &&& found[i].end() <= contents.len()
                }
        }),
    decreases frames.len(),
{
    let contents = head + frames_bytes(frames) + rest;
    let at = head.len() as int;
    if frames.len() == 0 {
        assert(contents =~= head + rest);
        no_frame_found_at(head, rest);
    } else {
        let (nonce, ciphertext) = frames[0];
        let later = frames.drop_first();
        let longer = head + frame_bytes(nonce, ciphertext);
        assert(contents =~= head + frame_bytes(nonce, ciphertext) + (frames_bytes(later) + rest));
        frame_is_found_at(head, nonce, ciphertext, frames_bytes(later) + rest);
        assert(contents =~= longer + frames_bytes(later) + rest);
        assert forall|i: int| 0 <= i < later.len() implies (#[trigger] later[i]).0.len() == 24
            && 16 <= later[i].1.len() <= 1048576 by {
            assert(later[i] == frames[i + 1]);
        }
        frames_are_found_in_order(longer, later, rest);
        let found = frames_from(contents, at);
        let rest_found = frames_from(contents, longer.len() as int);
        assert(found =~= seq![found[0]] + rest_found);
        assert forall|i: int| 0 <= i < frames.len() implies {
            &&& nonce_in(#[trigger] found[i], contents) == frames[i].0
            &&& ciphertext_in(found[i], contents) == frames[i].1
            &&& found[i].tag == frames[i].1.subrange(
                frames[i].1.len() - 16,
                frames[i].1.len() as int,
            )
            &&& found[i].end() <= contents.len()
        } by {
            if i > 0 {
                assert(found[i] == rest_found[i - 1]);
                assert(frames[i] == later[i - 1]);
            }
        }
    }
}

/// A file that is an archive's header, frames and what is no whole frame is opened as
/// an archive with those frames; what is no whole frame is to be cut off.
pub proof fn archive_is_opened_as_written(
    header: HeaderView,
    frames: Seq<(Seq<u8>, Seq<u8>)>,
    rest: Seq<u8>,
    fingerprint: Seq<u8>,
    challenge: Seq<u8>,
)
    requires
        header.fingerprint.len() == 32,
        header.challenge.len() == 32,
        can_be_framed(frames),
        !begins_with_frame(rest),
    ensures
        ({
            let head = seq![0x4bu8, 0x49, 0x50, 0x50, 1] + header.fingerprint + header.challenge;
            let contents = head + frames_bytes(frames) + rest;
            match opening(contents, fingerprint, challenge) {
                Ok(opened) => {
                    &&& opened.store.header == header
                    &&& opened.store.frames.len() == frames.len()
                    &&& opened.store.end == 69 + frames_bytes(frames).len()
                    &&& opened.header is None
                    &&& opened.cut == if rest.len() == 0 {
                        None
                    } else {
                        Some(69 + frames_bytes(frames).len() as int)
                    }
                    &&& forall|i: int|
                        0 <= i < frames.len() ==> {
                            &&& nonce_in(#[trigger] opened.store.frames[i], contents) == frames[i].0
                            &&& ciphertext_in(opened.store.frames[i], contents) == frames[i].1
                        }
                },
                Err(_) => false,
            }
        }),
{
    let head = seq![0x4bu8, 0x49, 0x50, 0x50, 1] + header.fingerprint + header.challenge;
    let contents = head + frames_bytes(frames) + rest;
    header_is_written_in_order(header);
    header_round_trip(header);
    assert(contents.take(69) =~= head);
    frames_are_found_in_order(head, frames, rest);
}

/// An empty file becomes an archive without frames, for this key and challenge.
pub proof fn empty_file_becomes_an_archive(fingerprint: Seq<u8>, challenge: Seq<u8>)
    ensures
        match opening(Seq::<u8>::empty(), fingerprint, challenge) {
            Ok(opened) => {
                &&& opened.store.header.fingerprint == fingerprint
                &&& opened.store.header.challenge == challenge
                &&& opened.store.frames.len() == 0
                &&& opened.store.end == 69
                &&& opened.header == Some(
                    seq![0x4bu8, 0x49, 0x50, 0x50, 1] + fingerprint + challenge,
                )
                &&& opened.cut is None
            },
            Err(_) => false,
        },
{
    header_is_written_in_order(HeaderView { fingerprint, challenge });
}

/// A file that is shorter than a header but not empty is refused.
pub proof fn short_file_is_refused(
    contents: Seq<u8>,
    fingerprint: Seq<u8>,
    challenge: Seq<u8>,
)
    requires
        0 < contents.len() < 69,
    ensures
        opening(contents, fingerprint, challenge) == Err::<OpenedView, OpenError>(
            OpenError::Truncated,
        ),
{
}

/// A frame is sealed with its number in eight bytes, the least significant first, and
/// the tag of the frame before it, or sixteen zeros before the first.
pub proof fn frame_is_sealed_with_number_and_tag(frames: Seq<FrameView>, index: int)
    requires
        0 <= index <= u64::MAX,
        index > 0 ==> frames[index - 1].tag.len() == 16,
    ensures
        chained(frames, index).len() == 24,
        ({
            let data = chained(frames, index);
            data[0] + 256 * data[1] + 65536 * data[2] + 16777216 * data[3] + 4294967296 * (data[4]
                + 256 * data[5] + 65536 * data[6] + 16777216 * data[7]) == index
        }),
        index > 0 ==> chained(frames, index).skip(8) == frames[index - 1].tag,
        index == 0 ==> forall|i: int|
            8 <= i < 24 ==> #[trigger] chained(frames, index)[i] == 0,
{
    crate::bytes::le64_is(index);
    let data = chained(frames, index);
    if index > 0 {
        assert(data.skip(8) =~= frames[index - 1].tag);
    }
}

/// A payload is a byte and data: after 0 the record's bytes as they are, after 1 what
/// zstd made of them. Compressed data are taken only if they are shorter.
pub proof fn payload_begins_with_its_kind(cbor: Seq<u8>, squeezed: Seq<u8>, other: u8)
    requires
        other > 1,
    ensures
        packed(cbor, None) == seq![0u8] + cbor,
        squeezed.len() < cbor.len() ==> packed(cbor, Some(squeezed)) == seq![1u8] + squeezed,
        squeezed.len() >= cbor.len() ==> packed(cbor, Some(squeezed)) == seq![0u8] + cbor,
        unpacked(seq![0u8] + cbor) == Ok::<Seq<u8>, FrameError>(cbor),
        unpacked(seq![1u8] + squeezed) == match crate::crypto::decompressed(
            squeezed,
            1048576,
        ) {
            Some(found) => Ok::<Seq<u8>, FrameError>(found),
            None => Err(FrameError::Decompression),
        },
        unpacked(seq![other] + cbor) == Err::<Seq<u8>, FrameError>(FrameError::Flag(other)),
        unpacked(seq![]) == Err::<Seq<u8>, FrameError>(FrameError::Empty),
{
    assert((seq![0u8] + cbor).skip(1) =~= cbor);
    assert((seq![1u8] + squeezed).skip(1) =~= squeezed);
}

/// A frame that is sealed is the length of the ciphertext, the nonce and the
/// ciphertext, at the end of the archive, and of no more than a mebibyte.
pub proof fn frame_is_staged_at_the_end(
    store: BlackboxView,
    key: Seq<u8>,
    nonce: Seq<u8>,
    plain: Seq<u8>,
    staged: StagedView,
)
    requires
        payload_staged(store, key, nonce, plain) == Ok::<StagedView, AppendError>(staged),
    ensures
        ({
            let ciphertext = crate::crypto::sealed(
                key,
                nonce,
                chained(store.frames, store.frames.len() as int),
                plain,
            );
            &&& staged.bytes == frame_bytes(nonce, ciphertext)
            &&& staged.index == store.frames.len()
            &&& staged.frame.offset == store.end
            &&& staged.frame.len == ciphertext.len() <= 1048576
            &&& staged.frame.tag == ciphertext.subrange(
                ciphertext.len() - 16,
                ciphertext.len() as int,
            )
        }),
{
}

/// What is too long for a frame is refused, and nothing else.
pub proof fn only_long_payloads_are_refused(
    store: BlackboxView,
    key: Seq<u8>,
    nonce: Seq<u8>,
    plain: Seq<u8>,
)
    ensures
        1048560 < plain.len() && plain.len() / 64 < 0xffff_ffff ==> payload_staged(
            store,
            key,
            nonce,
            plain,
        ) == Err::<StagedView, AppendError>(AppendError::TooLarge),
        plain.len() / 64 >= 0xffff_ffff ==> payload_staged(store, key, nonce, plain) == Err::<
            StagedView,
            AppendError,
        >(AppendError::Encryption),
        plain.len() <= 1048560 ==> payload_staged(store, key, nonce, plain) == frame_staged(
            store,
            nonce,
            Some(
                crate::crypto::sealed(
                    key,
                    nonce,
                    chained(store.frames, store.frames.len() as int),
                    plain,
                ),
            ),
        ),
{
}

/// What a frame is sealed with beside its own data, given the ciphertext of the frame
/// before it: its number, and the last sixteen bytes of that, or zeros.
pub open spec fn sealed_with(index: int, previous: Seq<u8>) -> Seq<u8> {
    crate::bytes::le64(index) + if index > 0 {
        previous.subrange(previous.len() - 16, previous.len() as int)
    } else {
        Seq::new(16, |k: int| 0u8)
    }
}

proof fn frame_is_opened(
    frames: Seq<FrameView>,
    key: Seq<u8>,
    contents: Seq<u8>,
    i: int,
    previous: Seq<u8>,
)
    requires
        0 <= i < frames.len(),
        frames[i].end() <= contents.len(),
        i > 0 ==> frames[i - 1].tag == previous.subrange(
            previous.len() - 16,
            previous.len() as int,
        ),
    ensures
        frame_opened(frames, key, contents, i) == match crate::crypto::opened(
            key,
            nonce_in(frames[i], contents),
            sealed_with(i, previous),
            ciphertext_in(frames[i], contents),
        ) {
            Some(plain) => unpacked(plain),
            None => Err::<Seq<u8>, FrameError>(FrameError::Authentication),
        },
{
    assert(chained(frames, i) =~= sealed_with(i, previous));
}

/// The record of a frame is what its payload holds once the frame is opened under the
/// key, with its own nonce, its number and the last sixteen bytes of the frame before
/// it, or sixteen zeros; what cannot be opened so is refused.
pub proof fn record_is_read_from_its_frame(
    head: Seq<u8>,
    frames: Seq<(Seq<u8>, Seq<u8>)>,
    rest: Seq<u8>,
    key: Seq<u8>,
    i: int,
)
    requires
        can_be_framed(frames),
        !begins_with_frame(rest),
        0 <= i < frames.len(),
    ensures
        frame_opened(
            frames_from(head + frames_bytes(frames) + rest, head.len() as int),
            key,
            head + frames_bytes(frames) + rest,
            i,
        ) == match crate::crypto::opened(
            key,
            frames[i].0,
            sealed_with(i, frames[i - 1].1),
            frames[i].1,
        ) {
            Some(plain) => unpacked(plain),
            None => Err::<Seq<u8>, FrameError>(FrameError::Authentication),
        },
{
    let contents = head + frames_bytes(frames) + rest;
    let found = frames_from(contents, head.len() as int);
    frames_are_found_in_order(head, frames, rest);
    assert(nonce_in(found[i], contents) == frames[i].0);
    if i > 0 {
        assert(nonce_in(found[i - 1], contents) == frames[i - 1].0);
    }
    frame_is_opened(found, key, contents, i, frames[i - 1].1);
}

/// A frame that is not there is refused as such: one with a number that no frame has,
/// and one that the file ends before.
pub proof fn missing_frames_are_refused(
    frames: Seq<FrameView>,
    key: Seq<u8>,
    contents: Seq<u8>,
    index: int,
)
    ensures
        index >= frames.len() ==> frame_opened(frames, key, contents, index) == Err::<
            Seq<u8>,
            FrameError,
        >(FrameError::OutOfRange),
        0 <= index < frames.len() && frames[index].offset + 28 + frames[index].len > contents.len()
            ==> frame_opened(frames, key, contents, index) == Err::<Seq<u8>, FrameError>(
            FrameError::Missing,
        ),
{
}

} // verus!
