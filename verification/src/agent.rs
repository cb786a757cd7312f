//! Deriving the key of an archive from signatures of an SSH agent.

use vstd::prelude::*;

use crate::bytes::{get_be32, put_be32};
use crate::crypto::{digest256, digest512, erase_all, same, stretch, DataKey};
use crate::slices::decode;

verus! {

pub const REQUEST_IDENTITIES: u8 = 11;

pub const IDENTITIES_ANSWER: u8 = 12;

pub const SIGN_REQUEST: u8 = 13;

pub const SIGN_RESPONSE: u8 = 14;

/// "SSHSIG"
pub const SSHSIG_MAGIC: [u8; 6] = [0x53, 0x53, 0x48, 0x53, 0x49, 0x47];

/// "kipp.blackbox"
pub const SSHSIG_NAMESPACE: [u8; 13] = [
    0x6b,
    0x69,
    0x70,
    0x70,
    0x2e,
    0x62,
    0x6c,
    0x61,
    0x63,
    0x6b,
    0x62,
    0x6f,
    0x78,
];

/// "sha512"
pub const SSHSIG_HASH: [u8; 6] = [0x73, 0x68, 0x61, 0x35, 0x31, 0x32];

/// "kipp/v1/data"
pub const HKDF_INFO: [u8; 12] = [
    0x6b,
    0x69,
    0x70,
    0x70,
    0x2f,
    0x76,
    0x31,
    0x2f,
    0x64,
    0x61,
    0x74,
    0x61,
];

/// "ssh-ed25519"
pub const ED25519: [u8; 11] = [
    0x73,
    0x73,
    0x68,
    0x2d,
    0x65,
    0x64,
    0x32,
    0x35,
    0x35,
    0x31,
    0x39,
];

pub const MAX_AGENT_MESSAGE: u32 = 262144;

pub const KEY_LEN: usize = 32;

/// What can keep a key from being derived.
#[derive(Debug, Clone, PartialEq, Eq)]
pub enum AgentError {
    /// A message ends where a byte is due.
    TruncatedData,
    /// A message ends before a number does.
    TruncatedInteger,
    /// A message ends before a string does.
    TruncatedString,
    /// The name of the key's algorithm is not text.
    AlgorithmNotUtf8,
    /// The key is of another algorithm.
    Unsupported(String),
    /// The agent does not list its keys but answers with a message of this type.
    ListRefused(u8),
    /// The agent does not hold the key.
    NotLoaded,
    /// The agent does not sign but answers with a message of this type.
    SignDeclined(u8),
    /// The signature is of another algorithm.
    ForeignSignature,
    /// The length of the agent's answer is out of range.
    ReplyLength(u32),
    /// The agent's signatures of the same data differ.
    NotDeterministic,
}

/// An error, with its text as characters.
#[verifier::ext_equal]
pub enum AgentErrorView {
    Unsupported(Seq<char>),
    Plain(AgentError),
}

impl View for AgentError {
    type V = AgentErrorView;

    open spec fn view(&self) -> AgentErrorView {
        match self {
            AgentError::Unsupported(name) => AgentErrorView::Unsupported(name@),
            _ => AgentErrorView::Plain(*self),
        }
    }
}

/// A byte string on the wire: its length, then its bytes.
pub open spec fn wire(value: Seq<u8>) -> Seq<u8> {
    crate::bytes::be32(value.len() as int % 4294967296) + value
}

/// The number at an offset of a message, and where it ends.
pub open spec fn number_at(message: Seq<u8>, at: int) -> Result<(int, int), AgentErrorView> {
    if message.len() - at < 4 {
        Err(AgentErrorView::Plain(AgentError::TruncatedInteger))
    } else {
        Ok((crate::bytes::be32_value(message.subrange(at, at + 4)), at + 4))
    }
}

/// The byte string at an offset of a message, and where it ends.
pub open spec fn string_at(message: Seq<u8>, at: int) -> Result<(Seq<u8>, int), AgentErrorView> {
    match number_at(message, at) {
        Err(error) => Err(error),
        Ok((len, start)) => if message.len() - start < len {
            Err(AgentErrorView::Plain(AgentError::TruncatedString))
        } else {
            Ok((message.subrange(start, start + len), start + len))
        },
    }
}

/// A byte string is read back as it was written.
pub proof fn wire_round_trip(before: Seq<u8>, value: Seq<u8>, after: Seq<u8>)
    requires
        value.len() < 4294967296,
    ensures
        string_at(before + wire(value) + after, before.len() as int) == Ok::<
            (Seq<u8>, int),
            AgentErrorView,
        >((value, (before + wire(value)).len() as int)),
{
    let message = before + wire(value) + after;
    let at = before.len() as int;
    let len = value.len() as int;
    crate::bytes::be32_round_trip(len);
    assert(message.subrange(at, at + 4) =~= crate::bytes::be32(len));
    assert(message.subrange(at + 4, at + 4 + len) =~= value);
}

/// The algorithm that a key names.
pub open spec fn algorithm_named(key_blob: Seq<u8>) -> Result<Seq<char>, AgentErrorView> {
    match string_at(key_blob, 0) {
        Err(error) => Err(error),
        Ok((name, _)) => if vstd::utf8::valid_utf8(name) {
            Ok(vstd::utf8::decode_utf8(name))
        } else {
            Err(AgentErrorView::Plain(AgentError::AlgorithmNotUtf8))
        },
    }
}

/// Whether a key is of the one algorithm that signs the same data the same way.
pub open spec fn supported(key_blob: Seq<u8>) -> Result<(), AgentErrorView> {
    match algorithm_named(key_blob) {
        Err(error) => Err(error),
        Ok(name) => if vstd::utf8::encode_utf8(name) == ED25519@ {
            Ok(())
        } else {
            Err(AgentErrorView::Unsupported(name))
        },
    }
}

/// The key that a signature of a challenge gives.
pub open spec fn key_expanded(signature: Seq<u8>, challenge: Seq<u8>) -> Seq<u8> {
    crate::crypto::hkdf_sha512(challenge, signature, HKDF_INFO@)
}

/// The data that the agent signs for a challenge.
pub open spec fn data_signed(challenge: Seq<u8>) -> Seq<u8> {
    SSHSIG_MAGIC@ + wire(SSHSIG_NAMESPACE@) + wire(seq![]) + wire(SSHSIG_HASH@) + wire(
        crate::crypto::sha512(challenge),
    )
}

/// The request to sign a challenge.
pub open spec fn sign_asked(key_blob: Seq<u8>, challenge: Seq<u8>) -> Seq<u8> {
    seq![SIGN_REQUEST] + wire(key_blob) + wire(data_signed(challenge)) + crate::bytes::be32(0)
}

/// Whether a key is among the `count` keys that are listed from an offset of a
/// message on.
pub open spec fn listed(
    message: Seq<u8>,
    at: int,
    count: int,
    key_blob: Seq<u8>,
) -> Result<bool, AgentErrorView>
    decreases count,
{
    if count <= 0 {
        Ok(false)
    } else {
        match string_at(message, at) {
            Err(error) => Err(error),
            Ok((blob, comment_at)) => match string_at(message, comment_at) {
                Err(error) => Err(error),
                Ok((_, next)) => match listed(message, next, count - 1, key_blob) {
                    Err(error) => Err(error),
                    Ok(later) => Ok(blob == key_blob || later),
                },
            },
        }
    }
}

/// Whether an answer lists a key.
pub open spec fn loaded(answer: Seq<u8>, key_blob: Seq<u8>) -> Result<(), AgentErrorView> {
    if answer.len() == 0 {
        Err(AgentErrorView::Plain(AgentError::TruncatedData))
    } else if answer[0] != IDENTITIES_ANSWER {
        Err(AgentErrorView::Plain(AgentError::ListRefused(answer[0])))
    } else {
        match number_at(answer, 1) {
            Err(error) => Err(error),
            Ok((count, at)) => match listed(answer, at, count, key_blob) {
                Err(error) => Err(error),
                Ok(true) => Ok(()),
                Ok(false) => Err(AgentErrorView::Plain(AgentError::NotLoaded)),
            },
        }
    }
}

/// The signature that an answer holds.
pub open spec fn signature_given(answer: Seq<u8>) -> Result<Seq<u8>, AgentErrorView> {
    if answer.len() == 0 {
        Err(AgentErrorView::Plain(AgentError::TruncatedData))
    } else if answer[0] != SIGN_RESPONSE {
        Err(AgentErrorView::Plain(AgentError::SignDeclined(answer[0])))
    } else {
        match string_at(answer, 1) {
            Err(error) => Err(error),
            Ok((signature, _)) => match string_at(signature, 0) {
                Err(error) => Err(error),
                Ok((algorithm, _)) => if algorithm == ED25519@ {
                    Ok(signature)
                } else {
                    Err(AgentErrorView::Plain(AgentError::ForeignSignature))
                },
            },
        }
    }
}

/// The SHA-256 digest by which a key is known.
pub fn fingerprint(key_blob: &[u8]) -> (digest: [u8; KEY_LEN])
    ensures
        digest@ == crate::crypto::sha256(key_blob@),
{
    digest256(key_blob)
}

/// Whether two byte strings are equal.
fn equal(a: &[u8], b: &[u8]) -> (r: bool)
    ensures
        r == (a@ == b@),
{
    if a.len() != b.len() {
        return false;
    }
    let mut i: usize = 0;
    while i < a.len()
        invariant
            i <= a@.len(),
            a@.len() == b@.len(),
            forall|k: int| 0 <= k < i ==> a@[k] == b@[k],
        decreases a.len() - i,
    {
        if a[i] != b[i] {
            return false;
        }
        i = i + 1;
    }
    assert(a@ =~= b@);
    true
}

/// Puts a byte string at the end of a message.
pub fn put_string(out: &mut Vec<u8>, value: &[u8])
    ensures
        final(out)@ == old(out)@ + wire(value@),
{
    let len: u32 = (value.len() as u64 % 4294967296) as u32;
    put_be32(out, len);
    out.extend_from_slice(value);
    assert(out@ =~= old(out)@ + wire(value@));
}

/// Reads a message from front to back.
struct Reader<'a> {
    message: &'a [u8],
    at: usize,
}

impl<'a> Reader<'a> {
    spec fn valid(self) -> bool {
        self.at <= self.message@.len()
    }

    fn new(message: &'a [u8]) -> (reader: Self)
        ensures
            reader.message@ == message@,
            reader.at == 0,
            reader.valid(),
    {
        Reader { message, at: 0 }
    }

    fn byte(&mut self) -> (byte: Result<u8, AgentError>)
        requires
            old(self).valid(),
        ensures
            final(self).valid(),
            final(self).message == old(self).message,
            match byte {
                Ok(value) => old(self).at < old(self).message@.len() && value == old(
                    self,
                ).message@[old(self).at as int] && final(self).at == old(self).at + 1,
                Err(error) => old(self).at == old(self).message@.len() && error
                    == AgentError::TruncatedData,
            },
    {
        if self.at >= self.message.len() {
            return Err(AgentError::TruncatedData);
        }
        let value: u8 = self.message[self.at];
        self.at = self.at + 1;
        Ok(value)
    }

    fn u32(&mut self) -> (number: Result<u32, AgentError>)
        requires
            old(self).valid(),
        ensures
            final(self).valid(),
            final(self).message == old(self).message,
            match number {
                Ok(value) => number_at(old(self).message@, old(self).at as int) == Ok::<
                    (int, int),
                    AgentErrorView,
                >((value as int, final(self).at as int)),
                Err(error) => number_at(old(self).message@, old(self).at as int) == Err::<
                    (int, int),
                    AgentErrorView,
                >(error@),
            },
    {
        if self.message.len() - self.at < 4 {
            return Err(AgentError::TruncatedInteger);
        }
        let value: u32 = get_be32(self.message, self.at);
        self.at = self.at + 4;
        Ok(value)
    }

    fn string(&mut self) -> (string: Result<&'a [u8], AgentError>)
        requires
            old(self).valid(),
        ensures
            final(self).valid(),
            final(self).message == old(self).message,
            match string {
                Ok(value) => string_at(old(self).message@, old(self).at as int) == Ok::<
                    (Seq<u8>, int),
                    AgentErrorView,
                >((value@, final(self).at as int)),
                Err(error) => string_at(old(self).message@, old(self).at as int) == Err::<
                    (Seq<u8>, int),
                    AgentErrorView,
                >(error@),
            },
    {
        match self.u32() {
            Err(error) => Err(error),
            Ok(value) => {
                let len: usize = value as usize;
                if self.message.len() - self.at < len {
                    return Err(AgentError::TruncatedString);
                }
                let end: usize = self.at + len;
                let part: &'a [u8] = vstd::slice::slice_subrange(self.message, self.at, end);
                self.at = end;
                Ok(part)
            },
        }
    }
}

/// The algorithm that a key names.
pub fn key_algorithm(key_blob: &[u8]) -> (name: Result<String, AgentError>)
    ensures
        match name {
            Ok(text) => algorithm_named(key_blob@) == Ok::<Seq<char>, AgentErrorView>(text@),
            Err(error) => algorithm_named(key_blob@) == Err::<Seq<char>, AgentErrorView>(error@),
        },
{
    let mut reader: Reader = Reader::new(key_blob);
    match reader.string() {
        Err(error) => Err(error),
        Ok(bytes) => match decode(bytes) {
            Some(text) => {
                proof {
                    vstd::utf8::encode_utf8_decode_utf8(text@);
                }
                Ok(text.to_owned())
            },
            None => Err(AgentError::AlgorithmNotUtf8),
        },
    }
}

/// Whether a key is of the one algorithm that is supported.
pub fn ensure_supported(key_blob: &[u8]) -> (checked: Result<(), AgentError>)
    ensures
        match checked {
            Ok(()) => supported(key_blob@) == Ok::<(), AgentErrorView>(()),
            Err(error) => supported(key_blob@) == Err::<(), AgentErrorView>(error@),
        },
{
    match key_algorithm(key_blob) {
        Err(error) => Err(error),
        Ok(name) => {
            if equal(name.as_str().as_bytes(), ED25519.as_slice()) {
                Ok(())
            } else {
                Err(AgentError::Unsupported(name))
            }
        },
    }
}

/// The key that a signature of a challenge gives.
pub fn expand(signature: &[u8], challenge: &[u8; KEY_LEN]) -> (key: DataKey)
    ensures
        key@ == key_expanded(signature@, challenge@),
        key@ == crate::crypto::hkdf_sha512(challenge@, signature@, key_purpose()),
{
    proof {
        assert(HKDF_INFO@ =~= key_purpose());
    }
    DataKey::new(stretch(challenge.as_slice(), signature, HKDF_INFO.as_slice()))
}

/// The data that the agent signs for a challenge.
pub fn sshsig_blob(challenge: &[u8; KEY_LEN]) -> (blob: Vec<u8>)
    ensures
        blob@ == data_signed(challenge@),
        blob@ == digest_named(crate::crypto::sha512(challenge@)),
{
    let digest: [u8; 64] = digest512(challenge.as_slice());
    let mut blob: Vec<u8> = Vec::new();
    blob.extend_from_slice(SSHSIG_MAGIC.as_slice());
    put_string(&mut blob, SSHSIG_NAMESPACE.as_slice());
    let none: Vec<u8> = Vec::new();
    put_string(&mut blob, none.as_slice());
    put_string(&mut blob, SSHSIG_HASH.as_slice());
    put_string(&mut blob, digest.as_slice());
    assert(none@ =~= seq![]);
    assert(blob@ =~= data_signed(challenge@));
    proof {
        challenge_is_signed_by_its_digest(challenge@);
    }
    blob
}

/// The request to sign a challenge.
pub fn sign_request(key_blob: &[u8], challenge: &[u8; KEY_LEN]) -> (request: Vec<u8>)
    ensures
        request@ == sign_asked(key_blob@, challenge@),
{
    let blob: Vec<u8> = sshsig_blob(challenge);
    let mut request: Vec<u8> = Vec::new();
    request.push(SIGN_REQUEST);
    put_string(&mut request, key_blob);
    put_string(&mut request, blob.as_slice());
    put_be32(&mut request, 0);
    assert(request@ =~= sign_asked(key_blob@, challenge@));
    request
}

/// Whether the agent's answer lists a key.
pub fn ensure_loaded(answer: &[u8], key_blob: &[u8]) -> (checked: Result<(), AgentError>)
    ensures
        match checked {
            Ok(()) => loaded(answer@, key_blob@) == Ok::<(), AgentErrorView>(()),
            Err(error) => loaded(answer@, key_blob@) == Err::<(), AgentErrorView>(error@),
        },
{
    let mut reader: Reader = Reader::new(answer);
    match reader.byte() {
        Err(error) => return Err(error),
        Ok(kind) => {
            if kind != IDENTITIES_ANSWER {
                return Err(AgentError::ListRefused(kind));
            }
        },
    }
    let count: u32 = match reader.u32() {
        Err(error) => return Err(error),
        Ok(count) => count,
    };
    let ghost start = reader.at as int;
    let mut present: bool = false;
    let mut left: u32 = count;
    while left > 0
        invariant
            reader.valid(),
            reader.message@ == answer@,
            left <= count,
            listed(answer@, start, count as int, key_blob@) == (match listed(
                answer@,
                reader.at as int,
                left as int,
                key_blob@,
            ) {
                Ok(later) => Ok::<bool, AgentErrorView>(present || later),
                Err(error) => Err(error),
            }),
            answer@.len() > 0,
            answer@[0] == IDENTITIES_ANSWER,
            number_at(answer@, 1) == Ok::<(int, int), AgentErrorView>((count as int, start)),
        decreases left,
    {
        let blob: &[u8] = match reader.string() {
            Err(error) => return Err(error),
            Ok(blob) => blob,
        };
        match reader.string() {
            Err(error) => return Err(error),
            Ok(_) => {},
        }
        if equal(blob, key_blob) {
            present = true;
        }
        left = left - 1;
    }
    if present {
        Ok(())
    } else {
        Err(AgentError::NotLoaded)
    }
}

/// The signature that the agent's answer holds.
pub fn signature_of(answer: &[u8]) -> (signature: Result<Vec<u8>, AgentError>)
    ensures
        match signature {
            Ok(bytes) => signature_given(answer@) == Ok::<Seq<u8>, AgentErrorView>(bytes@),
            Err(error) => signature_given(answer@) == Err::<Seq<u8>, AgentErrorView>(error@),
        },
{
    let mut reader: Reader = Reader::new(answer);
    match reader.byte() {
        Err(error) => return Err(error),
        Ok(kind) => {
            if kind != SIGN_RESPONSE {
                return Err(AgentError::SignDeclined(kind));
            }
        },
    }
    let signature: &[u8] = match reader.string() {
        Err(error) => return Err(error),
        Ok(signature) => signature,
    };
    let mut inner: Reader = Reader::new(signature);
    match inner.string() {
        Err(error) => Err(error),
        Ok(algorithm) => {
            if equal(algorithm, ED25519.as_slice()) {
                Ok(vstd::slice::slice_to_vec(signature))
            } else {
                Err(AgentError::ForeignSignature)
            }
        },
    }
}

/// A request as it goes to the agent: its length, then the request.
pub fn frame_request(payload: &[u8]) -> (framed: Vec<u8>)
    ensures
        framed@ == wire(payload@),
{
    let mut framed: Vec<u8> = Vec::new();
    put_string(&mut framed, payload);
    assert(framed@ =~= wire(payload@));
    framed
}

/// The length of the agent's answer, which comes before it.
pub fn reply_length(prefix: &[u8; 4]) -> (len: Result<usize, AgentError>)
    ensures
        ({
            let value = 16777216 * prefix@[0] + 65536 * prefix@[1] + 256 * prefix@[2] + prefix@[3];
            &&& len is Ok <==> 1 <= value <= 262144
            &&& len matches Ok(n) ==> n == value
            &&& len matches Err(error) ==> error == AgentError::ReplyLength(value as u32)
        }),
        ({
            let value = crate::bytes::be32_value(prefix@);
            match len {
                Ok(n) => n == value && 0 < value <= MAX_AGENT_MESSAGE,
                Err(error) => error == AgentError::ReplyLength(value as u32) && !(0 < value
                    <= MAX_AGENT_MESSAGE),
            }
        }),
{
    let value: u32 = get_be32(prefix.as_slice(), 0);
    assert(prefix@.subrange(0, 4) =~= prefix@);
    if value > 0 && value <= MAX_AGENT_MESSAGE {
        Ok(value as usize)
    } else {
        Err(AgentError::ReplyLength(value))
    }
}

/// What the agent is asked next.
pub enum Stage {
    /// To list its keys.
    Listing,
    /// To sign the challenge.
    Signing,
    /// To sign it once more, after this signature.
    Confirming(Vec<u8>),
}

#[verifier::ext_equal]
pub enum StageView {
    Listing,
    Signing,
    Confirming(Seq<u8>),
}

/// A conversation with the agent, from which a key is derived. Whoever holds it
/// sends the request, reads the answer and hands it in.
pub struct Exchange {
    key_blob: Vec<u8>,
    challenge: [u8; KEY_LEN],
    checked: bool,
    stage: Stage,
}

#[verifier::ext_equal]
pub struct ExchangeView {
    pub key_blob: Seq<u8>,
    pub challenge: Seq<u8>,
    /// Whether the agent has to sign twice.
    pub checked: bool,
    pub stage: StageView,
}

impl View for Stage {
    type V = StageView;

    open spec fn view(&self) -> StageView {
        match self {
            Stage::Listing => StageView::Listing,
            Stage::Signing => StageView::Signing,
            Stage::Confirming(first) => StageView::Confirming(first@),
        }
    }
}

impl View for Exchange {
    type V = ExchangeView;

    closed spec fn view(&self) -> ExchangeView {
        ExchangeView {
            key_blob: self.key_blob@,
            challenge: self.challenge@,
            checked: self.checked,
            stage: self.stage@,
        }
    }
}

/// Where an answer leads.
pub enum Step {
    /// The conversation goes on.
    Ask(Exchange),
    /// The key is derived.
    Key(DataKey),
    /// No key can be derived.
    Fail(AgentError),
}

#[verifier::ext_equal]
pub enum StepView {
    Ask(ExchangeView),
    Key(Seq<u8>),
    Fail(AgentErrorView),
}

impl View for Step {
    type V = StepView;

    open spec fn view(&self) -> StepView {
        match self {
            Step::Ask(exchange) => StepView::Ask(exchange@),
            Step::Key(key) => StepView::Key(key@),
            Step::Fail(error) => StepView::Fail(error@),
        }
    }
}

impl ExchangeView {
    /// The conversation at its start.
    pub open spec fn begun(
        key_blob: Seq<u8>,
        challenge: Seq<u8>,
        checked: bool,
    ) -> ExchangeView {
        ExchangeView { key_blob, challenge, checked, stage: StageView::Listing }
    }

    /// What goes to the agent.
    pub open spec fn asked(self) -> Seq<u8> {
        match self.stage {
            StageView::Listing => wire(seq![REQUEST_IDENTITIES]),
            _ => wire(sign_asked(self.key_blob, self.challenge)),
        }
    }

    /// Where an answer leads. The key has to be listed; then the agent signs the
    /// challenge, and signs it again if it is to be checked that it signs the same
    /// data the same way.
    pub open spec fn answered(self, answer: Seq<u8>) -> StepView {
        match self.stage {
            StageView::Listing => match loaded(answer, self.key_blob) {
                Err(error) => StepView::Fail(error),
                Ok(()) => StepView::Ask(ExchangeView { stage: StageView::Signing, ..self }),
            },
            StageView::Signing => match signature_given(answer) {
                Err(error) => StepView::Fail(error),
                Ok(signature) => if self.checked {
                    StepView::Ask(ExchangeView { stage: StageView::Confirming(signature), ..self })
                } else {
                    StepView::Key(key_expanded(signature, self.challenge))
                },
            },
            StageView::Confirming(first) => match signature_given(answer) {
                Err(error) => StepView::Fail(error),
                Ok(second) => if first == second {
                    StepView::Key(key_expanded(first, self.challenge))
                } else {
                    StepView::Fail(AgentErrorView::Plain(AgentError::NotDeterministic))
                },
            },
        }
    }
}

/// The key does not depend on whether it was checked that the agent signs the
/// same data the same way.
pub proof fn checking_gives_the_same_key(
    key_blob: Seq<u8>,
    challenge: Seq<u8>,
    listing: Seq<u8>,
    answer: Seq<u8>,
)
    requires
        loaded(listing, key_blob) is Ok,
        signature_given(answer) is Ok,
    ensures
        ({
            let quick = ExchangeView::begun(key_blob, challenge, false);
            let careful = ExchangeView::begun(key_blob, challenge, true);
            let signing = quick.answered(listing)->Ask_0;
            let twice = careful.answered(listing)->Ask_0;
            let again = twice.answered(answer)->Ask_0;
            &&& quick.answered(listing) is Ask
            &&& careful.answered(listing) is Ask
            &&& twice.answered(answer) is Ask
            &&& again.asked() == twice.asked()
            &&& signing.answered(answer) == StepView::Key(
                key_expanded(signature_given(answer)->Ok_0, challenge),
            )
            &&& again.answered(answer) == signing.answered(answer)
        }),
{
}

/// An agent whose signatures of the same data differ gives no key when that is
/// checked.
pub proof fn unstable_agent_gives_no_key(
    key_blob: Seq<u8>,
    challenge: Seq<u8>,
    first: Seq<u8>,
    answer: Seq<u8>,
)
    requires
        signature_given(answer) != Ok::<Seq<u8>, AgentErrorView>(first),
    ensures
        (ExchangeView {
            key_blob,
            challenge,
            checked: true,
            stage: StageView::Confirming(first),
        }).answered(answer) is Fail,
{
}

/// Starts to derive the key of an archive with this challenge.
pub fn derive_key(key_blob: &[u8], challenge: &[u8; KEY_LEN]) -> (exchange: Result<
    Exchange,
    AgentError,
>)
    ensures
        match exchange {
            Ok(begun) => supported(key_blob@) is Ok && begun@ == ExchangeView::begun(
                key_blob@,
                challenge@,
                false,
            ),
            Err(error) => supported(key_blob@) == Err::<(), AgentErrorView>(error@),
        },
{
    begin(key_blob, challenge, false)
}

/// Starts to derive the key of a new archive with this challenge: the agent has
/// to give the same signature twice.
pub fn derive_key_checked(key_blob: &[u8], challenge: &[u8; KEY_LEN]) -> (exchange: Result<
    Exchange,
    AgentError,
>)
    ensures
        match exchange {
            Ok(begun) => supported(key_blob@) is Ok && begun@ == ExchangeView::begun(
                key_blob@,
                challenge@,
                true,
            ),
            Err(error) => supported(key_blob@) == Err::<(), AgentErrorView>(error@),
        },
{
    begin(key_blob, challenge, true)
}

fn begin(key_blob: &[u8], challenge: &[u8; KEY_LEN], checked: bool) -> (exchange: Result<
    Exchange,
    AgentError,
>)
    ensures
        match exchange {
            Ok(begun) => supported(key_blob@) is Ok && begun@ == ExchangeView::begun(
                key_blob@,
                challenge@,
                checked,
            ),
            Err(error) => supported(key_blob@) == Err::<(), AgentErrorView>(error@),
        },
{
    match ensure_supported(key_blob) {
        Err(error) => Err(error),
        Ok(()) => Ok(
            Exchange {
                key_blob: vstd::slice::slice_to_vec(key_blob),
                challenge: *challenge,
                checked,
                stage: Stage::Listing,
            },
        ),
    }
}

impl Exchange {
    /// What goes to the agent.
    pub fn request(&self) -> (framed: Vec<u8>)
        ensures
            framed@ == self@.asked(),
    {
        match &self.stage {
            Stage::Listing => {
                let mut payload: Vec<u8> = Vec::new();
                payload.push(REQUEST_IDENTITIES);
                assert(payload@ =~= seq![REQUEST_IDENTITIES]);
                frame_request(payload.as_slice())
            },
            _ => {
                let payload: Vec<u8> = sign_request(self.key_blob.as_slice(), &self.challenge);
                frame_request(payload.as_slice())
            },
        }
    }

    /// Gives the conversation up: a signature that it holds is erased.
    pub fn wipe(&mut self)
        ensures
            final(self)@ == (ExchangeView { stage: StageView::Listing, ..old(self)@ }),
    {
        let mut stage: Stage = Stage::Listing;
        std::mem::swap(&mut stage, &mut self.stage);
        if let Stage::Confirming(first) = stage {
            let mut first: Vec<u8> = first;
            erase_all(&mut first);
        }
    }

    /// Takes in the agent's answer. Signatures are erased when they have served.
    pub fn reply(self, answer: &[u8]) -> (step: Step)
        ensures
            step@ == self@.answered(answer@),
    {
        match self.stage {
            Stage::Listing => match ensure_loaded(answer, self.key_blob.as_slice()) {
                Err(error) => Step::Fail(error),
                Ok(()) => Step::Ask(
                    Exchange {
                        key_blob: self.key_blob,
                        challenge: self.challenge,
                        checked: self.checked,
                        stage: Stage::Signing,
                    },
                ),
            },
            Stage::Signing => match signature_of(answer) {
                Err(error) => Step::Fail(error),
                Ok(signature) => {
                    if self.checked {
                        return Step::Ask(
                            Exchange {
                                key_blob: self.key_blob,
                                challenge: self.challenge,
                                checked: self.checked,
                                stage: Stage::Confirming(signature),
                            },
                        );
                    }
                    let key: DataKey = expand(signature.as_slice(), &self.challenge);
                    let mut signature: Vec<u8> = signature;
                    erase_all(&mut signature);
                    Step::Key(key)
                },
            },
            Stage::Confirming(first) => {
                let mut first: Vec<u8> = first;
                match signature_of(answer) {
                    Err(error) => {
                        erase_all(&mut first);
                        Step::Fail(error)
                    },
                    Ok(second) => {
                        let stable: bool = same(first.as_slice(), second.as_slice());
                        let key: DataKey = expand(first.as_slice(), &self.challenge);
                        let mut second: Vec<u8> = second;
                        erase_all(&mut first);
                        erase_all(&mut second);
                        if stable {
                            Step::Key(key)
                        } else {
                            let mut key: DataKey = key;
                            key.wipe();
                            Step::Fail(AgentError::NotDeterministic)
                        }
                    },
                }
            },
        }
    }
}

/// A byte string on the wire is a number of four bytes, the most significant first,
/// that says how many bytes follow, and those bytes.
pub proof fn wire_is(value: Seq<u8>)
    requires
        value.len() < 4294967296,
    ensures
        wire(value).len() == 4 + value.len(),
        16777216 * wire(value)[0] + 65536 * wire(value)[1] + 256 * wire(value)[2] + wire(value)[3]
            == value.len(),
        wire(value).skip(4) == value,
{
    crate::bytes::be32_is(value.len() as int);
    assert(wire(value).skip(4) =~= value);
}

/// Keys and their comments as an agent lists them.
pub open spec fn identities(pairs: Seq<(Seq<u8>, Seq<u8>)>) -> Seq<u8>
    decreases pairs.len(),
{
    if pairs.len() == 0 {
        seq![]
    } else {
        wire(pairs[0].0) + wire(pairs[0].1) + identities(pairs.drop_first())
    }
}

/// The answer of an agent that holds some keys: a byte that says what it is, how many
/// keys there are, and each key with its comment.
pub open spec fn listing(pairs: Seq<(Seq<u8>, Seq<u8>)>) -> Seq<u8> {
    seq![12u8] + crate::bytes::be32(pairs.len() as int) + identities(pairs)
}

/// Whether keys and comments are short enough to be listed.
pub open spec fn can_be_listed(pairs: Seq<(Seq<u8>, Seq<u8>)>) -> bool {
    &&& pairs.len() < 4294967296
    &&& forall|i: int|
        0 <= i < pairs.len() ==> (#[trigger] pairs[i]).0.len() < 4294967296 && pairs[i].1.len()
            < 4294967296
}

/// Whether a key is among those that are listed.
pub open spec fn among(pairs: Seq<(Seq<u8>, Seq<u8>)>, key_blob: Seq<u8>) -> bool {
    exists|i: int| 0 <= i < pairs.len() && (#[trigger] pairs[i]).0 == key_blob
}

#[verifier::rlimit(40)]
proof fn identities_are_read(
    before: Seq<u8>,
    pairs: Seq<(Seq<u8>, Seq<u8>)>,
    after: Seq<u8>,
    key_blob: Seq<u8>,
)
    requires
        can_be_listed(pairs),
    ensures
        listed(
            before + identities(pairs) + after,
            before.len() as int,
            pairs.len() as int,
            key_blob,
        ) == Ok::<bool, AgentErrorView>(among(pairs, key_blob)),
    decreases pairs.len(),
{
    if pairs.len() > 0 {
        let blob = pairs[0].0;
        let comment = pairs[0].1;
        let rest = pairs.drop_first();
        let message = before + identities(pairs) + after;
        assert(message =~= before + wire(blob) + (wire(comment) + identities(rest) + after));
        wire_round_trip(before, blob, wire(comment) + identities(rest) + after);
        assert(message =~= (before + wire(blob)) + wire(comment) + (identities(rest) + after));
        wire_round_trip(before + wire(blob), comment, identities(rest) + after);
        let read = before + wire(blob) + wire(comment);
        assert(message =~= read + identities(rest) + after);
        assert(can_be_listed(rest)) by {
            assert forall|i: int| 0 <= i < rest.len() implies (#[trigger] rest[i]).0.len()
                < 4294967296 && rest[i].1.len() < 4294967296 by {
                assert(rest[i] == pairs[i + 1]);
            }
        }
        identities_are_read(read, rest, after, key_blob);
        if among(pairs, key_blob) && blob != key_blob {
            let i: int = choose|i: int| 0 <= i < pairs.len() && (#[trigger] pairs[i]).0 == key_blob;
            assert(rest[i - 1].0 == key_blob);
        }
        if among(rest, key_blob) {
            let i: int = choose|i: int| 0 <= i < rest.len() && (#[trigger] rest[i]).0 == key_blob;
            assert(pairs[i + 1].0 == key_blob);
        }
        if blob == key_blob {
            assert(pairs[0].0 == key_blob);
        }
    }
}

/// A key is found wherever in an agent's list it stands, and only there: the answer
/// is accepted for a key exactly if some key that is listed equals it, and is refused
/// as one without the key otherwise.
pub proof fn key_is_found_wherever_it_is_listed(
    pairs: Seq<(Seq<u8>, Seq<u8>)>,
    after: Seq<u8>,
    key_blob: Seq<u8>,
)
    requires
        can_be_listed(pairs),
    ensures
        among(pairs, key_blob) ==> loaded(listing(pairs) + after, key_blob) == Ok::<
            (),
            AgentErrorView,
        >(()),
        !among(pairs, key_blob) ==> loaded(listing(pairs) + after, key_blob) == Err::<
            (),
            AgentErrorView,
        >(AgentErrorView::Plain(AgentError::NotLoaded)),
{
    let answer = listing(pairs) + after;
    let count = pairs.len() as int;
    let before = seq![12u8] + crate::bytes::be32(count);
    crate::bytes::be32_round_trip(count);
    assert(answer.subrange(1, 5) =~= crate::bytes::be32(count));
    assert(answer =~= before + identities(pairs) + after);
    identities_are_read(before, pairs, after, key_blob);
}

/// An answer that is no list of keys is refused with the byte that says what it is,
/// and one that is cut off within its head as cut off.
pub proof fn other_answers_list_nothing(answer: Seq<u8>, key_blob: Seq<u8>)
    ensures
        answer.len() == 0 ==> loaded(answer, key_blob) == Err::<(), AgentErrorView>(
            AgentErrorView::Plain(AgentError::TruncatedData),
        ),
        answer.len() > 0 && answer[0] != 12 ==> loaded(answer, key_blob) == Err::<
            (),
            AgentErrorView,
        >(AgentErrorView::Plain(AgentError::ListRefused(answer[0]))),
        0 < answer.len() < 5 && answer[0] == 12 ==> loaded(answer, key_blob) == Err::<
            (),
            AgentErrorView,
        >(AgentErrorView::Plain(AgentError::TruncatedInteger)),
{
}

/// "ssh-ed25519"
pub open spec fn ed25519_name() -> Seq<u8> {
    seq![0x73, 0x73, 0x68, 0x2d, 0x65, 0x64, 0x32, 0x35, 0x35, 0x31, 0x39]
}

/// A key that names the algorithm ssh-ed25519 first is supported, whatever comes
/// behind; one that names another is refused with that name.
pub proof fn keys_are_supported_by_their_name(name: Seq<char>, rest: Seq<u8>)
    requires
        vstd::utf8::encode_utf8(name).len() < 4294967296,
    ensures
        supported(wire(vstd::utf8::encode_utf8(name)) + rest) == if vstd::utf8::encode_utf8(name)
            == ed25519_name() {
            Ok::<(), AgentErrorView>(())
        } else {
            Err::<(), AgentErrorView>(AgentErrorView::Unsupported(name))
        },
{
    let bytes = vstd::utf8::encode_utf8(name);
    let blob = wire(bytes) + rest;
    assert(blob =~= Seq::<u8>::empty() + wire(bytes) + rest);
    wire_round_trip(Seq::<u8>::empty(), bytes, rest);
    vstd::utf8::encode_utf8_valid_utf8(name);
    vstd::utf8::encode_utf8_decode_utf8(name);
    assert(ED25519@ =~= ed25519_name());
}

/// The signature that an agent gives is what its answer holds, if that names the
/// algorithm ssh-ed25519 first. One that names another is refused.
pub proof fn signatures_are_found(algorithm: Seq<u8>, rest: Seq<u8>, after: Seq<u8>)
    requires
        algorithm.len() + rest.len() + 4 < 4294967296,
    ensures
        signature_given(seq![14u8] + wire(wire(algorithm) + rest) + after) == if algorithm
            == ed25519_name() {
            Ok::<Seq<u8>, AgentErrorView>(wire(algorithm) + rest)
        } else {
            Err::<Seq<u8>, AgentErrorView>(AgentErrorView::Plain(AgentError::ForeignSignature))
        },
{
    let signature = wire(algorithm) + rest;
    wire_round_trip(seq![14u8], signature, after);
    assert(signature =~= Seq::<u8>::empty() + wire(algorithm) + rest);
    wire_round_trip(Seq::<u8>::empty(), algorithm, rest);
    assert(ED25519@ =~= ed25519_name());
}

/// An answer that is no signature is refused with the byte that says what it is.
pub proof fn other_answers_sign_nothing(answer: Seq<u8>)
    ensures
        answer.len() == 0 ==> signature_given(answer) == Err::<Seq<u8>, AgentErrorView>(
            AgentErrorView::Plain(AgentError::TruncatedData),
        ),
        answer.len() > 0 && answer[0] != 14 ==> signature_given(answer) == Err::<
            Seq<u8>,
            AgentErrorView,
        >(AgentErrorView::Plain(AgentError::SignDeclined(answer[0]))),
{
}

/// "SSHSIG", and the fields "kipp.blackbox", "", "sha512" and a digest of 64 bytes.
pub open spec fn digest_named(digest: Seq<u8>) -> Seq<u8> {
    seq![0x53u8, 0x53, 0x48, 0x53, 0x49, 0x47] + seq![
        0u8,
        0,
        0,
        13,
        0x6b,
        0x69,
        0x70,
        0x70,
        0x2e,
        0x62,
        0x6c,
        0x61,
        0x63,
        0x6b,
        0x62,
        0x6f,
        0x78,
    ] + seq![0u8, 0, 0, 0] + seq![0u8, 0, 0, 6, 0x73, 0x68, 0x61, 0x35, 0x31, 0x32] + seq![
        0u8,
        0,
        0,
        64,
    ] + digest
}

/// What is signed for a challenge is its digest under the names that say what it is
/// for.
pub proof fn challenge_is_signed_by_its_digest(challenge: Seq<u8>)
    requires
        crate::crypto::sha512(challenge).len() == 64,
    ensures
        data_signed(challenge) == digest_named(crate::crypto::sha512(challenge)),
{
    let digest = crate::crypto::sha512(challenge);
    let magic = seq![0x53u8, 0x53, 0x48, 0x53, 0x49, 0x47];
    let space = seq![
        0u8,
        0,
        0,
        13,
        0x6b,
        0x69,
        0x70,
        0x70,
        0x2e,
        0x62,
        0x6c,
        0x61,
        0x63,
        0x6b,
        0x62,
        0x6f,
        0x78,
    ];
    let none = seq![0u8, 0, 0, 0];
    let hash = seq![0u8, 0, 0, 6, 0x73, 0x68, 0x61, 0x35, 0x31, 0x32];
    let size = seq![0u8, 0, 0, 64];
    assert(SSHSIG_MAGIC@ =~= magic);
    assert(wire(SSHSIG_NAMESPACE@) =~= space);
    assert(wire(seq![]) =~= none);
    assert(wire(SSHSIG_HASH@) =~= hash);
    assert(wire(digest) =~= size + digest);
    assert(magic + space + none + hash + (size + digest) =~= magic + space + none + hash + size
        + digest);
}

/// A request to sign holds the key and what is signed for the challenge, as the fields
/// of a message that is read from front to back.
pub proof fn request_holds_key_and_digest(key_blob: Seq<u8>, challenge: Seq<u8>)
    requires
        key_blob.len() < 4294967296,
        crate::crypto::sha512(challenge).len() == 64,
    ensures
        ({
            let request = sign_asked(key_blob, challenge);
            let data = digest_named(crate::crypto::sha512(challenge));
            let next = 5 + key_blob.len() as int;
            &&& request[0] == 13
            &&& string_at(request, 1) == Ok::<(Seq<u8>, int), AgentErrorView>((key_blob, next))
            &&& string_at(request, next) == Ok::<(Seq<u8>, int), AgentErrorView>(
                (data, request.len() - 4),
            )
            &&& request.skip(request.len() - 4) == seq![0u8, 0, 0, 0]
        }),
{
    challenge_is_signed_by_its_digest(challenge);
    digest_has_length(crate::crypto::sha512(challenge));
    fields_are_read(key_blob, data_signed(challenge));
}

proof fn digest_has_length(digest: Seq<u8>)
    ensures
        digest_named(digest).len() == 41 + digest.len(),
{
}

proof fn fields_are_read(key_blob: Seq<u8>, data: Seq<u8>)
    requires
        key_blob.len() < 4294967296,
        data.len() < 4294967296,
    ensures
        ({
            let request = seq![SIGN_REQUEST] + wire(key_blob) + wire(data) + crate::bytes::be32(0);
            let next = 5 + key_blob.len() as int;
            &&& request[0] == 13
            &&& string_at(request, 1) == Ok::<(Seq<u8>, int), AgentErrorView>((key_blob, next))
            &&& string_at(request, next) == Ok::<(Seq<u8>, int), AgentErrorView>(
                (data, request.len() - 4),
            )
            &&& request.skip(request.len() - 4) == seq![0u8, 0, 0, 0]
        }),
{
    let head = seq![SIGN_REQUEST];
    let end = crate::bytes::be32(0);
    let request = head + wire(key_blob) + wire(data) + end;
    assert(end =~= seq![0u8, 0, 0, 0]);
    assert(request =~= head + wire(key_blob) + (wire(data) + end));
    wire_round_trip(head, key_blob, wire(data) + end);
    wire_round_trip(head + wire(key_blob), data, end);
    assert(request.skip(request.len() - 4) =~= end);
}

/// "kipp/v1/data"
pub open spec fn key_purpose() -> Seq<u8> {
    seq![0x6bu8, 0x69, 0x70, 0x70, 0x2f, 0x76, 0x31, 0x2f, 0x64, 0x61, 0x74, 0x61]
}

/// A conversation with an agent that lists the key and signs gives the key that the
/// signature is expanded to, under the challenge and what the key is for. If it is to
/// be checked that the agent signs the same data the same way, the agent is asked
/// again, and gives that key only with the same signature.
pub proof fn conversation_gives_the_key(
    exchange: ExchangeView,
    answer: Seq<u8>,
    signed: Seq<u8>,
    signature: Seq<u8>,
    other: Seq<u8>,
)
    requires
        exchange.stage == StageView::Listing,
        loaded(answer, exchange.key_blob) is Ok,
        signature_given(signed) == Ok::<Seq<u8>, AgentErrorView>(signature),
        signature_given(other) is Ok,
    ensures
        ({
            let key = crate::crypto::hkdf_sha512(exchange.challenge, signature, key_purpose());
            let signing = exchange.answered(answer)->Ask_0;
            let confirming = signing.answered(signed)->Ask_0;
            let request = wire(sign_asked(exchange.key_blob, exchange.challenge));
            &&& exchange.asked() == seq![0u8, 0, 0, 1, 11]
            &&& exchange.answered(answer) is Ask
            &&& signing.asked() == request
            &&& !exchange.checked ==> signing.answered(signed) == StepView::Key(key)
            &&& exchange.checked ==> {
                &&& signing.answered(signed) is Ask
                &&& confirming.asked() == request
                &&& confirming.answered(other) == if signature_given(other)->Ok_0 == signature {
                    StepView::Key(key)
                } else {
                    StepView::Fail(AgentErrorView::Plain(AgentError::NotDeterministic))
                }
            }
        }),
{
    assert(HKDF_INFO@ =~= key_purpose());
    assert(wire(seq![REQUEST_IDENTITIES]) =~= seq![0u8, 0, 0, 1, 11]);
}

/// A conversation begins with the list of keys, for this key and this challenge.
pub proof fn conversation_begins_with_the_list(
    key_blob: Seq<u8>,
    challenge: Seq<u8>,
    checked: bool,
)
    ensures
        ExchangeView::begun(key_blob, challenge, checked).stage == StageView::Listing,
        ExchangeView::begun(key_blob, challenge, checked).key_blob == key_blob,
        ExchangeView::begun(key_blob, challenge, checked).challenge == challenge,
        ExchangeView::begun(key_blob, challenge, checked).checked == checked,
{
}

/// A conversation ends with the error of the answer that cannot be used, and with no
/// key.
pub proof fn bad_answers_end_the_conversation(exchange: ExchangeView, answer: Seq<u8>)
    ensures
        exchange.stage == StageView::Listing ==> (loaded(answer, exchange.key_blob) matches Err(
            error,
        ) ==> exchange.answered(answer) == StepView::Fail(error)),
        exchange.stage != StageView::Listing ==> (signature_given(answer) matches Err(error)
            ==> exchange.answered(answer) == StepView::Fail(error)),
{
}

/// Whether an error says that a message ends too early.
pub open spec fn says_cut_off(error: AgentErrorView) -> bool {
    ||| error == AgentErrorView::Plain(AgentError::TruncatedData)
    ||| error == AgentErrorView::Plain(AgentError::TruncatedInteger)
    ||| error == AgentErrorView::Plain(AgentError::TruncatedString)
}

proof fn cut_string_is_noticed(before: Seq<u8>, value: Seq<u8>, after: Seq<u8>, n: int)
    requires
        value.len() < 4294967296,
        before.len() <= n < before.len() + 4 + value.len(),
    ensures
        string_at((before + wire(value) + after).take(n), before.len() as int) matches Err(error)
            && says_cut_off(error),
{
    let message = (before + wire(value) + after).take(n);
    let at = before.len() as int;
    crate::bytes::be32_round_trip(value.len() as int);
    if n >= at + 4 {
        assert(message.subrange(at, at + 4) =~= crate::bytes::be32(value.len() as int));
    }
}

proof fn whole_string_is_read(before: Seq<u8>, value: Seq<u8>, after: Seq<u8>, n: int)
    requires
        value.len() < 4294967296,
        before.len() + 4 + value.len() <= n <= (before + wire(value) + after).len(),
    ensures
        string_at((before + wire(value) + after).take(n), before.len() as int) == Ok::<
            (Seq<u8>, int),
            AgentErrorView,
        >((value, (before + wire(value)).len() as int)),
{
    let message = before + wire(value) + after;
    let rest = after.take(n - before.len() - 4 - value.len());
    assert(message.take(n) =~= before + wire(value) + rest);
    wire_round_trip(before, value, rest);
}

proof fn cut_identities_are_noticed(
    before: Seq<u8>,
    pairs: Seq<(Seq<u8>, Seq<u8>)>,
    n: int,
    key_blob: Seq<u8>,
)
    requires
        can_be_listed(pairs),
        before.len() <= n < (before + identities(pairs)).len(),
    ensures
        listed(
            (before + identities(pairs)).take(n),
            before.len() as int,
            pairs.len() as int,
            key_blob,
        ) matches Err(error) && says_cut_off(error),
    decreases pairs.len(),
{
    if pairs.len() > 0 {
        let blob = pairs[0].0;
        let comment = pairs[0].1;
        let rest = pairs.drop_first();
        let message = before + identities(pairs);
        let first = before + wire(blob);
        let read = first + wire(comment);
        assert(message =~= before + wire(blob) + (wire(comment) + identities(rest)));
        assert(message =~= first + wire(comment) + identities(rest));
        assert(message =~= read + identities(rest));
        assert forall|i: int| 0 <= i < rest.len() implies (#[trigger] rest[i]).0.len() < 4294967296
            && rest[i].1.len() < 4294967296 by {
            assert(rest[i] == pairs[i + 1]);
        }
        if n < first.len() {
            cut_string_is_noticed(before, blob, wire(comment) + identities(rest), n);
        } else {
            whole_string_is_read(before, blob, wire(comment) + identities(rest), n);
            if n < read.len() {
                cut_string_is_noticed(first, comment, identities(rest), n);
            } else {
                whole_string_is_read(first, comment, identities(rest), n);
                cut_identities_are_noticed(read, rest, n, key_blob);
            }
        }
    }
}

/// A list of keys that is cut off anywhere is refused as cut off, even if the key came
/// before.
pub proof fn cut_lists_are_refused(
    pairs: Seq<(Seq<u8>, Seq<u8>)>,
    n: int,
    key_blob: Seq<u8>,
)
    requires
        can_be_listed(pairs),
        0 <= n < listing(pairs).len(),
    ensures
        loaded(listing(pairs).take(n), key_blob) matches Err(error) && says_cut_off(error),
{
    let count = pairs.len() as int;
    let before = seq![12u8] + crate::bytes::be32(count);
    let answer = listing(pairs).take(n);
    crate::bytes::be32_round_trip(count);
    if n >= 5 {
        assert(answer.subrange(1, 5) =~= crate::bytes::be32(count));
        assert(listing(pairs) =~= before + identities(pairs));
        cut_identities_are_noticed(before, pairs, n, key_blob);
    }
}

/// A signature that is cut off anywhere is refused as cut off.
pub proof fn cut_signatures_are_refused(signature: Seq<u8>, n: int)
    requires
        signature.len() < 4294967296,
        0 <= n < (seq![14u8] + wire(signature)).len(),
    ensures
        signature_given((seq![14u8] + wire(signature)).take(n)) matches Err(error) && says_cut_off(
            error,
        ),
{
    if n >= 1 {
        let none = Seq::<u8>::empty();
        assert(seq![14u8] + wire(signature) + none =~= seq![14u8] + wire(signature));
        cut_string_is_noticed(seq![14u8], signature, none, n);
    }
}

/// A key whose algorithm is not named in text is refused as such, and one that is cut
/// off within the name as cut off.
pub proof fn keys_without_a_name_are_refused(name: Seq<u8>, rest: Seq<u8>, n: int)
    requires
        name.len() < 4294967296,
        0 <= n < 4 + name.len(),
    ensures
        !vstd::utf8::valid_utf8(name) ==> supported(wire(name) + rest) == Err::<
            (),
            AgentErrorView,
        >(AgentErrorView::Plain(AgentError::AlgorithmNotUtf8)),
        supported((wire(name) + rest).take(n)) matches Err(error) && says_cut_off(error),
{
    let none = Seq::<u8>::empty();
    assert(none + wire(name) + rest =~= wire(name) + rest);
    wire_round_trip(none, name, rest);
    cut_string_is_noticed(none, name, rest, n);
}

} // verus!
