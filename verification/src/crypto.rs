//! Digests, ciphers, compression and chance, and the key of an archive.

use chacha20poly1305::aead::{Aead, KeyInit, Payload};
use chacha20poly1305::{XChaCha20Poly1305, XNonce};
use hkdf::Hkdf;
use rand::Rng;
use sha2::{Digest, Sha256, Sha512};
use subtle::ConstantTimeEq;
use vstd::prelude::*;
use zeroize::Zeroize;

verus! {

/// The SHA-256 digest of some bytes.
pub uninterp spec fn sha256(data: Seq<u8>) -> Seq<u8>;

/// The SHA-512 digest of some bytes.
pub uninterp spec fn sha512(data: Seq<u8>) -> Seq<u8>;

/// The first 32 bytes that HKDF with SHA-512 expands some key material into.
pub uninterp spec fn hkdf_sha512(salt: Seq<u8>, material: Seq<u8>, info: Seq<u8>) -> Seq<u8>;

/// What XChaCha20-Poly1305 makes of a message, tag at the end.
pub uninterp spec fn sealed(
    key: Seq<u8>,
    nonce: Seq<u8>,
    associated: Seq<u8>,
    message: Seq<u8>,
) -> Seq<u8>;

/// The message that XChaCha20-Poly1305 finds in a ciphertext, or nothing if the
/// ciphertext is not authentic.
pub uninterp spec fn opened(
    key: Seq<u8>,
    nonce: Seq<u8>,
    associated: Seq<u8>,
    ciphertext: Seq<u8>,
) -> Option<Seq<u8>>;

/// What zstd makes of some data at a level, and whether it can fail to, for want
/// of memory.
pub uninterp spec fn compression(data: Seq<u8>, level: i32) -> (Seq<u8>, bool);

/// What zstd makes of some data at a level.
pub open spec fn compressed(data: Seq<u8>, level: i32) -> Seq<u8> {
    compression(data, level).0
}

/// Whether zstd can fail to compress some data at a level.
pub open spec fn can_fail(data: Seq<u8>, level: i32) -> bool {
    compression(data, level).1
}

/// Whether zstd can set memory aside for whatever data of a length compress to: no
/// vector holds more than `isize::MAX` bytes.
pub open spec fn compressible(len: int) -> bool {
    len + len / 256 + 64 <= isize::MAX
}

/// The data of at most `capacity` bytes that zstd finds in some bytes, if any.
pub uninterp spec fn decompressed(data: Seq<u8>, capacity: usize) -> Option<Seq<u8>>;

/// Calls `Sha256::digest`, which is a function of the data.
#[verifier::external_body]
pub(crate) fn digest256(data: &[u8]) -> (digest: [u8; 32])
    ensures
        digest@ == sha256(data@),
{
    Sha256::digest(data).into()
}

/// Calls `Sha512::digest`, which is a function of the data.
#[verifier::external_body]
pub(crate) fn digest512(data: &[u8]) -> (digest: [u8; 64])
    ensures
        digest@ == sha512(data@),
{
    Sha512::digest(data).into()
}

/// Calls `Hkdf::<Sha512>::new` and `Hkdf::expand` for 32 bytes, a length that
/// `expand` always accepts. The bytes are a function of salt, material and info.
#[verifier::external_body]
pub(crate) fn stretch(salt: &[u8], material: &[u8], info: &[u8]) -> (key: [u8; 32])
    ensures
        key@ == hkdf_sha512(salt@, material@, info@),
{
    let mut key = [0u8; 32];
    Hkdf::<Sha512>::new(Some(salt), material).expand(info, &mut key).expect("valid hkdf length");
    key
}

/// Calls `Aead::encrypt` of `XChaCha20Poly1305`, a function of its arguments. It
/// fails for no message of less than 2^32 - 2 blocks of 64 bytes, for which there
/// is keystream enough. The ciphertext is sixteen bytes longer than the message,
/// and decrypting it under the same key, nonce and associated data gives the
/// message back.
#[verifier::external_body]
pub(crate) fn encrypt(
    key: &[u8; 32],
    nonce: &[u8; 24],
    associated: &[u8],
    message: &[u8],
) -> (ciphertext: Option<Vec<u8>>)
    requires
        message@.len() / 64 < 0xffff_fffe,
    ensures
        ciphertext is Some,
        ciphertext matches Some(bytes) ==> {
            &&& bytes@ == sealed(key@, nonce@, associated@, message@)
            &&& bytes@.len() == message@.len() + 16
            &&& opened(key@, nonce@, associated@, bytes@) == Some(message@)
        },
{
    let cipher = XChaCha20Poly1305::new_from_slice(key).expect("data key is 32 bytes");
    let nonce = XNonce::try_from(nonce.as_slice()).expect("nonce is 24 bytes");
    cipher.encrypt(&nonce, Payload { msg: message, aad: associated }).ok()
}

/// Calls `Aead::decrypt` of `XChaCha20Poly1305`, a function of its arguments. The
/// message is sixteen bytes shorter than the ciphertext, which has to be of less
/// than 2^32 - 2 blocks of 64 bytes, so that there is keystream enough.
#[verifier::external_body]
pub(crate) fn decrypt(
    key: &[u8; 32],
    nonce: &[u8; 24],
    associated: &[u8],
    ciphertext: &[u8],
) -> (message: Option<Vec<u8>>)
    requires
        ciphertext@.len() / 64 < 0xffff_fffe,
    ensures
        message is Some == opened(key@, nonce@, associated@, ciphertext@) is Some,
        message matches Some(bytes) ==> {
            &&& opened(key@, nonce@, associated@, ciphertext@) == Some(bytes@)
            &&& bytes@.len() + 16 == ciphertext@.len()
        },
{
    let cipher = XChaCha20Poly1305::new_from_slice(key).expect("data key is 32 bytes");
    let nonce = XNonce::try_from(nonce.as_slice()).expect("nonce is 24 bytes");
    cipher.decrypt(&nonce, Payload { msg: ciphertext, aad: associated }).ok()
}

/// Calls `zstd::bulk::compress`. Where it succeeds the result is a function of data
/// and level, and decompressing it gives the data back wherever there is room for
/// it. It fails only on data that it can fail on: whether it does so rests on the
/// memory that there is, which zstd reports the want of as an error. First it sets
/// aside the data's length, a 256th part of it and up to 64 bytes, which has to be
/// what a vector can hold.
#[verifier::external_body]
pub(crate) fn compress(data: &[u8], level: i32) -> (squeezed: Option<Vec<u8>>)
    requires
        compressible(data@.len() as int),
    ensures
        squeezed is None ==> compression(data@, level).1,
        squeezed matches Some(bytes) ==> {
            &&& bytes@ == compression(data@, level).0
            &&& forall|capacity: usize|
                data@.len() <= capacity <= isize::MAX ==> #[trigger] decompressed(
                    bytes@,
                    capacity,
                ) == Some(data@)
        },
{
    zstd::bulk::compress(data, level).ok()
}

/// Calls `zstd::bulk::decompress`, a function of data and capacity. It never gives
/// more than `capacity` bytes, for which it may set memory aside: no vector holds
/// more than `isize::MAX`.
#[verifier::external_body]
pub(crate) fn decompress(data: &[u8], capacity: usize) -> (inflated: Option<Vec<u8>>)
    requires
        capacity <= isize::MAX,
    ensures
        inflated is Some == decompressed(data@, capacity) is Some,
        inflated matches Some(bytes) ==> {
            &&& decompressed(data@, capacity) == Some(bytes@)
            &&& bytes@.len() <= capacity
        },
{
    zstd::bulk::decompress(data, capacity).ok()
}

/// Calls `ConstantTimeEq::ct_eq` of slices, which says whether they are equal.
#[verifier::external_body]
pub(crate) fn same(a: &[u8], b: &[u8]) -> (equal: bool)
    ensures
        equal == (a@ == b@),
{
    a.ct_eq(b).into()
}

/// Calls `fill_bytes` of `rand::rng()`. Nothing is known of the bytes but how
/// many there are, which is as many as a vector can hold at most.
#[verifier::external_body]
pub(crate) fn random(count: usize) -> (bytes: Vec<u8>)
    requires
        count <= isize::MAX,
    ensures
        bytes@.len() == count,
{
    let mut bytes = vec![0u8; count];
    rand::rng().fill_bytes(&mut bytes);
    bytes
}

/// Calls `Zeroize::zeroize` of an array, which leaves zeros.
#[verifier::external_body]
pub(crate) fn erase(bytes: &mut [u8; 32])
    ensures
        forall|i: int| 0 <= i < 32 ==> final(bytes)@[i] == 0,
{
    bytes.zeroize()
}

/// Calls `Zeroize::zeroize` of a vector, which overwrites its bytes and leaves it
/// empty.
#[verifier::external_body]
pub(crate) fn erase_all(bytes: &mut Vec<u8>)
    ensures
        final(bytes)@.len() == 0,
{
    bytes.zeroize()
}

/// The key that the frames of an archive are sealed with.
pub struct DataKey {
    bytes: [u8; 32],
}

impl View for DataKey {
    type V = Seq<u8>;

    closed spec fn view(&self) -> Seq<u8> {
        self.bytes@
    }
}

impl DataKey {
    /// The key of these bytes.
    pub fn new(bytes: [u8; 32]) -> (key: Self)
        ensures
            key@ == bytes@,
    {
        DataKey { bytes }
    }

    /// The bytes of the key.
    pub fn bytes(&self) -> (bytes: &[u8; 32])
        ensures
            bytes@ == self@,
    {
        &self.bytes
    }

    /// Overwrites the key with zeros. A holder calls it when the key has served.
    pub fn wipe(&mut self)
        ensures
            final(self)@.len() == 32,
            forall|i: int| 0 <= i < 32 ==> final(self)@[i] == 0,
    {
        erase(&mut self.bytes);
    }
}

} // verus!
