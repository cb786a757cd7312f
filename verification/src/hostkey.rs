//! The key that the server is known by.

use russh::keys::ssh_key::private::Ed25519Keypair;
use russh::keys::ssh_key::LineEnding;
use russh::keys::PrivateKey;
use vstd::prelude::*;

use crate::bytes::take32;
use crate::crypto::{erase, erase_all, random};

verus! {

/// The Ed25519 key that a seed gives, in the form of a key file of OpenSSH.
pub uninterp spec fn key_file(seed: Seq<u8>) -> Option<Seq<char>>;

pub open spec fn file_view(file: Option<String>) -> Option<Seq<char>> {
    match file {
        Some(text) => Some(text@),
        None => None,
    }
}

/// Calls `Ed25519Keypair::from_seed` and `PrivateKey::to_openssh`. The text is a
/// function of the seed: a key without a passphrase is written without chance.
#[verifier::external_body]
fn encode(seed: &[u8; 32]) -> (file: Option<String>)
    ensures
        file_view(file) == key_file(seed@),
{
    let key = PrivateKey::from(Ed25519Keypair::from_seed(seed));
    key.to_openssh(LineEnding::LF).ok().map(|text| text.to_string())
}

/// The binary form of the private key that the text of a key file holds.
pub uninterp spec fn host_key_read(text: Seq<char>) -> Option<Seq<u8>>;

pub open spec fn bytes_view(bytes: Option<Vec<u8>>) -> Option<Seq<u8>> {
    match bytes {
        Some(found) => Some(found@),
        None => None,
    }
}

/// Calls `PrivateKey::from_openssh` and `PrivateKey::to_bytes`. What they give is a
/// function of the text.
#[verifier::external_body]
fn read(text: &str) -> (key: Option<Vec<u8>>)
    ensures
        bytes_view(key) == host_key_read(text@),
{
    PrivateKey::from_openssh(text).ok()?.to_bytes().ok().map(|bytes| bytes.to_vec())
}

/// The binary form of the private key that the text of a key file holds, if it
/// holds one.
pub fn host_key(text: &str) -> (key: Option<Vec<u8>>)
    ensures
        bytes_view(key) == host_key_read(text@),
{
    read(text)
}

/// Makes a key of a seed that is drawn by chance, and gives the text of its file.
pub fn generate() -> (file: Option<String>)
    ensures
        exists|seed: Seq<u8>| seed.len() == 32 && #[trigger] key_file(seed) == file_view(file),
{
    let mut drawn: Vec<u8> = random(32);
    let mut seed: [u8; 32] = take32(drawn.as_slice(), 0);
    erase_all(&mut drawn);
    let ghost view = seed@;
    let file: Option<String> = generate_from(&mut seed);
    assert(view.len() == 32 && key_file(view) == file_view(file));
    file
}

/// Makes a key of this seed, which is erased, and gives the text of its file.
pub fn generate_from(seed: &mut [u8; 32]) -> (file: Option<String>)
    ensures
        file_view(file) == key_file(old(seed)@),
        forall|i: int| 0 <= i < 32 ==> final(seed)@[i] == 0,
{
    let file: Option<String> = encode(seed);
    erase(seed);
    file
}

} // verus!
