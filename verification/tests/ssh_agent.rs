use hkdf::Hkdf;
use kipp::agent::{
    derive_key, derive_key_checked, ensure_loaded, ensure_supported, expand, fingerprint,
    frame_request, key_algorithm, put_string, reply_length, sign_request, signature_of,
    sshsig_blob, AgentError, Exchange, Step,
};
use sha2::{Digest, Sha512};

const CHALLENGE: [u8; 32] = [4u8; 32];

fn wire(parts: &[&[u8]]) -> Vec<u8> {
    let mut out = Vec::new();
    for part in parts {
        put_string(&mut out, part);
    }
    out
}

fn key_blob() -> Vec<u8> {
    wire(&[b"ssh-ed25519", &[1u8; 32]])
}

fn listing(keys: &[&[u8]]) -> Vec<u8> {
    let mut answer = vec![12];
    answer.extend_from_slice(&(keys.len() as u32).to_be_bytes());
    for key in keys {
        put_string(&mut answer, key);
        put_string(&mut answer, b"comment");
    }
    answer
}

fn signed(signature: &[u8]) -> Vec<u8> {
    let mut answer = vec![14];
    put_string(&mut answer, &wire(&[b"ssh-ed25519", signature]));
    answer
}

fn begun(exchange: Result<Exchange, AgentError>) -> Exchange {
    match exchange {
        Ok(exchange) => exchange,
        Err(error) => panic!("{error:?}"),
    }
}

fn asked(step: Step) -> Exchange {
    match step {
        Step::Ask(exchange) => exchange,
        Step::Key(_) => panic!("a key"),
        Step::Fail(error) => panic!("{error:?}"),
    }
}

fn given(step: Step) -> [u8; 32] {
    match step {
        Step::Key(key) => *key.bytes(),
        Step::Ask(_) => panic!("a question"),
        Step::Fail(error) => panic!("{error:?}"),
    }
}

fn failed(step: Step) -> AgentError {
    match step {
        Step::Fail(error) => error,
        _ => panic!("no failure"),
    }
}

#[test]
fn a_key_is_known_by_its_digest() {
    let digest: [u8; 32] = [
        0xba, 0x78, 0x16, 0xbf, 0x8f, 0x01, 0xcf, 0xea, 0x41, 0x41, 0x40, 0xde, 0x5d, 0xae, 0x22,
        0x23, 0xb0, 0x03, 0x61, 0xa3, 0x96, 0x17, 0x7a, 0x9c, 0xb4, 0x10, 0xff, 0x61, 0xf2, 0x00,
        0x15, 0xad,
    ];
    assert_eq!(fingerprint(b"abc"), digest);
}

#[test]
fn strings_have_their_length_before_them() {
    assert_eq!(wire(&[b"abc"]), b"\x00\x00\x00\x03abc");
    assert_eq!(wire(&[b"", &[7u8; 300]])[..8], [0, 0, 0, 0, 0, 0, 1, 44]);
    assert_eq!(frame_request(b"\x0b"), b"\x00\x00\x00\x01\x0b");
}

#[test]
fn a_key_names_its_algorithm() {
    assert_eq!(key_algorithm(&key_blob()), Ok("ssh-ed25519".to_owned()));
    assert_eq!(key_algorithm(&wire(&[b"ssh-rsa"])), Ok("ssh-rsa".to_owned()));
    assert_eq!(key_algorithm(&wire(&[b"\xff"])), Err(AgentError::AlgorithmNotUtf8));
    assert_eq!(key_algorithm(b"\x00\x00\x00"), Err(AgentError::TruncatedInteger));
    assert_eq!(key_algorithm(b"\x00\x00\x00\x05abcd"), Err(AgentError::TruncatedString));
    assert_eq!(key_algorithm(b"\xff\xff\xff\xffabcd"), Err(AgentError::TruncatedString));
}

#[test]
fn only_one_algorithm_is_supported() {
    assert_eq!(ensure_supported(&key_blob()), Ok(()));
    assert_eq!(
        ensure_supported(&wire(&[b"ssh-rsa"])),
        Err(AgentError::Unsupported("ssh-rsa".to_owned()))
    );
    assert_eq!(
        ensure_supported(&wire(&[b"ssh-ed25519 "])),
        Err(AgentError::Unsupported("ssh-ed25519 ".to_owned()))
    );
    assert_eq!(ensure_supported(b""), Err(AgentError::TruncatedInteger));
}

#[test]
fn the_data_to_sign_are_a_namespaced_digest() {
    let digest = Sha512::digest(CHALLENGE);
    let mut wanted = b"SSHSIG".to_vec();
    put_string(&mut wanted, b"kipp.blackbox");
    put_string(&mut wanted, b"");
    put_string(&mut wanted, b"sha512");
    put_string(&mut wanted, &digest);
    assert_eq!(sshsig_blob(&CHALLENGE), wanted);
}

#[test]
fn a_request_to_sign_names_key_and_data() {
    let mut wanted = vec![13];
    put_string(&mut wanted, b"key");
    put_string(&mut wanted, &sshsig_blob(&CHALLENGE));
    wanted.extend_from_slice(&[0, 0, 0, 0]);
    assert_eq!(sign_request(b"key", &CHALLENGE), wanted);
}

#[test]
fn keys_are_expanded_from_signatures() {
    let mut wanted = [0u8; 32];
    let expanded = Hkdf::<Sha512>::new(Some(&CHALLENGE), b"signature")
        .expand(b"kipp/v1/data", &mut wanted);
    assert!(expanded.is_ok());
    assert_eq!(expand(b"signature", &CHALLENGE).bytes(), &wanted);
    assert_ne!(expand(b"other", &CHALLENGE).bytes(), &wanted);
    assert_ne!(expand(b"signature", &[5u8; 32]).bytes(), &wanted);
}

#[test]
fn a_key_has_to_be_listed() {
    let key = key_blob();
    assert_eq!(ensure_loaded(&listing(&[b"a", &key, b"b"]), &key), Ok(()));
    assert_eq!(ensure_loaded(&listing(&[b"a", b"b"]), &key), Err(AgentError::NotLoaded));
    assert_eq!(ensure_loaded(&listing(&[]), &key), Err(AgentError::NotLoaded));
    assert_eq!(ensure_loaded(b"", &key), Err(AgentError::TruncatedData));
    assert_eq!(ensure_loaded(b"\x05", &key), Err(AgentError::ListRefused(5)));
    assert_eq!(ensure_loaded(b"\x0c\x00", &key), Err(AgentError::TruncatedInteger));
    let mut short = listing(&[&key, &key]);
    short.pop();
    assert_eq!(ensure_loaded(&short, &key), Err(AgentError::TruncatedString));
}

#[test]
fn a_signature_has_to_be_of_the_algorithm() {
    assert_eq!(signature_of(&signed(b"sig")), Ok(wire(&[b"ssh-ed25519", b"sig"])));
    assert_eq!(signature_of(b""), Err(AgentError::TruncatedData));
    assert_eq!(signature_of(b"\x05"), Err(AgentError::SignDeclined(5)));
    assert_eq!(signature_of(b"\x0e\x00\x00\x00\x04abc"), Err(AgentError::TruncatedString));
    let mut foreign = vec![14];
    put_string(&mut foreign, &wire(&[b"ssh-rsa", b"sig"]));
    assert_eq!(signature_of(&foreign), Err(AgentError::ForeignSignature));
    let mut empty = vec![14];
    put_string(&mut empty, b"");
    assert_eq!(signature_of(&empty), Err(AgentError::TruncatedInteger));
}

#[test]
fn answers_have_a_length_within_bounds() {
    assert_eq!(reply_length(&[0, 0, 0, 0]), Err(AgentError::ReplyLength(0)));
    assert_eq!(reply_length(&[0, 0, 0, 1]), Ok(1));
    assert_eq!(reply_length(&[0, 4, 0, 0]), Ok(262144));
    assert_eq!(reply_length(&[0, 4, 0, 1]), Err(AgentError::ReplyLength(262145)));
}

#[test]
fn a_key_is_derived_from_one_signature() {
    let key = key_blob();
    let listing_stage = begun(derive_key(&key, &CHALLENGE));
    assert_eq!(listing_stage.request(), b"\x00\x00\x00\x01\x0b");
    let signing = asked(listing_stage.reply(&listing(&[&key])));
    assert_eq!(signing.request(), frame_request(&sign_request(&key, &CHALLENGE)));
    let derived = given(signing.reply(&signed(b"sig")));
    assert_eq!(&derived, expand(&wire(&[b"ssh-ed25519", b"sig"]), &CHALLENGE).bytes());
}

#[test]
fn a_new_archive_has_the_agent_sign_twice() {
    let key = key_blob();
    let first = asked(begun(derive_key_checked(&key, &CHALLENGE)).reply(&listing(&[&key])));
    let second = asked(first.reply(&signed(b"sig")));
    assert_eq!(second.request(), frame_request(&sign_request(&key, &CHALLENGE)));
    let derived = given(second.reply(&signed(b"sig")));
    let quick = asked(begun(derive_key(&key, &CHALLENGE)).reply(&listing(&[&key])));
    assert_eq!(derived, given(quick.reply(&signed(b"sig"))));
}

#[test]
fn an_agent_that_signs_otherwise_each_time_is_refused() {
    let key = key_blob();
    let first = asked(begun(derive_key_checked(&key, &CHALLENGE)).reply(&listing(&[&key])));
    let second = asked(first.reply(&signed(b"sig")));
    assert_eq!(failed(second.reply(&signed(b"gis"))), AgentError::NotDeterministic);
}

#[test]
fn failures_end_the_conversation() {
    let key = key_blob();
    assert_eq!(
        derive_key(&wire(&[b"ssh-rsa"]), &CHALLENGE).err(),
        Some(AgentError::Unsupported("ssh-rsa".to_owned()))
    );
    assert_eq!(
        failed(begun(derive_key(&key, &CHALLENGE)).reply(&listing(&[]))),
        AgentError::NotLoaded
    );
    let signing = asked(begun(derive_key(&key, &CHALLENGE)).reply(&listing(&[&key])));
    assert_eq!(failed(signing.reply(b"\x05")), AgentError::SignDeclined(5));
    let first = asked(begun(derive_key_checked(&key, &CHALLENGE)).reply(&listing(&[&key])));
    let second = asked(first.reply(&signed(b"sig")));
    assert_eq!(failed(second.reply(b"\x05")), AgentError::SignDeclined(5));
}

#[test]
fn a_conversation_can_be_given_up() {
    let key = key_blob();
    let first = asked(begun(derive_key_checked(&key, &CHALLENGE)).reply(&listing(&[&key])));
    let mut second = asked(first.reply(&signed(b"sig")));
    second.wipe();
    assert_eq!(second.request(), b"\x00\x00\x00\x01\x0b");
}
