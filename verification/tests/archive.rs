use chacha20poly1305::aead::{Aead, KeyInit, Payload};
use chacha20poly1305::{XChaCha20Poly1305, XNonce};
use kipp::blackbox::{
    decode_payload, encode_payload, group, pack, unpack, AppendError, Blackbox, DataKey,
    FrameError, Header, OpenError, Opened, Record, Who,
};

const OWNER: [u8; 32] = [7u8; 32];
const CHALLENGE: [u8; 32] = [9u8; 32];

fn key(byte: u8) -> DataKey {
    DataKey::new([byte; 32])
}

fn open(contents: &[u8]) -> Result<Opened, OpenError> {
    Blackbox::open_with(contents, OWNER, CHALLENGE)
}

fn add(store: &mut Blackbox, file: &mut Vec<u8>, key: &DataKey, cbor: &[u8]) -> usize {
    let staged = match store.append(key, cbor) {
        Ok(staged) => staged,
        Err(error) => panic!("{error:?}"),
    };
    assert_eq!(staged.frame.offset as usize, file.len());
    file.extend_from_slice(&staged.bytes);
    store.commit(staged)
}

fn archive(records: &[&[u8]]) -> (Blackbox, Vec<u8>) {
    let opened = match open(b"") {
        Ok(opened) => opened,
        Err(error) => panic!("{error:?}"),
    };
    let mut file = match opened.header {
        Some(header) => header,
        None => panic!("no header"),
    };
    let mut store = opened.store;
    for record in records {
        add(&mut store, &mut file, &key(1), record);
    }
    (store, file)
}

fn load(store: &Blackbox, key: &DataKey, file: &[u8]) -> Result<Vec<Vec<u8>>, (usize, FrameError)> {
    store.load_all(key, file)
}

#[test]
fn speakers_take_turns() {
    assert_eq!(Who::User.toggled(), Who::Kipp);
    assert_eq!(Who::Kipp.toggled(), Who::User);
    assert_eq!(Who::User.toggled().toggled(), Who::User);
}

#[test]
fn a_header_is_magic_version_and_two_keys() {
    let header = Header { fingerprint: OWNER, challenge: CHALLENGE };
    let raw = header.encode();
    assert_eq!(raw.len(), 69);
    assert_eq!(&raw[..5], b"KIPP\x01");
    assert_eq!(&raw[5..37], &OWNER);
    assert_eq!(&raw[37..], &CHALLENGE);
    match Header::decode(&raw) {
        Ok(back) => {
            assert_eq!(back.fingerprint, OWNER);
            assert_eq!(back.challenge, CHALLENGE);
        }
        Err(error) => panic!("{error:?}"),
    }
}

#[test]
fn foreign_headers_are_refused() {
    let mut raw = Header { fingerprint: OWNER, challenge: CHALLENGE }.encode();
    raw[4] = 2;
    assert!(matches!(Header::decode(&raw), Err(OpenError::Version(2))));
    raw[0] = b'k';
    assert!(matches!(Header::decode(&raw), Err(OpenError::NotBlackbox)));
}

#[test]
fn an_empty_file_becomes_an_archive() {
    let opened = match Blackbox::open_or_create(b"", OWNER) {
        Ok(opened) => opened,
        Err(error) => panic!("{error:?}"),
    };
    assert_eq!(opened.cut, None);
    assert_eq!(opened.store.frame_count(), 0);
    assert!(opened.store.matches_key(&OWNER));
    assert!(!opened.store.matches_key(&CHALLENGE));
    let header = opened.header.unwrap_or_default();
    assert_eq!(header, opened.store.header().encode());
    let again = match Blackbox::open_or_create(&header, [0u8; 32]) {
        Ok(again) => again,
        Err(error) => panic!("{error:?}"),
    };
    assert!(again.header.is_none());
    assert_eq!(again.cut, None);
    assert_eq!(again.store.header().challenge, opened.store.header().challenge);
    assert!(again.store.matches_key(&OWNER));
}

#[test]
fn challenges_are_drawn_anew() {
    let draw = || match Blackbox::open_or_create(b"", OWNER) {
        Ok(opened) => opened.store.header().challenge,
        Err(error) => panic!("{error:?}"),
    };
    assert_ne!(draw(), draw());
}

#[test]
fn a_file_that_is_no_archive_is_refused() {
    assert!(matches!(open(b"KIPP"), Err(OpenError::Truncated)));
    assert!(matches!(open(&[0u8; 68]), Err(OpenError::Truncated)));
    assert!(matches!(open(&[0u8; 69]), Err(OpenError::NotBlackbox)));
    let mut raw = Header { fingerprint: OWNER, challenge: CHALLENGE }.encode();
    raw[4] = 9;
    assert!(matches!(open(&raw), Err(OpenError::Version(9))));
}

#[test]
fn what_is_written_is_read() {
    let (store, file) = archive(&[b"one", b"two", &[b'x'; 5000]]);
    assert_eq!(store.frame_count(), 3);
    let records = load(&store, &key(1), &file);
    assert_eq!(records, Ok(vec![b"one".to_vec(), b"two".to_vec(), vec![b'x'; 5000]]));
}

#[test]
fn an_archive_is_found_again() {
    let (_, file) = archive(&[b"one", b"two"]);
    let opened = match open(&file) {
        Ok(opened) => opened,
        Err(error) => panic!("{error:?}"),
    };
    assert!(opened.header.is_none());
    assert_eq!(opened.cut, None);
    assert_eq!(opened.store.frame_count(), 2);
    let mut store = opened.store;
    let mut file = file;
    assert_eq!(add(&mut store, &mut file, &key(1), b"three"), 2);
    assert_eq!(
        load(&store, &key(1), &file),
        Ok(vec![b"one".to_vec(), b"two".to_vec(), b"three".to_vec()])
    );
}

#[test]
fn a_frame_that_was_broken_off_is_cut_off() {
    let (mut store, mut file) = archive(&[b"one"]);
    let whole = file.len();
    add(&mut store, &mut file, &key(1), b"two");
    for len in whole..file.len() {
        let opened = match open(&file[..len]) {
            Ok(opened) => opened,
            Err(error) => panic!("{error:?}"),
        };
        assert_eq!(opened.store.frame_count(), 1);
        let cut = if len > whole { Some(whole as u64) } else { None };
        assert_eq!(opened.cut, cut);
        assert_eq!(load(&opened.store, &key(1), &file[..len]), Ok(vec![b"one".to_vec()]));
    }
    match open(&file) {
        Ok(opened) => assert_eq!(opened.store.frame_count(), 2),
        Err(error) => panic!("{error:?}"),
    }
}

#[test]
fn lengths_that_no_frame_has_end_the_archive() {
    let (_, file) = archive(&[]);
    for len in [0u32, 15, 1048577, u32::MAX] {
        let mut bad = file.clone();
        bad.extend_from_slice(&len.to_le_bytes());
        bad.extend_from_slice(&[0u8; 100]);
        match open(&bad) {
            Ok(opened) => {
                assert_eq!(opened.store.frame_count(), 0);
                assert_eq!(opened.cut, Some(69));
            }
            Err(error) => panic!("{error:?}"),
        }
    }
    let mut good = file.clone();
    good.extend_from_slice(&16u32.to_le_bytes());
    good.extend_from_slice(&[0u8; 40]);
    match open(&good) {
        Ok(opened) => assert_eq!(opened.store.frame_count(), 1),
        Err(error) => panic!("{error:?}"),
    }
}

#[test]
fn another_key_opens_nothing() {
    let (store, file) = archive(&[b"one", b"two"]);
    assert_eq!(load(&store, &key(2), &file), Err((0, FrameError::Authentication)));
    assert_eq!(store.verify_key(&key(2), &file), Err(FrameError::Authentication));
    assert_eq!(store.verify_key(&key(1), &file), Ok(Some(b"one".to_vec())));
}

#[test]
fn every_key_fits_an_archive_without_frames() {
    let (store, file) = archive(&[]);
    assert_eq!(store.verify_key(&key(2), &file), Ok(None));
    assert_eq!(load(&store, &key(2), &file), Ok(vec![]));
}

#[test]
fn a_changed_frame_is_not_read() {
    let (store, file) = archive(&[b"one", b"two"]);
    let second = first_prefix(&file);
    for at in (73..second).chain(second + 4..file.len()) {
        let mut bad = file.clone();
        bad[at] ^= 1;
        let index = if at < second { 0 } else { 1 };
        assert_eq!(load(&store, &key(1), &bad), Err((index, FrameError::Authentication)));
    }
}

fn first_prefix(file: &[u8]) -> usize {
    let len = u32::from_le_bytes([file[69], file[70], file[71], file[72]]) as usize;
    69 + 4 + 24 + len
}

#[test]
fn frames_are_bound_to_their_places() {
    let (_, file) = archive(&[b"one", b"two"]);
    let second = first_prefix(&file);
    let mut swapped = file[..69].to_vec();
    swapped.extend_from_slice(&file[second..]);
    swapped.extend_from_slice(&file[69..second]);
    match open(&swapped) {
        Ok(opened) => {
            assert_eq!(opened.store.frame_count(), 2);
            assert_eq!(
                load(&opened.store, &key(1), &swapped),
                Err((0, FrameError::Authentication))
            );
        }
        Err(error) => panic!("{error:?}"),
    }
}

#[test]
fn frames_that_are_not_there_are_not_read() {
    let (store, file) = archive(&[b"one"]);
    assert_eq!(store.decrypt(&key(1), &file, 1), Err(FrameError::OutOfRange));
    assert_eq!(store.decrypt(&key(1), &file[..80], 0), Err(FrameError::Missing));
    assert_eq!(store.decrypt(&key(1), &file, 0), Ok(b"one".to_vec()));
}

#[test]
fn a_frame_is_length_nonce_and_ciphertext() {
    let (store, _) = archive(&[b"one"]);
    let nonce = [3u8; 24];
    let staged = match store.seal(&key(5), &nonce, b"\x00two") {
        Ok(staged) => staged,
        Err(error) => panic!("{error:?}"),
    };
    let (_, file) = archive(&[b"one"]);
    assert_eq!(staged.index, 1);
    assert_eq!(staged.frame.offset as usize, file.len());
    assert_eq!(staged.frame.len, 20);
    assert_eq!(&staged.bytes[..4], &20u32.to_le_bytes());
    assert_eq!(&staged.bytes[4..28], &nonce);
    assert_eq!(staged.bytes.len(), 48);
    assert_eq!(&staged.bytes[32..], &staged.frame.tag);
}

#[test]
fn the_first_frame_is_sealed_under_its_number_alone() {
    let (store, _) = archive(&[]);
    let nonce = [3u8; 24];
    let staged = match store.seal(&key(5), &nonce, b"payload") {
        Ok(staged) => staged,
        Err(error) => panic!("{error:?}"),
    };
    let cipher = match XChaCha20Poly1305::new_from_slice(&[5u8; 32]) {
        Ok(cipher) => cipher,
        Err(_) => panic!("key"),
    };
    let nonce = match XNonce::try_from(nonce.as_slice()) {
        Ok(nonce) => nonce,
        Err(_) => panic!("nonce"),
    };
    let ciphertext = match cipher.encrypt(&nonce, Payload { msg: b"payload", aad: &[0u8; 24] }) {
        Ok(ciphertext) => ciphertext,
        Err(_) => panic!("encryption"),
    };
    assert_eq!(&staged.bytes[28..], &ciphertext[..]);
}

#[test]
fn nonces_are_drawn_anew() {
    let (store, _) = archive(&[]);
    let draw = || match store.append(&key(1), b"x") {
        Ok(staged) => staged.bytes[4..28].to_vec(),
        Err(error) => panic!("{error:?}"),
    };
    assert_ne!(draw(), draw());
}

#[test]
fn what_cannot_be_sealed_is_no_frame() {
    let (store, _) = archive(&[]);
    assert!(matches!(store.stage(&[0u8; 24], None), Err(AppendError::Encryption)));
    let most = vec![0u8; 1048576];
    assert!(store.stage(&[0u8; 24], Some(most)).is_ok());
    let more = vec![0u8; 1048577];
    assert!(matches!(store.stage(&[0u8; 24], Some(more)), Err(AppendError::TooLarge)));
}

#[test]
fn a_record_of_a_mebibyte_of_noise_is_too_large() {
    let (store, _) = archive(&[]);
    let mut noise = Vec::new();
    let mut state = 1u64;
    while noise.len() < 1048576 {
        state = state.wrapping_mul(6364136223846793005).wrapping_add(1442695040888963407);
        noise.push((state >> 33) as u8);
    }
    assert!(matches!(store.append(&key(1), &noise), Err(AppendError::TooLarge)));
    assert!(store.append(&key(1), &noise[..1048559]).is_ok());
}

#[test]
fn a_record_that_only_compresses_to_size_is_not_read() {
    let (store, file) = archive(&[&[b'x'; 1048576], &vec![b'x'; 1048577]]);
    assert_eq!(store.decrypt(&key(1), &file, 0), Ok(vec![b'x'; 1048576]));
    assert_eq!(store.decrypt(&key(1), &file, 1), Err(FrameError::Decompression));
}

#[test]
fn payloads_are_compressed_where_that_helps() {
    assert_eq!(pack(b"abc", None), b"\x00abc");
    assert_eq!(pack(b"abc", Some(b"xy".to_vec())), b"\x01xy");
    assert_eq!(pack(b"abc", Some(b"xyz".to_vec())), b"\x00abc");
    assert_eq!(encode_payload(b"abc"), b"\x00abc");
    let long = encode_payload(&[b'a'; 1000]);
    assert_eq!(long[0], 1);
    assert!(long.len() < 100);
    assert_eq!(decode_payload(&long), Ok(vec![b'a'; 1000]));
    assert_eq!(zstd::bulk::decompress(&long[1..], 1000).ok(), Some(vec![b'a'; 1000]));
}

#[test]
fn payloads_are_unpacked_by_their_flag() {
    assert_eq!(unpack(b"", None), Err(FrameError::Empty));
    assert_eq!(unpack(b"\x00abc", None), Ok(b"abc".to_vec()));
    assert_eq!(unpack(b"\x00", None), Ok(b"".to_vec()));
    assert_eq!(unpack(b"\x01zz", Some(b"abc".to_vec())), Ok(b"abc".to_vec()));
    assert_eq!(unpack(b"\x01zz", None), Err(FrameError::Decompression));
    assert_eq!(unpack(b"\x02abc", None), Err(FrameError::Flag(2)));
    assert_eq!(decode_payload(b""), Err(FrameError::Empty));
    assert_eq!(decode_payload(b"\x01zz"), Err(FrameError::Decompression));
    assert_eq!(decode_payload(b"\x07"), Err(FrameError::Flag(7)));
}

fn message(ts: i64, who: Who, text: &str) -> Record {
    Record::Message { ts, who, text: text.to_owned() }
}

#[test]
fn records_are_put_into_sessions() {
    let sessions = group(vec![
        message(1, Who::User, "lost"),
        Record::SessionStart { started: 2 },
        message(3, Who::User, "a"),
        message(4, Who::Kipp, "b"),
        Record::SessionStart { started: 5 },
        Record::SessionStart { started: 6 },
        message(7, Who::User, "c"),
    ]);
    let texts: Vec<Vec<String>> = sessions
        .iter()
        .map(|session| session.messages.iter().map(|m| m.text.clone()).collect())
        .collect();
    assert_eq!(texts, vec![vec!["a".to_owned(), "b".to_owned()], vec![], vec!["c".to_owned()]]);
    assert_eq!(sessions[0].messages[1].ts, 4);
    assert_eq!(sessions[0].messages[1].who, Who::Kipp);
    assert!(group(Vec::new()).is_empty());
}

#[test]
fn a_key_can_be_wiped() {
    let mut key = key(3);
    assert_eq!(key.bytes(), &[3u8; 32]);
    key.wipe();
    assert_eq!(key.bytes(), &[0u8; 32]);
}

#[test]
fn the_longest_payload_of_a_frame_can_be_sealed() {
    let (store, _) = archive(&[]);
    let longest = vec![0u8; 1048576 - 16];
    match store.seal(&key(1), &[3u8; 24], &longest) {
        Ok(staged) => assert_eq!(staged.frame.len, 1048576),
        Err(error) => panic!("{error:?}"),
    }
    let longer = vec![0u8; 1048576 - 15];
    assert!(matches!(
        store.seal(&key(1), &[3u8; 24], &longer),
        Err(AppendError::TooLarge)
    ));
}

#[test]
fn all_records_are_read_after_opening() {
    let records: Vec<Vec<u8>> = (0..20u8).map(|n| vec![n; n as usize * 50]).collect();
    let slices: Vec<&[u8]> = records.iter().map(|record| record.as_slice()).collect();
    let (_, file) = archive(&slices);
    let opened = match open(&file) {
        Ok(opened) => opened,
        Err(error) => panic!("{error:?}"),
    };
    assert_eq!(opened.cut, None);
    assert_eq!(load(&opened.store, &key(1), &file), Ok(records));
}

#[test]
fn frames_are_found_again_once_the_rest_is_cut_off() {
    let (mut store, file) = archive(&[b"one", b"two"]);
    let mut torn = file.clone();
    torn.extend_from_slice(&[9, 9, 9]);
    assert_eq!(store.rebuild_index(&torn), Some(file.len() as u64));
    assert_eq!(store.frame_count(), 2);
    assert_eq!(store.rebuild_index(&file), None);
    assert_eq!(store.frame_count(), 2);
}

#[test]
fn a_frame_is_sixteen_bytes_longer_than_its_payload() {
    let (store, _) = archive(&[]);
    let cbor = vec![7u8; 5000];
    let payload = encode_payload(&cbor);
    match store.append(&key(1), &cbor) {
        Ok(staged) => {
            assert_eq!(staged.frame.len as usize, payload.len() + 16);
            assert_eq!(staged.bytes.len(), 4 + 24 + payload.len() + 16);
        }
        Err(error) => panic!("{error:?}"),
    }
}

#[test]
fn payloads_are_what_zstd_makes_of_records() {
    for length in [0, 1, 20, 60, 200, 5000] {
        let cbor: Vec<u8> = (0..length).map(|n: usize| (n * n / 7) as u8).collect();
        let squeezed = zstd::bulk::compress(&cbor, 19).ok();
        assert!(squeezed.is_some());
        assert_eq!(encode_payload(&cbor), pack(&cbor, squeezed));
    }
}

/// Where each frame of a file begins, and where the last one ends.
fn places(file: &[u8]) -> Vec<usize> {
    let mut places = vec![69];
    while let Some(&at) = places.last() {
        if at >= file.len() {
            break;
        }
        let len = u32::from_le_bytes([file[at], file[at + 1], file[at + 2], file[at + 3]]);
        places.push(at + 4 + 24 + len as usize);
    }
    places
}

#[test]
fn nothing_is_read_of_an_archive_that_was_changed() {
    let (_, file) = archive(&[b"one", b"two", b"three"]);
    let places = places(&file);
    let frame = |i: usize| file[places[i]..places[i + 1]].to_vec();
    let with = |frames: &[Vec<u8>]| {
        let mut changed = file[..places[0]].to_vec();
        for bytes in frames {
            changed.extend_from_slice(bytes);
        }
        match open(&changed) {
            Ok(opened) => load(&opened.store, &key(1), &changed),
            Err(error) => panic!("{error:?}"),
        }
    };
    let all = [b"one".to_vec(), b"two".to_vec(), b"three".to_vec()];
    assert_eq!(with(&[frame(0), frame(1), frame(2)]), Ok(all.to_vec()));
    assert_eq!(with(&[frame(0), frame(1)]), Ok(all[..2].to_vec()));
    let false_at = |index: usize| Err((index, FrameError::Authentication));
    assert_eq!(with(&[frame(0), frame(2)]), false_at(1));
    assert_eq!(with(&[frame(1), frame(2)]), false_at(0));
    assert_eq!(with(&[frame(0), frame(2), frame(1)]), false_at(1));
    assert_eq!(with(&[frame(0), frame(0), frame(1), frame(2)]), false_at(1));
    for at in 4..frame(1).len() {
        let mut other = frame(1);
        other[at] ^= 1;
        assert_eq!(with(&[frame(0), other, frame(2)]), false_at(1));
    }
}
