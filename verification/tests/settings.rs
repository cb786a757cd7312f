use kipp::agent::AgentError;
use kipp::allowlist::{gather, parse, vet, AllowlistError, KeyFault};
use kipp::clock::{clock_label, date_label, local, Date, Stamp};
use kipp::config::{Bind, Config, ConfigError};
use kipp::hostkey::{generate, generate_from, host_key};
use russh::keys::ssh_key::private::Ed25519Keypair;
use russh::keys::{PrivateKey, PublicKey};
use sha2::{Digest, Sha256};

const LINE: &str =
    "ssh-ed25519 AAAAC3NzaC1lZDI1NTE5AAAAILM+rvN+ot98qgEN796jTiQfZfG1KaT0PtFDJ/XFSqti foo@bar.com";

fn config() -> Config {
    Config::default()
}

fn utc() -> jiff::tz::TimeZone {
    config().timezone()
}

fn stamp(ts: i64) -> Stamp {
    match local(&utc(), ts) {
        Some(stamp) => stamp,
        None => panic!("{ts} is not within the calendar"),
    }
}

#[test]
fn standard_settings() {
    let config = config();
    assert_eq!(config.server.bind, Bind::V4([0, 0, 0, 0]));
    assert_eq!(config.server.port, 2222);
    assert_eq!(config.ui.text_width, 72);
    assert_eq!(config.session.idle_timeout_secs, 1800);
    assert_eq!(config.session.keepalive_interval_secs, 30);
    assert_eq!(config.session.keepalive_max, 3);
    assert_eq!(config.session.timezone, "UTC");
    assert_eq!(config.idle_timeout(), 1800);
    assert_eq!(config.keepalive_interval(), 30);
    assert_eq!(config.validate_with(true), Ok(()));
}

#[test]
fn settings_are_checked_in_order() {
    let mut config = config();
    config.ui.text_width = 20;
    assert_eq!(config.validate_with(true), Ok(()));
    assert_eq!(config.validate_with(false), Err(ConfigError::Timezone));
    config.session.idle_timeout_secs = 0;
    assert_eq!(config.validate_with(false), Err(ConfigError::IdleTimeout));
    config.ui.text_width = 19;
    assert_eq!(config.validate_with(false), Err(ConfigError::TextWidth));
    assert_eq!(config.validate(), Err(ConfigError::TextWidth));
}

#[test]
fn a_zone_that_nobody_knows_is_refused_and_shown_as_utc() {
    let mut config = config();
    config.session.timezone = "Nowhere/Land".to_owned();
    assert_eq!(config.validate(), Err(ConfigError::Timezone));
    match local(&config.timezone(), 0) {
        Some(stamp) => assert_eq!(stamp.hour, 0),
        None => panic!("the epoch is within the calendar"),
    }
}

#[test]
fn settings_that_were_read_hold_if_they_are_in_order() {
    match Config::load(None) {
        Ok(config) => assert_eq!(config.ui.text_width, 72),
        Err(error) => panic!("{error:?}"),
    }
    let mut wanted = config();
    wanted.ui.text_width = 40;
    let known = jiff::tz::TimeZone::get("UTC").is_ok();
    match Config::load(Some(wanted.clone())) {
        Ok(config) => assert_eq!((config.ui.text_width, known), (40, true)),
        Err(error) => assert_eq!((error, known), (ConfigError::Timezone, false)),
    }
    wanted.ui.text_width = 3;
    assert_eq!(Config::load(Some(wanted)).err(), Some(ConfigError::TextWidth));
}

#[test]
fn clocks_show_utc() {
    let epoch = stamp(0);
    assert_eq!(epoch.date, Date { year: 1970, month: 1, day: 1 });
    assert_eq!((epoch.hour, epoch.minute, epoch.second), (0, 0, 0));
    let later = stamp(1_700_000_000_999);
    assert_eq!(later.date, Date { year: 2023, month: 11, day: 14 });
    assert_eq!((later.hour, later.minute, later.second), (22, 13, 20));
    let before = stamp(-1);
    assert_eq!(before.date, Date { year: 1969, month: 12, day: 31 });
    assert_eq!((before.hour, before.minute, before.second), (23, 59, 59));
}

#[test]
fn the_calendar_has_two_ends() {
    assert!(local(&utc(), -377_705_023_201_000).is_some());
    assert!(local(&utc(), -377_705_023_201_001).is_none());
    assert!(local(&utc(), 253_402_207_200_000).is_some());
    assert!(local(&utc(), 253_402_207_200_001).is_none());
    assert!(local(&utc(), i64::MAX).is_none());
    assert!(local(&utc(), i64::MIN).is_none());
}

#[test]
fn seconds_are_counted_from_the_epoch() {
    let leaps = |year: i64| year.div_euclid(4) - year.div_euclid(100) + year.div_euclid(400);
    let leap = |year: i64| year % 4 == 0 && (year % 100 != 0 || year % 400 == 0);
    let mut ts = -377_705_023_201_000i64;
    while ts <= 253_402_207_200_000 {
        let found = stamp(ts);
        let year = found.date.year as i64;
        let lengths = [31, if leap(year) { 29 } else { 28 }, 31, 30, 31, 30, 31, 31, 30, 31, 30];
        let before: i64 = lengths[..found.date.month as usize - 1].iter().sum();
        let days = 365 * (year - 1970) + leaps(year - 1) - leaps(1969) + before
            + found.date.day as i64
            - 1;
        let seconds = 86400 * days
            + 3600 * found.hour as i64
            + 60 * found.minute as i64
            + found.second as i64;
        assert_eq!(seconds, ts.div_euclid(1000), "{ts}");
        ts += 8_987_654_321_012;
    }
}

#[test]
fn times_have_two_digits_each() {
    assert_eq!(clock_label(&stamp(0)), "00:00:00");
    assert_eq!(clock_label(&stamp(1_700_000_000_000)), "22:13:20");
    assert_eq!(clock_label(&stamp(3_600_000 + 120_000 + 3_000)), "01:02:03");
}

#[test]
fn dates_are_written_with_hyphens() {
    assert_eq!(date_label(Date { year: 2023, month: 11, day: 4 }), "2023-11-04");
    assert_eq!(date_label(Date { year: 7, month: 1, day: 2 }), "0007-01-02");
    assert_eq!(date_label(Date { year: 0, month: 1, day: 2 }), "0000-01-02");
    assert_eq!(date_label(Date { year: -1, month: 1, day: 2 }), "-001-01-02");
    assert_eq!(date_label(Date { year: -999, month: 1, day: 2 }), "-999-01-02");
    assert_eq!(date_label(Date { year: -1000, month: 1, day: 2 }), "-1000-01-02");
    assert_eq!(date_label(Date { year: -9999, month: 12, day: 31 }), "-9999-12-31");
    assert_eq!(date_label(Date { year: 9999, month: 12, day: 31 }), "9999-12-31");
}

#[test]
fn days_have_to_be_in_the_calendar() {
    for year in [-9999i16, -400, -100, -4, -1, 0, 1900, 1999, 2000, 2023, 2024, 9999, 10000, -10000] {
        for month in -1i8..15 {
            for day in -1i8..34 {
                let known = jiff::civil::Date::new(year, month, day).is_ok();
                assert_eq!(Date::new(year, month, day).is_some(), known, "{year} {month} {day}");
            }
        }
    }
}

fn digest(line: &str) -> [u8; 32] {
    let key = match PublicKey::from_openssh(line) {
        Ok(key) => key,
        Err(error) => panic!("{error:?}"),
    };
    match key.to_bytes() {
        Ok(blob) => Sha256::digest(blob).into(),
        Err(error) => panic!("{error:?}"),
    }
}

#[test]
fn keys_are_listed_one_on_a_line() {
    let text = format!("# owner\r\n\n  {LINE}\t\r\n#{LINE}\n   \n{LINE}");
    assert_eq!(parse(&text), Ok(vec![digest(LINE), digest(LINE)]));
}

#[test]
fn a_list_without_keys_is_refused() {
    assert_eq!(parse(""), Err(AllowlistError::Empty));
    assert_eq!(parse("\n# nobody\n"), Err(AllowlistError::Empty));
}

#[test]
fn a_line_that_is_no_key_is_refused() {
    assert_eq!(parse("hello"), Err(AllowlistError::Key(KeyFault::Parse)));
    assert_eq!(
        parse(&format!("{LINE}\nssh-ed25519 AAAA")),
        Err(AllowlistError::Key(KeyFault::Parse))
    );
}

#[test]
fn a_carriage_return_within_a_line_does_not_end_it() {
    assert_eq!(parse(&format!("#\r{LINE}")), Err(AllowlistError::Empty));
    assert_eq!(parse(&format!("#\n\r{LINE}\r")), Ok(vec![digest(LINE)]));
}

#[test]
fn keys_of_another_algorithm_are_refused() {
    let blob = b"\x00\x00\x00\x07ssh-rsa".to_vec();
    assert_eq!(
        vet(Ok(blob)),
        Err(AllowlistError::Agent(AgentError::Unsupported("ssh-rsa".to_owned())))
    );
    assert_eq!(vet(Err(KeyFault::Encode)), Err(AllowlistError::Key(KeyFault::Encode)));
    let good = b"\x00\x00\x00\x0bssh-ed25519".to_vec();
    let wanted: [u8; 32] = Sha256::digest(&good).into();
    assert_eq!(vet(Ok(good)), Ok(wanted));
}

#[test]
fn the_first_key_that_may_not_be_used_is_the_error() {
    let good = || Ok(b"\x00\x00\x00\x0bssh-ed25519".to_vec());
    let foreign = || Ok(b"\x00\x00\x00\x01x".to_vec());
    let wanted: [u8; 32] = Sha256::digest(b"\x00\x00\x00\x0bssh-ed25519").into();
    assert_eq!(gather(vec![good(), good()]), Ok(vec![wanted, wanted]));
    assert_eq!(gather(Vec::new()), Err(AllowlistError::Empty));
    assert_eq!(
        gather(vec![good(), foreign(), Err(KeyFault::Parse)]),
        Err(AllowlistError::Agent(AgentError::Unsupported("x".to_owned())))
    );
    assert_eq!(
        gather(vec![Err(KeyFault::Parse), foreign()]),
        Err(AllowlistError::Key(KeyFault::Parse))
    );
}

#[test]
fn a_zone_that_is_known_is_used() {
    let fixed = jiff::tz::TimeZone::fixed(jiff::tz::offset(2));
    let hour = |zone: &jiff::tz::TimeZone| local(zone, 0).map(|stamp| stamp.hour);
    assert_eq!(hour(&Config::zone_or_utc(Some(fixed))), Some(2));
    assert_eq!(hour(&Config::zone_or_utc(None)), Some(0));
}

#[test]
fn a_seed_gives_a_key_and_is_erased() {
    let mut seed = [5u8; 32];
    let file = match generate_from(&mut seed) {
        Some(file) => file,
        None => panic!("no key"),
    };
    assert_eq!(seed, [0u8; 32]);
    assert!(file.starts_with("-----BEGIN OPENSSH"));
    let wanted = PrivateKey::from(Ed25519Keypair::from_seed(&[5u8; 32]));
    match PrivateKey::from_openssh(&file) {
        Ok(key) => assert_eq!(key.public_key(), wanted.public_key()),
        Err(error) => panic!("{error}"),
    }
    let mut again = [5u8; 32];
    assert_eq!(generate_from(&mut again), Some(file));
}

#[test]
fn keys_are_made_by_chance() {
    let first = generate();
    assert!(first.is_some());
    assert_ne!(first, generate());
}

#[test]
fn the_zone_that_is_found_bears_the_name() {
    let mut config = config();
    for name in ["uTc", "europe/BERLIN", "Etc/Unknown", "Nowhere/Land"] {
        config.session.timezone = name.to_owned();
        let zone = config.timezone();
        match jiff::tz::TimeZone::get(name) {
            Ok(_) => {
                assert_eq!(config.validate(), Ok(()));
                match zone.iana_name() {
                    Some(own) => assert!(own.eq_ignore_ascii_case(name)),
                    None => assert_eq!(name, "Etc/Unknown"),
                }
            }
            Err(_) => {
                assert_eq!(config.validate(), Err(ConfigError::Timezone));
                assert_eq!(zone.iana_name(), Some("UTC"));
            }
        }
    }
}

#[test]
fn the_text_of_a_key_file_gives_the_key() {
    let mut seed = [6u8; 32];
    let file = match generate_from(&mut seed) {
        Some(file) => file,
        None => panic!("no key"),
    };
    let wanted = PrivateKey::from(Ed25519Keypair::from_seed(&[6u8; 32]));
    let bytes = match host_key(&file) {
        Some(bytes) => bytes,
        None => panic!("no key"),
    };
    match PrivateKey::from_bytes(&bytes) {
        Ok(key) => assert_eq!(key.public_key(), wanted.public_key()),
        Err(error) => panic!("{error}"),
    }
    assert_eq!(host_key("no key"), None);
}
