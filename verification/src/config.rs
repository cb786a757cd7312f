//! What an operator can set.

use jiff::tz::TimeZone;
use vstd::prelude::*;

use crate::clock::{find_zone, utc};

verus! {

pub const MIN_TEXT_WIDTH: u16 = 20;

/// An address to listen on.
#[derive(Debug, Clone, Copy, PartialEq, Eq)]
pub enum Bind {
    V4([u8; 4]),
    V6([u8; 16]),
}

/// Where to listen.
#[derive(Debug, Clone)]
pub struct Server {
    pub bind: Bind,
    pub port: u16,
}

/// How to show the journal.
#[derive(Debug, Clone)]
pub struct Ui {
    pub text_width: u16,
}

/// How a session goes.
#[derive(Debug, Clone)]
pub struct Session {
    pub idle_timeout_secs: u64,
    pub keepalive_interval_secs: u64,
    pub keepalive_max: usize,
    pub timezone: String,
}

/// Everything that an operator can set.
#[derive(Debug, Clone)]
pub struct Config {
    pub server: Server,
    pub ui: Ui,
    pub session: Session,
}

/// What can be wrong with a configuration.
#[derive(Debug, Clone, Copy, PartialEq, Eq)]
pub enum ConfigError {
    /// The text is too narrow.
    TextWidth,
    /// A session would time out at once.
    IdleTimeout,
    /// The time zone is not known.
    Timezone,
}

impl Default for Server {
    fn default() -> (server: Self)
        ensures
            server.bind == Bind::V4([0u8, 0u8, 0u8, 0u8]),
            server.port == 2222,
    {
        Server { bind: Bind::V4([0u8, 0u8, 0u8, 0u8]), port: 2222 }
    }
}

impl Default for Ui {
    fn default() -> (ui: Self)
        ensures
            ui.text_width == 72,
    {
        Ui { text_width: 72 }
    }
}

impl Default for Session {
    fn default() -> (session: Self)
        ensures
            session.idle_timeout_secs == 1800,
            session.keepalive_interval_secs == 30,
            session.keepalive_max == 3,
            crate::clock::names_utc(session.timezone@),
    {
        proof {
            reveal_strlit("UTC");
            assert("UTC"@ =~= seq!['U', 'T', 'C']);
        }
        Session {
            idle_timeout_secs: 1800,
            keepalive_interval_secs: 30,
            keepalive_max: 3,
            timezone: "UTC".to_owned(),
        }
    }
}

impl Config {
    /// Whether these are the settings that hold where nothing is set.
    pub open spec fn standard(self) -> bool {
        &&& self.server.bind == Bind::V4([0u8, 0u8, 0u8, 0u8])
        &&& self.server.port == 2222
        &&& self.ui.text_width == 72
        &&& self.session.idle_timeout_secs == 1800
        &&& self.session.keepalive_interval_secs == 30
        &&& self.session.keepalive_max == 3
        &&& crate::clock::names_utc(self.session.timezone@)
    }

    /// What is wrong with a configuration, given whether its time zone is known.
    pub open spec fn verdict(self, zone_known: bool) -> Result<(), ConfigError> {
        if self.ui.text_width < MIN_TEXT_WIDTH {
            Err(ConfigError::TextWidth)
        } else if self.session.idle_timeout_secs == 0 {
            Err(ConfigError::IdleTimeout)
        } else if !zone_known {
            Err(ConfigError::Timezone)
        } else {
            Ok(())
        }
    }
}

impl Default for Config {
    fn default() -> (config: Self)
        ensures
            config.standard(),
            config.server.bind == Bind::V4([0u8, 0u8, 0u8, 0u8]),
            config.server.port == 2222,
            config.ui.text_width == 72,
            config.session.idle_timeout_secs == 1800,
            config.session.keepalive_interval_secs == 30,
            config.session.keepalive_max == 3,
            config.session.timezone@ == seq!['U', 'T', 'C'],
    {
        Config { server: Server::default(), ui: Ui::default(), session: Session::default() }
    }
}

impl Config {
    /// The settings to go by: those that were read, if they are in order, and the
    /// standard ones if there was nothing to read.
    pub fn load(read: Option<Config>) -> (config: Result<Config, ConfigError>)
        ensures
            match read {
                None => config matches Ok(found) && found.standard(),
                Some(wanted) => match config {
                    Ok(found) => found == wanted && wanted.verdict(true) is Ok,
                    Err(error) => wanted.verdict(false) == Err::<(), ConfigError>(error),
                },
            },
            read matches Some(wanted) ==> config is Ok ==> wanted.ui.text_width >= 20
                && wanted.session.idle_timeout_secs > 0,
            read matches Some(wanted) ==> config is Err ==> config != Err::<Config, ConfigError>(
                ConfigError::Timezone,
            ) ==> wanted.ui.text_width < 20 || wanted.session.idle_timeout_secs == 0,
            read matches Some(wanted) ==> config is Ok ==> exists|zone: TimeZone|
                crate::clock::carries(zone, wanted.session.timezone@),
    {
        match read {
            None => Ok(Config::default()),
            Some(wanted) => match wanted.validate() {
                Ok(()) => Ok(wanted),
                Err(error) => Err(error),
            },
        }
    }

    /// Whether the settings are in order. The time zone has to be one that is found on
    /// the machine; which ones are rests on the machine.
    pub fn validate(&self) -> (checked: Result<(), ConfigError>)
        ensures
            checked == self.verdict(true) || checked == self.verdict(false),
            self.ui.text_width < 20 <==> checked == Err::<(), ConfigError>(ConfigError::TextWidth),
            self.ui.text_width >= 20 && self.session.idle_timeout_secs == 0 <==> checked == Err::<
                (),
                ConfigError,
            >(ConfigError::IdleTimeout),
            checked is Ok ==> exists|zone: TimeZone|
                crate::clock::carries(zone, self.session.timezone@),
    {
        let found: Option<TimeZone> = find_zone(self.session.timezone.as_str());
        assert(found matches Some(zone) ==> crate::clock::carries(
            zone,
            self.session.timezone@,
        ));
        self.validate_with(found.is_some())
    }

    /// Whether the settings are in order, given whether their time zone is known.
    pub fn validate_with(&self, zone_known: bool) -> (checked: Result<(), ConfigError>)
        ensures
            checked == self.verdict(zone_known),
            checked is Ok <==> self.ui.text_width >= 20 && self.session.idle_timeout_secs > 0
                && zone_known,
            self.ui.text_width < 20 <==> checked == Err::<(), ConfigError>(ConfigError::TextWidth),
            self.ui.text_width >= 20 && self.session.idle_timeout_secs == 0 <==> checked == Err::<
                (),
                ConfigError,
            >(ConfigError::IdleTimeout),
            self.ui.text_width >= 20 && self.session.idle_timeout_secs > 0 && !zone_known
                <==> checked == Err::<(), ConfigError>(ConfigError::Timezone),
    {
        if self.ui.text_width < MIN_TEXT_WIDTH {
            return Err(ConfigError::TextWidth);
        }
        if self.session.idle_timeout_secs == 0 {
            return Err(ConfigError::IdleTimeout);
        }
        if !zone_known {
            return Err(ConfigError::Timezone);
        }
        Ok(())
    }

    /// The seconds without a sign of the user after which a session ends.
    pub fn idle_timeout(&self) -> (secs: u64)
        ensures
            secs == self.session.idle_timeout_secs,
    {
        self.session.idle_timeout_secs
    }

    /// The seconds between two signs of life.
    pub fn keepalive_interval(&self) -> (secs: u64)
        ensures
            secs == self.session.keepalive_interval_secs,
    {
        self.session.keepalive_interval_secs
    }

    /// The time zone to show times in: UTC if the one that is set is not known. Which
    /// ones are known rests on the machine.
    pub fn timezone(&self) -> (zone: TimeZone)
        ensures
            crate::clock::shows_utc(zone) || crate::clock::carries(zone, self.session.timezone@),
            crate::clock::names_utc(self.session.timezone@) ==> crate::clock::shows_utc(zone),
    {
        Self::zone_or_utc(find_zone(self.session.timezone.as_str()))
    }

    /// The time zone to show times in, given the one that is set if it is known.
    pub fn zone_or_utc(found: Option<TimeZone>) -> (zone: TimeZone)
        ensures
            match found {
                Some(known) => zone == known,
                None => crate::clock::shows_utc(zone),
            },
    {
        match found {
            Some(known) => known,
            None => utc(),
        }
    }
}

/// Settings are in order exactly if lines have twenty columns at least, a session does
/// not time out at once and the time zone is known; of more than one fault the first
/// of these is told.
pub proof fn settings_are_judged_in_order(config: Config, zone_known: bool)
    ensures
        config.verdict(zone_known) is Ok <==> config.ui.text_width >= 20
            && config.session.idle_timeout_secs > 0 && zone_known,
        config.ui.text_width < 20 ==> config.verdict(zone_known) == Err::<(), ConfigError>(
            ConfigError::TextWidth,
        ),
        config.ui.text_width >= 20 && config.session.idle_timeout_secs == 0 ==> config.verdict(
            zone_known,
        ) == Err::<(), ConfigError>(ConfigError::IdleTimeout),
        config.ui.text_width >= 20 && config.session.idle_timeout_secs > 0 && !zone_known
            ==> config.verdict(zone_known) == Err::<(), ConfigError>(ConfigError::Timezone),
{
}

/// The standard settings are in order.
pub proof fn standard_is_in_order(config: Config)
    requires
        config.standard(),
    ensures
        config.verdict(true) is Ok,
{
}

} // verus!
