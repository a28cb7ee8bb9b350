//! What the brightness and dimming daemons' clients make of a reply, and how
//! the daemons count the sockets systemd passes them.
use vstd::prelude::*;

use crate::text::{
    chars_of, int_error, int_error_message, parse_u32, parse_unsigned, IntError, slice_vec, string_of, trim, trim_bounds,
};

verus! {

/// A field of a listing line.
#[derive(Clone, Copy, Debug, PartialEq, Eq, Structural)]
pub enum Field {
    DeviceName,
    Brightness,
    Method,
    Backlight,
    Connector,
    MappingMethod,
    I2cBus,
    Device,
    OutputName,
    OutputLabel,
}

impl Field {
    /// How the field is named in an error.
    pub fn name(&self) -> (s: &'static str)
        ensures
            *self == Field::DeviceName ==> s@ == "device name"@,
            *self == Field::Brightness ==> s@ == "brightness"@,
            *self == Field::Method ==> s@ == "brightness method"@,
            *self == Field::Backlight ==> s@ == "backlight"@,
            *self == Field::Connector ==> s@ == "connector"@,
            *self == Field::MappingMethod ==> s@ == "mapping method"@,
            *self == Field::I2cBus ==> s@ == "i2c bus"@,
            *self == Field::Device ==> s@ == "device"@,
            *self == Field::OutputName ==> s@ == "output name"@,
            *self == Field::OutputLabel ==> s@ == "output label"@,
    {
        match self {
            Field::DeviceName => "device name",
            Field::Brightness => "brightness",
            Field::Method => "brightness method",
            Field::Backlight => "backlight",
            Field::Connector => "connector",
            Field::MappingMethod => "mapping method",
            Field::I2cBus => "i2c bus",
            Field::Device => "device",
            Field::OutputName => "output name",
            Field::OutputLabel => "output label",
        }
    }
}

/// Why a daemon's reply was not accepted.
#[derive(Clone, Debug, PartialEq, Eq)]
pub enum ResponseError {
    /// A line lacks this field.
    Missing(Field),
    /// A number did not parse, for this reason.
    InvalidNumber(IntError),
    /// The daemon reported this error, or replied this instead of `OK`.
    Daemon(String),
}

/// The text starts with `ERR `.
pub open spec fn is_error_reply(t: Seq<char>) -> bool {
    t.len() >= 4 && t[0] == 'E' && t[1] == 'R' && t[2] == 'R' && t[3] == ' '
}

/// The error a reply reports: its trimmed text after `ERR `, if it is one.
pub open spec fn spec_reply_error(response: Seq<char>) -> Option<Seq<char>> {
    let t = trim(response);
    if is_error_reply(t) {
        Some(t.skip(4))
    } else {
        None
    }
}

/// Whether the reply reports an error, and which.
pub fn check_reply(response: &str) -> (r: Result<(), ResponseError>)
    ensures
        match spec_reply_error(response@) {
            Some(m) => r matches Err(ResponseError::Daemon(e)) && e@ == m,
            None => r is Ok,
        },
{
    let v = chars_of(response);
    let (b, e) = trim_bounds(&v);
    let t = slice_vec(&v, b, e);
    if t.len() >= 4 && t[0] == 'E' && t[1] == 'R' && t[2] == 'R' && t[3] == ' ' {
        let m = slice_vec(&t, 4, t.len());
        assert(m@ =~= t@.skip(4));
        return Err(ResponseError::Daemon(string_of(&m)));
    }
    Ok(())
}

/// The outcome of a reply to a command that answers `OK`.
pub open spec fn spec_ok_reply(response: Seq<char>) -> Result<(), Seq<char>> {
    match spec_reply_error(response) {
        Some(m) => Err(m),
        None => if trim(response) == seq!['O', 'K'] {
            Ok(())
        } else {
            Err(trim(response))
        },
    }
}

/// Accepts a reply of `OK`; anything else is an error carrying the reply's text.
pub fn expect_ok(response: &str) -> (r: Result<(), ResponseError>)
    ensures
        match spec_ok_reply(response@) {
            Ok(()) => r is Ok,
            Err(m) => r matches Err(ResponseError::Daemon(e)) && e@ == m,
        },
{
    check_reply(response)?;
    let v = chars_of(response);
    let (b, e) = trim_bounds(&v);
    let t = slice_vec(&v, b, e);
    if t.len() == 2 && t[0] == 'O' && t[1] == 'K' {
        assert(t@ =~= seq!['O', 'K']);
        Ok(())
    } else {
        proof {
            if t@ == seq!['O', 'K'] {
                assert(t@.len() == 2);
            }
        }
        Err(ResponseError::Daemon(string_of(&t)))
    }
}

/// Why the sockets systemd passed could not be counted.
#[derive(Clone, Copy, Debug, PartialEq, Eq, Structural)]
pub enum ActivationError {
    /// `LISTEN_FDS` is not a number, for this reason.
    InvalidListenFds(IntError),
}

impl ActivationError {
    /// The text that explains the error: why the number did not parse.
    pub fn message(&self) -> (s: &'static str)
        ensures
            s@ == int_error_message(self->InvalidListenFds_0),
    {
        match self {
            ActivationError::InvalidListenFds(e) => e.message(),
        }
    }
}

/// The text of an optional environment value.
pub open spec fn opt_text(o: Option<&str>) -> Option<Seq<char>> {
    match o {
        Some(s) => Some(s@),
        None => None,
    }
}

/// The number of sockets passed by systemd's socket activation: none unless
/// `LISTEN_PID` is this process's id, else the number in `LISTEN_FDS`.
pub open spec fn spec_listen_fds(
    listen_pid: Option<Seq<char>>,
    pid: u32,
    listen_fds: Option<Seq<char>>,
) -> Result<u32, ActivationError> {
    match listen_pid {
        None => Ok(0),
        Some(p) => if parse_unsigned(p, u32::MAX as int) != Some(pid as int) {
            Ok(0)
        } else {
            match listen_fds {
                None => Ok(0),
                Some(f) => match parse_unsigned(f, u32::MAX as int) {
                    Some(n) => Ok(n as u32),
                    None => Err(ActivationError::InvalidListenFds(int_error(f, 0, u32::MAX as int))),
                },
            }
        },
    }
}

/// How many listening sockets systemd passed to process `pid`, given the
/// values of `LISTEN_PID` and `LISTEN_FDS`.
pub fn listen_fds(pid_var: Option<&str>, pid: u32, fds_var: Option<&str>) -> (r: Result<
    u32,
    ActivationError,
>)
    ensures
        r == spec_listen_fds(opt_text(pid_var), pid, opt_text(fds_var)),
{
    let Some(listen_pid) = pid_var else {
        return Ok(0);
    };
    match parse_u32(listen_pid) {
        Ok(p) => {
            if p != pid {
                return Ok(0);
            }
        },
        Err(_) => {
            return Ok(0);
        },
    }
    let Some(count) = fds_var else {
        return Ok(0);
    };
    match parse_u32(count) {
        Ok(n) => Ok(n),
        Err(e) => Err(ActivationError::InvalidListenFds(e)),
    }
}

} // verus!
