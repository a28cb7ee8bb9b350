//! The `waydim` brightness daemon: its device listing, its requests and replies,
//! and the state it keeps.
use vstd::prelude::*;

use crate::backlight::{BacklightMapping, BacklightMappingMethod};
use crate::devices::{spec_write, BrightnessDevice, BrightnessWrite};
use crate::level::{apply_percent_change, percent_change_applicable, spec_apply_percent_change, PercentChange};
use crate::protocol::{
    check_reply, expect_ok, spec_ok_reply, spec_reply_error, Field, ResponseError,
};
use crate::table::{keys_of, lemma_name_lt_transitive, name_lt, strictly_sorted, NameMap};
use crate::text::{
    int_error, int_error_range,
    decimal, join_lines, join_with, lemma_decimal, lemma_lines_join, lemma_parse_decimal,
    lemma_split_join, lemma_trim_newline, lemma_words_cons, lemma_words_single, lines,
    no_char, parse_unsigned, parse_unsigned_range, push_char, push_chars, push_decimal, push_str,
    split_at_char, split_at_char_exec, split_lines, split_words, string_of, chars_of, chars_eq,
    is_space, trim, trim_bounds, words, is_digit,
};

verus! {

/// A device as the daemon lists it.
#[derive(Clone, Debug, PartialEq, Eq)]
pub struct DaemonBrightnessDevice {
    pub name: String,
    pub brightness: u32,
    pub method: String,
    pub backlight: Option<String>,
    pub connector: Option<String>,
    pub mapping_method: Option<String>,
    pub i2c_bus: Option<String>,
    pub device: Option<String>,
}

/// A listed device, its texts taken by their characters.
pub struct DeviceRecord {
    pub name: Seq<char>,
    pub brightness: u32,
    pub method: Seq<char>,
    pub backlight: Option<Seq<char>>,
    pub connector: Option<Seq<char>>,
    pub mapping_method: Option<Seq<char>>,
    pub i2c_bus: Option<Seq<char>>,
    pub device: Option<Seq<char>>,
}

pub open spec fn opt_view(o: Option<String>) -> Option<Seq<char>> {
    match o {
        Some(s) => Some(s@),
        None => None,
    }
}

impl View for DaemonBrightnessDevice {
    type V = DeviceRecord;

    open spec fn view(&self) -> DeviceRecord {
        DeviceRecord {
            name: self.name@,
            brightness: self.brightness,
            method: self.method@,
            backlight: opt_view(self.backlight),
            connector: opt_view(self.connector),
            mapping_method: opt_view(self.mapping_method),
            i2c_bus: opt_view(self.i2c_bus),
            device: opt_view(self.device),
        }
    }
}

pub open spec fn records(ds: Seq<DaemonBrightnessDevice>) -> Seq<DeviceRecord> {
    ds.map_values(|d: DaemonBrightnessDevice| d@)
}

/// An absent field is written as an empty one.
pub open spec fn or_empty(o: Option<Seq<char>>) -> Seq<char> {
    match o {
        Some(s) => s,
        None => Seq::empty(),
    }
}

/// An empty field reads as absent.
pub open spec fn opt_field(s: Seq<char>) -> Option<Seq<char>> {
    if s.len() == 0 {
        None
    } else {
        Some(s)
    }
}

/// The eight fields of a listing line.
pub open spec fn record_fields(r: DeviceRecord) -> Seq<Seq<char>> {
    seq![
        r.name,
        decimal(r.brightness as nat),
        r.method,
        or_empty(r.backlight),
        or_empty(r.connector),
        or_empty(r.mapping_method),
        or_empty(r.i2c_bus),
        or_empty(r.device),
    ]
}

/// A listing line, without its final newline.
pub open spec fn record_line(r: DeviceRecord) -> Seq<char> {
    join_with(record_fields(r), '\t')
}

/// A listing line: the fields separated by tabs, then a newline.
pub open spec fn spec_format_device(r: DeviceRecord) -> Seq<char> {
    record_line(r) + seq!['\n']
}

fn push_opt(s: &mut String, o: &Option<String>)
    ensures
        final(s)@ == old(s)@ + or_empty(opt_view(*o)),
{
    match o {
        Some(t) => push_str(s, t.as_str()),
        None => {
            assert(old(s)@ + Seq::<char>::empty() =~= old(s)@);
        },
    }
}

/// The listing line of a device.
pub fn format_daemon_device(device: &DaemonBrightnessDevice) -> (r: String)
    ensures
        r@ == spec_format_device(device@),
{
    let mut s = String::new();
    push_str(&mut s, device.name.as_str());
    push_char(&mut s, '\t');
    push_decimal(&mut s, device.brightness as u64);
    push_char(&mut s, '\t');
    push_str(&mut s, device.method.as_str());
    push_char(&mut s, '\t');
    push_opt(&mut s, &device.backlight);
    push_char(&mut s, '\t');
    push_opt(&mut s, &device.connector);
    push_char(&mut s, '\t');
    push_opt(&mut s, &device.mapping_method);
    push_char(&mut s, '\t');
    push_opt(&mut s, &device.i2c_bus);
    push_char(&mut s, '\t');
    push_opt(&mut s, &device.device);
    push_char(&mut s, '\n');
    proof {
        let fs = record_fields(device@);
        reveal_with_fuel(join_with, 9);
        assert(fs.drop_first().drop_first().drop_first().drop_first().drop_first().drop_first().drop_first().len() == 1);
        assert(s@ =~= spec_format_device(device@));
    }
    s
}

/// What a listing line reads as.
pub open spec fn spec_parse_line(line: Seq<char>) -> Result<DeviceRecord, ResponseError> {
    let f = split_at_char(line, '\t');
    if f.len() < 1 {
        Err(ResponseError::Missing(Field::DeviceName))
    } else if f.len() < 2 {
        Err(ResponseError::Missing(Field::Brightness))
    } else {
        match parse_unsigned(f[1], u32::MAX as int) {
            None => Err(ResponseError::InvalidNumber(int_error(f[1], 0, u32::MAX as int))),
            Some(b) => if f.len() < 3 {
                Err(ResponseError::Missing(Field::Method))
            } else if f.len() < 4 {
                Err(ResponseError::Missing(Field::Backlight))
            } else if f.len() < 5 {
                Err(ResponseError::Missing(Field::Connector))
            } else if f.len() < 6 {
                Err(ResponseError::Missing(Field::MappingMethod))
            } else if f.len() < 7 {
                Err(ResponseError::Missing(Field::I2cBus))
            } else if f.len() < 8 {
                Err(ResponseError::Missing(Field::Device))
            } else {
                Ok(
                    DeviceRecord {
                        name: f[0],
                        brightness: b as u32,
                        method: f[2],
                        backlight: opt_field(f[3]),
                        connector: opt_field(f[4]),
                        mapping_method: opt_field(f[5]),
                        i2c_bus: opt_field(f[6]),
                        device: opt_field(f[7]),
                    },
                )
            },
        }
    }
}

/// What a sequence of listing lines reads as: every line's device, or the
/// error of the first line that does not read.
pub open spec fn spec_parse_lines(ls: Seq<Seq<char>>) -> Result<Seq<DeviceRecord>, ResponseError>
    decreases ls.len(),
{
    if ls.len() == 0 {
        Ok(Seq::empty())
    } else {
        match spec_parse_lines(ls.drop_last()) {
            Err(e) => Err(e),
            Ok(rs) => match spec_parse_line(ls.last()) {
                Ok(r) => Ok(rs.push(r)),
                Err(e) => Err(e),
            },
        }
    }
}

/// What a `LIST` reply reads as.
pub open spec fn spec_parse_list_response(response: Seq<char>) -> Result<
    Seq<DeviceRecord>,
    ResponseError,
> {
    spec_parse_lines(lines(response))
}

fn opt_string(v: &Vec<char>) -> (r: Option<String>)
    ensures
        opt_view(r) == opt_field(v@),
{
    if v.len() == 0 {
        None
    } else {
        Some(string_of(v))
    }
}

fn parse_line(line: &Vec<char>) -> (r: Result<DaemonBrightnessDevice, ResponseError>)
    ensures
        match r {
            Ok(d) => spec_parse_line(line@) == Ok::<DeviceRecord, ResponseError>(d@),
            Err(e) => spec_parse_line(line@) == Err::<DeviceRecord, ResponseError>(e),
        },
{
    let f = split_at_char_exec(line, '\t');
    let ghost sf = split_at_char(line@, '\t');
    if f.len() < 1 {
        return Err(ResponseError::Missing(Field::DeviceName));
    }
    if f.len() < 2 {
        return Err(ResponseError::Missing(Field::Brightness));
    }
    assert(f@[1]@ == sf[1]);
    assert(f@[1]@.subrange(0, f@[1]@.len() as int) =~= f@[1]@);
    let b = match parse_unsigned_range(&f[1], 0, f[1].len(), 4294967295) {
        Some(b) => b,
        None => return Err(
            ResponseError::InvalidNumber(int_error_range(&f[1], 0, f[1].len(), 0, 4294967295)),
        ),
    };
    if f.len() < 3 {
        return Err(ResponseError::Missing(Field::Method));
    }
    if f.len() < 4 {
        return Err(ResponseError::Missing(Field::Backlight));
    }
    if f.len() < 5 {
        return Err(ResponseError::Missing(Field::Connector));
    }
    if f.len() < 6 {
        return Err(ResponseError::Missing(Field::MappingMethod));
    }
    if f.len() < 7 {
        return Err(ResponseError::Missing(Field::I2cBus));
    }
    if f.len() < 8 {
        return Err(ResponseError::Missing(Field::Device));
    }
    assert(f@[0]@ == sf[0] && f@[2]@ == sf[2] && f@[3]@ == sf[3] && f@[4]@ == sf[4] && f@[5]@
        == sf[5] && f@[6]@ == sf[6] && f@[7]@ == sf[7]);
    let d = DaemonBrightnessDevice {
        name: string_of(&f[0]),
        brightness: b as u32,
        method: string_of(&f[2]),
        backlight: opt_string(&f[3]),
        connector: opt_string(&f[4]),
        mapping_method: opt_string(&f[5]),
        i2c_bus: opt_string(&f[6]),
        device: opt_string(&f[7]),
    };
    Ok(d)
}

/// Reads the devices of a `LIST` reply, one per line.
pub fn parse_list_response(response: &str) -> (r: Result<
    Vec<DaemonBrightnessDevice>,
    ResponseError,
>)
    ensures
        match r {
            Ok(ds) => spec_parse_list_response(response@) == Ok::<
                Seq<DeviceRecord>,
                ResponseError,
            >(records(ds@)),
            Err(e) => spec_parse_list_response(response@) == Err::<
                Seq<DeviceRecord>,
                ResponseError,
            >(e),
        },
{
    let v = chars_of(response);
    let ls = split_lines(&v);
    let ghost sl = lines(response@);
    let mut out: Vec<DaemonBrightnessDevice> = Vec::new();
    assert(sl.take(0) =~= Seq::<Seq<char>>::empty());
    assert(records(out@) =~= Seq::<DeviceRecord>::empty());
    let mut i: usize = 0;
    while i < ls.len()
        invariant
            sl == lines(response@),
            ls@.len() == sl.len(),
            forall|k: int| 0 <= k < ls@.len() ==> (#[trigger] ls@[k])@ == sl[k],
            i <= ls@.len(),
            spec_parse_lines(sl.take(i as int)) == Ok::<Seq<DeviceRecord>, ResponseError>(
                records(out@),
            ),
        decreases ls@.len() - i,
    {
        assert(sl.take(i + 1).drop_last() =~= sl.take(i as int));
        assert(sl.take(i + 1).last() == ls@[i as int]@);
        match parse_line(&ls[i]) {
            Ok(d) => {
                let ghost prev = out@;
                out.push(d);
                assert(records(out@) =~= records(prev).push(d@));
            },
            Err(e) => {
                proof {
                    assert(spec_parse_lines(sl.take(i + 1)) == Err::<Seq<DeviceRecord>, ResponseError>(e));
                    lemma_parse_lines_error_persists(sl, i as int + 1);
                    assert(spec_parse_list_response(response@) == Err::<Seq<DeviceRecord>, ResponseError>(e));
                }
                return Err(e);
            },
        }
        i = i + 1;
    }
    assert(sl.take(i as int) =~= sl);
    Ok(out)
}

proof fn lemma_parse_lines_error_persists(ls: Seq<Seq<char>>, k: int)
    requires
        0 <= k <= ls.len(),
        spec_parse_lines(ls.take(k)) is Err,
    ensures
        spec_parse_lines(ls) == spec_parse_lines(ls.take(k)),
    decreases ls.len() - k,
{
    if k < ls.len() {
        assert(ls.take(k + 1).drop_last() =~= ls.take(k));
        lemma_parse_lines_error_persists(ls, k + 1);
    } else {
        assert(ls.take(k) =~= ls);
    }
}

// ---------------------------------------------------------------------------
// The listing round trip
// ---------------------------------------------------------------------------

/// A text fit for a listing field: no tab, newline or carriage return.
pub open spec fn plain(s: Seq<char>) -> bool {
    no_char(s, '\t') && no_char(s, '\n') && no_char(s, '\r')
}

pub open spec fn plain_opt(o: Option<Seq<char>>) -> bool {
    match o {
        Some(s) => s.len() > 0 && plain(s),
        None => true,
    }
}

/// A device whose texts survive the listing: plain, and present ones nonempty.
pub open spec fn listable(r: DeviceRecord) -> bool {
    &&& plain(r.name)
    &&& plain(r.method)
    &&& plain_opt(r.backlight)
    &&& plain_opt(r.connector)
    &&& plain_opt(r.mapping_method)
    &&& plain_opt(r.i2c_bus)
    &&& plain_opt(r.device)
}

/// The `LIST` reply for these devices.
pub open spec fn spec_list_reply(rs: Seq<DeviceRecord>) -> Seq<char> {
    join_lines(rs.map_values(|r: DeviceRecord| record_line(r)))
}

proof fn lemma_decimal_plain(n: nat)
    ensures
        plain(decimal(n)),
{
    lemma_decimal(n);
    assert forall|j: int| 0 <= j < decimal(n).len() implies #[trigger] decimal(n)[j] != '\t'
        && decimal(n)[j] != '\n' && decimal(n)[j] != '\r' by {
        assert(crate::text::is_digit(decimal(n)[j]));
    }
}

/// Reading one listing line gives back the device it was written from.
pub proof fn lemma_line_roundtrip(r: DeviceRecord)
    requires
        listable(r),
    ensures
        spec_parse_line(record_line(r)) == Ok::<DeviceRecord, ResponseError>(r),
{
    let fs = record_fields(r);
    lemma_decimal_plain(r.brightness as nat);
    assert forall|i: int| 0 <= i < fs.len() implies no_char(#[trigger] fs[i], '\t') by {
        assert(plain(fs[i]));
    }
    lemma_split_join(fs, '\t');
    lemma_parse_decimal(r.brightness as nat, u32::MAX as int);
    let p = spec_parse_line(record_line(r)).unwrap();
    assert(opt_field(or_empty(r.backlight)) == r.backlight);
    assert(opt_field(or_empty(r.connector)) == r.connector);
    assert(opt_field(or_empty(r.mapping_method)) == r.mapping_method);
    assert(opt_field(or_empty(r.i2c_bus)) == r.i2c_bus);
    assert(opt_field(or_empty(r.device)) == r.device);
}

/// What a client reads from a `LIST` reply is the devices the daemon listed,
/// when their texts are plain.
pub proof fn lemma_list_roundtrip(rs: Seq<DeviceRecord>)
    requires
        forall|i: int| 0 <= i < rs.len() ==> listable(#[trigger] rs[i]),
    ensures
        spec_parse_list_response(spec_list_reply(rs)) == Ok::<Seq<DeviceRecord>, ResponseError>(
            rs,
        ),
    decreases rs.len(),
{
    let ls = rs.map_values(|r: DeviceRecord| record_line(r));
    assert forall|i: int| 0 <= i < ls.len() implies no_char(#[trigger] ls[i], '\n') && !(
    ls[i].len() > 0 && ls[i].last() == '\r') by {
        let r = rs[i];
        assert(listable(r));
        let fs = record_fields(r);
        lemma_decimal_plain(r.brightness as nat);
        assert forall|k: int| 0 <= k < fs.len() implies plain(#[trigger] fs[k]) by {}
        lemma_join_plain(fs);
    }
    lemma_lines_join(ls);
    lemma_parse_lines_all(rs);
}

proof fn lemma_parse_lines_all(rs: Seq<DeviceRecord>)
    requires
        forall|i: int| 0 <= i < rs.len() ==> listable(#[trigger] rs[i]),
    ensures
        spec_parse_lines(rs.map_values(|r: DeviceRecord| record_line(r))) == Ok::<
            Seq<DeviceRecord>,
            ResponseError,
        >(rs),
    decreases rs.len(),
{
    if rs.len() > 0 {
        let init = rs.drop_last();
        assert forall|i: int| 0 <= i < init.len() implies listable(#[trigger] init[i]) by {
            assert(init[i] == rs[i]);
        }
        lemma_parse_lines_all(init);
        let ls = rs.map_values(|r: DeviceRecord| record_line(r));
        assert(ls.drop_last() =~= init.map_values(|r: DeviceRecord| record_line(r)));
        assert(ls.last() == record_line(rs.last()));
        assert(listable(rs.last()));
        lemma_line_roundtrip(rs.last());
        assert(init.push(rs.last()) =~= rs);
    } else {
        assert(rs.map_values(|r: DeviceRecord| record_line(r)) =~= Seq::<Seq<char>>::empty());
        assert(rs =~= Seq::<DeviceRecord>::empty());
    }
}

/// Plain fields joined with tabs hold no newline and do not end with `\r`.
proof fn lemma_join_plain(fs: Seq<Seq<char>>)
    requires
        forall|k: int| 0 <= k < fs.len() ==> plain(#[trigger] fs[k]),
    ensures
        no_char(join_with(fs, '\t'), '\n'),
        no_char(join_with(fs, '\t'), '\r'),
    decreases fs.len(),
{
    if fs.len() > 1 {
        let rest = fs.drop_first();
        assert forall|k: int| 0 <= k < rest.len() implies plain(#[trigger] rest[k]) by {
            assert(rest[k] == fs[k + 1]);
        }
        lemma_join_plain(rest);
        assert(plain(fs[0]));
        let j = join_with(fs, '\t');
        assert(j == fs[0] + seq!['\t'] + join_with(rest, '\t'));
        assert forall|i: int| 0 <= i < j.len() implies #[trigger] j[i] != '\n' && j[i] != '\r' by {
            if i < fs[0].len() {
                assert(j[i] == fs[0][i]);
            } else if i > fs[0].len() {
                assert(j[i] == join_with(rest, '\t')[i - fs[0].len() - 1]);
            }
        }
    } else if fs.len() == 1 {
        assert(plain(fs[0]));
    }
}

// ---------------------------------------------------------------------------
// The client: requests, and what it makes of the replies
// ---------------------------------------------------------------------------

/// `GET <name>`.
pub fn get_request(name: &str) -> (r: String)
    ensures
        r@ == seq!['G', 'E', 'T', ' '] + name@,
{
    let mut s = String::new();
    push_char(&mut s, 'G');
    push_char(&mut s, 'E');
    push_char(&mut s, 'T');
    push_char(&mut s, ' ');
    push_str(&mut s, name);
    assert(s@ =~= seq!['G', 'E', 'T', ' '] + name@);
    s
}

/// `SET <name> <brightness>`.
pub fn set_request(name: &str, brightness: u8) -> (r: String)
    ensures
        r@ == seq!['S', 'E', 'T', ' '] + name@ + seq![' '] + decimal(brightness as nat),
{
    let mut s = String::new();
    push_char(&mut s, 'S');
    push_char(&mut s, 'E');
    push_char(&mut s, 'T');
    push_char(&mut s, ' ');
    push_str(&mut s, name);
    push_char(&mut s, ' ');
    push_decimal(&mut s, brightness as u64);
    assert(s@ =~= seq!['S', 'E', 'T', ' '] + name@ + seq![' '] + decimal(brightness as nat));
    s
}

/// ` <name> <brightness>` for each target.
pub open spec fn targets_text(targets: Seq<(String, u8)>) -> Seq<char>
    decreases targets.len(),
{
    if targets.len() == 0 {
        Seq::empty()
    } else {
        targets_text(targets.drop_last()) + seq![' '] + targets.last().0@ + seq![' '] + decimal(
            targets.last().1 as nat,
        )
    }
}

/// `SET_ALL` followed by ` <name> <brightness>` for each target.
pub fn set_all_request(targets: &Vec<(String, u8)>) -> (r: String)
    ensures
        r@ == seq!['S', 'E', 'T', '_', 'A', 'L', 'L'] + targets_text(targets@),
{
    let mut s = String::new();
    push_str(&mut s, "SET_ALL");
    proof {
        reveal_strlit("SET_ALL");
    }
    assert(s@ =~= seq!['S', 'E', 'T', '_', 'A', 'L', 'L']);
    let mut i: usize = 0;
    while i < targets.len()
        invariant
            i <= targets@.len(),
            s@ == seq!['S', 'E', 'T', '_', 'A', 'L', 'L'] + targets_text(targets@.take(i as int)),
        decreases targets@.len() - i,
    {
        assert(targets@.take(i + 1).drop_last() =~= targets@.take(i as int));
        push_char(&mut s, ' ');
        push_str(&mut s, targets[i].0.as_str());
        push_char(&mut s, ' ');
        push_decimal(&mut s, targets[i].1 as u64);
        i = i + 1;
        assert(s@ =~= seq!['S', 'E', 'T', '_', 'A', 'L', 'L'] + targets_text(
            targets@.take(i as int),
        ));
    }
    assert(targets@.take(i as int) =~= targets@);
    s
}

/// Reads the reply to `LIST`: the devices, or the error the daemon reported.
pub fn daemon_list_devices(response: &str) -> (r: Result<
    Vec<DaemonBrightnessDevice>,
    ResponseError,
>)
    ensures
        match spec_reply_error(response@) {
            Some(m) => r matches Err(ResponseError::Daemon(e)) && e@ == m,
            None => match r {
                Ok(ds) => spec_parse_list_response(response@) == Ok::<
                    Seq<DeviceRecord>,
                    ResponseError,
                >(records(ds@)),
                Err(e) => spec_parse_list_response(response@) == Err::<
                    Seq<DeviceRecord>,
                    ResponseError,
                >(e),
            },
        },
{
    check_reply(response)?;
    parse_list_response(response)
}

/// What the reply to `GET` reads as: the brightness in the trimmed reply.
pub open spec fn spec_get_reply(response: Seq<char>) -> Option<int> {
    parse_unsigned(trim(response), u32::MAX as int)
}

/// Reads the reply to `GET <name>`: the device's brightness.
pub fn daemon_get_brightness(response: &str) -> (r: Result<u32, ResponseError>)
    ensures
        match spec_reply_error(response@) {
            Some(m) => r matches Err(ResponseError::Daemon(e)) && e@ == m,
            None => match spec_get_reply(response@) {
                Some(b) => r == Ok::<u32, ResponseError>(b as u32),
                None => r == Err::<u32, ResponseError>(
                    ResponseError::InvalidNumber(int_error(trim(response@), 0, u32::MAX as int)),
                ),
            },
        },
{
    check_reply(response)?;
    let v = chars_of(response);
    let (b, e) = trim_bounds(&v);
    match parse_unsigned_range(&v, b, e, 4294967295) {
        Some(x) => Ok(x as u32),
        None => Err(ResponseError::InvalidNumber(int_error_range(&v, b, e, 0, 4294967295))),
    }
}

/// Reads the reply to `SET <name> <brightness>`, which is `OK` on success.
pub fn daemon_set_brightness(response: &str) -> (r: Result<(), ResponseError>)
    ensures
        match spec_ok_reply(response@) {
            Ok(()) => r is Ok,
            Err(m) => r matches Err(ResponseError::Daemon(e)) && e@ == m,
        },
{
    expect_ok(response)
}

/// Reads the reply to `SET_ALL ...`, which is `OK` on success.
pub fn daemon_set_all_brightness(response: &str) -> (r: Result<(), ResponseError>)
    ensures
        match spec_ok_reply(response@) {
            Ok(()) => r is Ok,
            Err(m) => r matches Err(ResponseError::Daemon(e)) && e@ == m,
        },
{
    expect_ok(response)
}

/// Reads the reply to `REFRESH`, which is `OK` on success.
pub fn daemon_refresh(response: &str) -> (r: Result<(), ResponseError>)
    ensures
        match spec_ok_reply(response@) {
            Ok(()) => r is Ok,
            Err(m) => r matches Err(ResponseError::Daemon(e)) && e@ == m,
        },
{
    expect_ok(response)
}

/// Every listed device can take `change` from its listed brightness.
pub open spec fn all_applicable(devices: Seq<DaemonBrightnessDevice>, change: PercentChange) -> bool {
    forall|i: int|
        0 <= i < devices.len() ==> percent_change_applicable(
            Some(#[trigger] devices[i].brightness),
            change,
        )
}

/// The `SET_ALL` targets that apply `change` to each listed device, from
/// the brightness the daemon listed for it.
pub fn set_all_targets(devices: Vec<DaemonBrightnessDevice>, change: PercentChange) -> (r: Vec<
    (String, u8),
>)
    requires
        all_applicable(devices@, change),
    ensures
        r@.len() == devices@.len(),
        forall|i: int|
            0 <= i < r@.len() ==> (#[trigger] r@[i]).0 == devices@[i].name && r@[i].1 as int
                == spec_apply_percent_change(Some(devices@[i].brightness), change),
{
    let mut targets: Vec<(String, u8)> = Vec::new();
    let mut i: usize = 0;
    while i < devices.len()
        invariant
            i <= devices@.len(),
            targets@.len() == i,
            all_applicable(devices@, change),
            forall|k: int|
                0 <= k < i ==> (#[trigger] targets@[k]).0 == devices@[k].name && targets@[k].1 as int
                    == spec_apply_percent_change(Some(devices@[k].brightness), change),
        decreases devices@.len() - i,
    {
        let percent = apply_percent_change(Some(devices[i].brightness), change);
        targets.push((devices[i].name.clone(), percent));
        i = i + 1;
    }
    targets
}

/// A name the daemon reads back as itself: nonempty, without whitespace.
pub open spec fn is_word(s: Seq<char>) -> bool {
    s.len() > 0 && forall|j: int| 0 <= j < s.len() ==> !is_space(#[trigger] s[j])
}

proof fn lemma_decimal_word(n: nat)
    ensures
        is_word(decimal(n)),
{
    lemma_decimal(n);
    assert forall|j: int| 0 <= j < decimal(n).len() implies !is_space(#[trigger] decimal(n)[j]) by {
        assert(is_digit(decimal(n)[j]));
    }
}

/// The daemon splits a `SET` request into the command, the name and the
/// brightness the client put in it.
pub proof fn lemma_set_request_words(name: Seq<char>, brightness: u8)
    requires
        is_word(name),
    ensures
        words(seq!['S', 'E', 'T', ' '] + name + seq![' '] + decimal(brightness as nat)) == seq![
            seq!['S', 'E', 'T'],
            name,
            decimal(brightness as nat),
        ],
{
    let cmd = seq!['S', 'E', 'T'];
    let d = decimal(brightness as nat);
    lemma_decimal_word(brightness as nat);
    lemma_words_single(d);
    lemma_words_cons(name, d);
    assert(cmd + seq![' '] + (name + seq![' '] + d) =~= seq!['S', 'E', 'T', ' '] + name + seq![' ']
        + d);
    lemma_words_cons(cmd, name + seq![' '] + d);
    assert(seq![cmd] + (seq![name] + seq![d]) =~= seq![cmd, name, d]);
}

/// The reply to `GET` for a brightness reads back as that brightness.
pub proof fn lemma_get_reply_roundtrip(b: u32)
    ensures
        spec_reply_error(decimal(b as nat) + seq!['\n']) is None,
        spec_get_reply(decimal(b as nat) + seq!['\n']) == Some(b as int),
{
    let d = decimal(b as nat);
    lemma_decimal(b as nat);
    assert(is_digit(d[0]) && is_digit(d.last()));
    lemma_trim_newline(d);
    lemma_parse_decimal(b as nat, u32::MAX as int);
}

// ---------------------------------------------------------------------------
// The daemon: its state, and what it answers
// ---------------------------------------------------------------------------

/// How the daemon lists a device.
pub open spec fn spec_daemon_device(name: Seq<char>, device: BrightnessDevice, brightness: u32) -> DeviceRecord {
    match device {
        BrightnessDevice::Backlight(m) => DeviceRecord {
            name,
            brightness,
            method: "backlight"@,
            backlight: Some(m.backlight@),
            connector: Some(m.connector@),
            mapping_method: Some(
                if m.method == BacklightMappingMethod::Ddc {
                    "ddc"@
                } else {
                    "edid"@
                },
            ),
            i2c_bus: None,
            device: None,
        },
        BrightnessDevice::DdcCi(m) => DeviceRecord {
            name,
            brightness,
            method: "ddc/ci"@,
            backlight: None,
            connector: opt_view(m.connector),
            mapping_method: None,
            i2c_bus: Some(m.i2c_bus@),
            device: Some(m.device@),
        },
    }
}

/// The listing entry of a device.
pub fn daemon_device(name: &str, device: &BrightnessDevice, brightness: u32) -> (r:
    DaemonBrightnessDevice)
    ensures
        r@ == spec_daemon_device(name@, *device, brightness),
{
    match device {
        BrightnessDevice::Backlight(mapping) => DaemonBrightnessDevice {
            name: name.to_owned(),
            brightness,
            method: "backlight".to_owned(),
            backlight: Some(mapping.backlight.clone()),
            connector: Some(mapping.connector.clone()),
            mapping_method: Some(mapping.method.name().to_owned()),
            i2c_bus: None,
            device: None,
        },
        BrightnessDevice::DdcCi(mapping) => DaemonBrightnessDevice {
            name: name.to_owned(),
            brightness,
            method: "ddc/ci".to_owned(),
            backlight: None,
            connector: mapping.connector.clone(),
            mapping_method: None,
            i2c_bus: Some(mapping.i2c_bus.clone()),
            device: Some(mapping.device.clone()),
        },
    }
}

/// The daemon's devices and their last known brightness.
pub struct DaemonState {
    devices: NameMap<BrightnessDevice>,
    brightness: NameMap<u32>,
}

/// The brightness readings of the devices that could be read.
pub open spec fn spec_readings(entries: Seq<(String, BrightnessDevice)>, readings: Seq<Option<u32>>) -> Map<
    Seq<char>,
    u32,
>
    decreases entries.len(),
{
    if entries.len() == 0 || readings.len() == 0 {
        Map::empty()
    } else {
        let m = spec_readings(entries.drop_last(), readings.drop_last());
        match readings.last() {
            Some(b) => m.insert(entries.last().0@, b),
            None => m,
        }
    }
}

/// The listing: in name order, each device whose brightness is known.
pub open spec fn spec_list(entries: Seq<(String, BrightnessDevice)>, b: Map<Seq<char>, u32>) -> Seq<
    DeviceRecord,
>
    decreases entries.len(),
{
    if entries.len() == 0 {
        Seq::empty()
    } else {
        let init = spec_list(entries.drop_last(), b);
        let name = entries.last().0@;
        if b.contains_key(name) {
            init.push(spec_daemon_device(name, entries.last().1, b[name]))
        } else {
            init
        }
    }
}

/// What the daemon does for a request.
#[derive(Debug)]
pub enum DaemonCommand {
    /// Send this reply.
    Reply(String),
    /// Carry out this write, then finish with [`DaemonState::finish_set`].
    SetOne { name: String, percent: u8, write: BrightnessWrite },
    /// Carry out these writes, then finish with [`DaemonState::finish_set_all`].
    SetAll { targets: Vec<(String, u8)>, writes: Vec<BrightnessWrite> },
    /// Read the devices again, then finish with [`DaemonState::finish_refresh`].
    Refresh,
}

/// `ERR <message>\n`.
pub open spec fn error_reply(message: Seq<char>) -> Seq<char> {
    "ERR "@ + message + seq!['\n']
}

pub open spec fn no_device_message(name: Seq<char>) -> Seq<char> {
    "no brightness device named "@ + name
}

/// The targets of a `SET_ALL` request, or the reply that refuses it.
pub open spec fn parse_targets(ws: Seq<Seq<char>>) -> Result<Seq<(Seq<char>, u8)>, Seq<char>>
    decreases ws.len(),
{
    if ws.len() == 0 {
        Ok(Seq::empty())
    } else if ws.len() == 1 {
        Err("ERR missing brightness\n"@)
    } else {
        match parse_unsigned(ws[1], 255) {
            None => Err("ERR missing brightness\n"@),
            Some(b) => if b > 100 {
                Err("ERR brightness must be between 0 and 100\n"@)
            } else {
                match parse_targets(ws.skip(2)) {
                    Ok(t) => Ok(seq![(ws[0], b as u8)] + t),
                    Err(e) => Err(e),
                }
            },
        }
    }
}

/// The first target without a device.
pub open spec fn first_unknown(targets: Seq<(Seq<char>, u8)>, devices: Map<Seq<char>, BrightnessDevice>) -> Option<
    Seq<char>,
>
    decreases targets.len(),
{
    if targets.len() == 0 {
        None
    } else if !devices.contains_key(targets[0].0) {
        Some(targets[0].0)
    } else {
        first_unknown(targets.drop_first(), devices)
    }
}

/// A target list without an unknown name names only devices.
proof fn lemma_first_unknown_none(t: Seq<(Seq<char>, u8)>, devices: Map<Seq<char>, BrightnessDevice>)
    requires
        first_unknown(t, devices) is None,
    ensures
        forall|i: int| 0 <= i < t.len() ==> devices.contains_key(#[trigger] t[i].0),
    decreases t.len(),
{
    if t.len() > 0 {
        lemma_first_unknown_none(t.drop_first(), devices);
        assert forall|i: int| 0 <= i < t.len() implies devices.contains_key(#[trigger] t[i].0) by {
            if i > 0 {
                assert(t[i] == t.drop_first()[i - 1]);
            }
        }
    }
}

/// The outcome of a request, as a reply or the work to carry out.
pub enum CommandSpec {
    Reply(Seq<char>),
    SetOne(Seq<char>, u8, BrightnessWrite),
    SetAll(Seq<(Seq<char>, u8)>),
    Refresh,
}

/// What the daemon does for a request, in state `devices` (by name) with
/// known brightness `b` and listing `listing`.
pub open spec fn spec_handle_request(
    request: Seq<char>,
    devices: Map<Seq<char>, BrightnessDevice>,
    b: Map<Seq<char>, u32>,
    listing: Seq<DeviceRecord>,
) -> CommandSpec {
    let w = words(request);
    if w.len() == 0 {
        CommandSpec::Reply("ERR empty request\n"@)
    } else if w[0] == "LIST"@ {
        CommandSpec::Reply(spec_list_reply(listing))
    } else if w[0] == "GET"@ {
        if w.len() < 2 {
            CommandSpec::Reply("ERR missing device name\n"@)
        } else if b.contains_key(w[1]) {
            CommandSpec::Reply(decimal(b[w[1]] as nat) + seq!['\n'])
        } else {
            CommandSpec::Reply(error_reply(no_device_message(w[1])))
        }
    } else if w[0] == "SET"@ {
        if w.len() < 2 {
            CommandSpec::Reply("ERR missing device name\n"@)
        } else if w.len() < 3 || parse_unsigned(w[2], 255) is None {
            CommandSpec::Reply("ERR missing brightness\n"@)
        } else if parse_unsigned(w[2], 255).unwrap() > 100 {
            CommandSpec::Reply("ERR brightness must be between 0 and 100\n"@)
        } else if !devices.contains_key(w[1]) {
            CommandSpec::Reply(error_reply(no_device_message(w[1])))
        } else {
            let p = parse_unsigned(w[2], 255).unwrap() as u8;
            CommandSpec::SetOne(w[1], p, spec_write(devices[w[1]], p))
        }
    } else if w[0] == "SET_ALL"@ {
        match parse_targets(w.drop_first()) {
            Err(e) => CommandSpec::Reply(e),
            Ok(t) => match first_unknown(t, devices) {
                Some(n) => CommandSpec::Reply(error_reply(no_device_message(n))),
                None => CommandSpec::SetAll(t),
            },
        }
    } else if w[0] == "REFRESH"@ {
        CommandSpec::Refresh
    } else {
        CommandSpec::Reply(error_reply("unknown command "@ + w[0]))
    }
}

pub open spec fn targets_view(targets: Seq<(String, u8)>) -> Seq<(Seq<char>, u8)> {
    targets.map_values(|t: (String, u8)| (t.0@, t.1))
}

/// The reply after carrying out writes: the first failure (recording the
/// brightness of the targets before it), or `OK`.
pub open spec fn spec_finish_set_all(
    targets: Seq<(Seq<char>, u8)>,
    outcomes: Seq<Result<(), String>>,
    b: Map<Seq<char>, u32>,
) -> (Map<Seq<char>, u32>, Seq<char>)
    decreases targets.len(),
{
    if targets.len() == 0 || outcomes.len() == 0 {
        (b, "OK\n"@)
    } else {
        match outcomes[0] {
            Err(e) => (b, error_reply(e@)),
            Ok(()) => spec_finish_set_all(
                targets.drop_first(),
                outcomes.drop_first(),
                b.insert(targets[0].0, targets[0].1 as u32),
            ),
        }
    }
}

impl DaemonState {
    /// The devices, by name.
    pub closed spec fn devices(&self) -> NameMap<BrightnessDevice> {
        self.devices
    }

    /// The last known brightness, by name.
    pub closed spec fn known(&self) -> Map<Seq<char>, u32> {
        self.brightness@
    }

    /// The listing of this state.
    pub open spec fn listing(&self) -> Seq<DeviceRecord> {
        spec_list(self.devices().spec_entries(), self.known())
    }

    /// Every state records brightness for its devices alone.
    #[verifier::type_invariant]
    closed spec fn recorded_are_devices(self) -> bool {
        forall|k: Seq<char>| #[trigger] self.brightness@.contains_key(k) ==> self.devices@.contains_key(k)
    }

    /// Every recorded brightness belongs to a device.
    pub open spec fn known_are_devices(&self) -> bool {
        forall|k: Seq<char>| #[trigger] self.known().contains_key(k) ==> self.devices()@.contains_key(k)
    }

    /// A state with no devices.
    pub fn new() -> (s: Self)
        ensures
            s.devices()@ == Map::<Seq<char>, BrightnessDevice>::empty(),
            s.devices().spec_entries().len() == 0,
            s.known() == Map::<Seq<char>, u32>::empty(),
            s.known_are_devices(),
    {
        DaemonState { devices: NameMap::new(), brightness: NameMap::new() }
    }

    /// Takes a new set of devices and the readings of their brightness, in
    /// device order (`None` where a device could not be read).
    pub fn refresh(&mut self, devices: NameMap<BrightnessDevice>, readings: Vec<Option<u32>>)
        requires
            readings@.len() == devices.spec_entries().len(),
        ensures
            final(self).devices() == devices,
            final(self).known() == spec_readings(devices.spec_entries(), readings@),
            final(self).known_are_devices(),
    {
        let mut brightness: NameMap<u32> = NameMap::new();
        let entries = devices.entries();
        let mut i: usize = 0;
        while i < entries.len()
            invariant
                i <= entries@.len(),
                entries@ == devices.spec_entries(),
                readings@.len() == entries@.len(),
                brightness@ == spec_readings(entries@.take(i as int), readings@.take(i as int)),
                forall|j: int| 0 <= j < entries@.len() ==> #[trigger] devices@.contains_key(entries@[j].0@),
                forall|k: Seq<char>| #[trigger] brightness@.contains_key(k) ==> devices@.contains_key(k),
            decreases entries@.len() - i,
        {
            assert(entries@.take(i + 1).drop_last() =~= entries@.take(i as int));
            assert(readings@.take(i + 1).drop_last() =~= readings@.take(i as int));
            match readings[i] {
                Some(b) => {
                    brightness.insert(entries[i].0.clone(), b);
                },
                None => {},
            }
            i = i + 1;
        }
        assert(entries@.take(i as int) =~= entries@);
        assert(readings@.take(i as int) =~= readings@);
        *self = DaemonState { devices, brightness };
    }

    /// The devices whose brightness is known, in name order.
    pub fn list(&self) -> (r: Vec<DaemonBrightnessDevice>)
        ensures
            records(r@) == self.listing(),
            strictly_sorted(r@.map_values(|d: DaemonBrightnessDevice| d.name@)),
            self.known_are_devices(),
    {
        proof {
            use_type_invariant(self);
        }
        let entries = self.devices.entries();
        let mut out: Vec<DaemonBrightnessDevice> = Vec::new();
        let mut i: usize = 0;
        assert(records(out@) =~= Seq::<DeviceRecord>::empty());
        while i < entries.len()
            invariant
                i <= entries@.len(),
                entries@ == self.devices().spec_entries(),
                records(out@) == spec_list(entries@.take(i as int), self.known()),
                strictly_sorted(keys_of(entries@)),
                strictly_sorted(out@.map_values(|d: DaemonBrightnessDevice| d.name@)),
                forall|k: int, j: int|
                    0 <= k < out@.len() && i <= j < entries@.len() ==> name_lt(
                        #[trigger] out@[k].name@,
                        #[trigger] entries@[j].0@,
                    ),
            decreases entries@.len() - i,
        {
            assert(entries@.take(i + 1).drop_last() =~= entries@.take(i as int));
            let (name, device) = &entries[i];
            proof {
                assert forall|k: int, j: int|
                    0 <= k < out@.len() && i + 1 <= j < entries@.len() implies name_lt(
                        #[trigger] out@[k].name@,
                        #[trigger] entries@[j].0@,
                    ) by {
                    assert(name_lt(out@[k].name@, entries@[i as int].0@));
                    assert(keys_of(entries@)[i as int] == entries@[i as int].0@);
                    assert(keys_of(entries@)[j] == entries@[j].0@);
                    lemma_name_lt_transitive(out@[k].name@, entries@[i as int].0@, entries@[j].0@);
                }
            }
            match self.brightness.get(name.as_str()) {
                Some(b) => {
                    let d = daemon_device(name.as_str(), device, *b);
                    let ghost prev = out@;
                    out.push(d);
                    assert(records(out@) =~= records(prev).push(d@));
                    proof {
                        let names = out@.map_values(|d: DaemonBrightnessDevice| d.name@);
                        assert(d.name@ == entries@[i as int].0@);
                        assert forall|k: int, l: int| 0 <= k < l < names.len() implies name_lt(
                            #[trigger] names[k],
                            #[trigger] names[l],
                        ) by {
                            assert(names[k] == out@[k].name@);
                            assert(names[l] == out@[l].name@);
                            if l < prev.len() {
                                assert(prev.map_values(|d: DaemonBrightnessDevice| d.name@)[k] == prev[k].name@);
                                assert(prev.map_values(|d: DaemonBrightnessDevice| d.name@)[l] == prev[l].name@);
                                assert(out@[k] == prev[k]);
                                assert(out@[l] == prev[l]);
                            } else {
                                assert(out@[k] == prev[k]);
                            }
                        }
                        assert forall|k: int, j: int|
                            0 <= k < out@.len() && i + 1 <= j < entries@.len() implies name_lt(
                                #[trigger] out@[k].name@,
                                #[trigger] entries@[j].0@,
                            ) by {
                            if k < prev.len() {
                                assert(out@[k] == prev[k]);
                            } else {
                                assert(keys_of(entries@)[i as int] == entries@[i as int].0@);
                                assert(keys_of(entries@)[j] == entries@[j].0@);
                            }
                        }
                    }
                },
                None => {},
            }
            i = i + 1;
        }
        assert(entries@.take(i as int) =~= entries@);
        out
    }

    /// The last known brightness of a device.
    pub fn get_brightness(&self, name: &str) -> (r: Option<u32>)
        ensures
            match r {
                Some(b) => self.known().contains_key(name@) && self.known()[name@] == b,
                None => !self.known().contains_key(name@),
            },
            self.known_are_devices(),
    {
        proof {
            use_type_invariant(self);
        }
        match self.brightness.get(name) {
            Some(b) => Some(*b),
            None => None,
        }
    }

    /// Records a successful write to device `name`, or reports the failed one.
    pub fn finish_set(&mut self, name: String, percent: u8, outcome: Result<(), String>) -> (r:
        String)
        requires
            old(self).devices()@.contains_key(name@),
        ensures
            final(self).known_are_devices(),
            final(self).devices() == old(self).devices(),
            match outcome {
                Ok(()) => final(self).known() == old(self).known().insert(name@, percent as u32)
                    && r@ == "OK\n"@,
                Err(e) => final(self).known() == old(self).known() && r@ == error_reply(e@),
            },
    {
        proof {
            use_type_invariant(&*self);
        }
        match outcome {
            Ok(()) => {
                let ghost key = name@;
                let mut recorded: NameMap<u32> = NameMap::new();
                std::mem::swap(&mut recorded, &mut self.brightness);
                recorded.insert(name, percent as u32);
                assert forall|k: Seq<char>| #[trigger] recorded@.contains_key(k) implies self.devices@.contains_key(k) by {
                    if k != key {
                        assert(old(self).known().contains_key(k));
                    }
                }
                self.brightness = recorded;
                "OK\n".to_owned()
            },
            Err(e) => error_text(e.as_str()),
        }
    }

    /// Records the writes of a `SET_ALL` in target order, up to the first
    /// failure, which the reply reports.
    pub fn finish_set_all(&mut self, targets: Vec<(String, u8)>, outcomes: Vec<Result<(), String>>) -> (r:
        String)
        requires
            outcomes@.len() == targets@.len(),
            forall|i: int|
                0 <= i < targets@.len() ==> old(self).devices()@.contains_key(
                    #[trigger] targets@[i].0@,
                ),
        ensures
            final(self).known_are_devices(),
            final(self).devices() == old(self).devices(),
            (final(self).known(), r@) == spec_finish_set_all(
                targets_view(targets@),
                outcomes@,
                old(self).known(),
            ),
    {
        proof {
            use_type_invariant(&*self);
        }
        let ghost tv = targets_view(targets@);
        assert(tv.skip(0) =~= tv);
        assert(outcomes@.skip(0) =~= outcomes@);
        let mut recorded: NameMap<u32> = NameMap::new();
        std::mem::swap(&mut recorded, &mut self.brightness);
        let mut i: usize = 0;
        while i < targets.len()
            invariant
                i <= targets@.len(),
                outcomes@.len() == targets@.len(),
                tv == targets_view(targets@),
                self.devices() == old(self).devices(),
                forall|k: Seq<char>| #[trigger] recorded@.contains_key(k) ==> self.devices@.contains_key(k),
                forall|j: int|
                    0 <= j < targets@.len() ==> old(self).devices()@.contains_key(
                        #[trigger] targets@[j].0@,
                    ),
                spec_finish_set_all(tv, outcomes@, old(self).known()) == spec_finish_set_all(
                    tv.skip(i as int),
                    outcomes@.skip(i as int),
                    recorded@,
                ),
            decreases targets@.len() - i,
        {
            let ghost rest_t = tv.skip(i as int);
            let ghost rest_o = outcomes@.skip(i as int);
            assert(rest_t[0] == (targets@[i as int].0@, targets@[i as int].1));
            assert(rest_o[0] == outcomes@[i as int]);
            assert(rest_t.drop_first() =~= tv.skip(i + 1));
            assert(rest_o.drop_first() =~= outcomes@.skip(i + 1));
            match &outcomes[i] {
                Err(e) => {
                    self.brightness = recorded;
                    return error_text(e.as_str());
                },
                Ok(()) => {
                    recorded.insert(targets[i].0.clone(), targets[i].1 as u32);
                },
            }
            i = i + 1;
        }
        assert(tv.skip(i as int).len() == 0);
        self.brightness = recorded;
        "OK\n".to_owned()
    }

    /// Takes the devices read again, or reports why they could not be.
    pub fn finish_refresh(&mut self, outcome: Result<(NameMap<BrightnessDevice>, Vec<Option<u32>>), String>) -> (r:
        String)
        requires
            outcome matches Ok((d, rs)) ==> rs@.len() == d.spec_entries().len(),
        ensures
            final(self).known_are_devices(),
            match outcome {
                Ok((d, rs)) => final(self).devices() == d && final(self).known() == spec_readings(
                    d.spec_entries(),
                    rs@,
                ) && r@ == "OK\n"@,
                Err(e) => final(self).devices() == old(self).devices() && final(self).known()
                    == old(self).known() && r@ == error_reply(e@),
            },
    {
        proof {
            use_type_invariant(&*self);
        }
        match outcome {
            Ok((devices, readings)) => {
                self.refresh(devices, readings);
                "OK\n".to_owned()
            },
            Err(e) => error_text(e.as_str()),
        }
    }

    /// What to do for a request: a reply, or the writes or the refresh to carry out.
    #[verifier::loop_isolation(false)]
    #[verifier::rlimit(40)]
    pub fn handle_request(&self, request: &str) -> (r: DaemonCommand)
        ensures
            match spec_handle_request(request@, self.devices()@, self.known(), self.listing()) {
                CommandSpec::Reply(s) => r matches DaemonCommand::Reply(t) && t@ == s,
                CommandSpec::SetOne(n, p, w) => r matches DaemonCommand::SetOne { name, percent, write }
                    && name@ == n && percent == p && write == w,
                CommandSpec::SetAll(t) => r matches DaemonCommand::SetAll { targets, writes }
                    && targets_view(targets@) == t && writes@.len() == targets@.len() && forall|
                    i: int,
                | 0 <= i < writes@.len() ==> #[trigger] writes@[i] == spec_write(
                    self.devices()@[t[i].0],
                    t[i].1,
                ),
                CommandSpec::Refresh => r is Refresh,
            },
            r matches DaemonCommand::SetOne { name, .. } ==> self.devices()@.contains_key(name@),
            r matches DaemonCommand::SetAll { targets, .. } ==> forall|i: int|
                0 <= i < targets@.len() ==> self.devices()@.contains_key(
                    #[trigger] targets@[i].0@,
                ),
    {
        proof {
            reveal_strlit("LIST");
            reveal_strlit("GET");
            reveal_strlit("SET");
            reveal_strlit("SET_ALL");
            reveal_strlit("REFRESH");
        }
        let v = chars_of(request);
        let w = split_words(&v);
        let ghost sw = words(request@);
        if w.len() == 0 {
            return DaemonCommand::Reply("ERR empty request\n".to_owned());
        }
        let cmd = &w[0];
        assert(cmd@ == sw[0]);
        if word_is(cmd, "LIST") {
            let listing = self.list();
            let mut s = String::new();
            let mut i: usize = 0;
            let ghost ls = records(listing@);
            assert(ls == self.listing());
            while i < listing.len()
                invariant
                    i <= listing@.len(),
                    ls == records(listing@),
                    s@ == join_lines(ls.take(i as int).map_values(|r: DeviceRecord| record_line(r))),
                decreases listing@.len() - i,
            {
                let line = format_daemon_device(&listing[i]);
                push_str(&mut s, line.as_str());
                proof {
                    crate::text::lemma_join_lines_push(ls.take(i as int).map_values(|r: DeviceRecord| record_line(r)), record_line(ls[i as int]));
                    assert(ls.take(i + 1).map_values(|r: DeviceRecord| record_line(r)) =~= ls.take(i as int).map_values(|r: DeviceRecord| record_line(r)).push(record_line(ls[i as int])));
                }
                i = i + 1;
            }
            assert(ls.take(i as int) =~= ls);
            return DaemonCommand::Reply(s);
        }
        if word_is(cmd, "GET") {
            if w.len() < 2 {
                return DaemonCommand::Reply("ERR missing device name\n".to_owned());
            }
            assert(w@[1]@ == sw[1]);
            let name = string_of(&w[1]);
            return match self.brightness.get(name.as_str()) {
                Some(b) => {
                    let mut s = String::new();
                    push_decimal(&mut s, *b as u64);
                    push_char(&mut s, '\n');
                    assert(s@ =~= decimal(*b as nat) + seq!['\n']);
                    DaemonCommand::Reply(s)
                },
                None => DaemonCommand::Reply(no_device_reply(&name)),
            };
        }
        if word_is(cmd, "SET") {
            if w.len() < 2 {
                return DaemonCommand::Reply("ERR missing device name\n".to_owned());
            }
            assert(w@[1]@ == sw[1]);
            if w.len() < 3 {
                return DaemonCommand::Reply("ERR missing brightness\n".to_owned());
            }
            assert(w@[2]@ == sw[2]);
            assert(w@[2]@.subrange(0, w@[2]@.len() as int) =~= w@[2]@);
            let p = match parse_unsigned_range(&w[2], 0, w[2].len(), 255) {
                Some(p) => p,
                None => return DaemonCommand::Reply("ERR missing brightness\n".to_owned()),
            };
            if p > 100 {
                return DaemonCommand::Reply(
                    "ERR brightness must be between 0 and 100\n".to_owned(),
                );
            }
            let name = string_of(&w[1]);
            return match self.devices.get(name.as_str()) {
                Some(device) => {
                    let write = device.set_brightness(p as u8);
                    DaemonCommand::SetOne { name, percent: p as u8, write }
                },
                None => DaemonCommand::Reply(no_device_reply(&name)),
            };
        }
        if word_is(cmd, "SET_ALL") {
            let mut targets: Vec<(String, u8)> = Vec::new();
            let mut j: usize = 1;
            let ghost ws = sw.drop_first();
            assert(ws.skip(0) =~= ws);
            assert(targets_view(targets@) =~= Seq::<(Seq<char>, u8)>::empty());
            while j < w.len()
                invariant
                    1 <= j,
                    w@.len() == sw.len(),
                    forall|k: int| 0 <= k < w@.len() ==> (#[trigger] w@[k])@ == sw[k],
                    ws == sw.drop_first(),
                    j <= w@.len() + 1,
                    j <= w@.len() ==> parse_targets(ws) == prepend(
                        targets_view(targets@),
                        parse_targets(ws.skip(j - 1)),
                    ),
                    j > w@.len() ==> parse_targets(ws) == Ok::<Seq<(Seq<char>, u8)>, Seq<char>>(
                        targets_view(targets@),
                    ),
                decreases w@.len() + 1 - j,
            {
                let ghost rest = ws.skip(j - 1);
                assert(rest[0] == sw[j as int]);
                if j + 1 >= w.len() {
                    proof {
                        assert(rest.len() == 1);
                        assert(parse_targets(rest) == Err::<Seq<(Seq<char>, u8)>, Seq<char>>("ERR missing brightness\n"@));
                        lemma_prepend_err(targets_view(targets@), "ERR missing brightness\n"@);
                    }
                    return DaemonCommand::Reply("ERR missing brightness\n".to_owned());
                }
                assert(rest[1] == sw[j + 1]);
                assert(w@[j + 1]@.subrange(0, w@[j + 1]@.len() as int) =~= w@[j + 1]@);
                let p = match parse_unsigned_range(&w[j + 1], 0, w[j + 1].len(), 255) {
                    Some(p) => p,
                    None => {
                        proof {
                            assert(parse_targets(rest) == Err::<Seq<(Seq<char>, u8)>, Seq<char>>("ERR missing brightness\n"@));
                            lemma_prepend_err(targets_view(targets@), "ERR missing brightness\n"@);
                        }
                        return DaemonCommand::Reply("ERR missing brightness\n".to_owned());
                    },
                };
                if p > 100 {
                    proof {
                        lemma_prepend_err(
                            targets_view(targets@),
                            "ERR brightness must be between 0 and 100\n"@,
                        );
                    }
                    return DaemonCommand::Reply(
                        "ERR brightness must be between 0 and 100\n".to_owned(),
                    );
                }
                let ghost prev = targets_view(targets@);
                targets.push((string_of(&w[j]), p as u8));
                proof {
                    assert(rest.skip(2) =~= ws.skip(j + 1));
                    assert(targets_view(targets@) =~= prev + seq![(sw[j as int], p as u8)]);
                    lemma_prepend_assoc(prev, (sw[j as int], p as u8), parse_targets(ws.skip(j + 1)));
                    if j + 2 > w@.len() {
                        assert(ws.skip(j + 1).len() == 0);
                    }
                }
                j = j + 2;
            }
            proof {
                if j == w@.len() {
                    assert(ws.skip(j - 1).len() == 0);
                    assert(targets_view(targets@) + Seq::<(Seq<char>, u8)>::empty() =~= targets_view(targets@));
                }
            }
            assert(parse_targets(ws) == Ok::<Seq<(Seq<char>, u8)>, Seq<char>>(targets_view(targets@)));
            let ghost t = targets_view(targets@);
            assert(t.skip(0) =~= t);
            let mut writes: Vec<BrightnessWrite> = Vec::new();
            let mut k: usize = 0;
            while k < targets.len()
                invariant
                    k <= targets@.len(),
                    t == targets_view(targets@),
                    first_unknown(t, self.devices()@) == first_unknown(t.skip(k as int), self.devices()@),
                    writes@.len() == k,
                    forall|i: int| 0 <= i < k ==> #[trigger] writes@[i] == spec_write(
                        self.devices()@[t[i].0],
                        t[i].1,
                    ),
                decreases targets@.len() - k,
            {
                let ghost rest = t.skip(k as int);
                assert(rest[0] == (targets@[k as int].0@, targets@[k as int].1));
                match self.devices.get(targets[k].0.as_str()) {
                    Some(device) => {
                        writes.push(device.set_brightness(targets[k].1));
                        assert(rest.drop_first() =~= t.skip(k + 1));
                    },
                    None => {
                        assert(first_unknown(rest, self.devices()@) == Some(targets@[k as int].0@));
                        return DaemonCommand::Reply(no_device_reply(&targets[k].0));
                    },
                }
                k = k + 1;
            }
            assert(t.skip(k as int).len() == 0);
            proof {
                lemma_first_unknown_none(t, self.devices()@);
                assert forall|i: int| 0 <= i < targets@.len() implies self.devices()@.contains_key(
                    #[trigger] targets@[i].0@,
                ) by {
                    assert(t[i].0 == targets@[i].0@);
                }
            }
            return DaemonCommand::SetAll { targets, writes };
        }
        if word_is(cmd, "REFRESH") {
            return DaemonCommand::Refresh;
        }
        let mut s = String::new();
        push_str(&mut s, "ERR unknown command ");
        push_chars(&mut s, cmd);
        push_char(&mut s, '\n');
        assert(s@ =~= error_reply("unknown command "@ + sw[0])) by {
            reveal_strlit("ERR unknown command ");
            reveal_strlit("ERR ");
            reveal_strlit("unknown command ");
        }
        DaemonCommand::Reply(s)
    }
}

/// The targets parsed so far, in front of what the rest parses to.
pub open spec fn prepend(
    done: Seq<(Seq<char>, u8)>,
    rest: Result<Seq<(Seq<char>, u8)>, Seq<char>>,
) -> Result<Seq<(Seq<char>, u8)>, Seq<char>> {
    match rest {
        Ok(t) => Ok(done + t),
        Err(e) => Err(e),
    }
}

proof fn lemma_prepend_err(done: Seq<(Seq<char>, u8)>, e: Seq<char>)
    ensures
        prepend(done, Err(e)) == Err::<Seq<(Seq<char>, u8)>, Seq<char>>(e),
{
}

proof fn lemma_prepend_assoc(
    done: Seq<(Seq<char>, u8)>,
    x: (Seq<char>, u8),
    rest: Result<Seq<(Seq<char>, u8)>, Seq<char>>,
)
    ensures
        prepend(done, prepend(seq![x], rest)) == prepend(done + seq![x], rest),
{
    match rest {
        Ok(t) => {
            assert(done + (seq![x] + t) =~= done + seq![x] + t);
        },
        Err(_) => {},
    }
}

/// Whether the characters of `v` spell `word`.
fn word_is(v: &Vec<char>, word: &str) -> (r: bool)
    ensures
        r == (v@ == word@),
{
    let w = chars_of(word);
    chars_eq(v, &w)
}

/// `ERR <message>\n` for an error text.
pub fn error_text(message: &str) -> (r: String)
    ensures
        r@ == error_reply(message@),
{
    let mut s = String::new();
    push_str(&mut s, "ERR ");
    push_str(&mut s, message);
    push_char(&mut s, '\n');
    assert(s@ =~= error_reply(message@));
    s
}

fn no_device_reply(name: &String) -> (r: String)
    ensures
        r@ == error_reply(no_device_message(name@)),
{
    let mut s = String::new();
    push_str(&mut s, "ERR ");
    push_str(&mut s, "no brightness device named ");
    push_str(&mut s, name.as_str());
    push_char(&mut s, '\n');
    assert(s@ =~= error_reply(no_device_message(name@)));
    s
}

/// The daemon reads a client's `GET` request as a request for that name.
pub proof fn lemma_get_request_words(name: Seq<char>)
    requires
        is_word(name),
    ensures
        words(seq!['G', 'E', 'T', ' '] + name) == seq![seq!['G', 'E', 'T'], name],
{
    let cmd = seq!['G', 'E', 'T'];
    lemma_words_single(name);
    assert(cmd + seq![' '] + name =~= seq!['G', 'E', 'T', ' '] + name);
    lemma_words_cons(cmd, name);
}

/// After a device's brightness is recorded as `p`, the daemon answers a
/// client's `GET` for it with `p`, and the client reads `p`.
pub proof fn lemma_set_then_get(
    name: Seq<char>,
    p: u8,
    devices: Map<Seq<char>, BrightnessDevice>,
    known: Map<Seq<char>, u32>,
    listing: Seq<DeviceRecord>,
)
    requires
        is_word(name),
    ensures
        spec_handle_request(
            seq!['G', 'E', 'T', ' '] + name,
            devices,
            known.insert(name, p as u32),
            listing,
        ) == CommandSpec::Reply(decimal(p as nat) + seq!['\n']),
        spec_reply_error(decimal(p as nat) + seq!['\n']) is None,
        spec_get_reply(decimal(p as nat) + seq!['\n']) == Some(p as int),
{
    reveal_strlit("LIST");
    reveal_strlit("GET");
    lemma_get_request_words(name);
    let w = words(seq!['G', 'E', 'T', ' '] + name);
    assert(w[0] =~= "GET"@);
    assert(w[0] != "LIST"@) by {
        assert(w[0].len() != "LIST"@.len());
    }
    lemma_get_reply_roundtrip(p as u32);
}

/// A client's `SET` request for an existing device, with a percentage of at
/// most 100, makes the daemon write that percentage to that device.
pub proof fn lemma_set_request_handled(
    name: Seq<char>,
    p: u8,
    devices: Map<Seq<char>, BrightnessDevice>,
    known: Map<Seq<char>, u32>,
    listing: Seq<DeviceRecord>,
)
    requires
        is_word(name),
        p <= 100,
        devices.contains_key(name),
    ensures
        spec_handle_request(
            seq!['S', 'E', 'T', ' '] + name + seq![' '] + decimal(p as nat),
            devices,
            known,
            listing,
        ) == CommandSpec::SetOne(name, p, spec_write(devices[name], p)),
{
    reveal_strlit("LIST");
    reveal_strlit("GET");
    reveal_strlit("SET");
    lemma_set_request_words(name, p);
    let w = words(seq!['S', 'E', 'T', ' '] + name + seq![' '] + decimal(p as nat));
    assert(w[0] =~= "SET"@);
    assert(w[0] != "LIST"@) by {
        assert(w[0].len() != "LIST"@.len());
    }
    assert(w[0] != "GET"@) by {
        assert(w[0][0] != "GET"@[0]);
    }
    lemma_parse_decimal(p as nat, 255);
}

// ---------------------------------------------------------------------------
// A client's `SET_ALL`, as the daemon handles it
// ---------------------------------------------------------------------------

/// The words that follow `SET_ALL` in a request for `targets`: each
/// target's name, then its brightness.
pub open spec fn target_words(targets: Seq<(String, u8)>) -> Seq<Seq<char>>
    decreases targets.len(),
{
    if targets.len() == 0 {
        Seq::empty()
    } else {
        seq![targets[0].0@, decimal(targets[0].1 as nat)] + target_words(targets.drop_first())
    }
}

/// The text of the targets, read from the front.
proof fn lemma_targets_text_front(t: Seq<(String, u8)>)
    requires
        t.len() > 0,
    ensures
        targets_text(t) == seq![' '] + t[0].0@ + seq![' '] + decimal(t[0].1 as nat) + targets_text(
            t.drop_first(),
        ),
    decreases t.len(),
{
    let head = seq![' '] + t[0].0@ + seq![' '] + decimal(t[0].1 as nat);
    let tail = seq![' '] + t.last().0@ + seq![' '] + decimal(t.last().1 as nat);
    assert(targets_text(t) == targets_text(t.drop_last()) + tail);
    if t.len() == 1 {
        assert(t.drop_last().len() == 0);
        assert(t.drop_first().len() == 0);
        assert(targets_text(t.drop_last()) == Seq::<char>::empty());
        assert(targets_text(t.drop_first()) == Seq::<char>::empty());
        assert(t.last() == t[0]);
        assert(targets_text(t) =~= head + targets_text(t.drop_first()));
    } else {
        let init = t.drop_last();
        lemma_targets_text_front(init);
        assert(init[0] == t[0]);
        assert(init.drop_first() =~= t.drop_first().drop_last());
        assert(t.drop_first().last() == t.last());
        assert(targets_text(t.drop_first()) == targets_text(t.drop_first().drop_last()) + tail);
        assert(targets_text(t) =~= head + targets_text(t.drop_first()));
    }
}

/// Splitting a word followed by the targets' text gives the word, then the
/// targets' words.
proof fn lemma_target_text_words(w: Seq<char>, t: Seq<(String, u8)>)
    requires
        is_word(w),
        forall|i: int| 0 <= i < t.len() ==> is_word(#[trigger] t[i].0@),
    ensures
        words(w + targets_text(t)) == seq![w] + target_words(t),
    decreases t.len(),
{
    if t.len() == 0 {
        assert(w + targets_text(t) =~= w);
        lemma_words_single(w);
        assert(seq![w] + target_words(t) =~= seq![w]);
    } else {
        let n = t[0].0@;
        let d = decimal(t[0].1 as nat);
        let rest = t.drop_first();
        assert forall|i: int| 0 <= i < rest.len() implies is_word(#[trigger] rest[i].0@) by {
            assert(rest[i] == t[i + 1]);
        }
        assert(is_word(n));
        lemma_decimal_word(t[0].1 as nat);
        lemma_targets_text_front(t);
        lemma_target_text_words(d, rest);
        lemma_words_cons(n, d + targets_text(rest));
        assert(w + targets_text(t) =~= w + seq![' '] + (n + seq![' '] + (d + targets_text(rest))));
        lemma_words_cons(w, n + seq![' '] + (d + targets_text(rest)));
        assert(seq![w] + (seq![n] + (seq![d] + target_words(rest))) =~= seq![w] + target_words(t));
    }
}

/// The daemon reads the targets' words back as the targets.
proof fn lemma_parse_target_words(t: Seq<(String, u8)>)
    requires
        forall|i: int| 0 <= i < t.len() ==> (#[trigger] t[i]).1 <= 100,
    ensures
        parse_targets(target_words(t)) == Ok::<Seq<(Seq<char>, u8)>, Seq<char>>(targets_view(t)),
    decreases t.len(),
{
    if t.len() > 0 {
        let rest = t.drop_first();
        assert forall|i: int| 0 <= i < rest.len() implies (#[trigger] rest[i]).1 <= 100 by {
            assert(rest[i] == t[i + 1]);
        }
        lemma_parse_target_words(rest);
        let ws = target_words(t);
        assert(t[0].1 <= 100);
        lemma_parse_decimal(t[0].1 as nat, 255);
        assert(ws.len() >= 2);
        assert(ws[0] == t[0].0@);
        assert(ws[1] == decimal(t[0].1 as nat));
        assert(parse_unsigned(ws[1], 255) == Some(t[0].1 as int));
        assert(ws.skip(2) =~= target_words(rest));
        assert(targets_view(t)[0] == (t[0].0@, t[0].1));
        assert(seq![(ws[0], t[0].1)] + targets_view(rest) =~= targets_view(t));
        assert(((t[0].1 as int) as u8) == t[0].1);
        assert(parse_targets(ws) == Ok::<Seq<(Seq<char>, u8)>, Seq<char>>(
            seq![(ws[0], (t[0].1 as int) as u8)] + targets_view(rest),
        ));
    } else {
        assert(targets_view(t) =~= Seq::<(Seq<char>, u8)>::empty());
    }
}

/// A client's `SET_ALL` request for targets whose names are words and whose
/// percentages are at most 100 makes the daemon write each target's
/// percentage to it, in order, when every name is a device, and otherwise
/// refuse with the first name that is not.
pub proof fn lemma_set_all_request_handled(
    targets: Seq<(String, u8)>,
    devices: Map<Seq<char>, BrightnessDevice>,
    known: Map<Seq<char>, u32>,
    listing: Seq<DeviceRecord>,
)
    requires
        forall|i: int|
            0 <= i < targets.len() ==> is_word(#[trigger] targets[i].0@) && targets[i].1 <= 100,
    ensures
        spec_handle_request(
            seq!['S', 'E', 'T', '_', 'A', 'L', 'L'] + targets_text(targets),
            devices,
            known,
            listing,
        ) == match first_unknown(targets_view(targets), devices) {
            Some(n) => CommandSpec::Reply(error_reply(no_device_message(n))),
            None => CommandSpec::SetAll(targets_view(targets)),
        },
{
    reveal_strlit("LIST");
    reveal_strlit("GET");
    reveal_strlit("SET");
    reveal_strlit("SET_ALL");
    let cmd = seq!['S', 'E', 'T', '_', 'A', 'L', 'L'];
    assert(is_word(cmd)) by {
        assert forall|j: int| 0 <= j < cmd.len() implies !is_space(#[trigger] cmd[j]) by {
        }
    }
    assert forall|i: int| 0 <= i < targets.len() implies is_word(#[trigger] targets[i].0@) by {
    }
    lemma_target_text_words(cmd, targets);
    assert forall|i: int| 0 <= i < targets.len() implies (#[trigger] targets[i]).1 <= 100 by {
        assert(is_word(targets[i].0@));
    }
    lemma_parse_target_words(targets);
    let w = words(cmd + targets_text(targets));
    assert(w[0] =~= "SET_ALL"@);
    assert(w.drop_first() =~= target_words(targets));
    assert(w[0] != "LIST"@) by {
        assert(w[0].len() != "LIST"@.len());
    }
    assert(w[0] != "GET"@) by {
        assert(w[0].len() != "GET"@.len());
    }
    assert(w[0] != "SET"@) by {
        assert(w[0].len() != "SET"@.len());
    }
}

/// The reply to a `SET_ALL` is `OK` exactly when every write succeeded.
pub proof fn lemma_set_all_ok_iff(
    targets: Seq<(Seq<char>, u8)>,
    outcomes: Seq<Result<(), String>>,
    known: Map<Seq<char>, u32>,
)
    requires
        outcomes.len() == targets.len(),
    ensures
        spec_finish_set_all(targets, outcomes, known).1 == "OK\n"@ <==> forall|i: int|
            0 <= i < outcomes.len() ==> #[trigger] outcomes[i] is Ok,
    decreases targets.len(),
{
    reveal_strlit("OK\n");
    reveal_strlit("ERR ");
    if targets.len() > 0 {
        match outcomes[0] {
            Err(e) => {
                let r = error_reply(e@);
                assert(r[0] == 'E');
                assert(r != "OK\n"@);
            },
            Ok(()) => {
                lemma_set_all_ok_iff(
                    targets.drop_first(),
                    outcomes.drop_first(),
                    known.insert(targets[0].0, targets[0].1 as u32),
                );
                if forall|i: int| 0 <= i < outcomes.drop_first().len() ==> #[trigger] outcomes.drop_first()[i] is Ok {
                    assert forall|i: int| 0 <= i < outcomes.len() implies #[trigger] outcomes[i] is Ok by {
                        if i > 0 {
                            assert(outcomes[i] == outcomes.drop_first()[i - 1]);
                        }
                    }
                } else {
                    let j = choose|j: int| 0 <= j < outcomes.drop_first().len() && !(outcomes.drop_first()[j] is Ok);
                    assert(outcomes.drop_first()[j] == outcomes[j + 1]);
                }
            },
        }
    }
}

/// How the daemon lists a device: a backlight with method `backlight`, its
/// backlight and connector, and the lower-case name of how it was mapped
/// (`ddc` or `edid`); a DDC/CI monitor with method `ddc/ci`, its i2c bus,
/// device node and connector if any. The name and brightness are those given.
pub proof fn lemma_daemon_device_fields(name: Seq<char>, device: BrightnessDevice, brightness: u32)
    ensures
        spec_daemon_device(name, device, brightness).name == name,
        spec_daemon_device(name, device, brightness).brightness == brightness,
        device matches BrightnessDevice::Backlight(m) ==> {
            let r = spec_daemon_device(name, device, brightness);
            &&& r.method == "backlight"@
            &&& r.backlight == Some(m.backlight@)
            &&& r.connector == Some(m.connector@)
            &&& m.method == BacklightMappingMethod::Edid ==> r.mapping_method == Some("edid"@)
            &&& m.method == BacklightMappingMethod::Ddc ==> r.mapping_method == Some("ddc"@)
            &&& r.i2c_bus is None && r.device is None
        },
        device matches BrightnessDevice::DdcCi(m) ==> {
            let r = spec_daemon_device(name, device, brightness);
            &&& r.method == "ddc/ci"@
            &&& r.backlight is None && r.mapping_method is None
            &&& r.i2c_bus == Some(m.i2c_bus@)
            &&& r.device == Some(m.device@)
            &&& r.connector == opt_view(m.connector)
        },
{
}

/// The listing line of an EDID-mapped backlight names `edid` as its mapping
/// method, and that of a DDC-mapped one `ddc`.
pub proof fn lemma_listed_mapping_method(name: Seq<char>, m: BacklightMapping, brightness: u32)
    ensures
        record_fields(spec_daemon_device(name, BrightnessDevice::Backlight(m), brightness))[5] == (
        if m.method == BacklightMappingMethod::Edid {
            "edid"@
        } else {
            "ddc"@
        }),
{
}

} // verus!
