//! The brightness devices of the `waybright` command line tool, whose
//! multiplications and divisions round without forcing a step.
use vstd::prelude::*;

use crate::backlight::BacklightMapping;
use crate::ddcci::DdcCiMapping;
use crate::devices::{ddcci_name, BrightnessWrite};
use crate::level::{
    clamp, lemma_parse_absolute, lemma_parse_delta, lemma_parse_factor, low_i16, parse_percent_change, scaled_down, scaled_up, negated_delta_overflows,
    spec_parse_percent_change, LevelError, PercentChange,
};
use crate::table::NameMap;
use crate::text::decimal;

pub use crate::devices::BrightnessValue;

verus! {

/// A requested change of a brightness percentage.
#[derive(Clone, Copy, Debug, PartialEq, Eq, Structural)]
pub enum BrightnessChange {
    Absolute(u8),
    Delta(i8),
    Multiply(u16),
    Divide(u16),
}

/// The same change, in this tool's terms.
pub open spec fn from_percent_change(c: PercentChange) -> BrightnessChange {
    match c {
        PercentChange::Absolute(p) => BrightnessChange::Absolute(p),
        PercentChange::Delta(d) => BrightnessChange::Delta(d),
        PercentChange::Multiply(f) => BrightnessChange::Multiply(f),
        PercentChange::Divide(f) => BrightnessChange::Divide(f),
    }
}

/// What `parse_brightness_change` gives for a text, in this tool's terms.
pub open spec fn spec_parse_brightness_change(s: Seq<char>) -> Result<BrightnessChange, LevelError> {
    match spec_parse_percent_change(s) {
        Ok(c) => Ok(from_percent_change(c)),
        Err(e) => Err(e),
    }
}

/// Parses a brightness change such as `50%`, `+5%`, `-5%`, `*120%` or `/120%`.
pub fn parse_brightness_change(value: &str) -> (r: Result<BrightnessChange, LevelError>)
    requires
        !negated_delta_overflows(value@),
    ensures
        match spec_parse_percent_change(value@) {
            Ok(c) => r == Ok::<BrightnessChange, LevelError>(from_percent_change(c)),
            Err(e) => r == Err::<BrightnessChange, LevelError>(e),
        },
        r == spec_parse_brightness_change(value@),
{
    match parse_percent_change(value) {
        Ok(PercentChange::Absolute(p)) => Ok(BrightnessChange::Absolute(p)),
        Ok(PercentChange::Delta(d)) => Ok(BrightnessChange::Delta(d)),
        Ok(PercentChange::Multiply(f)) => Ok(BrightnessChange::Multiply(f)),
        Ok(PercentChange::Divide(f)) => Ok(BrightnessChange::Divide(f)),
        Err(e) => Err(e),
    }
}

/// The percentage that results from applying `change` to `current`.
pub open spec fn spec_apply_change(current: u32, change: BrightnessChange) -> int {
    match change {
        BrightnessChange::Absolute(p) => p as int,
        BrightnessChange::Delta(d) => clamp(low_i16(current) + d as int, 0, 100),
        BrightnessChange::Multiply(f) => clamp(scaled_up(current as int, f as int), 0, 100),
        BrightnessChange::Divide(f) => clamp(scaled_down(current as int, f as int), 0, 100),
    }
}

/// No `u32` overflow and no division by zero when applying `change` to `current`.
pub open spec fn change_applicable(current: u32, change: BrightnessChange) -> bool {
    &&& change matches BrightnessChange::Multiply(f) ==> current as int * f as int + 50 <= u32::MAX
    &&& change matches BrightnessChange::Divide(f) ==> f > 0 && current as int * 100 + f as int / 2
        <= u32::MAX
}

/// A device whose brightness can be read and set.
#[derive(Clone, Debug)]
pub enum BrightnessDevice {
    Backlight(BacklightMapping),
    DdcCi(DdcCiMapping),
}

/// The write that sets `device` to `percent`.
pub open spec fn spec_write(device: BrightnessDevice, percent: u8) -> BrightnessWrite {
    match device {
        BrightnessDevice::Backlight(m) => BrightnessWrite::Backlight {
            backlight: m.backlight,
            path: m.path,
            percent,
        },
        BrightnessDevice::DdcCi(m) => BrightnessWrite::DdcCi { device: m.device, percent },
    }
}

impl BrightnessDevice {
    /// The write that sets this device to `percent` percent.
    pub fn set_brightness(&self, percent: u8) -> (w: BrightnessWrite)
        ensures
            w == spec_write(*self, percent),
    {
        match self {
            BrightnessDevice::Backlight(m) => BrightnessWrite::Backlight {
                backlight: m.backlight.clone(),
                path: m.path.clone(),
                percent,
            },
            BrightnessDevice::DdcCi(m) => BrightnessWrite::DdcCi {
                device: m.device.clone(),
                percent,
            },
        }
    }

    /// The write that applies `change` to this device, whose brightness
    /// percentage is `current`.
    pub fn apply_brightness_change(&self, change: BrightnessChange, current: u32) -> (w:
        BrightnessWrite)
        requires
            change_applicable(current, change),
        ensures
            w == spec_write(*self, spec_apply_change(current, change) as u8),
            0 <= spec_apply_change(current, change) <= 255,
            !(change is Absolute) ==> written_percent(w) <= 100,
            change matches BrightnessChange::Absolute(p) ==> written_percent(w) == p,
    {
        proof {
            lemma_change_in_range(current, change);
        }
        let percent: u8 = match change {
            BrightnessChange::Absolute(percent) => percent,
            BrightnessChange::Delta(delta) => {
                let m = (current % 65536) as i32;
                let c: i32 = if m >= 32768 {
                    m - 65536
                } else {
                    m
                };
                let sum: i32 = c + delta as i32;
                if sum < 0 {
                    0
                } else if sum > 100 {
                    100
                } else {
                    sum as u8
                }
            },
            BrightnessChange::Multiply(factor) => {
                let raw = (current * factor as u32 + 50) / 100;
                if raw > 100 {
                    100
                } else {
                    raw as u8
                }
            },
            BrightnessChange::Divide(factor) => {
                let raw = (current * 100 + factor as u32 / 2) / factor as u32;
                if raw > 100 {
                    100
                } else {
                    raw as u8
                }
            },
        };
        self.set_brightness(percent)
    }
}

/// The devices by name: backlights under their outputs, then DDC/CI monitors
/// under theirs, a later device replacing an earlier one of the same name.
pub open spec fn spec_brightness_devices(
    backlights: Seq<BacklightMapping>,
    ddcci: Seq<DdcCiMapping>,
) -> Map<Seq<char>, BrightnessDevice>
    decreases backlights.len() + ddcci.len(),
{
    if ddcci.len() > 0 {
        spec_brightness_devices(backlights, ddcci.drop_last()).insert(
            ddcci_name(ddcci.last()),
            BrightnessDevice::DdcCi(ddcci.last()),
        )
    } else if backlights.len() > 0 {
        spec_brightness_devices(backlights.drop_last(), ddcci).insert(
            backlights.last().output@,
            BrightnessDevice::Backlight(backlights.last()),
        )
    } else {
        Map::empty()
    }
}

/// All brightness devices, by name in name order.
pub fn brightness_devices(backlights: Vec<BacklightMapping>, ddcci: Vec<DdcCiMapping>) -> (r:
    NameMap<BrightnessDevice>)
    ensures
        r@ == spec_brightness_devices(backlights@, ddcci@),
{
    let ghost bl = backlights@;
    let ghost dd = ddcci@;
    let mut devices: NameMap<BrightnessDevice> = NameMap::new();
    let mut rest = backlights;
    let ghost mut k: int = 0;
    while rest.len() > 0
        invariant
            0 <= k <= bl.len(),
            rest@ == bl.skip(k),
            devices@ == spec_brightness_devices(bl.take(k), Seq::empty()),
        decreases rest.len(),
    {
        let mapping = rest.remove(0);
        proof {
            assert(mapping == bl[k]);
            assert(bl.take(k + 1).drop_last() =~= bl.take(k));
            assert(rest@ =~= bl.skip(k + 1));
            k = k + 1;
        }
        let name = mapping.output.clone();
        devices.insert(name, BrightnessDevice::Backlight(mapping));
    }
    assert(bl.take(k) =~= bl);
    assert(dd.take(0) =~= Seq::<DdcCiMapping>::empty());
    let mut rest = ddcci;
    let ghost mut k: int = 0;
    while rest.len() > 0
        invariant
            0 <= k <= dd.len(),
            rest@ == dd.skip(k),
            devices@ == spec_brightness_devices(bl, dd.take(k)),
        decreases rest.len(),
    {
        let mapping = rest.remove(0);
        proof {
            assert(mapping == dd[k]);
            assert(dd.take(k + 1).drop_last() =~= dd.take(k));
            assert(rest@ =~= dd.skip(k + 1));
            k = k + 1;
        }
        let name = match &mapping.output {
            Some(output) => output.clone(),
            None => mapping.i2c_bus.clone(),
        };
        devices.insert(name, BrightnessDevice::DdcCi(mapping));
    }
    assert(dd.take(k) =~= dd);
    devices
}

/// The percentage a write sets.
pub open spec fn written_percent(w: BrightnessWrite) -> u8 {
    match w {
        BrightnessWrite::Backlight { percent, .. } => percent,
        BrightnessWrite::DdcCi { percent, .. } => percent,
    }
}

/// Applying a change: an absolute change sets its own percentage; any other
/// change gives a percentage from 0 to 100, and a delta from a current
/// percentage of at most 100 adds the delta, stopping at 0 and at 100.
pub proof fn lemma_change_in_range(current: u32, change: BrightnessChange)
    ensures
        !(change is Absolute) ==> 0 <= spec_apply_change(current, change) <= 100,
        change matches BrightnessChange::Absolute(p) ==> spec_apply_change(current, change) == p,
        change matches BrightnessChange::Delta(d) ==> (current <= 100 ==> spec_apply_change(
            current,
            change,
        ) == if current + d < 0 {
            0
        } else if current + d > 100 {
            100
        } else {
            current + d
        }),
{
}

/// Parsing each form of change gives that change in this tool's terms:
/// `P%` sets `P`, `+D%` and `-D%` add `D` and `-D`, `*F%` multiplies and
/// `/F%` divides by `F` percent.
pub proof fn lemma_parse_brightness_forms(p: nat, d: nat, f: nat)
    requires
        p <= 100,
        d <= 100,
        1 <= f <= 65535,
    ensures
        spec_parse_brightness_change(decimal(p).push('%')) == Ok::<BrightnessChange, LevelError>(
            BrightnessChange::Absolute(p as u8),
        ),
        spec_parse_brightness_change(seq!['+'] + decimal(d) + seq!['%']) == Ok::<
            BrightnessChange,
            LevelError,
        >(BrightnessChange::Delta(d as i8)),
        spec_parse_brightness_change(seq!['-'] + decimal(d) + seq!['%']) == Ok::<
            BrightnessChange,
            LevelError,
        >(BrightnessChange::Delta((-(d as int)) as i8)),
        spec_parse_brightness_change(seq!['*'] + decimal(f) + seq!['%']) == Ok::<
            BrightnessChange,
            LevelError,
        >(BrightnessChange::Multiply(f as u16)),
        spec_parse_brightness_change(seq!['/'] + decimal(f) + seq!['%']) == Ok::<
            BrightnessChange,
            LevelError,
        >(BrightnessChange::Divide(f as u16)),
{
    lemma_parse_absolute(p);
    lemma_parse_delta(d);
    lemma_parse_factor(f);
}

/// The devices are listed by output: every backlight under its output, every
/// DDC/CI monitor matched to an output under that output, and every
/// unmatched monitor under its i2c bus; a monitor's name lists a DDC/CI
/// monitor, and nothing else is listed.
pub proof fn lemma_devices_by_output(backlights: Seq<BacklightMapping>, ddcci: Seq<DdcCiMapping>)
    ensures
        forall|i: int|
            0 <= i < backlights.len() ==> spec_brightness_devices(backlights, ddcci).contains_key(
                (#[trigger] backlights[i]).output@,
            ),
        forall|i: int|
            0 <= i < ddcci.len() && (#[trigger] ddcci[i]).output is Some ==> spec_brightness_devices(
                backlights,
                ddcci,
            ).contains_key(ddcci[i].output.unwrap()@) && spec_brightness_devices(
                backlights,
                ddcci,
            )[ddcci[i].output.unwrap()@] is DdcCi,
        forall|i: int|
            0 <= i < ddcci.len() && (#[trigger] ddcci[i]).output is None ==> spec_brightness_devices(
                backlights,
                ddcci,
            ).contains_key(ddcci[i].i2c_bus@) && spec_brightness_devices(
                backlights,
                ddcci,
            )[ddcci[i].i2c_bus@] is DdcCi,
        forall|k: Seq<char>|
            #[trigger] spec_brightness_devices(backlights, ddcci).contains_key(k) ==> (exists|i: int|
                0 <= i < backlights.len() && backlights[i].output@ == k) || (exists|i: int|
                0 <= i < ddcci.len() && ((ddcci[i].output is Some && ddcci[i].output.unwrap()@ == k)
                    || (ddcci[i].output is None && ddcci[i].i2c_bus@ == k))),
    decreases backlights.len() + ddcci.len(),
{
    let r = spec_brightness_devices(backlights, ddcci);
    if ddcci.len() > 0 {
        let init = ddcci.drop_last();
        let n = ddcci.len() - 1;
        lemma_devices_by_output(backlights, init);
        assert forall|i: int| 0 <= i < n implies #[trigger] ddcci[i] == init[i] by {}
        assert forall|k: Seq<char>| #[trigger] r.contains_key(k) implies (exists|i: int|
            0 <= i < backlights.len() && backlights[i].output@ == k) || (exists|i: int|
            0 <= i < ddcci.len() && ((ddcci[i].output is Some && ddcci[i].output.unwrap()@ == k)
                || (ddcci[i].output is None && ddcci[i].i2c_bus@ == k))) by {
            if k != ddcci_name(ddcci[n]) {
                assert(spec_brightness_devices(backlights, init).contains_key(k));
                if exists|i: int|
                    0 <= i < init.len() && ((init[i].output is Some && init[i].output.unwrap()@ == k)
                        || (init[i].output is None && init[i].i2c_bus@ == k)) {
                    let i = choose|i: int|
                        0 <= i < init.len() && ((init[i].output is Some && init[i].output.unwrap()@
                            == k) || (init[i].output is None && init[i].i2c_bus@ == k));
                    assert(ddcci[i] == init[i]);
                }
            }
        }
    } else if backlights.len() > 0 {
        let init = backlights.drop_last();
        let n = backlights.len() - 1;
        lemma_devices_by_output(init, ddcci);
        assert forall|i: int| 0 <= i < n implies #[trigger] backlights[i] == init[i] by {}
        assert forall|k: Seq<char>| #[trigger] r.contains_key(k) implies (exists|i: int|
            0 <= i < backlights.len() && backlights[i].output@ == k) by {
            if k != backlights[n].output@ {
                assert(spec_brightness_devices(init, ddcci).contains_key(k));
                let i = choose|i: int| 0 <= i < init.len() && init[i].output@ == k;
                assert(backlights[i] == init[i]);
            }
        }
    }
}

} // verus!
