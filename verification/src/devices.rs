//! Brightness devices: backlights and DDC/CI monitors, keyed by output name.
use vstd::prelude::*;

use crate::backlight::BacklightMapping;
use crate::ddcci::DdcCiMapping;
use crate::level::{
    apply_percent_change, percent_change_applicable, spec_apply_percent_change, PercentChange,
};
use crate::table::NameMap;
use crate::text::chars_of;

verus! {

/// The brightness change of the `waydim` tools: a percentage change.
pub type BrightnessChange = PercentChange;

/// A raw brightness reading and the device's maximum.
#[derive(Clone, Copy, Debug)]
pub struct BrightnessValue {
    current: u32,
    max: u32,
}

/// `current` as a percentage of `max`, rounded down; 0 when `max` is 0.
pub open spec fn spec_percent(current: u32, max: u32) -> int {
    if max == 0 {
        0
    } else {
        (current as int * 100) / max as int
    }
}

/// `percent` percent of `max`, rounded up.
pub open spec fn spec_percent_to_value(percent: u8, max: u32) -> int {
    (percent as int * max as int + 99) / 100
}

impl BrightnessValue {
    pub closed spec fn current(&self) -> u32 {
        self.current
    }

    pub closed spec fn max(&self) -> u32 {
        self.max
    }

    /// A reading of `current` out of `max`.
    pub fn new(current: u32, max: u32) -> (v: Self)
        ensures
            v.current() == current,
            v.max() == max,
    {
        BrightnessValue { current, max }
    }

    /// The reading as a percentage of the maximum, rounded down.
    pub fn percent(&self) -> (p: u32)
        requires
            self.max() == 0 || self.current() as int * 100 <= u32::MAX,
        ensures
            p == spec_percent(self.current(), self.max()),
    {
        if self.max == 0 {
            return 0;
        }
        self.current * 100 / self.max
    }
}

/// The raw value that sets a device with maximum `max` to `percent` percent,
/// rounded up.
pub fn percent_to_value(percent: u8, max: u32) -> (v: u32)
    requires
        percent as int * max as int <= u32::MAX,
    ensures
        v == spec_percent_to_value(percent, max),
{
    let x = percent as u32 * max;
    let q = x / 100;
    if x % 100 != 0 {
        q + 1
    } else {
        q
    }
}

/// Writing `p` percent to a device with a maximum of at least 100, then
/// reading it back, gives `p` again; with any positive maximum the reading is
/// at least `p`, and the written value never exceeds the maximum.
pub proof fn lemma_percent_roundtrip(p: u8, max: u32)
    requires
        p <= 100,
        max > 0,
        p as int * max as int <= u32::MAX,
    ensures
        spec_percent_to_value(p, max) <= max,
        spec_percent(spec_percent_to_value(p, max) as u32, max) >= p,
        max >= 100 ==> spec_percent(spec_percent_to_value(p, max) as u32, max) == p,
{
    let x = p as int * max as int;
    let v = (x + 99) / 100;
    let m = max as int;
    assert(x <= 100 * m) by (nonlinear_arith)
        requires
            x == p as int * m,
            p <= 100,
            m > 0,
    ;
    assert(v <= m) by (nonlinear_arith)
        requires
            v == (x + 99) / 100,
            x <= 100 * m,
    ;
    assert(v * 100 >= x && v * 100 < x + 100) by (nonlinear_arith)
        requires
            v == (x + 99) / 100,
            x >= 0,
    ;
    assert((v * 100) / m >= p) by (nonlinear_arith)
        requires
            v * 100 >= x,
            x == p as int * m,
            m > 0,
    ;
    if max >= 100 {
        assert((v * 100) / m == p) by (nonlinear_arith)
            requires
                v * 100 >= x,
                v * 100 < x + 100,
                x == p as int * m,
                m >= 100,
        ;
    }
    assert(v as u32 as int == v);
}

/// A brightness write to carry out: which device, and what percentage.
#[derive(Clone, Debug)]
pub enum BrightnessWrite {
    /// Write through the backlight's sysfs directory.
    Backlight { backlight: String, path: String, percent: u8 },
    /// Write the brightness feature over DDC/CI on this i2c device.
    DdcCi { device: String, percent: u8 },
}

/// A device whose brightness can be read and set.
#[derive(Clone, Debug)]
pub enum BrightnessDevice {
    Backlight(BacklightMapping),
    DdcCi(DdcCiMapping),
}

/// The write that sets `device` to `percent`.
pub open spec fn spec_write(device: BrightnessDevice, percent: u8) -> BrightnessWrite {
    match device {
        BrightnessDevice::Backlight(m) => BrightnessWrite::Backlight {
            backlight: m.backlight,
            path: m.path,
            percent,
        },
        BrightnessDevice::DdcCi(m) => BrightnessWrite::DdcCi { device: m.device, percent },
    }
}

impl BrightnessDevice {
    /// The write that sets this device to `percent` percent.
    pub fn set_brightness(&self, percent: u8) -> (w: BrightnessWrite)
        ensures
            w == spec_write(*self, percent),
    {
        match self {
            BrightnessDevice::Backlight(m) => BrightnessWrite::Backlight {
                backlight: m.backlight.clone(),
                path: m.path.clone(),
                percent,
            },
            BrightnessDevice::DdcCi(m) => BrightnessWrite::DdcCi {
                device: m.device.clone(),
                percent,
            },
        }
    }

    /// The write that applies `change` to this device, whose brightness
    /// percentage is `current` (read only for a relative change).
    pub fn apply_brightness_change(&self, change: BrightnessChange, current: Option<u32>) -> (w:
        BrightnessWrite)
        requires
            percent_change_applicable(current, change),
        ensures
            w == spec_write(*self, spec_apply_percent_change(current, change) as u8),
    {
        let percent = apply_percent_change(current, change);
        self.set_brightness(percent)
    }
}

/// The name a DDC/CI monitor is listed under: its output, or its i2c bus when unmapped.
pub open spec fn ddcci_name(m: DdcCiMapping) -> Seq<char> {
    match m.output {
        Some(o) => o@,
        None => m.i2c_bus@,
    }
}

/// The devices by name: backlights under their outputs, then DDC/CI monitors
/// under theirs, a later device replacing an earlier one of the same name.
pub open spec fn spec_brightness_devices(
    backlights: Seq<BacklightMapping>,
    ddcci: Seq<DdcCiMapping>,
) -> Map<Seq<char>, BrightnessDevice>
    decreases backlights.len() + ddcci.len(),
{
    if ddcci.len() > 0 {
        spec_brightness_devices(backlights, ddcci.drop_last()).insert(
            ddcci_name(ddcci.last()),
            BrightnessDevice::DdcCi(ddcci.last()),
        )
    } else if backlights.len() > 0 {
        spec_brightness_devices(backlights.drop_last(), ddcci).insert(
            backlights.last().output@,
            BrightnessDevice::Backlight(backlights.last()),
        )
    } else {
        Map::empty()
    }
}

/// All brightness devices, by name in name order.
pub fn brightness_devices(backlights: Vec<BacklightMapping>, ddcci: Vec<DdcCiMapping>) -> (r:
    NameMap<BrightnessDevice>)
    ensures
        r@ == spec_brightness_devices(backlights@, ddcci@),
{
    let ghost bl = backlights@;
    let ghost dd = ddcci@;
    let mut devices: NameMap<BrightnessDevice> = NameMap::new();
    let mut rest = backlights;
    let ghost mut k: int = 0;
    while rest.len() > 0
        invariant
            0 <= k <= bl.len(),
            rest@ == bl.skip(k),
            devices@ == spec_brightness_devices(bl.take(k), Seq::empty()),
        decreases rest.len(),
    {
        let mapping = rest.remove(0);
        proof {
            assert(mapping == bl[k]);
            assert(bl.take(k + 1).drop_last() =~= bl.take(k));
            assert(rest@ =~= bl.skip(k + 1));
            k = k + 1;
        }
        let name = mapping.output.clone();
        devices.insert(name, BrightnessDevice::Backlight(mapping));
    }
    assert(bl.take(k) =~= bl);
    assert(dd.take(0) =~= Seq::<DdcCiMapping>::empty());
    let mut rest = ddcci;
    let ghost mut k: int = 0;
    while rest.len() > 0
        invariant
            0 <= k <= dd.len(),
            rest@ == dd.skip(k),
            devices@ == spec_brightness_devices(bl, dd.take(k)),
        decreases rest.len(),
    {
        let mapping = rest.remove(0);
        proof {
            assert(mapping == dd[k]);
            assert(dd.take(k + 1).drop_last() =~= dd.take(k));
            assert(rest@ =~= dd.skip(k + 1));
            k = k + 1;
        }
        let name = match &mapping.output {
            Some(output) => output.clone(),
            None => mapping.i2c_bus.clone(),
        };
        devices.insert(name, BrightnessDevice::DdcCi(mapping));
    }
    assert(dd.take(k) =~= dd);
    devices
}

/// Which devices a command names.
#[derive(Clone, Debug, PartialEq, Eq)]
pub enum DeviceSelector {
    /// `@all`: every device.
    All,
    /// `@focused`: the device of the focused output.
    Focused,
    /// A device by name.
    Named(String),
}

/// Reads a device argument: `@all`, `@focused`, or a device name.
pub fn device_selector(name: &str) -> (r: DeviceSelector)
    ensures
        name@ == seq!['@', 'a', 'l', 'l'] ==> r == DeviceSelector::All,
        name@ == seq!['@', 'f', 'o', 'c', 'u', 's', 'e', 'd'] ==> r == DeviceSelector::Focused,
        name@ != seq!['@', 'a', 'l', 'l'] && name@ != seq!['@', 'f', 'o', 'c', 'u', 's', 'e', 'd']
            ==> (r matches DeviceSelector::Named(n) && n@ == name@),
{
    let v = chars_of(name);
    if v.len() == 4 && v[0] == '@' && v[1] == 'a' && v[2] == 'l' && v[3] == 'l' {
        assert(v@ =~= seq!['@', 'a', 'l', 'l']);
        return DeviceSelector::All;
    }
    if v.len() == 8 && v[0] == '@' && v[1] == 'f' && v[2] == 'o' && v[3] == 'c' && v[4] == 'u'
        && v[5] == 's' && v[6] == 'e' && v[7] == 'd' {
        assert(v@ =~= seq!['@', 'f', 'o', 'c', 'u', 's', 'e', 'd']);
        return DeviceSelector::Focused;
    }
    proof {
        if v@ == seq!['@', 'a', 'l', 'l'] {
            assert(v@.len() == 4);
        }
        if v@ == seq!['@', 'f', 'o', 'c', 'u', 's', 'e', 'd'] {
            assert(v@.len() == 8);
        }
    }
    DeviceSelector::Named(name.to_owned())
}

/// The devices are listed by output: every backlight under its output, every
/// DDC/CI monitor matched to an output under that output, and every
/// unmatched monitor under its i2c bus; a monitor's name lists a DDC/CI
/// monitor, and nothing else is listed.
pub proof fn lemma_devices_by_output(backlights: Seq<BacklightMapping>, ddcci: Seq<DdcCiMapping>)
    ensures
        forall|i: int|
            0 <= i < backlights.len() ==> spec_brightness_devices(backlights, ddcci).contains_key(
                (#[trigger] backlights[i]).output@,
            ),
        forall|i: int|
            0 <= i < ddcci.len() && (#[trigger] ddcci[i]).output is Some ==> spec_brightness_devices(
                backlights,
                ddcci,
            ).contains_key(ddcci[i].output.unwrap()@) && spec_brightness_devices(
                backlights,
                ddcci,
            )[ddcci[i].output.unwrap()@] is DdcCi,
        forall|i: int|
            0 <= i < ddcci.len() && (#[trigger] ddcci[i]).output is None ==> spec_brightness_devices(
                backlights,
                ddcci,
            ).contains_key(ddcci[i].i2c_bus@) && spec_brightness_devices(
                backlights,
                ddcci,
            )[ddcci[i].i2c_bus@] is DdcCi,
        forall|k: Seq<char>|
            #[trigger] spec_brightness_devices(backlights, ddcci).contains_key(k) ==> (exists|i: int|
                0 <= i < backlights.len() && backlights[i].output@ == k) || (exists|i: int|
                0 <= i < ddcci.len() && ((ddcci[i].output is Some && ddcci[i].output.unwrap()@ == k)
                    || (ddcci[i].output is None && ddcci[i].i2c_bus@ == k))),
    decreases backlights.len() + ddcci.len(),
{
    let r = spec_brightness_devices(backlights, ddcci);
    if ddcci.len() > 0 {
        let init = ddcci.drop_last();
        let n = ddcci.len() - 1;
        lemma_devices_by_output(backlights, init);
        assert forall|i: int| 0 <= i < n implies #[trigger] ddcci[i] == init[i] by {}
        assert forall|k: Seq<char>| #[trigger] r.contains_key(k) implies (exists|i: int|
            0 <= i < backlights.len() && backlights[i].output@ == k) || (exists|i: int|
            0 <= i < ddcci.len() && ((ddcci[i].output is Some && ddcci[i].output.unwrap()@ == k)
                || (ddcci[i].output is None && ddcci[i].i2c_bus@ == k))) by {
            if k != ddcci_name(ddcci[n]) {
                assert(spec_brightness_devices(backlights, init).contains_key(k));
                if exists|i: int|
                    0 <= i < init.len() && ((init[i].output is Some && init[i].output.unwrap()@ == k)
                        || (init[i].output is None && init[i].i2c_bus@ == k)) {
                    let i = choose|i: int|
                        0 <= i < init.len() && ((init[i].output is Some && init[i].output.unwrap()@
                            == k) || (init[i].output is None && init[i].i2c_bus@ == k));
                    assert(ddcci[i] == init[i]);
                }
            }
        }
    } else if backlights.len() > 0 {
        let init = backlights.drop_last();
        let n = backlights.len() - 1;
        lemma_devices_by_output(init, ddcci);
        assert forall|i: int| 0 <= i < n implies #[trigger] backlights[i] == init[i] by {}
        assert forall|k: Seq<char>| #[trigger] r.contains_key(k) implies (exists|i: int|
            0 <= i < backlights.len() && backlights[i].output@ == k) by {
            if k != backlights[n].output@ {
                assert(spec_brightness_devices(init, ddcci).contains_key(k));
                let i = choose|i: int| 0 <= i < init.len() && init[i].output@ == k;
                assert(backlights[i] == init[i]);
            }
        }
    }
}

} // verus!
