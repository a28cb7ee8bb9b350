//! Combined brightness: a hardware device dimmed further by a software
//! overlay below a hardware minimum.
use vstd::prelude::*;

use crate::devices::{spec_write, BrightnessDevice, BrightnessWrite};
use crate::level::clamp;
use crate::table::{keys_of, strictly_sorted, NameMap};
use crate::waydark::OutputBrightness;

verus! {

/// Why a hardware minimum was refused.
#[derive(Clone, Copy, Debug, PartialEq, Eq, Structural)]
pub enum HardwareMinError {
    /// The minimum is not between 1 and 99.
    OutOfRange,
}

impl HardwareMinError {
    /// The text that explains the error.
    pub fn message(&self) -> (s: &'static str)
        ensures
            s@ == "hardware minimum must be between 1 and 99"@,
    {
        "hardware minimum must be between 1 and 99"
    }
}

/// Accepts a hardware minimum between 1 and 99 percent.
pub fn validate_hardware_min(hardware_min: u8) -> (r: Result<(), HardwareMinError>)
    ensures
        r is Ok <==> 1 <= hardware_min <= 99,
{
    if hardware_min == 0 || hardware_min >= 100 {
        return Err(HardwareMinError::OutOfRange);
    }
    Ok(())
}

/// The brightness seen: below full software brightness, the software level
/// scaled into `0..=hardware_min`; at full software brightness, the hardware
/// level scaled into `hardware_min..=100`.
pub open spec fn spec_effective_brightness(hardware: u32, software: u8, hardware_min: u8) -> int {
    let h = hardware_min as int;
    if software < 100 {
        clamp((software as int * h + 50) / 100, 0, 100)
    } else {
        clamp(h + (clamp(hardware as int, 0, 100) * (100 - h) + 50) / 100, 0, 100)
    }
}

/// The hardware and software levels that show `percent`.
pub open spec fn spec_split_brightness(percent: u8, hardware_min: u8) -> (int, int) {
    let p = percent as int;
    let h = hardware_min as int;
    if p >= h {
        (clamp(((p - h) * 100 + (100 - h) / 2) / (100 - h), 0, 100), 100)
    } else {
        (0, clamp((p * 100 + h / 2) / h, 0, 100))
    }
}

/// The brightness seen for a hardware level and a software level.
pub fn effective_brightness(hardware: u32, software: u8, hardware_min: u8) -> (r: u8)
    requires
        software >= 100 ==> hardware_min <= 100,
    ensures
        r as int == spec_effective_brightness(hardware, software, hardware_min),
{
    let hmin = hardware_min as u32;
    if software < 100 {
        assert(software as u32 * hmin <= 65025) by (nonlinear_arith)
            requires
                software <= 255,
                hmin <= 255,
        ;
        let v = (software as u32 * hmin + 50) / 100;
        return if v > 100 {
            100
        } else {
            v as u8
        };
    }
    let hw = if hardware > 100 {
        100
    } else {
        hardware
    };
    assert(hw * (100 - hmin) <= 10000) by (nonlinear_arith)
        requires
            hw <= 100,
            hmin <= 100,
    ;
    let v = hmin + (hw * (100 - hmin) + 50) / 100;
    if v > 100 {
        100
    } else {
        v as u8
    }
}

/// The hardware and software levels that show `percent`: above the hardware
/// minimum the hardware does the work at full software brightness; below it
/// the hardware is off and the software dims.
pub fn split_brightness(percent: u8, hardware_min: u8) -> (r: (u8, u8))
    requires
        !(percent >= hardware_min && hardware_min >= 100),
    ensures
        (r.0 as int, r.1 as int) == spec_split_brightness(percent, hardware_min),
{
    if percent >= hardware_min {
        let span = (100 - hardware_min) as u32;
        assert((percent - hardware_min) as u32 * 100 <= 25500);
        let v = ((percent - hardware_min) as u32 * 100 + span / 2) / span;
        let hardware = if v > 100 {
            100
        } else {
            v as u8
        };
        return (hardware, 100);
    }
    let h = hardware_min as u32;
    let v = (percent as u32 * 100 + h / 2) / h;
    let software = if v > 100 {
        100
    } else {
        v as u8
    };
    (0, software)
}

/// Splitting a brightness into hardware and software levels and combining
/// them again gives the same brightness, for a hardware minimum between 1 and 99.
pub proof fn lemma_split_then_effective(percent: u8, hardware_min: u8)
    requires
        1 <= hardware_min <= 99,
        percent <= 100,
    ensures
        ({
            let (hw, sw) = spec_split_brightness(percent, hardware_min);
            spec_effective_brightness(hw as u32, sw as u8, hardware_min) == percent
        }),
{
    let p = percent as int;
    let h = hardware_min as int;
    if p >= h {
        let a = p - h;
        let d = 100 - h;
        let x = (a * 100 + d / 2) / d;
        assert(0 <= x <= 100) by (nonlinear_arith)
            requires
                x == (a * 100 + d / 2) / d,
                0 <= a <= d,
                1 <= d <= 99,
        ;
        assert((x * d + 50) / 100 == a) by (nonlinear_arith)
            requires
                x == (a * 100 + d / 2) / d,
                0 <= a <= d,
                1 <= d <= 99,
        ;
    } else {
        let s = (p * 100 + h / 2) / h;
        assert(0 <= s < 100) by (nonlinear_arith)
            requires
                s == (p * 100 + h / 2) / h,
                0 <= p < h,
                1 <= h <= 99,
        ;
        assert((s * h + 50) / 100 == p) by (nonlinear_arith)
            requires
                s == (p * 100 + h / 2) / h,
                0 <= p < h,
                1 <= h <= 99,
        ;
    }
}

/// A hardware device and the software dimming of its output, if the dimming
/// daemon knows that output.
#[derive(Clone, Debug)]
pub struct CombinedDevice {
    pub name: String,
    pub hardware: BrightnessDevice,
    pub software: Option<u8>,
}

/// The software brightness by output name; a later output replaces an earlier one.
pub open spec fn spec_software(outputs: Seq<OutputBrightness>) -> Map<Seq<char>, u8>
    decreases outputs.len(),
{
    if outputs.len() == 0 {
        Map::empty()
    } else {
        spec_software(outputs.drop_last()).insert(outputs.last().name@, outputs.last().brightness)
    }
}

/// Each hardware device with the software brightness of its output.
pub open spec fn spec_combined(entries: Seq<(String, BrightnessDevice)>, software: Map<Seq<char>, u8>) -> Map<
    Seq<char>,
    CombinedDevice,
>
    decreases entries.len(),
{
    if entries.len() == 0 {
        Map::empty()
    } else {
        let (name, hardware) = entries.last();
        spec_combined(entries.drop_last(), software).insert(
            name@,
            CombinedDevice {
                name,
                hardware,
                software: if software.contains_key(name@) {
                    Some(software[name@])
                } else {
                    None
                },
            },
        )
    }
}

/// The hardware devices, each with the software brightness of its output.
pub fn combined_devices(hardware: NameMap<BrightnessDevice>, software: Vec<OutputBrightness>) -> (r:
    NameMap<CombinedDevice>)
    ensures
        r@ == spec_combined(hardware.spec_entries(), spec_software(software@)),
{
    let mut soft: NameMap<u8> = NameMap::new();
    let mut i: usize = 0;
    while i < software.len()
        invariant
            i <= software@.len(),
            soft@ == spec_software(software@.take(i as int)),
        decreases software@.len() - i,
    {
        assert(software@.take(i + 1).drop_last() =~= software@.take(i as int));
        soft.insert(software[i].name.clone(), software[i].brightness);
        i = i + 1;
    }
    assert(software@.take(i as int) =~= software@);
    let ghost es = hardware.spec_entries();
    let mut rest = hardware.into_entries();
    let mut devices: NameMap<CombinedDevice> = NameMap::new();
    let ghost mut k: int = 0;
    assert(es.take(0) =~= Seq::<(String, BrightnessDevice)>::empty());
    while rest.len() > 0
        invariant
            0 <= k <= es.len(),
            rest@ == es.skip(k),
            soft@ == spec_software(software@),
            devices@ == spec_combined(es.take(k), soft@),
        decreases rest.len(),
    {
        let (name, device) = rest.remove(0);
        proof {
            assert(es[k] == (name, device));
            assert(es.take(k + 1).drop_last() =~= es.take(k));
            assert(rest@ =~= es.skip(k + 1));
            k = k + 1;
        }
        let s = match soft.get(name.as_str()) {
            Some(b) => Some(*b),
            None => None,
        };
        let key = name.clone();
        devices.insert(key, CombinedDevice { name, hardware: device, software: s });
    }
    assert(es.take(k) =~= es);
    devices
}

/// The brightness seen on a device, given its hardware reading.
pub open spec fn spec_device_brightness(software: Option<u8>, hardware: u32, hardware_min: u8) -> int {
    match software {
        None => clamp(hardware as int, 0, 100),
        Some(s) => spec_effective_brightness(hardware, s, hardware_min),
    }
}

/// The brightness seen on a device whose hardware reads `hardware` percent.
pub fn device_brightness(device: &CombinedDevice, hardware: u32, hardware_min: u8) -> (r: u8)
    requires
        device.software matches Some(s) && s >= 100 ==> hardware_min <= 100,
    ensures
        r as int == spec_device_brightness(device.software, hardware, hardware_min),
{
    match device.software {
        None => if hardware > 100 {
            100
        } else {
            hardware as u8
        },
        Some(software) => effective_brightness(hardware, software, hardware_min),
    }
}

/// The writes that show `percent` on a device: to the hardware, and to the
/// dimming overlay of its output when there is one.
#[derive(Clone, Debug)]
pub struct CombinedWrite {
    pub hardware: BrightnessWrite,
    pub software: Option<(String, u8)>,
}

/// Plans the writes that set a device to `percent`.
pub fn set_one(device: &CombinedDevice, percent: u8, hardware_min: u8) -> (r: CombinedWrite)
    requires
        device.software is Some ==> !(percent >= hardware_min && hardware_min >= 100),
    ensures
        match device.software {
            None => r.hardware == spec_write(device.hardware, percent) && r.software is None,
            Some(_) => {
                let (hw, sw) = spec_split_brightness(percent, hardware_min);
                &&& r.hardware == spec_write(device.hardware, hw as u8)
                &&& r.software matches Some((n, s)) && n@ == device.name@ && s == sw
            },
        },
{
    match device.software {
        None => CombinedWrite { hardware: device.hardware.set_brightness(percent), software: None },
        Some(_) => {
            let (hardware, software) = split_brightness(percent, hardware_min);
            CombinedWrite {
                hardware: device.hardware.set_brightness(hardware),
                software: Some((device.name.clone(), software)),
            }
        },
    }
}

} // verus!
