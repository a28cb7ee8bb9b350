use waybright::backlight::{BacklightMapping, BacklightMappingMethod};
use waybright::combined::{
    combined_devices, device_brightness, effective_brightness, set_one, split_brightness,
    validate_hardware_min, CombinedDevice, HardwareMinError,
};
use waybright::ddcci::DdcCiMapping;
use waybright::devices::{BrightnessDevice, BrightnessWrite};
use waybright::table::NameMap;
use waybright::waydark::OutputBrightness;

fn backlight_device() -> BrightnessDevice {
    BrightnessDevice::Backlight(BacklightMapping {
        backlight: "intel_backlight".to_owned(),
        path: "/sys/class/backlight/intel_backlight".to_owned(),
        connector: "card0-eDP-1".to_owned(),
        output: "eDP-1".to_owned(),
        method: BacklightMappingMethod::Edid,
    })
}

fn ddcci_device() -> BrightnessDevice {
    BrightnessDevice::DdcCi(DdcCiMapping {
        i2c_bus: "i2c-4".to_owned(),
        device: "/dev/i2c-4".to_owned(),
        connector: Some("card0-DP-1".to_owned()),
        output: Some("DP-1".to_owned()),
    })
}

fn software(name: &str, brightness: u8) -> OutputBrightness {
    OutputBrightness { name: name.to_owned(), brightness, label: format!("{name}: x (scale 1)") }
}

#[test]
fn hardware_minimum_must_be_between_1_and_99() {
    assert_eq!(validate_hardware_min(0), Err(HardwareMinError::OutOfRange));
    assert_eq!(validate_hardware_min(1), Ok(()));
    assert_eq!(validate_hardware_min(50), Ok(()));
    assert_eq!(validate_hardware_min(99), Ok(()));
    assert_eq!(validate_hardware_min(100), Err(HardwareMinError::OutOfRange));
    assert_eq!(validate_hardware_min(255), Err(HardwareMinError::OutOfRange));
    assert_eq!(HardwareMinError::OutOfRange.message(), "hardware minimum must be between 1 and 99");
}

#[test]
fn effective_brightness_combines_both_levels() {
    assert_eq!(effective_brightness(80, 100, 50), 90);
    assert_eq!(effective_brightness(0, 100, 50), 50);
    assert_eq!(effective_brightness(100, 100, 50), 100);
    assert_eq!(effective_brightness(200, 100, 50), 100);
    assert_eq!(effective_brightness(80, 50, 50), 25);
    assert_eq!(effective_brightness(80, 0, 50), 0);
    assert_eq!(effective_brightness(33, 100, 20), 46);
}

#[test]
fn split_brightness_uses_hardware_above_the_minimum() {
    assert_eq!(split_brightness(90, 50), (80, 100));
    assert_eq!(split_brightness(100, 50), (100, 100));
    assert_eq!(split_brightness(50, 50), (0, 100));
    assert_eq!(split_brightness(25, 50), (0, 50));
    assert_eq!(split_brightness(0, 50), (0, 0));
    assert_eq!(split_brightness(1, 99), (0, 1));
}

#[test]
fn splitting_then_combining_gives_the_brightness_back() {
    for hardware_min in 1..=99u8 {
        for percent in 0..=100u8 {
            let (hardware, software) = split_brightness(percent, hardware_min);
            assert_eq!(effective_brightness(u32::from(hardware), software, hardware_min), percent);
        }
    }
}

#[test]
fn combines_hardware_devices_with_software_dimming() {
    let mut hardware = NameMap::new();
    hardware.insert("eDP-1".to_owned(), backlight_device());
    hardware.insert("DP-1".to_owned(), ddcci_device());
    let devices = combined_devices(
        hardware,
        vec![software("eDP-1", 40), software("HDMI-A-1", 10), software("eDP-1", 60)],
    );
    assert_eq!(devices.len(), 2);
    let edp = devices.get("eDP-1").unwrap();
    assert_eq!(edp.name, "eDP-1");
    assert_eq!(edp.software, Some(60));
    assert!(matches!(edp.hardware, BrightnessDevice::Backlight(_)));
    let dp = devices.get("DP-1").unwrap();
    assert_eq!(dp.software, None);
    assert!(devices.get("HDMI-A-1").is_none());
}

#[test]
fn device_brightness_with_and_without_software() {
    let plain = CombinedDevice { name: "DP-1".to_owned(), hardware: ddcci_device(), software: None };
    assert_eq!(device_brightness(&plain, 70, 50), 70);
    assert_eq!(device_brightness(&plain, 150, 50), 100);

    let dimmed = CombinedDevice { name: "eDP-1".to_owned(), hardware: backlight_device(), software: Some(100) };
    assert_eq!(device_brightness(&dimmed, 80, 50), 90);
    let darker = CombinedDevice { software: Some(50), ..dimmed };
    assert_eq!(device_brightness(&darker, 80, 50), 25);
}

#[test]
fn set_one_writes_hardware_and_software() {
    let plain = CombinedDevice { name: "DP-1".to_owned(), hardware: ddcci_device(), software: None };
    let write = set_one(&plain, 42, 50);
    assert!(matches!(write.hardware, BrightnessWrite::DdcCi { percent: 42, .. }));
    assert_eq!(write.software, None);

    let dimmed = CombinedDevice { name: "eDP-1".to_owned(), hardware: backlight_device(), software: Some(100) };
    let write = set_one(&dimmed, 90, 50);
    assert!(matches!(write.hardware, BrightnessWrite::Backlight { percent: 80, .. }));
    assert_eq!(write.software, Some(("eDP-1".to_owned(), 100)));

    let write = set_one(&dimmed, 25, 50);
    assert!(matches!(write.hardware, BrightnessWrite::Backlight { percent: 0, .. }));
    assert_eq!(write.software, Some(("eDP-1".to_owned(), 50)));
}
