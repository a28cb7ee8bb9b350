use waybright::backlight::{
    collect_connector_edids, map_backlights_to_connectors_from, BacklightInfo, BacklightMapping,
    BacklightMappingMethod, ConnectorInfo,
};
use waybright::ddcci::{map_ddcci_to_outputs_from, DdcCiDevice, DdcCiMapping};
use waybright::devices::{
    brightness_devices, device_selector, BrightnessDevice, BrightnessWrite, DeviceSelector,
};
use waybright::drm::{connector_output_name, connectors, is_connector_name, is_i2c_bus_name};
use waybright::level::PercentChange;
use waybright::table::{compare_names, NameMap, NameOrder};
use waybright::waybright_lib;

fn edid(id: u8) -> Vec<u8> {
    let mut bytes = vec![0x00, 0xff, 0xff, 0xff, 0xff, 0xff, 0xff, 0x00];
    bytes.resize(128, 0);
    bytes[8] = id;
    let sum = bytes.iter().fold(0u8, |s, b| s.wrapping_add(*b));
    bytes[127] = 0u8.wrapping_sub(sum);
    bytes
}

fn connector(name: &str, ddc: Option<&str>, edid: Option<Vec<u8>>) -> ConnectorInfo {
    ConnectorInfo { name: name.to_owned(), ddc: ddc.map(str::to_owned), edid }
}

fn backlight(name: &str, ddc: Option<&str>, edid: Option<Vec<u8>>) -> BacklightInfo {
    BacklightInfo {
        name: name.to_owned(),
        path: format!("/sys/class/backlight/{name}"),
        ddc: ddc.map(str::to_owned),
        edid,
    }
}

fn backlight_mapping(name: &str, output: &str) -> BacklightMapping {
    BacklightMapping {
        backlight: name.to_owned(),
        path: format!("/sys/class/backlight/{name}"),
        connector: format!("card0-{output}"),
        output: output.to_owned(),
        method: BacklightMappingMethod::Ddc,
    }
}

fn ddcci_mapping(bus: &str, output: Option<&str>) -> DdcCiMapping {
    DdcCiMapping {
        i2c_bus: bus.to_owned(),
        device: format!("/dev/{bus}"),
        connector: output.map(|o| format!("card0-{o}")),
        output: output.map(str::to_owned),
    }
}

#[test]
fn recognizes_connector_names() {
    assert!(is_connector_name("card0-eDP-1"));
    assert!(is_connector_name("card12-HDMI-A-1"));
    assert!(!is_connector_name("card0"));
    assert!(!is_connector_name("card-eDP-1"));
    assert!(!is_connector_name("cardX-eDP-1"));
    assert!(!is_connector_name("card0-"));
    assert!(!is_connector_name("renderD128"));
    assert!(!is_connector_name("version"));
}

#[test]
fn output_names_of_connectors() {
    assert_eq!(connector_output_name("card0-eDP-1"), "eDP-1");
    assert_eq!(connector_output_name("card1-HDMI-A-2"), "HDMI-A-2");
    assert_eq!(connector_output_name("cardx-foo"), "foo");
    assert_eq!(connector_output_name("eDP-1"), "eDP-1");
    assert_eq!(connector_output_name("card0"), "card0");
}

#[test]
fn recognizes_i2c_bus_names() {
    assert!(is_i2c_bus_name("i2c-4"));
    assert!(is_i2c_bus_name("i2c-12"));
    assert!(!is_i2c_bus_name("i2c-"));
    assert!(!is_i2c_bus_name("i2c-4a"));
    assert!(!is_i2c_bus_name("spi-1"));
}

#[test]
fn connectors_keep_connector_entries_in_order() {
    let found = connectors(vec![
        ("card0-eDP-1".to_owned(), "/sys/class/drm/card0-eDP-1".to_owned()),
        ("card0".to_owned(), "/sys/class/drm/card0".to_owned()),
        ("version".to_owned(), "/sys/class/drm/version".to_owned()),
        ("card0-HDMI-A-1".to_owned(), "/sys/class/drm/card0-HDMI-A-1".to_owned()),
    ]);
    assert_eq!(found.len(), 2);
    assert_eq!(found[0].name, "card0-eDP-1");
    assert_eq!(found[0].path, "/sys/class/drm/card0-eDP-1");
    assert_eq!(found[1].name, "card0-HDMI-A-1");
}

#[test]
fn collects_edids_of_connectors_that_have_one() {
    let conns = vec![
        connector("card0-eDP-1", None, Some(edid(1))),
        connector("card0-DP-1", None, None),
        connector("card0-DP-2", None, Some(edid(2))),
    ];
    let pairs = collect_connector_edids(&conns);
    assert_eq!(pairs, vec![(edid(1), "card0-eDP-1".to_owned()), (edid(2), "card0-DP-2".to_owned())]);
}

#[test]
fn maps_backlights_by_ddc_then_by_unique_edid() {
    let conns = vec![
        connector("card0-eDP-1", Some("/sys/devices/i2c-3"), Some(edid(1))),
        connector("card0-HDMI-A-1", None, Some(edid(2))),
        connector("card0-DP-1", None, Some(edid(2))),
    ];
    let bls = vec![
        backlight("intel_backlight", Some("/sys/devices/i2c-3"), None),
        backlight("acpi_video0", None, Some(edid(1))),
        backlight("ambiguous", None, Some(edid(2))),
        backlight("late", None, Some(edid(1))),
        backlight("nothing", Some("/sys/devices/i2c-9"), None),
    ];
    let mappings = map_backlights_to_connectors_from(&conns, &bls);
    assert_eq!(mappings.len(), 2);

    assert_eq!(mappings[0].backlight, "intel_backlight");
    assert_eq!(mappings[0].path, "/sys/class/backlight/intel_backlight");
    assert_eq!(mappings[0].connector, "card0-eDP-1");
    assert_eq!(mappings[0].output, "eDP-1");
    assert_eq!(mappings[0].method, BacklightMappingMethod::Ddc);

    assert_eq!(mappings[1].backlight, "acpi_video0");
    assert_eq!(mappings[1].connector, "card0-eDP-1");
    assert_eq!(mappings[1].output, "eDP-1");
    assert_eq!(mappings[1].method, BacklightMappingMethod::Edid);
}

#[test]
fn ddc_match_wins_over_edid_match() {
    let conns = vec![
        connector("card0-eDP-1", Some("/sys/devices/i2c-3"), None),
        connector("card0-DP-1", None, Some(edid(4))),
    ];
    let bls = vec![backlight("bl", Some("/sys/devices/i2c-3"), Some(edid(4)))];
    let mappings = map_backlights_to_connectors_from(&conns, &bls);
    assert_eq!(mappings.len(), 1);
    assert_eq!(mappings[0].connector, "card0-eDP-1");
    assert_eq!(mappings[0].method, BacklightMappingMethod::Ddc);
}

#[test]
fn last_connector_on_a_ddc_adapter_claims_it() {
    let conns = vec![
        connector("card0-eDP-1", Some("/sys/devices/i2c-3"), None),
        connector("card1-eDP-1", Some("/sys/devices/i2c-3"), None),
    ];
    let bls = vec![backlight("bl", Some("/sys/devices/i2c-3"), None)];
    let mappings = map_backlights_to_connectors_from(&conns, &bls);
    assert_eq!(mappings.len(), 1);
    assert_eq!(mappings[0].connector, "card1-eDP-1");
}

#[test]
fn backlight_mapping_method_names() {
    assert_eq!(BacklightMappingMethod::Ddc.name(), "ddc");
    assert_eq!(BacklightMappingMethod::Edid.name(), "edid");
}

#[test]
fn maps_ddcci_monitors_by_unique_edid() {
    let conns = vec![
        connector("card0-eDP-1", None, Some(edid(1))),
        connector("card0-HDMI-A-1", None, Some(edid(2))),
        connector("card0-DP-1", None, Some(edid(3))),
        connector("card0-DP-2", None, Some(edid(3))),
    ];
    let devices = vec![
        DdcCiDevice { i2c_bus: "i2c-4".to_owned(), device: "/dev/i2c-4".to_owned(), edid: Some(edid(2)) },
        DdcCiDevice { i2c_bus: "i2c-5".to_owned(), device: "/dev/i2c-5".to_owned(), edid: None },
        DdcCiDevice { i2c_bus: "i2c-6".to_owned(), device: "/dev/i2c-6".to_owned(), edid: Some(edid(2)) },
        DdcCiDevice { i2c_bus: "i2c-7".to_owned(), device: "/dev/i2c-7".to_owned(), edid: Some(edid(3)) },
    ];
    let mappings = map_ddcci_to_outputs_from(devices, &conns);
    assert_eq!(mappings.len(), 4);

    assert_eq!(mappings[0].i2c_bus, "i2c-4");
    assert_eq!(mappings[0].device, "/dev/i2c-4");
    assert_eq!(mappings[0].connector.as_deref(), Some("card0-HDMI-A-1"));
    assert_eq!(mappings[0].output.as_deref(), Some("HDMI-A-1"));

    assert_eq!(mappings[1].connector, None);
    assert_eq!(mappings[1].output, None);
    // The EDID was used up by the first monitor.
    assert_eq!(mappings[2].connector, None);
    // Shared by two connectors, so matching none.
    assert_eq!(mappings[3].connector, None);
    assert_eq!(mappings[3].output, None);
}

#[test]
fn devices_are_named_by_output_and_ddcci_replaces_backlight() {
    let devices = brightness_devices(
        vec![backlight_mapping("intel_backlight", "eDP-1"), backlight_mapping("other", "DP-9")],
        vec![ddcci_mapping("i2c-4", Some("eDP-1")), ddcci_mapping("i2c-5", None)],
    );
    assert_eq!(devices.len(), 3);
    let names: Vec<&str> = devices.entries().iter().map(|(n, _)| n.as_str()).collect();
    assert_eq!(names, vec!["DP-9", "eDP-1", "i2c-5"]);
    assert!(matches!(devices.get("eDP-1"), Some(BrightnessDevice::DdcCi(m)) if m.i2c_bus == "i2c-4"));
    assert!(matches!(devices.get("DP-9"), Some(BrightnessDevice::Backlight(m)) if m.backlight == "other"));
    assert!(matches!(devices.get("i2c-5"), Some(BrightnessDevice::DdcCi(_))));
    assert!(devices.get("HDMI-A-1").is_none());
}

#[test]
fn later_backlight_replaces_earlier_of_the_same_output() {
    let devices = brightness_devices(
        vec![backlight_mapping("first", "eDP-1"), backlight_mapping("second", "eDP-1")],
        Vec::new(),
    );
    assert_eq!(devices.len(), 1);
    assert!(matches!(devices.get("eDP-1"), Some(BrightnessDevice::Backlight(m)) if m.backlight == "second"));
}

#[test]
fn writes_for_each_kind_of_device() {
    let bl = BrightnessDevice::Backlight(backlight_mapping("intel_backlight", "eDP-1"));
    match bl.set_brightness(40) {
        BrightnessWrite::Backlight { backlight, path, percent } => {
            assert_eq!(backlight, "intel_backlight");
            assert_eq!(path, "/sys/class/backlight/intel_backlight");
            assert_eq!(percent, 40);
        }
        other => panic!("unexpected write {other:?}"),
    }

    let ddc = BrightnessDevice::DdcCi(ddcci_mapping("i2c-4", Some("DP-1")));
    match ddc.set_brightness(70) {
        BrightnessWrite::DdcCi { device, percent } => {
            assert_eq!(device, "/dev/i2c-4");
            assert_eq!(percent, 70);
        }
        other => panic!("unexpected write {other:?}"),
    }
}

#[test]
fn applies_changes_to_devices() {
    let ddc = BrightnessDevice::DdcCi(ddcci_mapping("i2c-4", Some("DP-1")));
    assert!(matches!(
        ddc.apply_brightness_change(PercentChange::Delta(10), Some(40)),
        BrightnessWrite::DdcCi { percent: 50, .. }
    ));
    assert!(matches!(
        ddc.apply_brightness_change(PercentChange::Absolute(15), None),
        BrightnessWrite::DdcCi { percent: 15, .. }
    ));
    assert!(matches!(
        ddc.apply_brightness_change(PercentChange::Multiply(120), Some(1)),
        BrightnessWrite::DdcCi { percent: 2, .. }
    ));
}

#[test]
fn selects_devices_by_name() {
    assert_eq!(device_selector("@all"), DeviceSelector::All);
    assert_eq!(device_selector("@focused"), DeviceSelector::Focused);
    assert_eq!(device_selector("eDP-1"), DeviceSelector::Named("eDP-1".to_owned()));
    assert_eq!(device_selector("@ALL"), DeviceSelector::Named("@ALL".to_owned()));
}

#[test]
fn standalone_library_parses_and_applies_without_nudging() {
    assert_eq!(
        waybright_lib::parse_brightness_change("*120%"),
        Ok(waybright_lib::BrightnessChange::Multiply(120))
    );
    assert_eq!(
        waybright_lib::parse_brightness_change("-5%"),
        Ok(waybright_lib::BrightnessChange::Delta(-5))
    );
    assert!(waybright_lib::parse_brightness_change("5").is_err());

    let device = waybright_lib::BrightnessDevice::DdcCi(ddcci_mapping("i2c-4", Some("DP-1")));
    assert!(matches!(
        device.apply_brightness_change(waybright_lib::BrightnessChange::Multiply(120), 1),
        BrightnessWrite::DdcCi { percent: 1, .. }
    ));
    assert!(matches!(
        device.apply_brightness_change(waybright_lib::BrightnessChange::Divide(200), 50),
        BrightnessWrite::DdcCi { percent: 25, .. }
    ));
    assert!(matches!(
        device.apply_brightness_change(waybright_lib::BrightnessChange::Delta(-20), 10),
        BrightnessWrite::DdcCi { percent: 0, .. }
    ));
    assert!(matches!(
        device.apply_brightness_change(waybright_lib::BrightnessChange::Absolute(77), 10),
        BrightnessWrite::DdcCi { percent: 77, .. }
    ));
}

#[test]
fn standalone_library_names_devices_the_same_way() {
    let devices = waybright_lib::brightness_devices(
        vec![backlight_mapping("intel_backlight", "eDP-1")],
        vec![ddcci_mapping("i2c-5", None)],
    );
    assert_eq!(devices.len(), 2);
    assert!(devices.contains_key("eDP-1"));
    assert!(devices.contains_key("i2c-5"));
}

#[test]
fn name_map_keeps_names_sorted_and_unique() {
    let mut map: NameMap<u32> = NameMap::new();
    assert_eq!(map.len(), 0);
    map.insert("b".to_owned(), 2);
    map.insert("a".to_owned(), 1);
    map.insert("c".to_owned(), 3);
    map.insert("b".to_owned(), 20);
    assert_eq!(map.len(), 3);
    assert_eq!(map.get("b"), Some(&20));
    assert_eq!(map.remove("a"), Some(1));
    assert_eq!(map.remove("a"), None);
    assert!(!map.contains_key("a"));
    let entries = map.into_entries();
    assert_eq!(entries, vec![("b".to_owned(), 20), ("c".to_owned(), 3)]);
}

#[test]
fn compares_names_by_characters() {
    let a: Vec<char> = "DP-1".chars().collect();
    let b: Vec<char> = "eDP-1".chars().collect();
    let c: Vec<char> = "DP-10".chars().collect();
    assert_eq!(compare_names(&a, &b), NameOrder::Less);
    assert_eq!(compare_names(&b, &a), NameOrder::Greater);
    assert_eq!(compare_names(&a, &a), NameOrder::Equal);
    assert_eq!(compare_names(&a, &c), NameOrder::Less);
}
