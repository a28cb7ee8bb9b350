use waybright::backlight::{BacklightMapping, BacklightMappingMethod};
use waybright::ddcci::DdcCiMapping;
use waybright::devices::{brightness_devices, BrightnessDevice, BrightnessWrite};
use waybright::level::PercentChange;
use waybright::protocol::{check_reply, expect_ok, listen_fds, ActivationError, Field, ResponseError};
use waybright::table::NameMap;
use waybright::text::IntError;
use waybright::waydim::{
    daemon_device, daemon_get_brightness, daemon_list_devices, daemon_refresh,
    daemon_set_all_brightness, daemon_set_brightness, error_text, format_daemon_device,
    get_request, parse_list_response, set_all_request, set_all_targets, set_request,
    DaemonBrightnessDevice, DaemonCommand, DaemonState,
};

fn backlight_device() -> BrightnessDevice {
    BrightnessDevice::Backlight(BacklightMapping {
        backlight: "intel_backlight".to_owned(),
        path: "/sys/class/backlight/intel_backlight".to_owned(),
        connector: "card0-eDP-1".to_owned(),
        output: "eDP-1".to_owned(),
        method: BacklightMappingMethod::Ddc,
    })
}

fn ddcci_device(bus: &str, output: Option<&str>) -> BrightnessDevice {
    BrightnessDevice::DdcCi(DdcCiMapping {
        i2c_bus: bus.to_owned(),
        device: format!("/dev/{bus}"),
        connector: output.map(|o| format!("card0-{o}")),
        output: output.map(str::to_owned),
    })
}

fn devices() -> NameMap<BrightnessDevice> {
    let mut map = NameMap::new();
    map.insert("eDP-1".to_owned(), backlight_device());
    map.insert("DP-1".to_owned(), ddcci_device("i2c-4", Some("DP-1")));
    map.insert("i2c-7".to_owned(), ddcci_device("i2c-7", None));
    map
}

/// A daemon with three devices: `DP-1` at 70%, `eDP-1` at 50%, and `i2c-7`
/// whose brightness could not be read.
fn state() -> DaemonState {
    let mut state = DaemonState::new();
    state.refresh(devices(), vec![Some(70), Some(50), None]);
    state
}

fn reply(command: DaemonCommand) -> String {
    match command {
        DaemonCommand::Reply(text) => text,
        other => panic!("expected a reply, got {other:?}"),
    }
}

fn listed_backlight() -> DaemonBrightnessDevice {
    DaemonBrightnessDevice {
        name: "eDP-1".to_owned(),
        brightness: 50,
        method: "backlight".to_owned(),
        backlight: Some("intel_backlight".to_owned()),
        connector: Some("card0-eDP-1".to_owned()),
        mapping_method: Some("ddc".to_owned()),
        i2c_bus: None,
        device: None,
    }
}

fn listed_ddcci() -> DaemonBrightnessDevice {
    DaemonBrightnessDevice {
        name: "DP-1".to_owned(),
        brightness: 70,
        method: "ddc/ci".to_owned(),
        backlight: None,
        connector: Some("card0-DP-1".to_owned()),
        mapping_method: None,
        i2c_bus: Some("i2c-4".to_owned()),
        device: Some("/dev/i2c-4".to_owned()),
    }
}

#[test]
fn formats_listing_lines() {
    assert_eq!(
        format_daemon_device(&listed_backlight()),
        "eDP-1\t50\tbacklight\tintel_backlight\tcard0-eDP-1\tddc\t\t\n"
    );
    assert_eq!(
        format_daemon_device(&listed_ddcci()),
        "DP-1\t70\tddc/ci\t\tcard0-DP-1\t\ti2c-4\t/dev/i2c-4\n"
    );
}

#[test]
fn listing_lines_read_back() {
    let text = format!(
        "{}{}",
        format_daemon_device(&listed_backlight()),
        format_daemon_device(&listed_ddcci())
    );
    assert_eq!(parse_list_response(&text), Ok(vec![listed_backlight(), listed_ddcci()]));
    assert_eq!(parse_list_response(""), Ok(Vec::new()));
}

#[test]
fn listing_lines_may_end_with_crlf() {
    let text = "x\t1\tm\t\t\t\t\t\r\n";
    let parsed = parse_list_response(text).unwrap();
    assert_eq!(parsed.len(), 1);
    assert_eq!(parsed[0].name, "x");
    assert_eq!(parsed[0].device, None);
}

#[test]
fn listing_errors_name_the_missing_field() {
    assert_eq!(parse_list_response("eDP-1\n"), Err(ResponseError::Missing(Field::Brightness)));
    assert_eq!(parse_list_response("eDP-1\tx\n"), Err(ResponseError::InvalidNumber(IntError::InvalidDigit)));
    assert_eq!(parse_list_response("eDP-1\t5\n"), Err(ResponseError::Missing(Field::Method)));
    assert_eq!(
        parse_list_response("eDP-1\t5\tm\tb\n"),
        Err(ResponseError::Missing(Field::Connector))
    );
    assert_eq!(
        parse_list_response("a\t1\tm\tb\tc\td\te\n"),
        Err(ResponseError::Missing(Field::Device))
    );
    // The first bad line decides.
    assert_eq!(
        parse_list_response("a\tx\nb\n"),
        Err(ResponseError::InvalidNumber(IntError::InvalidDigit))
    );
}

#[test]
fn field_names() {
    assert_eq!(Field::DeviceName.name(), "device name");
    assert_eq!(Field::Method.name(), "brightness method");
    assert_eq!(Field::MappingMethod.name(), "mapping method");
    assert_eq!(Field::I2cBus.name(), "i2c bus");
    assert_eq!(Field::OutputLabel.name(), "output label");
}

#[test]
fn client_requests() {
    assert_eq!(get_request("eDP-1"), "GET eDP-1");
    assert_eq!(set_request("eDP-1", 40), "SET eDP-1 40");
    assert_eq!(set_request("DP-1", 0), "SET DP-1 0");
    assert_eq!(
        set_all_request(&vec![("a".to_owned(), 1), ("b".to_owned(), 100)]),
        "SET_ALL a 1 b 100"
    );
    assert_eq!(set_all_request(&Vec::new()), "SET_ALL");
}

#[test]
fn client_reads_replies() {
    assert_eq!(daemon_get_brightness("42\n"), Ok(42));
    assert_eq!(daemon_get_brightness("  7  "), Ok(7));
    assert_eq!(daemon_get_brightness("abc\n"), Err(ResponseError::InvalidNumber(IntError::InvalidDigit)));
    assert_eq!(
        daemon_get_brightness("ERR no brightness device named x\n"),
        Err(ResponseError::Daemon("no brightness device named x".to_owned()))
    );
    assert_eq!(daemon_set_brightness("OK\n"), Ok(()));
    assert_eq!(daemon_set_brightness("nope\n"), Err(ResponseError::Daemon("nope".to_owned())));
    assert_eq!(
        daemon_set_all_brightness("ERR boom\n"),
        Err(ResponseError::Daemon("boom".to_owned()))
    );
    assert_eq!(daemon_refresh(" OK "), Ok(()));
    assert_eq!(daemon_list_devices("ERR no\n"), Err(ResponseError::Daemon("no".to_owned())));
    assert_eq!(
        daemon_list_devices(&format_daemon_device(&listed_ddcci())),
        Ok(vec![listed_ddcci()])
    );
}

#[test]
fn protocol_reply_checks() {
    assert_eq!(check_reply("fine\n"), Ok(()));
    assert_eq!(check_reply("ERR x y\n"), Err(ResponseError::Daemon("x y".to_owned())));
    assert_eq!(check_reply("ERR\n"), Ok(()));
    assert_eq!(expect_ok("OK"), Ok(()));
    assert_eq!(expect_ok("OKAY"), Err(ResponseError::Daemon("OKAY".to_owned())));
}

#[test]
fn daemon_device_entries() {
    assert_eq!(daemon_device("eDP-1", &backlight_device(), 50), listed_backlight());
    assert_eq!(daemon_device("DP-1", &ddcci_device("i2c-4", Some("DP-1")), 70), listed_ddcci());
}

#[test]
fn lists_devices_with_known_brightness_in_name_order() {
    let state = state();
    assert_eq!(state.list(), vec![listed_ddcci(), listed_backlight()]);
    let text = reply(state.handle_request("LIST"));
    assert_eq!(
        text,
        format!(
            "{}{}",
            format_daemon_device(&listed_ddcci()),
            format_daemon_device(&listed_backlight())
        )
    );
    assert_eq!(daemon_list_devices(&text), Ok(vec![listed_ddcci(), listed_backlight()]));
}

#[test]
fn answers_get_requests() {
    let state = state();
    assert_eq!(reply(state.handle_request("GET eDP-1")), "50\n");
    assert_eq!(reply(state.handle_request("  GET   DP-1  ")), "70\n");
    assert_eq!(reply(state.handle_request("GET i2c-7")), "ERR no brightness device named i2c-7\n");
    assert_eq!(reply(state.handle_request("GET")), "ERR missing device name\n");
    assert_eq!(state.get_brightness("eDP-1"), Some(50));
    assert_eq!(state.get_brightness("i2c-7"), None);
}

#[test]
fn answers_malformed_requests() {
    let state = state();
    assert_eq!(reply(state.handle_request("")), "ERR empty request\n");
    assert_eq!(reply(state.handle_request("   ")), "ERR empty request\n");
    assert_eq!(reply(state.handle_request("FOO bar")), "ERR unknown command FOO\n");
    assert_eq!(reply(state.handle_request("list")), "ERR unknown command list\n");
    assert_eq!(reply(state.handle_request("SET")), "ERR missing device name\n");
    assert_eq!(reply(state.handle_request("SET eDP-1")), "ERR missing brightness\n");
    assert_eq!(reply(state.handle_request("SET eDP-1 abc")), "ERR missing brightness\n");
    assert_eq!(reply(state.handle_request("SET eDP-1 256")), "ERR missing brightness\n");
    assert_eq!(
        reply(state.handle_request("SET eDP-1 101")),
        "ERR brightness must be between 0 and 100\n"
    );
    assert_eq!(
        reply(state.handle_request("SET HDMI-A-1 10")),
        "ERR no brightness device named HDMI-A-1\n"
    );
}

#[test]
fn a_set_request_becomes_a_write() {
    let state = state();
    match state.handle_request("SET eDP-1 40") {
        DaemonCommand::SetOne { name, percent, write } => {
            assert_eq!(name, "eDP-1");
            assert_eq!(percent, 40);
            assert!(matches!(
                write,
                BrightnessWrite::Backlight { ref backlight, percent: 40, .. } if backlight == "intel_backlight"
            ));
        }
        other => panic!("unexpected {other:?}"),
    }
    // A device whose brightness is unknown can still be set.
    assert!(matches!(
        state.handle_request("SET i2c-7 5"),
        DaemonCommand::SetOne { percent: 5, write: BrightnessWrite::DdcCi { .. }, .. }
    ));
}

#[test]
fn a_set_all_request_checks_every_target_first() {
    let state = state();
    match state.handle_request("SET_ALL eDP-1 10 DP-1 20") {
        DaemonCommand::SetAll { targets, writes } => {
            assert_eq!(targets, vec![("eDP-1".to_owned(), 10), ("DP-1".to_owned(), 20)]);
            assert_eq!(writes.len(), 2);
            assert!(matches!(writes[0], BrightnessWrite::Backlight { percent: 10, .. }));
            assert!(matches!(writes[1], BrightnessWrite::DdcCi { percent: 20, .. }));
        }
        other => panic!("unexpected {other:?}"),
    }
    assert!(matches!(
        state.handle_request("SET_ALL"),
        DaemonCommand::SetAll { ref targets, .. } if targets.is_empty()
    ));
    assert_eq!(reply(state.handle_request("SET_ALL eDP-1")), "ERR missing brightness\n");
    assert_eq!(
        reply(state.handle_request("SET_ALL eDP-1 10 DP-1 200")),
        "ERR brightness must be between 0 and 100\n"
    );
    assert_eq!(
        reply(state.handle_request("SET_ALL eDP-1 10 nope 20 other 30")),
        "ERR no brightness device named nope\n"
    );
    assert_eq!(
        reply(state.handle_request("SET_ALL nope 10 eDP-1 x")),
        "ERR missing brightness\n"
    );
}

#[test]
fn a_refresh_request_asks_for_a_refresh() {
    assert!(matches!(state().handle_request("REFRESH now"), DaemonCommand::Refresh));
}

#[test]
fn finishing_a_set_records_the_brightness() {
    let mut state = state();
    assert_eq!(state.finish_set("eDP-1".to_owned(), 30, Ok(())), "OK\n");
    assert_eq!(state.get_brightness("eDP-1"), Some(30));
    assert_eq!(reply(state.handle_request("GET eDP-1")), "30\n");
    assert_eq!(daemon_get_brightness(&reply(state.handle_request(&get_request("eDP-1")))), Ok(30));

    assert_eq!(
        state.finish_set("DP-1".to_owned(), 10, Err("permission denied".to_owned())),
        "ERR permission denied\n"
    );
    assert_eq!(state.get_brightness("DP-1"), Some(70));

    assert_eq!(state.finish_set("i2c-7".to_owned(), 5, Ok(())), "OK\n");
    assert_eq!(state.get_brightness("i2c-7"), Some(5));
    assert_eq!(state.list().len(), 3);
}

#[test]
fn finishing_a_set_all_stops_at_the_first_failure() {
    let mut state = state();
    let reply_text = state.finish_set_all(
        vec![("eDP-1".to_owned(), 10), ("DP-1".to_owned(), 20), ("i2c-7".to_owned(), 30)],
        vec![Ok(()), Err("busy".to_owned()), Ok(())],
    );
    assert_eq!(reply_text, "ERR busy\n");
    assert_eq!(state.get_brightness("eDP-1"), Some(10));
    assert_eq!(state.get_brightness("DP-1"), Some(70));
    assert_eq!(state.get_brightness("i2c-7"), None);

    let reply_text = state.finish_set_all(
        vec![("DP-1".to_owned(), 20), ("i2c-7".to_owned(), 30)],
        vec![Ok(()), Ok(())],
    );
    assert_eq!(reply_text, "OK\n");
    assert_eq!(state.get_brightness("DP-1"), Some(20));
    assert_eq!(state.get_brightness("i2c-7"), Some(30));
}

#[test]
fn finishing_a_refresh_replaces_the_devices() {
    let mut state = state();
    assert_eq!(state.finish_refresh(Err("no drm".to_owned())), "ERR no drm\n");
    assert_eq!(state.get_brightness("eDP-1"), Some(50));

    let fresh = brightness_devices(Vec::new(), Vec::new());
    assert_eq!(state.finish_refresh(Ok((fresh, Vec::new()))), "OK\n");
    assert_eq!(state.get_brightness("eDP-1"), None);
    assert!(state.list().is_empty());
    assert_eq!(reply(state.handle_request("LIST")), "");
    assert_eq!(
        reply(state.handle_request("SET eDP-1 10")),
        "ERR no brightness device named eDP-1\n"
    );
}

#[test]
fn new_daemon_knows_no_device() {
    let state = DaemonState::new();
    assert!(state.list().is_empty());
    assert_eq!(state.get_brightness("eDP-1"), None);
}

#[test]
fn error_replies() {
    assert_eq!(error_text("boom"), "ERR boom\n");
    assert_eq!(error_text(""), "ERR \n");
}

#[test]
fn set_all_targets_apply_the_change_to_each_device() {
    let mut second = listed_ddcci();
    second.brightness = 1;
    let targets = set_all_targets(vec![listed_backlight(), second], PercentChange::Multiply(120));
    assert_eq!(targets, vec![("eDP-1".to_owned(), 60), ("DP-1".to_owned(), 2)]);
    let targets = set_all_targets(vec![listed_backlight()], PercentChange::Absolute(5));
    assert_eq!(targets, vec![("eDP-1".to_owned(), 5)]);
}

#[test]
fn counts_sockets_passed_by_systemd() {
    assert_eq!(listen_fds(None, 42, Some("1")), Ok(0));
    assert_eq!(listen_fds(Some("41"), 42, Some("1")), Ok(0));
    assert_eq!(listen_fds(Some("abc"), 42, Some("1")), Ok(0));
    assert_eq!(listen_fds(Some("42"), 42, None), Ok(0));
    assert_eq!(listen_fds(Some("42"), 42, Some("1")), Ok(1));
    assert_eq!(listen_fds(Some("+42"), 42, Some("3")), Ok(3));
    assert_eq!(listen_fds(Some("42"), 42, Some("x")), Err(ActivationError::InvalidListenFds(IntError::InvalidDigit)));
    assert_eq!(listen_fds(Some("41"), 42, Some("x")), Ok(0));
    assert_eq!(
        ActivationError::InvalidListenFds(IntError::InvalidDigit).message(),
        "invalid digit found in string"
    );
    assert_eq!(
        listen_fds(Some("42"), 42, Some("")),
        Err(ActivationError::InvalidListenFds(IntError::Empty))
    );
}

#[test]
fn a_client_set_all_request_sets_exactly_its_targets() {
    let mut state = state();
    let targets = vec![("i2c-7".to_owned(), 15), ("eDP-1".to_owned(), 25), ("DP-1".to_owned(), 35)];
    let request = set_all_request(&targets);
    match state.handle_request(&request) {
        DaemonCommand::SetAll { targets: handled, writes } => {
            assert_eq!(handled, targets);
            assert_eq!(writes.len(), 3);
            let outcomes = vec![Ok(()); 3];
            assert_eq!(state.finish_set_all(handled, outcomes), "OK\n");
        }
        other => panic!("unexpected {other:?}"),
    }
    assert_eq!(daemon_set_all_brightness("OK\n"), Ok(()));
    assert_eq!(state.get_brightness("i2c-7"), Some(15));
    assert_eq!(state.get_brightness("eDP-1"), Some(25));
    assert_eq!(state.get_brightness("DP-1"), Some(35));

    let unknown = vec![("DP-1".to_owned(), 10), ("HDMI-A-1".to_owned(), 20), ("X".to_owned(), 30)];
    assert_eq!(
        reply(state.handle_request(&set_all_request(&unknown))),
        "ERR no brightness device named HDMI-A-1\n"
    );
    assert_eq!(state.get_brightness("DP-1"), Some(35));
}

#[test]
fn listing_comes_out_in_name_order() {
    let mut state = DaemonState::new();
    state.refresh(devices(), vec![Some(1), Some(2), Some(3)]);
    let names: Vec<String> = state.list().into_iter().map(|d| d.name).collect();
    assert_eq!(names, vec!["DP-1".to_owned(), "eDP-1".to_owned(), "i2c-7".to_owned()]);
}
