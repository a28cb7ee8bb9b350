use waybright::protocol::{Field, ResponseError};
use waybright::text::IntError;
use waybright::waydark::{
    daemon_get_brightness, daemon_list_outputs, daemon_set_brightness, dim_alpha, dim_buffer,
    parse_output_brightness_response, BufferError, DarkCommand, DimBuffer, OutputBrightness,
    OutputEvent, OutputInfo, OutputTable,
};

fn chars(s: &str) -> Vec<char> {
    s.chars().collect()
}

fn monitor() -> OutputInfo {
    let mut output = OutputInfo::new();
    output.apply_event(OutputEvent::Geometry { make: "Dell".to_owned(), model: "U2720Q".to_owned() });
    output.apply_event(OutputEvent::Name { name: "DP-1".to_owned() });
    output.apply_event(OutputEvent::Description { description: "Dell U2720Q".to_owned() });
    output.apply_event(OutputEvent::Mode { width: 3840, height: 2160 });
    output.apply_event(OutputEvent::Scale { factor: 2 });
    output
}

fn laptop() -> OutputInfo {
    let mut output = OutputInfo::new();
    output.apply_event(OutputEvent::Name { name: "eDP-1".to_owned() });
    output
}

fn table() -> OutputTable {
    OutputTable { outputs: vec![monitor(), laptop(), OutputInfo::new()] }
}

fn reply(command: DarkCommand) -> String {
    match command {
        DarkCommand::Reply(text) => text,
        other => panic!("expected a reply, got {other:?}"),
    }
}

#[test]
fn a_new_output_is_undimmed_and_unnamed() {
    let output = OutputInfo::new();
    assert_eq!(output.brightness, 100);
    assert_eq!(output.scale, 1);
    assert!(output.name.is_none() && output.model.is_none() && output.mode.is_none());
    assert_eq!(output.name(3), "output-3");
    assert_eq!(output.label(3), "output-3: unknown output (scale 1)");
}

#[test]
fn output_names_fall_back_to_the_model() {
    let mut output = OutputInfo::new();
    output.apply_event(OutputEvent::Geometry { make: "BOE".to_owned(), model: "0x095F".to_owned() });
    assert_eq!(output.name(0), "0x095F");
    assert_eq!(output.label(0), "0x095F: 0x095F (scale 1)");
    output.apply_event(OutputEvent::Other);
    assert_eq!(output.name(0), "0x095F");
    output.apply_event(OutputEvent::Name { name: "eDP-1".to_owned() });
    assert_eq!(output.name(0), "eDP-1");
    assert_eq!(output.make.as_deref(), Some("BOE"));
}

#[test]
fn output_labels_show_description_mode_and_scale() {
    assert_eq!(monitor().label(0), "DP-1: Dell U2720Q (3840x2160, scale 2)");
    assert_eq!(laptop().label(1), "eDP-1: unknown output (scale 1)");
    let mut odd = OutputInfo::new();
    odd.apply_event(OutputEvent::Mode { width: -1, height: 5 });
    odd.apply_event(OutputEvent::Scale { factor: -2 });
    assert_eq!(odd.label(9), "output-9: unknown output (-1x5, scale -2)");
}

#[test]
fn lists_outputs_with_brightness_and_label() {
    let table = table();
    let text = reply(table.handle_request("LIST"));
    assert_eq!(
        text,
        "DP-1\t100\tDP-1: Dell U2720Q (3840x2160, scale 2)\n\
         eDP-1\t100\teDP-1: unknown output (scale 1)\n\
         output-2\t100\toutput-2: unknown output (scale 1)\n"
    );
    let listed = daemon_list_outputs(&text).unwrap();
    assert_eq!(listed.len(), 3);
    assert_eq!(listed[0].name, "DP-1");
    assert_eq!(listed[0].brightness, 100);
    assert_eq!(listed[0].label, "DP-1: Dell U2720Q (3840x2160, scale 2)");
    assert_eq!(listed[2].name, "output-2");
    assert_eq!(reply(OutputTable { outputs: Vec::new() }.handle_request("LIST")), "");
}

#[test]
fn answers_get_requests_by_output_name() {
    let mut table = table();
    table.set_output_brightness(1, 35);
    assert_eq!(reply(table.handle_request("GET eDP-1")), "35\n");
    assert_eq!(reply(table.handle_request("GET DP-1")), "100\n");
    assert_eq!(reply(table.handle_request("GET output-2")), "100\n");
    assert_eq!(reply(table.handle_request("GET HDMI-A-1")), "ERR no output named HDMI-A-1\n");
    assert_eq!(reply(table.handle_request("GET")), "ERR missing output name\n");
    assert_eq!(daemon_get_brightness(&reply(table.handle_request("GET eDP-1"))), Ok(35));
}

#[test]
fn finds_the_first_output_of_a_name() {
    let table = OutputTable { outputs: vec![laptop(), monitor(), laptop()] };
    assert_eq!(table.output_index(&chars("eDP-1")), Some(0));
    assert_eq!(table.output_index(&chars("DP-1")), Some(1));
    assert_eq!(table.output_index(&chars("output-2")), None);
    assert_eq!(table.output_index(&chars("HDMI-A-1")), None);
}

#[test]
fn set_requests_become_dimming() {
    let table = table();
    match table.handle_request("SET eDP-1 40") {
        DarkCommand::Dim { indices, brightness } => {
            assert_eq!(indices, vec![1]);
            assert_eq!(brightness, 40);
        }
        other => panic!("unexpected {other:?}"),
    }
    match table.handle_request("SET @all 30") {
        DarkCommand::Dim { indices, brightness } => {
            assert_eq!(indices, vec![0, 1, 2]);
            assert_eq!(brightness, 30);
        }
        other => panic!("unexpected {other:?}"),
    }
}

#[test]
fn refuses_malformed_set_requests() {
    let table = table();
    assert_eq!(reply(table.handle_request("SET")), "ERR missing output name\n");
    assert_eq!(reply(table.handle_request("SET DP-1")), "ERR missing brightness\n");
    assert_eq!(reply(table.handle_request("SET DP-1 -1")), "ERR missing brightness\n");
    assert_eq!(
        reply(table.handle_request("SET DP-1 101")),
        "ERR brightness must be between 0 and 100\n"
    );
    assert_eq!(reply(table.handle_request("SET nope 10")), "ERR no output named nope\n");
    assert_eq!(reply(table.handle_request("REFRESH")), "ERR unknown command REFRESH\n");
    assert_eq!(reply(table.handle_request(" \t ")), "ERR empty request\n");
}

#[test]
fn setting_an_output_brightness_changes_only_it() {
    let mut table = table();
    table.set_output_brightness(0, 0);
    assert_eq!(table.outputs[0].brightness, 0);
    assert_eq!(table.outputs[1].brightness, 100);
    assert_eq!(table.outputs[0].name(0), "DP-1");
}

#[test]
fn reads_listing_replies() {
    assert_eq!(
        parse_output_brightness_response("DP-1\t40\tDP-1: Dell (scale 1)\n"),
        Ok(vec![OutputBrightness {
            name: "DP-1".to_owned(),
            brightness: 40,
            label: "DP-1: Dell (scale 1)".to_owned()
        }])
    );
    assert_eq!(
        parse_output_brightness_response("a\t5\tb\tc"),
        Ok(vec![OutputBrightness { name: "a".to_owned(), brightness: 5, label: "b\tc".to_owned() }])
    );
    assert_eq!(parse_output_brightness_response(""), Ok(Vec::new()));
    assert_eq!(
        parse_output_brightness_response("a\n"),
        Err(ResponseError::Missing(Field::Brightness))
    );
    assert_eq!(parse_output_brightness_response("a\tx\tl\n"), Err(ResponseError::InvalidNumber(IntError::InvalidDigit)));
    assert_eq!(parse_output_brightness_response("a\t256\tl\n"), Err(ResponseError::InvalidNumber(IntError::PosOverflow)));
    assert_eq!(
        parse_output_brightness_response("a\t5\n"),
        Err(ResponseError::Missing(Field::OutputLabel))
    );
}

#[test]
fn client_reads_dimming_replies() {
    assert_eq!(daemon_get_brightness("40\n"), Ok(40));
    assert_eq!(daemon_get_brightness("300\n"), Err(ResponseError::InvalidNumber(IntError::PosOverflow)));
    assert_eq!(
        daemon_get_brightness("ERR no output named x\n"),
        Err(ResponseError::Daemon("no output named x".to_owned()))
    );
    assert_eq!(daemon_set_brightness("OK\n"), Ok(()));
    assert_eq!(daemon_set_brightness("KO\n"), Err(ResponseError::Daemon("KO".to_owned())));
    assert_eq!(daemon_list_outputs("ERR x\n"), Err(ResponseError::Daemon("x".to_owned())));
}

#[test]
fn overlay_alpha_follows_brightness() {
    assert_eq!(dim_alpha(100), 0);
    assert_eq!(dim_alpha(0), 255);
    assert_eq!(dim_alpha(50), 127);
    assert_eq!(dim_alpha(1), 252);
    assert_eq!(dim_alpha(99), 3);
}

#[test]
fn overlay_buffer_layout() {
    assert_eq!(dim_buffer(10, 5, 100), Ok(DimBuffer { stride: 40, size: 200, pixel: 0 }));
    assert_eq!(dim_buffer(10, 5, 0), Ok(DimBuffer { stride: 40, size: 200, pixel: 0xff00_0000 }));
    assert_eq!(dim_buffer(1920, 1080, 50), Ok(DimBuffer { stride: 7680, size: 8_294_400, pixel: 0x7f00_0000 }));
    assert_eq!(dim_buffer(0x4000_0000, 1, 50), Err(BufferError::StrideOverflow));
    assert_eq!(dim_buffer(0x1000_0000, 4, 50), Err(BufferError::SizeOverflow));
    assert_eq!(dim_buffer(0x1000_0000, 3, 50).map(|b| b.size), Ok(0xc000_0000));
    assert_eq!(BufferError::StrideOverflow.message(), "buffer stride overflow");
    assert_eq!(BufferError::SizeOverflow.message(), "buffer size overflow");
}
