use waybright::focus::{
    compositor_name, detect_compositor, focused_output, hyprland_focused_output,
    kwin_focused_output, niri_focused_output, sway_focused_output, BackendError, Compositor,
    CompositorEnv, FocusError, FocusStep, SwayWorkspace,
};
use waybright::outputs::{is_output_interface, ListEvent, OutputList};

fn env() -> CompositorEnv {
    CompositorEnv {
        sway_socket: false,
        hyprland_instance: false,
        niri_socket: false,
        kde_desktop: false,
        plasma_session: false,
        kde_full_session: false,
    }
}

#[test]
fn detects_the_compositor_in_order() {
    assert_eq!(detect_compositor(&env()), Compositor::Unknown);
    assert_eq!(detect_compositor(&CompositorEnv { sway_socket: true, ..env() }), Compositor::Sway);
    assert_eq!(
        detect_compositor(&CompositorEnv { sway_socket: true, hyprland_instance: true, ..env() }),
        Compositor::Sway
    );
    assert_eq!(
        detect_compositor(&CompositorEnv { hyprland_instance: true, niri_socket: true, ..env() }),
        Compositor::Hyprland
    );
    assert_eq!(
        detect_compositor(&CompositorEnv { niri_socket: true, kde_desktop: true, ..env() }),
        Compositor::Niri
    );
    assert_eq!(detect_compositor(&CompositorEnv { kde_desktop: true, ..env() }), Compositor::Kwin);
    assert_eq!(detect_compositor(&CompositorEnv { plasma_session: true, ..env() }), Compositor::Kwin);
    assert_eq!(detect_compositor(&CompositorEnv { kde_full_session: true, ..env() }), Compositor::Kwin);
}

#[test]
fn compositor_names() {
    assert_eq!(compositor_name(Compositor::Sway), "sway");
    assert_eq!(compositor_name(Compositor::Hyprland), "hyprland");
    assert_eq!(compositor_name(Compositor::Niri), "niri");
    assert_eq!(compositor_name(Compositor::Kwin), "kwin");
    assert_eq!(compositor_name(Compositor::Unknown), "unknown");
}

#[test]
fn a_known_compositor_is_asked_once() {
    let none: Vec<Result<String, String>> = Vec::new();
    assert!(matches!(focused_output(Compositor::Niri, none), FocusStep::Ask(Compositor::Niri)));
    assert!(matches!(
        focused_output(Compositor::Sway, vec![Ok::<String, String>("DP-1".to_owned())]),
        FocusStep::Done(Ok(ref name)) if name == "DP-1"
    ));
    assert!(matches!(
        focused_output(Compositor::Kwin, vec![Err::<String, String>("no bus".to_owned())]),
        FocusStep::Done(Err(FocusError::Backend(ref e))) if e == "no bus"
    ));
}

#[test]
fn an_unknown_compositor_falls_back_in_turn() {
    let err = || Err::<String, String>("failed".to_owned());
    assert!(matches!(focused_output(Compositor::Unknown, Vec::<Result<String, String>>::new()), FocusStep::Ask(Compositor::Sway)));
    assert!(matches!(focused_output(Compositor::Unknown, vec![err()]), FocusStep::Ask(Compositor::Hyprland)));
    assert!(matches!(focused_output(Compositor::Unknown, vec![err(), err()]), FocusStep::Ask(Compositor::Niri)));
    assert!(matches!(focused_output(Compositor::Unknown, vec![err(), err(), err()]), FocusStep::Ask(Compositor::Kwin)));
    assert!(matches!(
        focused_output(Compositor::Unknown, vec![err(), err(), err(), err()]),
        FocusStep::Done(Err(FocusError::Unsupported))
    ));
    assert!(matches!(
        focused_output(Compositor::Unknown, vec![err(), Ok("HDMI-A-1".to_owned())]),
        FocusStep::Done(Ok(ref name)) if name == "HDMI-A-1"
    ));
}

#[test]
fn sway_takes_the_first_focused_workspace() {
    let workspaces = vec![
        SwayWorkspace { focused: false, output: "DP-1".to_owned() },
        SwayWorkspace { focused: true, output: "eDP-1".to_owned() },
        SwayWorkspace { focused: true, output: "HDMI-A-1".to_owned() },
    ];
    assert_eq!(sway_focused_output(workspaces), Ok("eDP-1".to_owned()));
    assert_eq!(
        sway_focused_output(vec![SwayWorkspace { focused: false, output: "DP-1".to_owned() }]),
        Err(BackendError::NoFocusedWorkspace)
    );
    assert_eq!(sway_focused_output(Vec::new()), Err(BackendError::NoFocusedWorkspace));
}

#[test]
fn other_compositors_need_a_nonempty_name() {
    assert_eq!(hyprland_focused_output("DP-2".to_owned()), Ok("DP-2".to_owned()));
    assert_eq!(hyprland_focused_output(String::new()), Err(BackendError::NoMonitor));
    assert_eq!(niri_focused_output("eDP-1".to_owned()), Ok("eDP-1".to_owned()));
    assert_eq!(niri_focused_output(String::new()), Err(BackendError::UnnamedNiriOutput));
    assert_eq!(kwin_focused_output("  eDP-1\n"), Ok("eDP-1".to_owned()));
    assert_eq!(kwin_focused_output(" \n"), Err(BackendError::UnnamedKwinOutput));
}

#[test]
fn backend_error_messages() {
    assert_eq!(BackendError::NoFocusedWorkspace.message(), "sway has no focused workspace");
    assert_eq!(BackendError::NoMonitor.message(), "hyprland active workspace has no monitor");
    assert_eq!(BackendError::UnnamedNiriOutput.message(), "niri focused output has no name");
    assert_eq!(BackendError::UnnamedKwinOutput.message(), "kwin active output has no name");
}

#[test]
fn output_listing_collects_events_per_output() {
    assert!(is_output_interface("wl_output"));
    assert!(!is_output_interface("wl_seat"));

    let mut list = OutputList::new();
    list.announce(7);
    list.announce(9);
    list.apply_event(
        7,
        ListEvent::Geometry {
            physical_width: 600,
            physical_height: 340,
            make: "Dell".to_owned(),
            model: "U2720Q".to_owned(),
        },
    );
    list.apply_event(7, ListEvent::Name { name: "DP-1".to_owned() });
    list.apply_event(7, ListEvent::Description { description: "Dell U2720Q".to_owned() });
    list.apply_event(7, ListEvent::Mode { current: false, width: 1920, height: 1080 });
    list.apply_event(7, ListEvent::Mode { current: true, width: 3840, height: 2160 });
    list.apply_event(9, ListEvent::Other);
    list.apply_event(11, ListEvent::Name { name: "ghost".to_owned() });

    assert_eq!(list.outputs.len(), 2);
    let first = &list.outputs[0];
    assert_eq!(first.global_name, 7);
    assert_eq!(first.name.as_deref(), Some("DP-1"));
    assert_eq!(first.description.as_deref(), Some("Dell U2720Q"));
    assert_eq!(first.make, "Dell");
    assert_eq!(first.model, "U2720Q");
    assert_eq!((first.physical_width, first.physical_height), (600, 340));
    assert_eq!((first.current_width, first.current_height), (Some(3840), Some(2160)));

    let second = &list.outputs[1];
    assert_eq!(second.global_name, 9);
    assert_eq!(second.name, None);
    assert_eq!(second.make, "");
    assert_eq!(second.current_width, None);
}
