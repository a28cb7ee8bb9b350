//! Which Wayland compositor runs, and which output has the focus.
use vstd::prelude::*;

use crate::text::{chars_of, slice_vec, string_of, trim, trim_bounds};

verus! {

/// A compositor whose focused output can be asked for.
#[derive(Clone, Copy, Debug, PartialEq, Eq, Structural)]
pub enum Compositor {
    Sway,
    Hyprland,
    Niri,
    Kwin,
    Unknown,
}

/// What the environment tells of the session.
#[derive(Clone, Copy, Debug)]
pub struct CompositorEnv {
    /// `SWAYSOCK` is set.
    pub sway_socket: bool,
    /// `HYPRLAND_INSTANCE_SIGNATURE` is set.
    pub hyprland_instance: bool,
    /// `NIRI_SOCKET` is set.
    pub niri_socket: bool,
    /// `XDG_CURRENT_DESKTOP`, in lower case, contains `kde`.
    pub kde_desktop: bool,
    /// `DESKTOP_SESSION`, in lower case, contains `plasma`.
    pub plasma_session: bool,
    /// `KDE_FULL_SESSION` is set.
    pub kde_full_session: bool,
}

pub open spec fn spec_detect_compositor(env: CompositorEnv) -> Compositor {
    if env.sway_socket {
        Compositor::Sway
    } else if env.hyprland_instance {
        Compositor::Hyprland
    } else if env.niri_socket {
        Compositor::Niri
    } else if env.kde_desktop || env.plasma_session || env.kde_full_session {
        Compositor::Kwin
    } else {
        Compositor::Unknown
    }
}

/// The compositor the session's environment points to, in the order sway,
/// Hyprland, niri, KWin.
pub fn detect_compositor(env: &CompositorEnv) -> (c: Compositor)
    ensures
        c == spec_detect_compositor(*env),
{
    if env.sway_socket {
        return Compositor::Sway;
    }
    if env.hyprland_instance {
        return Compositor::Hyprland;
    }
    if env.niri_socket {
        return Compositor::Niri;
    }
    if env.kde_desktop || env.plasma_session || env.kde_full_session {
        return Compositor::Kwin;
    }
    Compositor::Unknown
}

/// The compositor's name in lower case.
pub fn compositor_name(compositor: Compositor) -> (s: &'static str)
    ensures
        compositor == Compositor::Sway ==> s@ == "sway"@,
        compositor == Compositor::Hyprland ==> s@ == "hyprland"@,
        compositor == Compositor::Niri ==> s@ == "niri"@,
        compositor == Compositor::Kwin ==> s@ == "kwin"@,
        compositor == Compositor::Unknown ==> s@ == "unknown"@,
{
    match compositor {
        Compositor::Sway => "sway",
        Compositor::Hyprland => "hyprland",
        Compositor::Niri => "niri",
        Compositor::Kwin => "kwin",
        Compositor::Unknown => "unknown",
    }
}

/// Why the focused output could not be had.
#[derive(Debug)]
pub enum FocusError<E> {
    /// The compositor's own answer failed.
    Backend(E),
    /// No compositor that is asked knows a focused output.
    Unsupported,
}

/// The next step in finding the focused output.
#[derive(Debug)]
pub enum FocusStep<E> {
    /// Ask this compositor, and add its answer to the answers.
    Ask(Compositor),
    /// The focused output, or why there is none.
    Done(Result<String, FocusError<E>>),
}

/// The compositors tried, in order, when the session's is unknown.
pub open spec fn fallback_order() -> Seq<Compositor> {
    seq![Compositor::Sway, Compositor::Hyprland, Compositor::Niri, Compositor::Kwin]
}

/// The first successful answer among the first `n` ones.
pub open spec fn first_ok<E>(answers: Seq<Result<String, E>>) -> Option<int> {
    if exists|i: int| 0 <= i < answers.len() && answers[i] is Ok {
        Some(
            choose|i: int|
                0 <= i < answers.len() && answers[i] is Ok && forall|j: int|
                    0 <= j < i ==> answers[j] is Err,
        )
    } else {
        None
    }
}

fn fallback(i: usize) -> (c: Compositor)
    requires
        i < 4,
    ensures
        c == fallback_order()[i as int],
{
    match i {
        0 => Compositor::Sway,
        1 => Compositor::Hyprland,
        2 => Compositor::Niri,
        _ => Compositor::Kwin,
    }
}

/// What to do next, given the session's compositor and the answers so far
/// (in the order they were asked for): a known compositor is asked once and
/// its answer is final; otherwise sway, Hyprland, niri and KWin are asked in
/// turn until one answers.
#[verifier::loop_isolation(false)]
pub fn focused_output<E>(compositor: Compositor, answers: Vec<Result<String, E>>) -> (r: FocusStep<E>)
    ensures
        compositor != Compositor::Unknown ==> if answers@.len() == 0 {
            r == FocusStep::<E>::Ask(compositor)
        } else {
            match answers@[0] {
                Ok(name) => r == FocusStep::<E>::Done(Ok(name)),
                Err(e) => r == FocusStep::<E>::Done(Err(FocusError::Backend(e))),
            }
        },
        compositor == Compositor::Unknown ==> match first_ok(answers@) {
            Some(i) => r == FocusStep::<E>::Done(Ok(answers@[i]->Ok_0)),
            None => if answers@.len() < 4 {
                r == FocusStep::<E>::Ask(fallback_order()[answers@.len() as int])
            } else {
                r == FocusStep::<E>::Done(Err(FocusError::Unsupported))
            },
        },
{
    let mut answers = answers;
    if compositor != Compositor::Unknown {
        if answers.len() == 0 {
            return FocusStep::Ask(compositor);
        }
        return match answers.remove(0) {
            Ok(name) => FocusStep::Done(Ok(name)),
            Err(e) => FocusStep::Done(Err(FocusError::Backend(e))),
        };
    }
    let ghost all = answers@;
    let n = answers.len();
    let mut i: usize = 0;
    while i < n
        invariant
            n == all.len(),
            i <= n,
            answers@ == all.skip(i as int),
            forall|j: int| 0 <= j < i ==> all[j] is Err,
        decreases n - i,
    {
        let a = answers.remove(0);
        assert(a == all[i as int]);
        assert(answers@ =~= all.skip(i + 1));
        match a {
            Ok(name) => {
                proof {
                    let c = first_ok(all).unwrap();
                    assert(0 <= c < all.len() && all[c] is Ok && forall|j: int|
                        0 <= j < c ==> all[j] is Err);
                    if c < i {
                        assert(all[c] is Err);
                    } else if c > i {
                        assert(all[i as int] is Err);
                    }
                }
                return FocusStep::Done(Ok(name));
            },
            Err(_) => {},
        }
        i = i + 1;
    }
    proof {
        if first_ok(all) is Some {
            let k = choose|k: int| 0 <= k < all.len() && all[k] is Ok;
            assert(all[k] is Err);
        }
    }
    if n < 4 {
        FocusStep::Ask(fallback(n))
    } else {
        FocusStep::Done(Err(FocusError::Unsupported))
    }
}

/// Why a compositor's answer names no output.
#[derive(Clone, Copy, Debug, PartialEq, Eq, Structural)]
pub enum BackendError {
    /// sway lists no focused workspace.
    NoFocusedWorkspace,
    /// Hyprland's active workspace has no monitor.
    NoMonitor,
    /// niri's focused output has no name.
    UnnamedNiriOutput,
    /// KWin's active output has no name.
    UnnamedKwinOutput,
}

impl BackendError {
    /// The text that explains the error.
    pub fn message(&self) -> (s: &'static str)
        ensures
            *self == BackendError::NoFocusedWorkspace ==> s@ == "sway has no focused workspace"@,
            *self == BackendError::NoMonitor ==> s@ == "hyprland active workspace has no monitor"@,
            *self == BackendError::UnnamedNiriOutput ==> s@ == "niri focused output has no name"@,
            *self == BackendError::UnnamedKwinOutput ==> s@ == "kwin active output has no name"@,
    {
        match self {
            BackendError::NoFocusedWorkspace => "sway has no focused workspace",
            BackendError::NoMonitor => "hyprland active workspace has no monitor",
            BackendError::UnnamedNiriOutput => "niri focused output has no name",
            BackendError::UnnamedKwinOutput => "kwin active output has no name",
        }
    }
}

/// A sway workspace: whether it has the focus, and its output.
#[derive(Clone, Debug)]
pub struct SwayWorkspace {
    pub focused: bool,
    pub output: String,
}

/// The index of the first focused workspace.
pub open spec fn first_focused(ws: Seq<SwayWorkspace>) -> Option<int> {
    if exists|i: int| 0 <= i < ws.len() && ws[i].focused {
        Some(
            choose|i: int|
                0 <= i < ws.len() && ws[i].focused && forall|j: int| 0 <= j < i ==> !ws[j].focused,
        )
    } else {
        None
    }
}

/// The output of sway's first focused workspace.
#[verifier::loop_isolation(false)]
pub fn sway_focused_output(workspaces: Vec<SwayWorkspace>) -> (r: Result<String, BackendError>)
    ensures
        match first_focused(workspaces@) {
            Some(i) => r == Ok::<String, BackendError>(workspaces@[i].output),
            None => r == Err::<String, BackendError>(BackendError::NoFocusedWorkspace),
        },
{
    let ghost all = workspaces@;
    let mut ws = workspaces;
    let n = ws.len();
    let mut i: usize = 0;
    while i < n
        invariant
            n == all.len(),
            i <= n,
            ws@ == all.skip(i as int),
            forall|j: int| 0 <= j < i ==> !all[j].focused,
        decreases n - i,
    {
        let w = ws.remove(0);
        assert(w == all[i as int]);
        assert(ws@ =~= all.skip(i + 1));
        if w.focused {
            proof {
                let c = first_focused(all).unwrap();
                assert(0 <= c < all.len() && all[c].focused && forall|j: int|
                    0 <= j < c ==> !all[j].focused);
                if c < i {
                    assert(!all[c].focused);
                } else if c > i {
                    assert(!all[i as int].focused);
                }
            }
            return Ok(w.output);
        }
        i = i + 1;
    }
    proof {
        if first_focused(all) is Some {
            let k = choose|k: int| 0 <= k < all.len() && all[k].focused;
            assert(!all[k].focused);
        }
    }
    Err(BackendError::NoFocusedWorkspace)
}

/// The monitor of Hyprland's active workspace.
pub fn hyprland_focused_output(monitor: String) -> (r: Result<String, BackendError>)
    ensures
        monitor@.len() == 0 ==> r == Err::<String, BackendError>(BackendError::NoMonitor),
        monitor@.len() > 0 ==> r == Ok::<String, BackendError>(monitor),
{
    let v = chars_of(monitor.as_str());
    if v.len() == 0 {
        return Err(BackendError::NoMonitor);
    }
    Ok(monitor)
}

/// The name of niri's focused output.
pub fn niri_focused_output(name: String) -> (r: Result<String, BackendError>)
    ensures
        name@.len() == 0 ==> r == Err::<String, BackendError>(BackendError::UnnamedNiriOutput),
        name@.len() > 0 ==> r == Ok::<String, BackendError>(name),
{
    let v = chars_of(name.as_str());
    if v.len() == 0 {
        return Err(BackendError::UnnamedNiriOutput);
    }
    Ok(name)
}

/// KWin's active output name, trimmed.
pub fn kwin_focused_output(output: &str) -> (r: Result<String, BackendError>)
    ensures
        trim(output@).len() == 0 ==> r == Err::<String, BackendError>(
            BackendError::UnnamedKwinOutput,
        ),
        trim(output@).len() > 0 ==> (r matches Ok(s) && s@ == trim(output@)),
{
    let v = chars_of(output);
    let (b, e) = trim_bounds(&v);
    if b == e {
        return Err(BackendError::UnnamedKwinOutput);
    }
    let t = slice_vec(&v, b, e);
    Ok(string_of(&t))
}

} // verus!
