//! How a window is started, and what happens where it does not start.
use crate::abi::{GPUI_STATUS_INTERNAL_PANIC, GPUI_STATUS_INVALID_HANDLE, GPUI_STATUS_OK};
use vstd::prelude::*;

verus! {

/// Opens the window of a view and blocks until it is closed. A bad view is
/// refused before anything is started; otherwise the answer of the window is
/// passed on.
pub fn gpui_run_window<F: FnOnce(usize) -> i32>(view: i32, run: F) -> (status: i32)
    requires
        view >= 0 ==> run.requires((view as usize,)),
    ensures
        view < 0 ==> status == GPUI_STATUS_INVALID_HANDLE,
        view >= 0 ==> run.ensures((view as usize,), status),
{
    if view < 0 {
        return GPUI_STATUS_INVALID_HANDLE;
    }
    run(view as usize)
}

/// An attempt to run a window.
#[derive(Clone, Copy, PartialEq, Eq, Structural, Debug)]
pub enum Attempt {
    /// With the display server that the environment names.
    First,
    /// Without Wayland, after it failed.
    Retry,
}

/// What follows an attempt.
#[derive(Clone, Copy, PartialEq, Eq, Structural, Debug)]
pub enum WindowStep {
    /// The status is answered.
    Finish(i32),
    /// Wayland is taken out of the environment and the window is run again.
    RetryWithoutWayland,
}

/// What follows an attempt: one that ran to its end is done; the first one is
/// repeated where it panicked under Wayland; else the panic is the answer.
pub open spec fn step_after(attempt: Attempt, panicked: bool, wayland: bool) -> WindowStep {
    if !panicked {
        WindowStep::Finish(GPUI_STATUS_OK)
    } else if attempt == Attempt::First && wayland {
        WindowStep::RetryWithoutWayland
    } else {
        WindowStep::Finish(GPUI_STATUS_INTERNAL_PANIC)
    }
}

/// Decides what follows an attempt to run a window. Wayland only counts where
/// the platform has it.
pub fn run_window_with_fallback(attempt: Attempt, panicked: bool, wayland: bool) -> (step:
    WindowStep)
    ensures
        step == step_after(attempt, panicked, wayland),
{
    if !panicked {
        return WindowStep::Finish(GPUI_STATUS_OK);
    }
    match attempt {
        Attempt::First => if wayland {
            WindowStep::RetryWithoutWayland
        } else {
            WindowStep::Finish(GPUI_STATUS_INTERNAL_PANIC)
        },
        Attempt::Retry => WindowStep::Finish(GPUI_STATUS_INTERNAL_PANIC),
    }
}

/// The name under which the panic of an attempt is reported.
pub open spec fn panic_label(attempt: Attempt, wayland: bool) -> Seq<char> {
    if attempt == Attempt::Retry {
        "gpui_run_window (X11 retry)"@
    } else if wayland {
        "gpui_run_window (Wayland attempt)"@
    } else {
        "gpui_run_window"@
    }
}

/// Names the panic of an attempt.
pub fn label_panic(attempt: Attempt, wayland: bool) -> (label: &'static str)
    ensures
        label@ == panic_label(attempt, wayland),
{
    match attempt {
        Attempt::Retry => "gpui_run_window (X11 retry)",
        Attempt::First => if wayland {
            "gpui_run_window (Wayland attempt)"
        } else {
            "gpui_run_window"
        },
    }
}

/// There are two attempts at most, and the second one only after a panic under
/// Wayland.
pub proof fn law_two_attempts_at_most(panicked: bool, wayland: bool, later: bool)
    ensures
        step_after(Attempt::First, panicked, wayland) == WindowStep::RetryWithoutWayland <==> panicked
            && wayland,
        step_after(Attempt::Retry, later, wayland) is Finish,
{
}

/// The answer tells whether the last attempt panicked, and the retry is not run
/// where the first attempt ended by itself.
pub proof fn law_answer_tells_of_panics(attempt: Attempt, panicked: bool, wayland: bool)
    ensures
        step_after(attempt, panicked, wayland) matches WindowStep::Finish(status) ==> (status
            == GPUI_STATUS_OK <==> !panicked) && (status == GPUI_STATUS_INTERNAL_PANIC <==> panicked),
        !panicked ==> step_after(attempt, panicked, wayland) is Finish,
        !wayland ==> step_after(attempt, panicked, wayland) is Finish,
{
}

/// The label of a panic tells the three ways in which a window is run apart.
pub proof fn law_labels_are_told_apart(wayland: bool)
    ensures
        panic_label(Attempt::First, true) != panic_label(Attempt::First, false),
        panic_label(Attempt::First, wayland) != panic_label(Attempt::Retry, true),
        panic_label(Attempt::Retry, wayland) == panic_label(Attempt::Retry, true),
        "gpui_run_window"@.is_prefix_of(panic_label(Attempt::First, wayland)),
        "gpui_run_window"@.is_prefix_of(panic_label(Attempt::Retry, wayland)),
{
    reveal_strlit("gpui_run_window (X11 retry)");
    reveal_strlit("gpui_run_window (Wayland attempt)");
    reveal_strlit("gpui_run_window");
    assert("gpui_run_window"@.len() == 15);
    assert("gpui_run_window (X11 retry)"@.len() == 27);
    assert("gpui_run_window (Wayland attempt)"@.len() == 33);
    assert("gpui_run_window"@ =~= "gpui_run_window (X11 retry)"@.subrange(0, 15));
    assert("gpui_run_window"@ =~= "gpui_run_window (Wayland attempt)"@.subrange(0, 15));
    assert("gpui_run_window"@ =~= "gpui_run_window"@.subrange(0, 15));
}

} // verus!
