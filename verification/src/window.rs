//! The reader window's hiding decisions: the toggle shortcut, hiding when
//! focus is lost, and the suspension of that hiding around system dialogs
//! and just after the shortcut showed the window.
use vstd::prelude::*;
use crate::text::{chars_of, same_chars};

verus! {

/// What the hiding decisions remember: whether hiding on focus loss is
/// suspended.
#[derive(PartialEq, Eq, Structural, Debug, Clone, Copy)]
pub struct HideGuard {
    pub suspend_blur_hide: bool,
}

/// Something that happened to the reader window.
#[derive(PartialEq, Eq, Structural, Debug, Clone, Copy)]
pub enum WindowEvent {
    /// The toggle shortcut was pressed while the window was visible or not.
    ShortcutPressed { visible: bool },
    /// The toggle the shortcut asked for left the window shown, or not
    /// (hidden, or the toggle failed).
    ShortcutToggled { shown: bool },
    /// The window lost focus.
    FocusLost,
    /// The grace period after the shortcut showed the window ran out.
    GraceOver,
    /// The page asked to suspend hiding on focus loss (a system dialog
    /// opens) or to resume it (the dialog closed).
    SuspendRequested { suspend: bool },
    /// The tray's show/hide entry was chosen while the window was visible or not.
    TrayToggle { visible: bool },
    /// The tray's quit entry was chosen.
    TrayQuit,
}

/// What the application does in answer.
#[derive(PartialEq, Eq, Structural, Debug, Clone, Copy)]
pub enum WindowAction {
    Nothing,
    Hide,
    /// Show the window and give it focus.
    ShowAndFocus,
    /// Report back `GraceOver` once the grace period has passed.
    StartGrace,
    Exit,
}

/// The grace period, in milliseconds, after the shortcut showed the window,
/// during which losing focus does not hide it.
pub const GRACE_MILLIS: u64 = 350;

/// The toggle: hide a visible window, show and focus a hidden one.
pub open spec fn toggle(visible: bool) -> WindowAction {
    if visible {
        WindowAction::Hide
    } else {
        WindowAction::ShowAndFocus
    }
}

/// The next state and the action for `event` in state `guard`: toggling
/// for the shortcut and the tray; after the shortcut's toggle, hiding on
/// focus loss suspended exactly when the window was shown, with a grace
/// period started then; a lost focus hiding the window unless suspended;
/// the end of the grace period and the page's requests setting the
/// suspension; quitting from the tray.
pub open spec fn next_state(guard: HideGuard, event: WindowEvent) -> (HideGuard, WindowAction) {
    match event {
        WindowEvent::ShortcutPressed { visible } => (guard, toggle(visible)),
        WindowEvent::ShortcutToggled { shown } => (
            HideGuard { suspend_blur_hide: shown },
            if shown {
                WindowAction::StartGrace
            } else {
                WindowAction::Nothing
            },
        ),
        WindowEvent::FocusLost => (
            guard,
            if guard.suspend_blur_hide {
                WindowAction::Nothing
            } else {
                WindowAction::Hide
            },
        ),
        WindowEvent::GraceOver => (HideGuard { suspend_blur_hide: false }, WindowAction::Nothing),
        WindowEvent::SuspendRequested { suspend } => (
            HideGuard { suspend_blur_hide: suspend },
            WindowAction::Nothing,
        ),
        WindowEvent::TrayToggle { visible } => (guard, toggle(visible)),
        WindowEvent::TrayQuit => (guard, WindowAction::Exit),
    }
}

/// The state after answering `events` in order from `guard`, and the
/// action for each event.
pub open spec fn run_events(guard: HideGuard, events: Seq<WindowEvent>) -> (
    HideGuard,
    Seq<WindowAction>,
)
    decreases events.len(),
{
    if events.len() == 0 {
        (guard, Seq::empty())
    } else {
        let first = next_state(guard, events[0]);
        let rest = run_events(first.0, events.drop_first());
        (rest.0, seq![first.1] + rest.1)
    }
}

/// An event that leaves a grace period running: not its end, not the page
/// resuming hiding on focus loss, and not a shortcut toggle that left the
/// window hidden (after which there is nothing left to hide).
pub open spec fn keeps_grace(e: WindowEvent) -> bool {
    &&& e != WindowEvent::GraceOver
    &&& e != WindowEvent::SuspendRequested { suspend: false }
    &&& e != WindowEvent::ShortcutToggled { shown: false }
}

impl HideGuard {
    /// Hiding on focus loss not suspended.
    pub fn new() -> (r: Self)
        ensures
            !r.suspend_blur_hide,
    {
        HideGuard { suspend_blur_hide: false }
    }

    /// Answers `event`: updates the guard and returns the action (see `next_state`).
    pub fn step(&mut self, event: WindowEvent) -> (r: WindowAction)
        ensures
            (*final(self), r) == next_state(*old(self), event),
    {
        match event {
            WindowEvent::ShortcutPressed { visible } | WindowEvent::TrayToggle { visible } => {
                if visible {
                    WindowAction::Hide
                } else {
                    WindowAction::ShowAndFocus
                }
            },
            WindowEvent::ShortcutToggled { shown } => {
                self.suspend_blur_hide = shown;
                if shown {
                    WindowAction::StartGrace
                } else {
                    WindowAction::Nothing
                }
            },
            WindowEvent::FocusLost => {
                if self.suspend_blur_hide {
                    WindowAction::Nothing
                } else {
                    WindowAction::Hide
                }
            },
            WindowEvent::GraceOver => {
                self.suspend_blur_hide = false;
                WindowAction::Nothing
            },
            WindowEvent::SuspendRequested { suspend } => {
                self.suspend_blur_hide = suspend;
                WindowAction::Nothing
            },
            WindowEvent::TrayQuit => WindowAction::Exit,
        }
    }
}

/// The event for the tray menu entry `id` while the window is visible or
/// not: `show` toggles, `quit` quits, any other entry is nothing.
pub fn tray_event(id: &str, visible: bool) -> (r: Option<WindowEvent>)
    ensures
        id@ == "show"@ ==> r == Some(WindowEvent::TrayToggle { visible }),
        id@ == "quit"@ ==> r == Some(WindowEvent::TrayQuit),
        id@ != "show"@ && id@ != "quit"@ ==> r is None,
{
    proof {
        reveal_strlit("show");
        reveal_strlit("quit");
        assert("show"@[0] != "quit"@[0]);
    }
    let v = chars_of(id);
    if same_chars(&v, &chars_of("show")) {
        Some(WindowEvent::TrayToggle { visible })
    } else if same_chars(&v, &chars_of("quit")) {
        Some(WindowEvent::TrayQuit)
    } else {
        None
    }
}

// ---------------------------------------------------------------------------
// Laws
// ---------------------------------------------------------------------------

/// While a system dialog is open (hiding suspended at the page's request),
/// losing focus does not hide the window; once the page resumes hiding,
/// losing focus hides it again.
pub proof fn dialog_suspends_blur_hide(guard: HideGuard)
    ensures
        next_state(
            next_state(guard, WindowEvent::SuspendRequested { suspend: true }).0,
            WindowEvent::FocusLost,
        ).1 == WindowAction::Nothing,
        next_state(
            next_state(guard, WindowEvent::SuspendRequested { suspend: false }).0,
            WindowEvent::FocusLost,
        ).1 == WindowAction::Hide,
{
}

/// When the shortcut shows the window, a grace period starts during which
/// losing focus does not hide it; after the grace period it does.
pub proof fn shortcut_show_has_grace(guard: HideGuard)
    ensures
        next_state(guard, WindowEvent::ShortcutToggled { shown: true }).1 == WindowAction::StartGrace,
        next_state(
            next_state(guard, WindowEvent::ShortcutToggled { shown: true }).0,
            WindowEvent::FocusLost,
        ).1 == WindowAction::Nothing,
        next_state(
            next_state(
                next_state(guard, WindowEvent::ShortcutToggled { shown: true }).0,
                WindowEvent::GraceOver,
            ).0,
            WindowEvent::FocusLost,
        ).1 == WindowAction::Hide,
{
}

/// While hiding on focus loss is suspended, events that leave a grace
/// period running keep it suspended, and every lost focus is answered with
/// nothing.
proof fn lemma_suspended_run(guard: HideGuard, events: Seq<WindowEvent>)
    requires
        guard.suspend_blur_hide,
        forall|i: int| 0 <= i < events.len() ==> keeps_grace(#[trigger] events[i]),
    ensures
        run_events(guard, events).0.suspend_blur_hide,
        run_events(guard, events).1.len() == events.len(),
        forall|i: int|
            0 <= i < events.len() && #[trigger] events[i] == WindowEvent::FocusLost ==> run_events(
                guard,
                events,
            ).1[i] == WindowAction::Nothing,
    decreases events.len(),
{
    if events.len() > 0 {
        let first = next_state(guard, events[0]);
        let tail = events.drop_first();
        assert(keeps_grace(events[0]));
        assert forall|i: int| 0 <= i < tail.len() implies keeps_grace(#[trigger] tail[i]) by {
            assert(tail[i] == events[i + 1]);
        }
        lemma_suspended_run(first.0, tail);
        let rest = run_events(first.0, tail);
        let acts = run_events(guard, events).1;
        assert(acts == seq![first.1] + rest.1);
        assert forall|i: int|
            0 <= i < events.len() && #[trigger] events[i] == WindowEvent::FocusLost implies acts[i]
            == WindowAction::Nothing by {
            if i > 0 {
                assert(tail[i - 1] == events[i]);
                assert(acts[i] == rest.1[i - 1]);
            }
        }
    }
}

/// Once the shortcut has shown the window, no lost focus hides it until the
/// grace period ends: whatever else happens meanwhile (the shortcut or the
/// tray showing it again, a dialog opening), as long as the page does not
/// resume hiding and the shortcut does not hide the window.
pub proof fn no_blur_hide_during_grace(guard: HideGuard, events: Seq<WindowEvent>)
    requires
        forall|i: int| 0 <= i < events.len() ==> keeps_grace(#[trigger] events[i]),
    ensures
        ({
            let shown = next_state(guard, WindowEvent::ShortcutToggled { shown: true }).0;
            let acts = run_events(shown, events).1;
            &&& acts.len() == events.len()
            &&& forall|i: int|
                0 <= i < events.len() && #[trigger] events[i] == WindowEvent::FocusLost
                    ==> acts[i] == WindowAction::Nothing
        }),
{
    lemma_suspended_run(next_state(guard, WindowEvent::ShortcutToggled { shown: true }).0, events);
}

/// An event that only toggles the window: a shortcut press or the tray's
/// show/hide entry.
pub open spec fn is_toggle(e: WindowEvent) -> bool {
    e matches WindowEvent::ShortcutPressed { .. } || e matches WindowEvent::TrayToggle { .. }
}

/// Toggling the window, from the shortcut or the tray, leaves the hiding
/// decisions as they were: after any run of toggles the guard is unchanged,
/// so from a fresh guard a lost focus still hides the window.
pub proof fn toggling_keeps_the_guard(guard: HideGuard, events: Seq<WindowEvent>)
    requires
        forall|i: int| 0 <= i < events.len() ==> is_toggle(#[trigger] events[i]),
    ensures
        run_events(guard, events).0 == guard,
        forall|visible: bool|
            next_state(guard, WindowEvent::ShortcutPressed { visible }).0 == guard
                && next_state(guard, WindowEvent::TrayToggle { visible }).0 == guard,
        !guard.suspend_blur_hide ==> next_state(run_events(guard, events).0, WindowEvent::FocusLost).1
            == WindowAction::Hide,
    decreases events.len(),
{
    if events.len() > 0 {
        let tail = events.drop_first();
        assert(is_toggle(events[0]));
        assert forall|i: int| 0 <= i < tail.len() implies is_toggle(#[trigger] tail[i]) by {
            assert(tail[i] == events[i + 1]);
        }
        toggling_keeps_the_guard(next_state(guard, events[0]).0, tail);
    }
}

/// The shortcut and the tray toggle the same way: a visible window is
/// hidden and a hidden one shown.
pub proof fn shortcut_and_tray_toggle_alike(guard: HideGuard, visible: bool)
    ensures
        next_state(guard, WindowEvent::ShortcutPressed { visible }) == next_state(
            guard,
            WindowEvent::TrayToggle { visible },
        ),
        next_state(guard, WindowEvent::ShortcutPressed { visible: true }).1 == WindowAction::Hide,
        next_state(guard, WindowEvent::ShortcutPressed { visible: false }).1
            == WindowAction::ShowAndFocus,
{
}

} // verus!
