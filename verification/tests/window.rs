use float_read::window::{tray_event, HideGuard, WindowAction, WindowEvent, GRACE_MILLIS};

#[test]
fn shortcut_toggles_and_starts_a_grace_period() {
    let mut g = HideGuard::new();
    assert_eq!(g.step(WindowEvent::ShortcutPressed { visible: true }), WindowAction::Hide);
    assert_eq!(g.step(WindowEvent::ShortcutToggled { shown: false }), WindowAction::Nothing);
    assert!(!g.suspend_blur_hide);
    assert_eq!(g.step(WindowEvent::ShortcutPressed { visible: false }), WindowAction::ShowAndFocus);
    assert_eq!(g.step(WindowEvent::ShortcutToggled { shown: true }), WindowAction::StartGrace);
    assert_eq!(g.step(WindowEvent::FocusLost), WindowAction::Nothing);
    assert_eq!(g.step(WindowEvent::GraceOver), WindowAction::Nothing);
    assert_eq!(g.step(WindowEvent::FocusLost), WindowAction::Hide);
    assert_eq!(GRACE_MILLIS, 350);
}

#[test]
fn dialogs_suspend_hiding_on_focus_loss() {
    let mut g = HideGuard::new();
    assert_eq!(g.step(WindowEvent::FocusLost), WindowAction::Hide);
    assert_eq!(g.step(WindowEvent::SuspendRequested { suspend: true }), WindowAction::Nothing);
    assert_eq!(g.step(WindowEvent::FocusLost), WindowAction::Nothing);
    assert_eq!(g.step(WindowEvent::SuspendRequested { suspend: false }), WindowAction::Nothing);
    assert_eq!(g.step(WindowEvent::FocusLost), WindowAction::Hide);
}

#[test]
fn tray_menu_entries() {
    let mut g = HideGuard::new();
    assert_eq!(tray_event("show", true), Some(WindowEvent::TrayToggle { visible: true }));
    assert_eq!(tray_event("quit", false), Some(WindowEvent::TrayQuit));
    assert_eq!(tray_event("other", false), None);
    assert_eq!(g.step(WindowEvent::TrayToggle { visible: false }), WindowAction::ShowAndFocus);
    assert!(!g.suspend_blur_hide);
    assert_eq!(g.step(WindowEvent::TrayQuit), WindowAction::Exit);
}

#[test]
fn no_blur_hide_during_the_grace_period() {
    let mut g = HideGuard::new();
    assert_eq!(g.step(WindowEvent::ShortcutToggled { shown: true }), WindowAction::StartGrace);
    for e in [
        WindowEvent::FocusLost,
        WindowEvent::TrayToggle { visible: true },
        WindowEvent::SuspendRequested { suspend: true },
        WindowEvent::FocusLost,
        WindowEvent::ShortcutToggled { shown: true },
        WindowEvent::FocusLost,
    ] {
        let a = g.step(e);
        if e == WindowEvent::FocusLost {
            assert_eq!(a, WindowAction::Nothing);
        }
    }
    assert_eq!(g.step(WindowEvent::GraceOver), WindowAction::Nothing);
    assert_eq!(g.step(WindowEvent::FocusLost), WindowAction::Hide);
}
