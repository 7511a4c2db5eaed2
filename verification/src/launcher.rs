//! The decisions of the launcher window, the tray menu and the hand-back to
//! the previously active application. The window system, the tray and the
//! scripting host carry them out.

use vstd::prelude::*;

use crate::text::{trim, trimmed};

verus! {

/// The label of the launcher window.
pub const MAIN_WINDOW_LABEL: &'static str = "main";

/// The label of the release notes window.
pub const RELEASE_NOTES_WINDOW_LABEL: &'static str = "release-notes";

/// The id of the menu bar icon.
pub const TRAY_ICON_ID: &'static str = "snipjar-menu-bar";

/// The id of the tray menu item that shows the launcher.
pub const TRAY_SHOW_MENU_ID: &'static str = "tray-show";

/// The id of the tray menu item that opens the release notes.
pub const TRAY_RELEASE_NOTES_MENU_ID: &'static str = "tray-release-notes";

/// The id of the tray menu item that quits the application.
pub const TRAY_QUIT_MENU_ID: &'static str = "tray-quit";

/// Whether two strings have the same characters.
fn same_text(a: &str, b: &str) -> (r: bool)
    ensures
        r == (a@ == b@),
{
    String::from_str(a) == String::from_str(b)
}

/// The greeting for `name`.
pub fn greet(name: &str) -> (out: String)
    ensures
        out@ == "Hello, "@ + name@ + "! You've been greeted from Rust!"@,
{
    let mut out = String::from_str("Hello, ");
    out.append(name);
    out.append("! You've been greeted from Rust!");
    out
}

/// What the launcher shortcut does to the launcher window.
#[derive(Debug, Clone, Copy, PartialEq, Eq, Structural)]
pub enum LauncherToggle {
    Hide,
    Show,
}

/// The shortcut hides the launcher when it is visible and focused, and shows
/// it otherwise.
pub fn toggle_launcher_action(visible: bool, focused: bool) -> (r: LauncherToggle)
    ensures
        r == (if visible && focused {
            LauncherToggle::Hide
        } else {
            LauncherToggle::Show
        }),
{
    if visible && focused {
        LauncherToggle::Hide
    } else {
        LauncherToggle::Show
    }
}

/// Whether the window labelled `window_label` is the launcher window, whose
/// close requests hide it instead while the application is not quitting.
pub fn is_launcher_window(window_label: &str) -> (r: bool)
    ensures
        r == (window_label@ == MAIN_WINDOW_LABEL@),
{
    same_text(window_label, MAIN_WINDOW_LABEL)
}

/// What a tray menu item does.
#[derive(Debug, Clone, Copy, PartialEq, Eq, Structural)]
pub enum TrayAction {
    ShowLauncher,
    OpenReleaseNotes,
    Quit,
}

/// The action of the tray menu item `menu_id`, or none for an unknown item.
pub fn tray_menu_action(menu_id: &str) -> (r: Option<TrayAction>)
    ensures
        r == (if menu_id@ == TRAY_SHOW_MENU_ID@ {
            Some(TrayAction::ShowLauncher)
        } else if menu_id@ == TRAY_RELEASE_NOTES_MENU_ID@ {
            Some(TrayAction::OpenReleaseNotes)
        } else if menu_id@ == TRAY_QUIT_MENU_ID@ {
            Some(TrayAction::Quit)
        } else {
            None
        }),
{
    if same_text(menu_id, TRAY_SHOW_MENU_ID) {
        Some(TrayAction::ShowLauncher)
    } else if same_text(menu_id, TRAY_RELEASE_NOTES_MENU_ID) {
        Some(TrayAction::OpenReleaseNotes)
    } else if same_text(menu_id, TRAY_QUIT_MENU_ID) {
        Some(TrayAction::Quit)
    } else {
        None
    }
}

/// The application to remember or to hand back to: `candidate`, unless it is
/// this application itself (whose bundle identifier is `own_identifier`).
pub fn other_application(candidate: Option<String>, own_identifier: &str) -> (r: Option<String>)
    ensures
        match candidate {
            Some(id) => if id@ == own_identifier@ {
                r is None
            } else {
                r matches Some(x) && x@ == id@
            },
            None => r is None,
        },
{
    match candidate {
        Some(id) => {
            if same_text(id.as_str(), own_identifier) {
                None
            } else {
                Some(id)
            }
        },
        None => None,
    }
}

/// The bundle identifier of the frontmost application, from the output of
/// the script that asks for it: none when the script failed or printed
/// nothing.
pub fn current_frontmost_application_bundle_id(script_output: Result<String, String>) -> (r:
    Option<String>)
    ensures
        match script_output {
            Ok(id) => if id@.len() == 0 {
                r is None
            } else {
                r matches Some(x) && x@ == id@
            },
            Err(_) => r is None,
        },
{
    match script_output {
        Ok(id) => {
            if id.as_str().is_empty() {
                None
            } else {
                Some(id)
            }
        },
        Err(_) => None,
    }
}

/// The script that brings the application `bundle_id` to the front.
pub fn activation_script(bundle_id: &str) -> (out: String)
    ensures
        out@ == "tell application id \""@ + bundle_id@ + "\" to activate"@,
{
    let mut out = String::from_str("tell application id \"");
    out.append(bundle_id);
    out.append("\" to activate");
    out
}

/// The outcome of running a script, from whether it succeeded, the text of
/// its exit status and what it printed: the trimmed output on success; on
/// failure the trimmed error output, or a note of the exit status when the
/// error output is blank.
pub fn script_outcome(success: bool, status: &str, stdout: &str, stderr: &str) -> (r: Result<
    String,
    String,
>)
    ensures
        success ==> (r matches Ok(out) && out@ == trimmed(stdout@)),
        !success && trimmed(stderr@).len() == 0 ==> (r matches Err(e) && e@
            == "osascript failed with status "@ + status@),
        !success && trimmed(stderr@).len() > 0 ==> (r matches Err(e) && e@ == trimmed(stderr@)),
{
    if !success {
        let error_text = trim(stderr);
        if error_text.as_str().is_empty() {
            let mut note = String::from_str("osascript failed with status ");
            note.append(status);
            return Err(note);
        }
        return Err(error_text);
    }
    Ok(trim(stdout))
}

} // verus!
