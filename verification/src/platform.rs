//! Platform rules: the accessibility permission that key synthesis needs,
//! the foreground window to hand focus back to, and the About text.
use vstd::prelude::*;
use crate::error::AppError;

verus! {

/// Whether the app may synthesize the paste keystroke, on a platform with no
/// accessibility permission gate (everything but macOS): always.
pub fn accessibility_ok(prompt: bool) -> (ok: bool)
    ensures
        ok,
{
    true
}

/// The error a paste gives when the accessibility permission is missing;
/// the lookup window matches this exact text.
pub open spec fn accessibility_error() -> Seq<char> {
    "accessibility_required"@
}

/// A paste may go ahead only with the accessibility permission.
pub fn check_paste_allowed(trusted: bool) -> (r: Result<(), AppError>)
    ensures
        trusted <==> r is Ok,
        r matches Err(e) ==> e.0@ == accessibility_error(),
{
    if trusted {
        Ok(())
    } else {
        Err(AppError::new("accessibility_required"))
    }
}

/// The window that had focus before the lookup window took it is worth
/// remembering (to give focus back after a paste) unless there was none or
/// it is the lookup window itself.
pub fn should_remember_foreground(prev: isize, ours: isize) -> (b: bool)
    ensures
        b == (prev != 0 && prev != ours),
{
    prev != 0 && prev != ours
}

pub open spec fn about_text(version: Seq<char>) -> Seq<char> {
    "Marie Lookup v"@ + version
        + "\n\nLicensed under the GNU Affero General Public License v3.0 (AGPL-3.0-or-later)."@
}

/// The About box text for app version `version`.
pub fn about_message(version: &str) -> (m: String)
    ensures
        m@ == about_text(version@),
{
    let mut m = String::from_str("Marie Lookup v");
    m.append(version);
    m.append("\n\nLicensed under the GNU Affero General Public License v3.0 (AGPL-3.0-or-later).");
    m
}


pub open spec fn paste_timeout_message() -> Seq<char> {
    "paste keystroke dispatch timed out"@
}

/// The outcome of a paste whose keystroke was handed to the main thread:
/// the hand-off's error if it failed; else the keystroke's own result; or a
/// time-out error when no result came back in time (a paste that did
/// nothing must not look like success).
pub fn paste_outcome(dispatch_error: Option<String>, reply: Option<Result<(), String>>) -> (r: Result<(), AppError>)
    ensures
        match dispatch_error {
            Some(m) => r matches Err(e) && e.0@ == m@,
            None => match reply {
                Some(Ok(())) => r is Ok,
                Some(Err(m)) => r matches Err(e) && e.0@ == m@,
                None => r matches Err(e) && e.0@ == paste_timeout_message(),
            },
        },
{
    match dispatch_error {
        Some(m) => Err(AppError(m)),
        None => match reply {
            Some(Ok(())) => Ok(()),
            Some(Err(m)) => Err(AppError(m)),
            None => Err(AppError::new("paste keystroke dispatch timed out")),
        },
    }
}

} // verus!
