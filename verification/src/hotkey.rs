//! The global lookup hotkey: the default combo, the order in which combos
//! are tried at launch, and when a requested combo is already active.
use vstd::prelude::*;

verus! {

/// The default hotkey, in accelerator syntax. `Super` is the Cmd/Win key.
/// Deliberately not Cmd+Space (Spotlight) or Cmd+Shift+Space.
pub open spec fn default_hotkey_text(macos: bool) -> Seq<char> {
    if macos {
        "Super+Alt+M"@
    } else {
        "Control+Alt+M"@
    }
}

/// The default hotkey on macOS (`macos`) or elsewhere.
pub fn default_hotkey(macos: bool) -> (h: &'static str)
    ensures
        h@ == default_hotkey_text(macos),
{
    if macos {
        "Super+Alt+M"
    } else {
        "Control+Alt+M"
    }
}

/// The combos tried at launch, in order: the stored one if any, then the
/// default unless it was the stored one.
pub open spec fn hotkey_candidate_texts(stored: Option<Seq<char>>, default: Seq<char>) -> Seq<Seq<char>> {
    match stored {
        Some(s) => if s == default {
            seq![s]
        } else {
            seq![s, default]
        },
        None => seq![default],
    }
}

/// The combos to try registering at launch, first to last.
pub fn hotkey_candidates(stored: Option<String>, default: &str) -> (c: Vec<String>)
    ensures
        c@.map_values(|s: String| s@) == hotkey_candidate_texts(
            match stored {
                Some(s) => Some(s@),
                None => None,
            },
            default@,
        ),
{
    let d = String::from_str(default);
    let mut c: Vec<String> = Vec::new();
    match stored {
        Some(s) => {
            let same = s == d;
            c.push(s);
            if !same {
                c.push(d);
            }
        },
        None => {
            c.push(d);
        },
    }
    assert(c@.map_values(|s: String| s@) =~= hotkey_candidate_texts(
        match stored {
            Some(s) => Some(s@),
            None => None,
        },
        default@,
    ));
    c
}

/// The requested combo is the active one, so there is nothing to register.
pub fn hotkey_already_active(current: &Option<String>, requested: &str) -> (same: bool)
    ensures
        same == match current {
            Some(c) => c@ == requested@,
            None => false,
        },
{
    match current {
        Some(c) => *c == String::from_str(requested),
        None => false,
    }
}

} // verus!
