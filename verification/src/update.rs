//! Where the program looks for its own updates.

use vstd::prelude::*;

verus! {

/// The description of the latest release.
pub const ENDPOINT: &'static str =
    "https://github.com/IgorVaryvoda/imageguide-desktop/releases/latest/download/latest.json";

/// What came of looking for an update.
#[derive(Debug)]
pub enum Checked {
    Installed,
    /// It was found and could not be installed, and why.
    NotInstalled(String),
    UpToDate,
    /// It could not be looked for, and why.
    NotChecked(String),
}

/// The line printed about an update, where there is something to say.
pub fn update_line(checked: &Checked) -> (out: Option<String>)
    ensures
        match *checked {
            Checked::Installed => out is Some && out->0@
                == "imageguide: installed update; restart to use it"@,
            Checked::NotInstalled(error) => out is Some && out->0@
                == "imageguide: could not install update: "@ + error@,
            Checked::UpToDate => out is None,
            Checked::NotChecked(error) => out is Some && out->0@
                == "imageguide: could not check for updates: "@ + error@,
        },
{
    match checked {
        Checked::Installed => Some("imageguide: installed update; restart to use it".to_string()),
        Checked::NotInstalled(error) => Some(
            crate::text::glued("imageguide: could not install update: ", error.as_str()),
        ),
        Checked::UpToDate => None,
        Checked::NotChecked(error) => Some(
            crate::text::glued("imageguide: could not check for updates: ", error.as_str()),
        ),
    }
}

} // verus!
