//! What a press on the keyboard means in each view.

use crate::audit;
use crate::audit::{Audit, Opening, Sampling};
use crate::text::same;
use vstd::prelude::*;

verus! {

/// The keys held while another is pressed.
#[derive(Clone, Copy, Debug, Default, PartialEq, Eq, Structural)]
pub struct Modifiers {
    pub control: bool,
    pub alt: bool,
    pub shift: bool,
    pub platform: bool,
    pub function: bool,
}

impl Modifiers {
    /// Any of them is held.
    pub open spec fn any(self) -> bool {
        self.control || self.alt || self.shift || self.platform || self.function
    }

    /// Whether any of them is held.
    pub fn modified(&self) -> (out: bool)
        ensures
            out == self.any(),
    {
        self.control || self.alt || self.shift || self.platform || self.function
    }
}

/// Whether a press belongs to a checkbox: space or enter, with nothing held.
pub fn is_checkbox_activation_key(key: &str, modifiers: Modifiers) -> (out: bool)
    ensures
        out == ((key@ == "space"@ || key@ == "enter"@) && !modifiers.any()),
{
    (same(key, "space") || same(key, "enter")) && !modifiers.modified()
}

/// What a key means while the list is shown.
#[derive(Clone, Copy, Debug, PartialEq, Eq, Structural)]
pub enum ListKey {
    /// Move the cursor by so many rows.
    Step(isize),
    /// Move the cursor one tile, forward or back.
    Lateral(bool),
    /// Put the list down.
    Clear,
    /// Tick everything on screen.
    All,
    Settings,
    Toggle,
    Open,
    Nothing,
}

/// What a key means while the list is shown.
pub open spec fn list_meaning(key: Seq<char>, modifiers: Modifiers) -> ListKey {
    let command = modifiers.control || modifiers.platform;
    if key == "down"@ {
        ListKey::Step(1)
    } else if key == "up"@ {
        ListKey::Step((-1) as isize)
    } else if key == "left"@ {
        ListKey::Lateral(false)
    } else if key == "right"@ {
        ListKey::Lateral(true)
    } else if key == "pagedown"@ {
        ListKey::Step(10)
    } else if key == "pageup"@ {
        ListKey::Step((-10) as isize)
    } else if key == "home"@ {
        ListKey::Step((isize::MIN / 2) as isize)
    } else if key == "end"@ {
        ListKey::Step((isize::MAX / 2) as isize)
    } else if key == "escape"@ {
        ListKey::Clear
    } else if key == "a"@ && command {
        ListKey::All
    } else if key == ","@ && command {
        ListKey::Settings
    } else if key == "space"@ {
        ListKey::Toggle
    } else if key == "enter"@ {
        ListKey::Open
    } else {
        ListKey::Nothing
    }
}

/// What a key means while the list is shown.
pub fn list_key(key: &str, modifiers: Modifiers) -> (out: ListKey)
    ensures
        out == list_meaning(key@, modifiers),
{
    let command = modifiers.control || modifiers.platform;
    if same(key, "down") {
        ListKey::Step(1)
    } else if same(key, "up") {
        ListKey::Step(-1)
    } else if same(key, "left") {
        ListKey::Lateral(false)
    } else if same(key, "right") {
        ListKey::Lateral(true)
    } else if same(key, "pagedown") {
        ListKey::Step(10)
    } else if same(key, "pageup") {
        ListKey::Step(-10)
    } else if same(key, "home") {
        ListKey::Step(isize::MIN / 2)
    } else if same(key, "end") {
        ListKey::Step(isize::MAX / 2)
    } else if same(key, "escape") {
        ListKey::Clear
    } else if same(key, "a") && command {
        ListKey::All
    } else if same(key, ",") && command {
        ListKey::Settings
    } else if same(key, "space") {
        ListKey::Toggle
    } else if same(key, "enter") {
        ListKey::Open
    } else {
        ListKey::Nothing
    }
}

/// What a press in the list comes to.
pub enum Pressed {
    Nothing,
    /// Samples are asked for, where there is something to sample.
    Picked(Option<Sampling>),
    Opened(Opening),
    OpenSettings,
}

/// What a key means while a comparison is open.
#[derive(Clone, Copy, Debug, PartialEq, Eq, Structural)]
pub enum CompareKey {
    Close,
    /// To the next image, or to the one before.
    Step(bool),
    /// Show the whole image.
    Fit,
    /// Show one pixel of the image per pixel of the screen.
    Actual,
    Nothing,
}

/// What a key means while a comparison is open.
pub open spec fn compare_meaning(key: Seq<char>) -> CompareKey {
    if key == "escape"@ {
        CompareKey::Close
    } else if key == "right"@ || key == "down"@ {
        CompareKey::Step(true)
    } else if key == "left"@ || key == "up"@ {
        CompareKey::Step(false)
    } else if key == "f"@ {
        CompareKey::Fit
    } else if key == "1"@ {
        CompareKey::Actual
    } else {
        CompareKey::Nothing
    }
}

/// What a key means while a comparison is open.
pub fn compare_key(key: &str) -> (out: CompareKey)
    ensures
        out == compare_meaning(key@),
{
    if same(key, "escape") {
        CompareKey::Close
    } else if same(key, "right") || same(key, "down") {
        CompareKey::Step(true)
    } else if same(key, "left") || same(key, "up") {
        CompareKey::Step(false)
    } else if same(key, "f") {
        CompareKey::Fit
    } else if same(key, "1") {
        CompareKey::Actual
    } else {
        CompareKey::Nothing
    }
}

/// How many fields the settings form has.
pub const FIELDS: usize = 2;

/// What a key means while the settings form is open.
#[derive(Clone, Copy, Debug, PartialEq, Eq, Structural)]
pub enum FormKey {
    Close,
    /// Type into this field from now on.
    Focus(usize),
    Nothing,
}

/// What a key means while the settings form is open with the field `focus` chosen: tab
/// goes round the fields, backwards with shift held.
pub fn form_key(key: &str, modifiers: Modifiers, focus: usize) -> (out: FormKey)
    requires
        focus < FIELDS,
    ensures
        out == if key@ == "escape"@ {
            FormKey::Close
        } else if key@ == "tab"@ {
            FormKey::Focus(
                ((if modifiers.shift {
                    focus - 1
                } else {
                    focus + 1
                }) % (FIELDS as int)) as usize,
            )
        } else {
            FormKey::Nothing
        },
{
    if same(key, "escape") {
        FormKey::Close
    } else if same(key, "tab") {
        let step: usize = if modifiers.shift {
            FIELDS - 1
        } else {
            1
        };
        FormKey::Focus((focus + step) % FIELDS)
    } else {
        FormKey::Nothing
    }
}

impl Audit {
    /// A key is pressed while the list is shown. Shift turns any move into a selection
    /// drag from the anchor.
    pub fn press(&mut self, key: &str, modifiers: Modifiers) -> (out: Pressed)
        requires
            old(self).sound(),
        ensures
            final(self).sound(),
            match list_meaning(key@, modifiers) {
                ListKey::Step(delta) => {
                    &&& out matches Pressed::Picked(sampling)
                    &&& audit::is_stepped(
                        *old(self),
                        *final(self),
                        delta as int,
                        modifiers.shift,
                        sampling,
                    )
                },
                ListKey::Lateral(forward) => {
                    &&& out matches Pressed::Picked(sampling)
                    &&& audit::is_stepped(
                        *old(self),
                        *final(self),
                        if forward {
                            1
                        } else {
                            -1
                        },
                        modifiers.shift,
                        sampling,
                    )
                },
                ListKey::Clear => {
                    &&& out matches Pressed::Picked(sampling)
                    &&& audit::is_put_down(*old(self), *final(self), sampling)
                },
                ListKey::All => {
                    &&& out matches Pressed::Picked(sampling)
                    &&& audit::is_all_ticked(*old(self), *final(self), sampling)
                },
                ListKey::Toggle => {
                    &&& out matches Pressed::Picked(sampling)
                    &&& audit::is_ticked_at_cursor(*old(self), *final(self), sampling)
                },
                ListKey::Open => if old(self).converting || old(self).visible@.len() == 0 {
                    *final(self) == *old(self) && out is Nothing
                } else {
                    &&& out matches Pressed::Opened(opening)
                    &&& audit::is_opened(
                        *old(self),
                        *final(self),
                        old(self).visible@[old(self).cursor as int],
                        opening,
                    )
                },
                ListKey::Settings => *final(self) == *old(self) && out is OpenSettings,
                ListKey::Nothing => *final(self) == *old(self) && out is Nothing,
            },
    {
        match list_key(key, modifiers) {
            ListKey::Step(delta) => Pressed::Picked(self.step_cursor(delta, modifiers.shift)),
            ListKey::Lateral(forward) => Pressed::Picked(
                self.step_cursor_lateral(forward, modifiers.shift),
            ),
            ListKey::Clear => Pressed::Picked(self.clear_selection()),
            ListKey::All => Pressed::Picked(self.select_all()),
            ListKey::Toggle => Pressed::Picked(self.toggle_cursor_selection()),
            ListKey::Open => {
                if self.converting {
                    return Pressed::Nothing;
                }
                match self.entry_at(self.cursor) {
                    Some(entry) => Pressed::Opened(self.open_compare(entry)),
                    None => Pressed::Nothing,
                }
            },
            ListKey::Settings => Pressed::OpenSettings,
            ListKey::Nothing => Pressed::Nothing,
        }
    }

    /// A key is pressed while a comparison is open: what it means, and what stepping to
    /// another image asks for. Fitting and actual size are the drawing's affair.
    pub fn press_compare(&mut self, key: &str) -> (out: (CompareKey, Opening))
        requires
            old(self).sound(),
        ensures
            final(self).sound(),
            out.0 == compare_meaning(key@),
            match out.0 {
                CompareKey::Close => *final(self) == (Audit { compare: None, ..*old(self) })
                    && out.1 is Nothing,
                CompareKey::Step(forward) => audit::is_compare_stepped(
                    *old(self),
                    *final(self),
                    forward,
                    out.1,
                ),
                _ => *final(self) == *old(self) && out.1 is Nothing,
            },
    {
        let meaning = compare_key(key);
        let opening = match meaning {
            CompareKey::Close => {
                self.close_compare();
                Opening::Nothing
            },
            CompareKey::Step(forward) => self.step_compare(forward),
            _ => Opening::Nothing,
        };
        (meaning, opening)
    }
}

/// Home reaches the first row and end the last, in any list that is no longer than half
/// of what can be counted.
pub proof fn law_home_and_end_reach_the_ends(cursor: usize, rows: nat, modifiers: Modifiers)
    requires
        cursor < rows,
        rows <= isize::MAX / 2,
    ensures
        list_meaning("home"@, modifiers) matches ListKey::Step(home) && audit::moved(
            cursor,
            home as int,
            rows,
        ) == 0,
        list_meaning("end"@, modifiers) matches ListKey::Step(end) && audit::moved(
            cursor,
            end as int,
            rows,
        ) == rows - 1,
{
    reveal_strlit("home");
    reveal_strlit("end");
    reveal_strlit("down");
    reveal_strlit("up");
    reveal_strlit("left");
    reveal_strlit("right");
    reveal_strlit("pagedown");
    reveal_strlit("pageup");
    assert("home"@.len() == 4 && "down"@.len() == 4 && "left"@.len() == 4);
    assert("home"@[0] == 'h' && "down"@[0] == 'd' && "left"@[0] == 'l');
    assert("end"@.len() == 3 && "up"@.len() == 2 && "right"@.len() == 5);
    assert("pagedown"@.len() == 8 && "pageup"@.len() == 6);
}

/// The arrows move one row, the page keys ten, and each pair in opposite directions, whatever
/// is held. Ticking everything and the settings need the command key.
pub proof fn law_keys_come_in_pairs(modifiers: Modifiers)
    ensures
        list_meaning("down"@, modifiers) == ListKey::Step(1),
        list_meaning("up"@, modifiers) == ListKey::Step((-1) as isize),
        list_meaning("pagedown"@, modifiers) == ListKey::Step(10),
        list_meaning("pageup"@, modifiers) == ListKey::Step((-10) as isize),
        list_meaning("right"@, modifiers) == ListKey::Lateral(true),
        list_meaning("left"@, modifiers) == ListKey::Lateral(false),
        list_meaning("escape"@, modifiers) is Clear,
        list_meaning("space"@, modifiers) is Toggle,
        list_meaning("enter"@, modifiers) is Open,
        list_meaning("a"@, modifiers) is All <==> modifiers.control || modifiers.platform,
        list_meaning(","@, modifiers) is Settings <==> modifiers.control || modifiers.platform,
        compare_meaning("right"@) == CompareKey::Step(true),
        compare_meaning("down"@) == CompareKey::Step(true),
        compare_meaning("left"@) == CompareKey::Step(false),
        compare_meaning("up"@) == CompareKey::Step(false),
        compare_meaning("escape"@) is Close,
        compare_meaning("f"@) is Fit,
        compare_meaning("1"@) is Actual,
{
    reveal_strlit("down");
    reveal_strlit("up");
    reveal_strlit("left");
    reveal_strlit("right");
    reveal_strlit("pagedown");
    reveal_strlit("pageup");
    reveal_strlit("home");
    reveal_strlit("end");
    reveal_strlit("escape");
    reveal_strlit("space");
    reveal_strlit("enter");
    reveal_strlit("a");
    reveal_strlit(",");
    reveal_strlit("f");
    reveal_strlit("1");
    assert("down"@[0] == 'd' && "up"@[0] == 'u' && "left"@[0] == 'l' && "right"@[0] == 'r');
    assert("pagedown"@[4] == 'd' && "pageup"@[4] == 'u');
    assert("pagedown"@[0] == 'p' && "pageup"@[0] == 'p' && "home"@[0] == 'h');
    assert("end"@[1] == 'n' && "escape"@[1] == 's' && "enter"@[1] == 'n');
    assert("end"@[0] == 'e' && "escape"@[0] == 'e' && "enter"@[0] == 'e' && "space"@[0] == 's');
    assert("end"@.len() == 3 && "enter"@.len() == 5);
    assert("a"@[0] == 'a' && ","@[0] == ',' && "f"@[0] == 'f' && "1"@[0] == '1');
}

/// A press is modified just where at least one modifier is held.
pub proof fn law_each_modifier_counts(modifiers: Modifiers)
    ensures
        modifiers.control || modifiers.alt || modifiers.shift || modifiers.platform
            || modifiers.function ==> modifiers.any(),
        !modifiers.control && !modifiers.alt && !modifiers.shift && !modifiers.platform
            && !modifiers.function ==> !modifiers.any(),
{
}

} // verus!
