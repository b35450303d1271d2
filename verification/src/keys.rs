//! What a key press does to the menu: edit the typed text, move the
//! selection, or finish with an outcome for the caller to carry out.

use vstd::prelude::*;
use vstd::string::*;
use vstd::utf8::*;

use crate::input::{Input, InputItem, RawValue};
use crate::text::{u8_from_str_radix, u8_radix_spec};

verus! {

/// The keys the menu reacts to; any other key types text.
#[derive(Debug, Clone, Copy, PartialEq, Eq)]
pub enum Key {
    Return,
    BackSpace,
    Escape,
    Right,
    Left,
    Other,
}

/// The X keysym of the Return key.
pub const KEYSYM_RETURN: u32 = 0xff0d;

/// The X keysym of the BackSpace key.
pub const KEYSYM_BACKSPACE: u32 = 0xff08;

/// The X keysym of the Escape key.
pub const KEYSYM_ESCAPE: u32 = 0xff1b;

/// The X keysym of the Right arrow key.
pub const KEYSYM_RIGHT: u32 = 0xff53;

/// The X keysym of the Left arrow key.
pub const KEYSYM_LEFT: u32 = 0xff51;

/// The key a keysym stands for.
pub open spec fn key_for_sym(sym: u32) -> Key {
    if sym == KEYSYM_RETURN {
        Key::Return
    } else if sym == KEYSYM_BACKSPACE {
        Key::BackSpace
    } else if sym == KEYSYM_ESCAPE {
        Key::Escape
    } else if sym == KEYSYM_RIGHT {
        Key::Right
    } else if sym == KEYSYM_LEFT {
        Key::Left
    } else {
        Key::Other
    }
}

/// Tells the keys the menu reacts to from their keysyms; any other keysym
/// is `Key::Other`.
pub fn key_of_sym(sym: u32) -> (key: Key)
    ensures
        key == key_for_sym(sym),
{
    if sym == KEYSYM_RETURN {
        Key::Return
    } else if sym == KEYSYM_BACKSPACE {
        Key::BackSpace
    } else if sym == KEYSYM_ESCAPE {
        Key::Escape
    } else if sym == KEYSYM_RIGHT {
        Key::Right
    } else if sym == KEYSYM_LEFT {
        Key::Left
    } else {
        Key::Other
    }
}

/// How the menu was started.
#[derive(Debug, Clone, Copy)]
pub struct LaunchMode {
    /// Only read a line of input and print it.
    pub input: bool,
    /// The items are programs; run the chosen one.
    pub path_launcher: bool,
    /// Print the chosen item as JSON.
    pub json_out: bool,
}

/// How the menu ends.
#[derive(Debug)]
pub enum Outcome {
    /// Print the typed text and exit successfully.
    PrintInput(String),
    /// Exit successfully without output.
    Quit,
    /// Replace the process with the program at this path.
    Launch(String),
    /// The chosen item has no program path: report it and exit with failure.
    NotLaunchable,
    /// Print the chosen item as JSON and exit successfully.
    PrintJson(InputItem),
    /// Print the payload of the chosen item and exit successfully.
    PrintRaw(RawValue),
}

/// The outcome of choosing the item at `index` of the shown list.
pub open spec fn chosen_outcome_is(
    out: Outcome,
    inp: Input,
    mode: LaunchMode,
    index: int,
) -> bool {
    if mode.input {
        out matches Outcome::PrintInput(s) && s@ == inp.typed()
    } else if !(0 <= index < inp.shown().len()) {
        out matches Outcome::Quit
    } else if mode.path_launcher {
        match inp.shown()[index].raw_value() {
            RawValue::Text(p) => out == Outcome::Launch(p),
            RawValue::Json(_) => out matches Outcome::NotLaunchable,
        }
    } else if mode.json_out {
        out == Outcome::PrintJson(inp.shown()[index])
    } else {
        out == Outcome::PrintRaw(inp.shown()[index].raw_value())
    }
}

/// Chooses the item at `index` of the shown list.
pub fn execute(inp: &Input, mode: &LaunchMode, index: usize) -> (out: Outcome)
    ensures
        chosen_outcome_is(out, *inp, *mode, index as int),
{
    if mode.input {
        return Outcome::PrintInput(inp.input().to_owned());
    }
    let items = inp.filtered_inputs();
    if index >= items.len() {
        return Outcome::Quit;
    }
    let result = &items[index];
    if mode.path_launcher {
        return match result.raw() {
            RawValue::Text(raw) => Outcome::Launch(raw.clone()),
            RawValue::Json(_) => Outcome::NotLaunchable,
        };
    }
    if mode.json_out {
        return Outcome::PrintJson(result.clone());
    }
    Outcome::PrintRaw(result.raw().clone())
}

/// The item a digit chooses with Alt held: 1 to 9 pick the first to the
/// ninth item from the selection on, 0 the tenth.
pub open spec fn digit_offset(digit: u8) -> int {
    if digit == 0 {
        9
    } else {
        digit - 1
    }
}

/// What one key press does, from the state `before` to the state `after`
/// with outcome `out`: Return chooses the selected item, BackSpace deletes a
/// character, Escape quits, Right and Left move the selection; any other key
/// chooses an item when Alt is held and its text is a decimal number that
/// fits in a byte, and types its text otherwise.
pub open spec fn key_handled(
    before: Input,
    after: Input,
    mode: LaunchMode,
    key: Key,
    alt_pressed: bool,
    text: Seq<char>,
    out: Option<Outcome>,
) -> bool {
    &&& key == Key::Return ==> {
        &&& out matches Some(o)
        &&& chosen_outcome_is(o, before, mode, before.selected() as int)
        &&& after == before
    }
    &&& key == Key::Escape ==> (out matches Some(Outcome::Quit)) && after == before
    &&& key == Key::BackSpace ==> out is None && after.pop_post(before)
    &&& key == Key::Right ==> out is None && after.move_right_post(before)
    &&& key == Key::Left ==> out is None && after.move_left_post(before)
    &&& key == Key::Other ==> match u8_radix_spec(encode_utf8(text), 10) {
        Some(digit) if alt_pressed => {
            &&& out matches Some(o)
            &&& chosen_outcome_is(o, before, mode, before.selected() + digit_offset(digit))
            &&& after == before
        },
        _ => out is None && after.push_post(before, text),
    }
}

/// The key press would overflow: Right with the selection at the largest
/// `u32`, or Alt and a digit choosing past the largest `usize`.
pub open spec fn key_overflows(before: Input, key: Key, alt_pressed: bool, text: Seq<char>) -> bool {
    ||| key == Key::Right && before.selected() == u32::MAX
    ||| key == Key::Other && alt_pressed && match u8_radix_spec(encode_utf8(text), 10) {
        Some(digit) => before.selected() + digit_offset(digit) > usize::MAX,
        None => false,
    }
}

/// The named keys: Return chooses the selected item and Escape quits, both
/// ending the menu with the state as it was; BackSpace deletes the last
/// typed character, Right and Left move the selection, none of them ending
/// the menu. Alt and the key's text change none of this.
pub proof fn lemma_named_keys(
    before: Input,
    after: Input,
    mode: LaunchMode,
    key: Key,
    alt_pressed: bool,
    text: Seq<char>,
    out: Option<Outcome>,
)
    requires
        key_handled(before, after, mode, key, alt_pressed, text, out),
    ensures
        key == Key::Return ==> after == before && (out matches Some(o) && chosen_outcome_is(
            o,
            before,
            mode,
            before.selected() as int,
        )),
        key == Key::Escape ==> after == before && out == Some(Outcome::Quit),
        key == Key::BackSpace ==> out is None && after.pop_post(before),
        key == Key::Right ==> out is None && after.move_right_post(before),
        key == Key::Left ==> out is None && after.move_left_post(before),
        key != Key::Other ==> (key == Key::Right && before.selected() == u32::MAX) == key_overflows(
            before,
            key,
            alt_pressed,
            text,
        ),
{
}

/// Without Alt, a key other than Return, BackSpace, Escape, Right and Left
/// always types its text, digits included: no outcome, the text appended
/// to what was typed, and never an overflow.
pub proof fn lemma_plain_key_types(
    before: Input,
    after: Input,
    mode: LaunchMode,
    text: Seq<char>,
    out: Option<Outcome>,
)
    requires
        key_handled(before, after, mode, Key::Other, false, text, out),
    ensures
        out is None,
        after.push_post(before, text),
        !key_overflows(before, Key::Other, false, text),
{
}

/// With Alt held, a key whose text is a decimal number below 256 chooses
/// the item that many places from the selection (0 standing for ten) and
/// leaves the state as it was; any other text is typed.
pub proof fn lemma_alt_digit_chooses(
    before: Input,
    after: Input,
    mode: LaunchMode,
    text: Seq<char>,
    out: Option<Outcome>,
)
    requires
        key_handled(before, after, mode, Key::Other, true, text, out),
    ensures
        match u8_radix_spec(encode_utf8(text), 10) {
            Some(d) => out matches Some(o) && after == before && chosen_outcome_is(
                o,
                before,
                mode,
                before.selected() + if d == 0 {
                    9
                } else {
                    d - 1
                },
            ),
            None => out is None && after.push_post(before, text),
        },
{
}

/// Handles one key press as `key_handled` says. Returns the outcome when
/// the key ends the menu.
pub fn handle_key(inp: &mut Input, mode: &LaunchMode, key: Key, alt_pressed: bool, text: &str) -> (out:
    Option<Outcome>)
    requires
        !key_overflows(*old(inp), key, alt_pressed, text@),
    ensures
        key_handled(*old(inp), *final(inp), *mode, key, alt_pressed, text@, out),
{
    match key {
        Key::Return => Some(execute(inp, mode, inp.selected_index() as usize)),
        Key::BackSpace => {
            inp.pop();
            None
        },
        Key::Escape => Some(Outcome::Quit),
        Key::Right => {
            inp.move_right();
            None
        },
        Key::Left => {
            inp.move_left();
            None
        },
        Key::Other => {
            if alt_pressed {
                if let Ok(digit) = u8_from_str_radix(text, 10) {
                    let mapped: u8 = if digit == 0 {
                        9
                    } else {
                        digit - 1
                    };
                    return Some(
                        execute(inp, mode, inp.selected_index() as usize + mapped as usize),
                    );
                }
            }
            inp.push(text);
            None
        },
    }
}

/// Handles a key press given by its keysym, whether Alt is held and the
/// text it types: `None`, with the state unchanged, where the press would
/// overflow (`key_overflows`), and otherwise `Some` of what `handle_key`
/// gives for the key of the keysym.
pub fn handle_key_press(inp: &mut Input, mode: &LaunchMode, sym: u32, alt_pressed: bool, text: &str) -> (r:
    Option<Option<Outcome>>)
    ensures
        key_overflows(*old(inp), key_for_sym(sym), alt_pressed, text@) <==> r is None,
        r is None ==> *final(inp) == *old(inp),
        r matches Some(out) ==> key_handled(
            *old(inp),
            *final(inp),
            *mode,
            key_for_sym(sym),
            alt_pressed,
            text@,
            out,
        ),
{
    let key = key_of_sym(sym);
    let selected = inp.selected_index();
    if matches!(key, Key::Right) && selected == u32::MAX {
        return None;
    }
    if matches!(key, Key::Other) && alt_pressed {
        if let Ok(digit) = u8_from_str_radix(text, 10) {
            let offset: usize = if digit == 0 {
                9
            } else {
                (digit - 1) as usize
            };
            if selected as usize > usize::MAX - offset {
                return None;
            }
        }
    }
    Some(handle_key(inp, mode, key, alt_pressed, text))
}

} // verus!
