use kymenu::input::{Input, InputItem, InputItems, RawValue};
use kymenu::keys::{execute, handle_key, handle_key_press, key_of_sym, Key, LaunchMode, Outcome};
use xkeysym::key as keysyms;

fn menu() -> Input {
    Input::new(InputItems(vec![
        InputItem::new("bash".to_string(), RawValue::Text("/bin/bash".to_string())),
        InputItem::new("cat".to_string(), RawValue::Json("42".to_string())),
        InputItem::new("dash".to_string(), RawValue::Text("/bin/dash".to_string())),
    ]))
}

const PLAIN: LaunchMode = LaunchMode {
    input: false,
    path_launcher: false,
    json_out: false,
};

#[test]
fn return_prints_the_selected_raw_value() {
    let mut inp = menu();
    match handle_key(&mut inp, &PLAIN, Key::Return, false, "") {
        Some(Outcome::PrintRaw(RawValue::Text(s))) => assert_eq!(s, "/bin/bash"),
        other => panic!("unexpected {:?}", other),
    }
}

#[test]
fn json_payload_is_printed_as_json_text() {
    let mut inp = menu();
    handle_key(&mut inp, &PLAIN, Key::Right, false, "");
    match handle_key(&mut inp, &PLAIN, Key::Return, false, "") {
        Some(Outcome::PrintRaw(RawValue::Json(s))) => assert_eq!(s, "42"),
        other => panic!("unexpected {:?}", other),
    }
}

#[test]
fn input_mode_prints_the_typed_text() {
    let mode = LaunchMode { input: true, ..PLAIN };
    let mut inp = menu();
    assert!(handle_key(&mut inp, &mode, Key::Other, false, "hi").is_none());
    match handle_key(&mut inp, &mode, Key::Return, false, "") {
        Some(Outcome::PrintInput(s)) => assert_eq!(s, "hi"),
        other => panic!("unexpected {:?}", other),
    }
}

#[test]
fn path_launcher_launches_text_and_refuses_json() {
    let mode = LaunchMode { path_launcher: true, ..PLAIN };
    let mut inp = menu();
    match handle_key(&mut inp, &mode, Key::Return, false, "") {
        Some(Outcome::Launch(p)) => assert_eq!(p, "/bin/bash"),
        other => panic!("unexpected {:?}", other),
    }
    let inp = menu();
    assert!(matches!(execute(&inp, &mode, 1), Outcome::NotLaunchable));
}

#[test]
fn json_out_hands_back_the_item() {
    let mode = LaunchMode { json_out: true, ..PLAIN };
    let inp = menu();
    match execute(&inp, &mode, 2) {
        Outcome::PrintJson(item) => assert_eq!(item.display(), "dash"),
        other => panic!("unexpected {:?}", other),
    }
}

#[test]
fn choosing_past_the_end_quits() {
    let inp = menu();
    assert!(matches!(execute(&inp, &PLAIN, 3), Outcome::Quit));
}

#[test]
fn escape_quits_and_backspace_deletes() {
    let mut inp = menu();
    assert!(matches!(
        handle_key(&mut inp, &PLAIN, Key::Escape, false, ""),
        Some(Outcome::Quit)
    ));
    handle_key(&mut inp, &PLAIN, Key::Other, false, "as");
    assert_eq!(inp.input(), "as");
    assert!(handle_key(&mut inp, &PLAIN, Key::BackSpace, false, "").is_none());
    assert_eq!(inp.input(), "a");
}

#[test]
fn alt_digit_chooses_relative_to_the_selection() {
    let mut inp = menu();
    match handle_key(&mut inp, &PLAIN, Key::Other, true, "3") {
        Some(Outcome::PrintRaw(RawValue::Text(s))) => assert_eq!(s, "/bin/dash"),
        other => panic!("unexpected {:?}", other),
    }
    // 0 stands for the tenth item, which does not exist here.
    assert!(matches!(
        handle_key(&mut inp, &PLAIN, Key::Other, true, "0"),
        Some(Outcome::Quit)
    ));
}

#[test]
fn alt_with_non_digit_types_text() {
    let mut inp = menu();
    assert!(handle_key(&mut inp, &PLAIN, Key::Other, true, "x").is_none());
    assert_eq!(inp.input(), "x");
}

#[test]
fn left_and_right_move_the_selection() {
    let mut inp = menu();
    handle_key(&mut inp, &PLAIN, Key::Right, false, "");
    handle_key(&mut inp, &PLAIN, Key::Right, false, "");
    assert_eq!(inp.selected_index(), 2);
    handle_key(&mut inp, &PLAIN, Key::Left, false, "");
    assert_eq!(inp.selected_index(), 1);
}

#[test]
fn keysyms_map_to_keys() {
    assert_eq!(key_of_sym(keysyms::Return), Key::Return);
    assert_eq!(key_of_sym(keysyms::BackSpace), Key::BackSpace);
    assert_eq!(key_of_sym(keysyms::Escape), Key::Escape);
    assert_eq!(key_of_sym(keysyms::Right), Key::Right);
    assert_eq!(key_of_sym(keysyms::Left), Key::Left);
    assert_eq!(key_of_sym(keysyms::a), Key::Other);
    assert_eq!(key_of_sym(keysyms::KP_Enter), Key::Other);
}

#[test]
fn key_press_by_keysym_decides_like_the_key() {
    let mut inp = menu();
    assert!(matches!(
        handle_key_press(&mut inp, &PLAIN, keysyms::Right, false, ""),
        Some(None)
    ));
    assert_eq!(inp.selected_index(), 1);
    match handle_key_press(&mut inp, &PLAIN, keysyms::Return, false, "\r") {
        Some(Some(Outcome::PrintRaw(RawValue::Json(s)))) => assert_eq!(s, "42"),
        other => panic!("unexpected {other:?}"),
    }
    match handle_key_press(&mut inp, &PLAIN, keysyms::_2, true, "2") {
        Some(Some(Outcome::PrintRaw(RawValue::Text(s)))) => assert_eq!(s, "/bin/dash"),
        other => panic!("unexpected {other:?}"),
    }
    assert!(matches!(
        handle_key_press(&mut inp, &PLAIN, keysyms::d, false, "d"),
        Some(None)
    ));
    assert_eq!(inp.input(), "d");
    assert!(matches!(
        handle_key_press(&mut inp, &PLAIN, keysyms::Escape, false, "\u{1b}"),
        Some(Some(Outcome::Quit))
    ));
}
