use kymenu::input::{rank_items, score_match, Input, InputItem, InputItems, RawValue};

fn item(name: &str) -> InputItem {
    InputItem::new(name.to_string(), RawValue::Text(name.to_string()))
}

fn names(inp: &Input) -> Vec<String> {
    inp.filtered_inputs()
        .iter()
        .map(|i| i.display().to_string())
        .collect()
}

fn menu(list: &[&str]) -> Input {
    Input::new(InputItems(list.iter().map(|n| item(n)).collect()))
}

#[test]
fn empty_input_shows_all_sorted_by_name() {
    let inp = menu(&["firefox", "alacritty", "bash"]);
    assert_eq!(names(&inp), vec!["alacritty", "bash", "firefox"]);
    assert_eq!(inp.selected_index(), 0);
    assert!(inp.dirty);
    assert_eq!(inp.input(), "");
}

#[test]
fn prefix_matches_come_before_substring_matches() {
    let mut inp = menu(&["xfire", "firefox", "fire", "bash"]);
    inp.push("fire");
    assert_eq!(names(&inp), vec!["fire", "firefox", "xfire"]);
}

#[test]
fn filter_is_case_sensitive_but_score_is_not() {
    let mut inp = menu(&["Fire", "afire", "fire"]);
    inp.push("fire");
    // "Fire" does not contain "fire" and is dropped; "fire" starts with it.
    assert_eq!(names(&inp), vec!["fire", "afire"]);
}

#[test]
fn pop_removes_last_char_and_refilters() {
    let mut inp = menu(&["ab", "ac", "b"]);
    inp.push("ab");
    assert_eq!(names(&inp), vec!["ab"]);
    inp.dirty = false;
    inp.pop();
    assert_eq!(inp.input(), "a");
    assert_eq!(names(&inp), vec!["ab", "ac"]);
    assert!(inp.dirty);
}

#[test]
fn pop_on_empty_input_changes_nothing() {
    let mut inp = menu(&["a"]);
    inp.dirty = false;
    inp.pop();
    assert!(!inp.dirty);
    assert_eq!(inp.input(), "");
}

#[test]
fn push_of_empty_text_changes_nothing() {
    let mut inp = menu(&["a"]);
    inp.dirty = false;
    inp.push("");
    assert!(!inp.dirty);
}

#[test]
fn push_then_pop_restores_the_list() {
    let mut inp = menu(&["one", "two", "three"]);
    let before = names(&inp);
    inp.push("t");
    assert_eq!(names(&inp), vec!["three", "two"]);
    inp.pop();
    assert_eq!(names(&inp), before);
}

#[test]
fn selection_moves_and_stops_at_the_ends() {
    let mut inp = menu(&["a", "b", "c"]);
    inp.move_left();
    assert_eq!(inp.selected_index(), 0);
    inp.dirty = false;
    inp.move_right();
    assert!(inp.dirty);
    inp.move_right();
    inp.move_right();
    assert_eq!(inp.selected_index(), 2);
    inp.dirty = false;
    inp.move_right();
    assert!(!inp.dirty);
    inp.move_left();
    assert_eq!(inp.selected_index(), 1);
}

#[test]
fn move_right_on_empty_list_stays_at_zero() {
    let mut inp = menu(&[]);
    inp.move_right();
    assert_eq!(inp.selected_index(), 0);
}

#[test]
fn typing_resets_the_selection() {
    let mut inp = menu(&["a1", "a2", "a3"]);
    inp.move_right();
    inp.move_right();
    inp.push("a");
    assert_eq!(inp.selected_index(), 0);
}

#[test]
fn equal_names_keep_their_order() {
    let first = InputItem::new("same".to_string(), RawValue::Text("1".to_string()));
    let second = InputItem::new("same".to_string(), RawValue::Text("2".to_string()));
    let inp = Input::new(InputItems(vec![first, second]));
    let raws: Vec<String> = inp
        .filtered_inputs()
        .iter()
        .map(|i| match i.raw() {
            RawValue::Text(s) => s.clone(),
            RawValue::Json(s) => s.clone(),
        })
        .collect();
    assert_eq!(raws, vec!["1", "2"]);
}

#[test]
fn score_match_levels() {
    assert_eq!(score_match("firefox", "fire"), 0);
    assert_eq!(score_match("xfire", "fire"), 1);
    assert_eq!(score_match("bash", "fire"), 2);
    assert_eq!(score_match("bash", ""), 2);
}

#[test]
fn rank_items_orders_by_score_then_bytes() {
    let scored = vec![
        (score_match("zeta", "a"), item("Zeta")),
        (score_match("beta", "a"), item("beta")),
        (score_match("alpha", "a"), item("Alpha")),
        (score_match("alpha", "a"), item("alpha")),
    ];
    let ranked: Vec<String> = rank_items(scored)
        .iter()
        .map(|i| i.display().to_string())
        .collect();
    // "Alpha" and "alpha" start with "a"; upper case bytes sort first.
    assert_eq!(ranked, vec!["Alpha", "alpha", "Zeta", "beta"]);
}

#[test]
fn rank_items_keeps_equal_entries_in_order() {
    let raw = |n: &str, r: &str| InputItem::new(n.to_string(), RawValue::Text(r.to_string()));
    let scored = vec![
        (1, raw("same", "first")),
        (0, raw("b", "b")),
        (1, raw("same", "second")),
        (2, raw("a", "a")),
        (0, raw("a", "a0")),
        (1, raw("same", "third")),
        (0, raw("b", "b2")),
    ];
    let ranked: Vec<(String, String)> = rank_items(scored)
        .iter()
        .map(|i| {
            let r = match i.raw() {
                RawValue::Text(s) => s.clone(),
                RawValue::Json(s) => s.clone(),
            };
            (i.display().to_string(), r)
        })
        .collect();
    let want: Vec<(String, String)> = [
        ("a", "a0"),
        ("b", "b"),
        ("b", "b2"),
        ("same", "first"),
        ("same", "second"),
        ("same", "third"),
        ("a", "a"),
    ]
    .iter()
    .map(|(a, b)| (a.to_string(), b.to_string()))
    .collect();
    assert_eq!(ranked, want);
}

#[test]
fn rank_items_sorts_many_entries() {
    let names: Vec<String> = (0..200).map(|k| format!("n{:03}", (k * 37) % 200)).collect();
    let scored: Vec<(u8, InputItem)> = names.iter().map(|n| (2, item(n))).collect();
    let ranked: Vec<String> = rank_items(scored)
        .iter()
        .map(|i| i.display().to_string())
        .collect();
    let mut want = names.clone();
    want.sort();
    assert_eq!(ranked, want);
}

#[test]
fn default_state_is_empty_and_clean() {
    let inp = Input::default();
    assert!(!inp.dirty);
    assert_eq!(inp.input(), "");
    assert!(inp.filtered_inputs().is_empty());
    assert_eq!(inp.selected_index(), 0);
    assert!(InputItems::default().0.is_empty());
}

#[test]
fn typing_then_deleting_restores_the_list() {
    let mut inp = menu(&["xfire", "firefox", "fire", "bash"]);
    inp.push("fi");
    let before = names(&inp);
    inp.move_right();
    inp.push("r");
    assert_eq!(names(&inp), vec!["fire", "firefox", "xfire"]);
    inp.pop();
    assert_eq!(names(&inp), before);
    assert_eq!(inp.input(), "fi");
    assert_eq!(inp.selected_index(), 0);
    assert!(inp.dirty);
}

#[test]
fn selection_stays_within_the_list() {
    let mut inp = menu(&["a", "b", "c"]);
    for _ in 0..10 {
        inp.move_right();
        assert!((inp.selected_index() as usize) < inp.filtered_inputs().len());
    }
    assert_eq!(inp.selected_index(), 2);
    inp.push("zzz");
    assert!(inp.filtered_inputs().is_empty());
    inp.move_right();
    assert_eq!(inp.selected_index(), 0);
}

#[test]
fn lower_casing_is_used_for_scoring() {
    let mut inp = menu(&["ABC-abc", "abc"]);
    inp.push("abc");
    // Both contain "abc"; "ABC-abc" lower-cases to "abc-abc", which starts with it.
    assert_eq!(names(&inp), vec!["ABC-abc", "abc"]);
}
