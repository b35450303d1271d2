use kymenu::layout::{fit_typed_text, layout_bar, BarMetrics};

fn metrics(width: u32) -> BarMetrics {
    BarMetrics {
        width,
        bin_start_margin: 75,
        default_bin_start: 200,
        start_arrow_size: 10,
        start_arrow_more_size: 20,
        text_margin: 15,
        arrow_margin: 8,
        end_arrow_size: 10,
        end_arrow_more_size: 20,
    }
}

#[test]
fn all_items_fit() {
    let l = layout_bar(50, 0, &vec![30, 40], &metrics(1000)).unwrap();
    assert!(!l.start_arrow_more);
    assert_eq!(l.start_arrow_x, 200);
    assert_eq!(l.item_xs, vec![210, 255]);
    assert!(l.all_shown);
    assert_eq!(l.end_arrow_x, 255 + 48);
}

#[test]
fn long_input_pushes_the_list_right() {
    let l = layout_bar(300, 0, &vec![30], &metrics(1000)).unwrap();
    assert_eq!(l.start_arrow_x, 375);
    assert_eq!(l.item_xs, vec![385]);
}

#[test]
fn items_that_do_not_fit_are_left_out() {
    // Room ends at 400 - 20 for items that are not last.
    let l = layout_bar(0, 1, &vec![5, 100, 100, 100], &metrics(400)).unwrap();
    assert!(l.start_arrow_more);
    assert_eq!(l.start_arrow_x, 200);
    assert_eq!(l.item_xs, vec![220]);
    assert!(!l.all_shown);
    assert_eq!(l.end_arrow_x, 380);
}

#[test]
fn selection_past_the_end_shows_nothing() {
    let l = layout_bar(0, 5, &vec![1, 2], &metrics(400)).unwrap();
    assert!(l.item_xs.is_empty());
    assert!(l.all_shown);
    assert_eq!(l.end_arrow_x, 220);
}

#[test]
fn overflow_leaves_layout_undefined() {
    assert!(layout_bar(u32::MAX, 0, &vec![], &metrics(400)).is_none());
    assert!(layout_bar(0, 0, &vec![u32::MAX], &metrics(400)).is_none());
    assert!(layout_bar(0, 0, &vec![1], &metrics(5)).is_none());
}

#[test]
fn typed_text_that_fits_is_drawn_whole() {
    assert_eq!(fit_typed_text(100, 500, 300, &[120, 150, 180]), (3, false));
}

#[test]
fn typed_text_is_cut_before_the_first_prefix_that_reaches_the_limit() {
    // 100 + 300 reaches 400; "ab..." ends at 100 + 310 = 410.
    assert_eq!(fit_typed_text(100, 400, 300, &[250, 310, 330]), (1, true));
    // Even the first character with "..." does not fit.
    assert_eq!(fit_typed_text(100, 400, 300, &[300, 310, 330]), (0, true));
}

#[test]
fn typed_text_at_the_limit_with_every_prefix_fitting_is_drawn_whole() {
    assert_eq!(fit_typed_text(100, 400, 300, &[100, 200, 250]), (3, false));
}

#[test]
fn typed_text_sums_do_not_wrap() {
    assert_eq!(fit_typed_text(u32::MAX, u32::MAX, u32::MAX, &[u32::MAX]), (0, true));
}
