use mangix::reading::{
    clamp_page, last_page, next_page, prev_page, resume_page, thumb_label, window_title,
    StripWindow, STRIP_ROWS,
};

#[test]
fn requests_land_inside_the_book() {
    assert_eq!(clamp_page(10, 5), 4);
    assert_eq!(clamp_page(2, 5), 2);
    assert_eq!(clamp_page(3, 0), 0);
    assert_eq!(last_page(0), 0);
    assert_eq!(last_page(7), 6);
}

#[test]
fn next_moves_past_what_is_showing() {
    assert_eq!(next_page(0, 1, 5), Some(1));
    assert_eq!(next_page(1, 2, 5), Some(3));
    assert_eq!(next_page(2, 0, 5), Some(3));
    assert_eq!(next_page(3, 2, 5), Some(5));
    assert_eq!(next_page(4, 1, 5), None);
    assert_eq!(next_page(0, 1, 0), None);
}

#[test]
fn previous_steps_back_a_pair_in_spread_mode() {
    assert_eq!(prev_page(0, true), None);
    assert_eq!(prev_page(1, true), Some(0));
    assert_eq!(prev_page(2, true), Some(1));
    assert_eq!(prev_page(3, true), Some(1));
    assert_eq!(prev_page(3, false), Some(2));
}

#[test]
fn previous_undoes_next_on_examples() {
    for i in 0..8 {
        let n = next_page(i, 1, 10).unwrap();
        assert_eq!(prev_page(n, false), Some(i));
    }
    for i in [1, 3, 5, 7] {
        let n = next_page(i, 2, 10).unwrap();
        assert_eq!(prev_page(n, true), Some(i));
    }
    let n = next_page(0, 1, 10).unwrap();
    assert_eq!(prev_page(n, true), Some(0));
}

#[test]
fn resuming_uses_a_bookmark_inside_the_book() {
    assert_eq!(resume_page(true, 0, Some(7), 10), 7);
    assert_eq!(resume_page(true, 0, Some(12), 10), 0);
    assert_eq!(resume_page(true, 0, None, 10), 0);
    assert_eq!(resume_page(true, 3, Some(7), 10), 3);
    assert_eq!(resume_page(false, 0, Some(7), 10), 0);
}

#[test]
fn titles_and_labels() {
    assert_eq!(window_title("Akira"), "Akira \u{2014} Mangix");
    assert_eq!(thumb_label(0), "1");
    assert_eq!(thumb_label(41), "42");
}

#[test]
fn the_strip_keeps_a_window_of_rows() {
    let mut w = StripWindow::new();
    for i in 0..STRIP_ROWS {
        assert_eq!(w.want(i), Some(vec![]));
    }
    assert_eq!(w.want(5), None);
    assert_eq!(w.want(12), Some(vec![0]));
    assert_eq!(w.want(13), Some(vec![1]));
    assert_eq!(w.want(0), Some(vec![2]));
    assert_eq!(w.want(0), None);
}
