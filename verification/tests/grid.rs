use fastcull_core::grid::{
    column_of, columns_at, navigate, row_of, rows_for, window, zoom_step, Nav,
};

#[test]
fn navigate_clamps_and_stays_in_partial_rows() {
    assert_eq!(navigate(0, 10, 4, 2, Nav::Left), 0);
    assert_eq!(navigate(9, 10, 4, 2, Nav::Right), 9);
    assert_eq!(navigate(1, 10, 4, 2, Nav::Down), 5);
    assert_eq!(navigate(5, 10, 4, 2, Nav::Down), 9);
    assert_eq!(navigate(7, 10, 4, 2, Nav::Down), 7);
    assert_eq!(navigate(9, 10, 4, 2, Nav::Up), 5);
    assert_eq!(navigate(9, 10, 4, 2, Nav::Home), 0);
    assert_eq!(navigate(0, 10, 4, 2, Nav::End), 9);
    assert_eq!(navigate(0, 10, 4, 2, Nav::PageDown), 8);
    assert_eq!(navigate(8, 10, 4, 2, Nav::PageUp), 0);
    assert_eq!(navigate(0, 0, 4, 2, Nav::Down), 0);
}

#[test]
fn navigate_single_column_acts_like_filmstrip() {
    assert_eq!(navigate(3, 10, 1, 5, Nav::Down), 4);
    assert_eq!(navigate(3, 10, 1, 5, Nav::Right), 4);
    assert_eq!(navigate(3, 10, 1, 5, Nav::Up), 2);
}

#[test]
fn zoom_ladder_clamps() {
    assert_eq!(zoom_step(0, -1), 0);
    assert_eq!(zoom_step(0, 1), 1);
    assert_eq!(zoom_step(6, 1), 6);
    assert_eq!(zoom_step(3, -3), 0);
}

#[test]
fn cells_are_items() {
    assert_eq!(rows_for(10, 4), 3);
    assert_eq!(rows_for(8, 4), 2);
    assert_eq!(rows_for(0, 4), 0);
    assert_eq!((row_of(9, 4), column_of(9, 4)), (2, 1));
    assert_eq!(columns_at(0), 12);
    assert_eq!(columns_at(6), 1);
    assert_eq!(columns_at(99), 1);
}

#[test]
fn a_window_is_widened_and_clamped() {
    assert_eq!(window(100, 4, 5, 7, 2), (12, 40));
    assert_eq!(window(100, 4, 1, 30, 2), (0, 100));
    assert_eq!(window(0, 4, 5, 7, 2), (0, 0));
}

#[test]
fn left_undoes_right() {
    for at in 0..9 {
        let right = navigate(at, 10, 4, 2, Nav::Right);
        assert_eq!(navigate(right, 10, 4, 2, Nav::Left), at);
    }
}
