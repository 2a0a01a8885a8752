use article_core::links::LinkHandler;

fn fixture() -> LinkHandler {
    // Reading order [L0@(2,0), L1@(1,2), L2@(9,2), L3@(0,5)]:
    // rows 0, 2, 2, 5, with two links sharing row 2.
    let mut h = LinkHandler::new();
    h.push_link(0, 2, 0);
    h.push_link(1, 1, 2);
    h.push_link(2, 9, 2);
    h.push_link(3, 0, 5);
    h
}

#[test]
fn empty_index_is_inert() {
    let mut h = LinkHandler::new();
    assert_eq!(h.registered_links(), 0);
    assert_eq!(h.get_current_link(), None);
    assert_eq!(h.get_current_link_pos(), None);
    h.move_up(1);
    h.move_down(3);
    h.move_left(2);
    h.move_right(4);
    h.set_current_link(7);
    assert_eq!(h.registered_links(), 0);
    assert_eq!(h.get_current_link(), None);
    assert_eq!(h.get_current_link_pos(), None);
}

#[test]
fn push_and_query() {
    let h = fixture();
    assert_eq!(h.registered_links(), 4);
    assert_eq!(h.get_current_link(), Some(0));
    assert_eq!(h.get_current_link_pos(), Some((2, 0)));
}

#[test]
fn nearest_first_threshold_scan() {
    // From L2 (index 2, row 2), moving up one row targets row 1; the
    // scan tries index 1 (row 2, too low), then index 0 (row 0), so
    // the topmost link is selected.
    let mut h = fixture();
    h.set_current_link(2);
    assert_eq!(h.get_current_link(), Some(2));
    h.move_up(1);
    assert_eq!(h.get_current_link(), Some(0));
    assert_eq!(h.get_current_link_pos(), Some((2, 0)));
}

#[test]
fn move_down_scans_forward() {
    let mut h = fixture();
    h.move_down(2);
    assert_eq!(h.get_current_link(), Some(1));
    h.move_down(1);
    assert_eq!(h.get_current_link(), Some(3));
}

#[test]
fn move_up_from_topmost_stays() {
    let mut h = fixture();
    h.move_up(1);
    assert_eq!(h.get_current_link(), Some(0));
    h.move_up(100);
    assert_eq!(h.get_current_link(), Some(0));
}

#[test]
fn move_down_from_bottommost_stays() {
    let mut h = fixture();
    h.set_current_link(3);
    h.move_down(1);
    assert_eq!(h.get_current_link(), Some(3));
    h.move_down(1);
    assert_eq!(h.get_current_link(), Some(3));
}

#[test]
fn up_then_down_returns_to_row() {
    // Rows 1, 3, 5, 5: from the link at index 3 (row 5), up by 2
    // lands on the link at row 3, down by 2 lands back on row 5 —
    // on the other link sharing that row.
    let mut h = LinkHandler::new();
    h.push_link(0, 0, 1);
    h.push_link(1, 0, 3);
    h.push_link(2, 0, 5);
    h.push_link(3, 3, 5);
    h.set_current_link(3);
    h.move_up(2);
    assert_eq!(h.get_current_link(), Some(1));
    h.move_down(2);
    assert_eq!(h.get_current_link(), Some(2));
    assert_eq!(h.get_current_link_pos(), Some((0, 5)));
}

#[test]
fn left_right_are_index_moves() {
    let mut h = fixture();
    h.move_right(2);
    assert_eq!(h.get_current_link(), Some(2));
    h.move_left(1);
    assert_eq!(h.get_current_link(), Some(1));
    h.move_left(5);
    assert_eq!(h.get_current_link(), Some(0));
    h.move_right(100);
    assert_eq!(h.get_current_link(), Some(3));
}

#[test]
fn right_moves_compose() {
    let mut a = fixture();
    a.move_right(1);
    a.move_right(2);
    let mut b = fixture();
    b.move_right(3);
    assert_eq!(a.get_current_link(), b.get_current_link());

    let mut c = fixture();
    c.move_right(2);
    c.move_right(5);
    let mut d = fixture();
    d.move_right(7);
    assert_eq!(c.get_current_link(), Some(3));
    assert_eq!(d.get_current_link(), Some(3));
}

#[test]
fn left_moves_compose() {
    let mut a = fixture();
    a.set_current_link(3);
    a.move_left(1);
    a.move_left(1);
    let mut b = fixture();
    b.set_current_link(3);
    b.move_left(2);
    assert_eq!(a.get_current_link(), b.get_current_link());
    assert_eq!(a.get_current_link(), Some(1));
}

#[test]
fn set_current_link_unknown_id_resets() {
    let mut h = fixture();
    h.set_current_link(3);
    assert_eq!(h.get_current_link(), Some(3));
    h.set_current_link(42);
    assert_eq!(h.get_current_link(), Some(0));
}
