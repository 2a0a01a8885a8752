use article_core::input::{article_slot, human_target, route_key, KeyAction, Keybindings, TocPosition};

fn bindings() -> Keybindings {
    Keybindings { up: 1, down: 2, left: 3, right: 4, focus_next: 5, focus_prev: 6 }
}

#[test]
fn routes_each_binding() {
    let kb = bindings();
    assert_eq!(route_key(&kb, 1), KeyAction::MoveUp);
    assert_eq!(route_key(&kb, 2), KeyAction::MoveDown);
    assert_eq!(route_key(&kb, 3), KeyAction::MoveLeft);
    assert_eq!(route_key(&kb, 4), KeyAction::MoveRight);
    assert_eq!(route_key(&kb, 5), KeyAction::FocusNext);
    assert_eq!(route_key(&kb, 6), KeyAction::FocusPrev);
    assert_eq!(route_key(&kb, 99), KeyAction::Unhandled);
}

#[test]
fn movement_bindings_win_over_focus() {
    let mut kb = bindings();
    kb.focus_next = kb.up;
    assert_eq!(route_key(&kb, kb.up), KeyAction::MoveUp);
}

#[test]
fn article_slot_follows_toc_position() {
    assert_eq!(article_slot(TocPosition::Left), 1);
    assert_eq!(article_slot(TocPosition::Right), 0);
}

#[test]
fn human_target_strips_prefix_and_underscores() {
    assert_eq!(human_target(b"/wiki/Some_Page"), b"Some Page".to_vec());
    assert_eq!(human_target(b"Other_thing"), b"Other thing".to_vec());
    assert_eq!(human_target(b"/wik"), b"/wik".to_vec());
    assert_eq!(human_target(b""), b"".to_vec());
    assert_eq!(human_target(b"/wiki/"), b"".to_vec());
}
