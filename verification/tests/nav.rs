use wrasm::studio::nav::{nav_target, History};

#[test]
fn empty_history_has_no_current() {
    let h = History::new();
    assert_eq!(h.current(), None);
    assert!(!h.can_back() && !h.can_forward());
}

#[test]
fn visiting_and_walking_back_and_forward() {
    let mut h = History::new();
    h.visit("CreateFileW");
    h.visit("RECT");
    h.visit("IShellItem");
    assert_eq!(h.current(), Some("IShellItem"));
    assert_eq!(h.back(), Some("RECT"));
    assert_eq!(h.back(), Some("CreateFileW"));
    assert!(!h.can_back());
    assert_eq!(h.back(), Some("CreateFileW")); // clamped
    assert_eq!(h.forward(), Some("RECT"));
    assert_eq!(h.forward(), Some("IShellItem"));
    assert!(!h.can_forward());
}

#[test]
fn visiting_from_a_back_position_truncates_forward() {
    let mut h = History::new();
    h.visit("a");
    h.visit("b");
    h.visit("c");
    h.back(); // at "b"
    h.visit("d"); // discards "c"
    assert_eq!(h.current(), Some("d"));
    assert!(!h.can_forward());
    assert_eq!(h.back(), Some("b"));
}

#[test]
fn revisiting_the_current_query_is_a_noop() {
    let mut h = History::new();
    h.visit("RECT");
    h.visit("RECT");
    assert_eq!(h.current(), Some("RECT"));
    assert!(!h.can_back(), "no duplicate entry pushed");
}


#[test]
fn going_back_after_a_visit_shows_the_former_query() {
    let mut h = History::new();
    h.visit("RECT");
    h.visit("POINT");
    assert_eq!(h.back(), Some("RECT"));
    assert_eq!(h.forward(), Some("POINT"));
}

#[test]
fn only_was_links_lead_somewhere() {
    assert_eq!(nav_target("was:CreateFileW").as_deref(), Some("CreateFileW"));
    assert_eq!(nav_target("https://example.org"), None);
    assert_eq!(nav_target("was:").as_deref(), Some(""));
}
