use formatter::mpd::{MpdState, MpdStatus};
use formatter::util::{str_copy, OptionalString};

#[test]
fn optional_string_holds_and_drops_text() {
    let mut s = OptionalString::default();
    assert_eq!(s.get(), None);
    s.copy_from("first");
    assert_eq!(s.get(), Some("first"));
    s.copy_from("2nd");
    assert_eq!(s.get(), Some("2nd"));
    s.invalidate();
    assert_eq!(s.get(), None);
}

#[test]
fn str_copy_replaces_text() {
    let mut dest = "old contents".to_owned();
    str_copy(&mut dest, "new");
    assert_eq!(dest, "new");
}

#[test]
fn mpd_state_hides_status_when_stopped() {
    let mut state = MpdState::default();
    assert!(state.get().is_some());
    state.inner = MpdStatus { volume: 40, ..MpdStatus::default() };
    assert_eq!(state.get().unwrap().volume, 40);
    state.stopped = true;
    assert!(state.get().is_none());
}
