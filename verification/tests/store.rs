use nest::codec::FloatingWindow;
use nest::config::{applies, FilterMode};
use nest::restore::should_return_to_origin;
use nest::state::{Error, State, Window};

const T0: i64 = 1_700_000_000;

fn open_store(buffer: usize) -> State {
    State::new(
        (vec![], FilterMode::Exclude, buffer),
        (vec![], FilterMode::Exclude),
        (vec![], FilterMode::Exclude, 10),
    )
}

#[test]
fn register_creates_record_at_current_workspace() {
    let mut st = open_store(30);
    st.workspace_changed(4);
    st.add_window_at(String::from("firefox"), 0xab, T0);
    let p = st.get_program(String::from("firefox")).unwrap();
    assert_eq!(p.workspaces.len(), 1);
    assert_eq!(p.workspaces[0].workspace_id, 4);
    assert_eq!(p.workspaces[0].timestamp, T0);
    assert!(st.is_changed());
}

#[test]
fn register_again_keeps_the_existing_record() {
    let mut st = open_store(30);
    st.add_window_at(String::from("firefox"), 1, T0);
    st.window_moved_at(1, 7, T0 + 5).unwrap();
    st.add_window_at(String::from("firefox"), 2, T0 + 10);
    let p = st.get_program(String::from("firefox")).unwrap();
    assert_eq!(p.workspaces.len(), 2);
}

#[test]
fn history_never_exceeds_the_buffer_and_evicts_oldest_first() {
    let mut st = open_store(3);
    st.add_window_at(String::from("kitty"), 9, T0);
    for step in 0..5i64 {
        st.window_moved_at(9, 10 + step as i32, T0 + 1 + step).unwrap();
        let p = st.get_program(String::from("kitty")).unwrap();
        assert!(p.workspaces.len() <= 3);
    }
    let p = st.get_program(String::from("kitty")).unwrap();
    // the last three of: initial, 10, 11, 12, 13, 14
    assert_eq!(p.workspaces.len(), 3);
    assert_eq!(p.workspaces[0].workspace_id, 12);
    assert_eq!(p.workspaces[1].workspace_id, 13);
    assert_eq!(p.workspaces[2].workspace_id, 14);
}

#[test]
fn unknown_address_and_class_are_reported() {
    let mut st = open_store(3);
    assert_eq!(st.window_moved_at(5, 1, T0).unwrap_err(), Error::BlankAddress);
    assert_eq!(st.move_window(5).unwrap_err(), Error::BlankAddress);
    assert_eq!(st.add_floating_window("ghost", FloatingWindow { at: (0, 0), size: (1, 1) }).unwrap_err(), Error::BlankClass);
    assert_eq!(st.remove_floating_window("ghost").unwrap_err(), Error::BlankClass);
}

#[test]
fn suppression_is_consumed_exactly_once() {
    let mut st = open_store(30);
    st.add_window_at(String::from("firefox"), 7, T0);
    st.mark_saved();
    let before = st.get_program(String::from("firefox")).unwrap().workspaces.clone();

    // the daemon arms and issues a move; the compositor echoes it back
    assert_eq!(st.move_window(7).unwrap(), true);
    assert!(st.get_program(String::from("firefox")).unwrap().moved);
    st.window_moved_at(7, 5, T0 + 1).unwrap();

    // the echo left the history untouched, cleared the flag, wrote nothing
    let p = st.get_program(String::from("firefox")).unwrap();
    assert_eq!(p.workspaces, before);
    assert!(!p.moved);
    assert!(!st.is_changed());

    // a second move event with no new request is a real, user-made move
    st.window_moved_at(7, 6, T0 + 2).unwrap();
    let p = st.get_program(String::from("firefox")).unwrap();
    assert_eq!(p.workspaces.len(), before.len() + 1);
    assert_eq!(p.workspaces[p.workspaces.len() - 1].workspace_id, 6);
    assert!(!p.moved);
    assert!(st.is_changed());
}

#[test]
fn failed_move_rolls_the_flag_back() {
    let mut st = open_store(30);
    st.add_window_at(String::from("firefox"), 7, T0);
    assert_eq!(st.move_window(7).unwrap(), true);
    st.move_window_failed(7).unwrap();
    assert!(!st.get_program(String::from("firefox")).unwrap().moved);
    // the next move event is recorded, since no echo is coming
    let n = st.get_program(String::from("firefox")).unwrap().workspaces.len();
    st.window_moved_at(7, 5, T0 + 1).unwrap();
    assert_eq!(st.get_program(String::from("firefox")).unwrap().workspaces.len(), n + 1);
}

#[test]
fn workspace_filter_skips_excluded_classes() {
    let mut st = State::new(
        (vec![String::from("firefox")], FilterMode::Exclude, 30),
        (vec![], FilterMode::Exclude),
        (vec![], FilterMode::Exclude, 10),
    );
    st.add_window_at(String::from("firefox"), 7, T0);
    assert_eq!(st.move_window(7).unwrap(), false);
    assert!(!st.get_program(String::from("firefox")).unwrap().moved);
}

#[test]
fn include_filter_admits_only_listed_classes() {
    let list = vec![String::from("firefox"), String::from("kitty")];
    assert!(applies(&String::from("kitty"), &list, FilterMode::Include));
    assert!(!applies(&String::from("mpv"), &list, FilterMode::Include));
    assert!(!applies(&String::from("kitty"), &list, FilterMode::Exclude));
    assert!(applies(&String::from("mpv"), &list, FilterMode::Exclude));
}

#[test]
fn float_move_arms_and_rolls_back_its_own_flag() {
    let mut st = open_store(30);
    st.add_window_at(String::from("mpv"), 3, T0);
    assert_eq!(st.move_float_window(3).unwrap(), true);
    let p = st.get_program(String::from("mpv")).unwrap();
    assert!(p.float_moved);
    assert!(!p.moved);
    st.move_float_window_failed(3).unwrap();
    assert!(!st.get_program(String::from("mpv")).unwrap().float_moved);
}

#[test]
fn identical_geometry_twice_leaves_no_pending_write() {
    let g = FloatingWindow { at: (10, 20), size: (300, 200) };
    let mut st = open_store(30);
    st.add_window_at(String::from("mpv"), 3, T0);
    st.mark_saved();

    st.add_floating_window("mpv", g).unwrap();
    assert!(st.is_changed());
    st.mark_saved();

    // the polling loop reports the same geometry again
    st.add_floating_window("mpv", g).unwrap();
    assert!(!st.is_changed());
    assert_eq!(st.get_program(String::from("mpv")).unwrap().floating_window, Some(g));
}

#[test]
fn changed_geometry_is_stored_and_marked() {
    let mut st = open_store(30);
    st.add_window_at(String::from("mpv"), 3, T0);
    st.add_floating_window("mpv", FloatingWindow { at: (1, 2), size: (3, 4) }).unwrap();
    st.mark_saved();
    st.add_floating_window("mpv", FloatingWindow { at: (1, 2), size: (3, 5) }).unwrap();
    assert!(st.is_changed());
    st.remove_floating_window("mpv").unwrap();
    assert_eq!(st.get_program(String::from("mpv")).unwrap().floating_window, None);
    assert!(st.is_changed());
}

#[test]
fn floating_poll_sync_tracks_and_clears() {
    let g = FloatingWindow { at: (10, 20), size: (300, 200) };
    let mut st = open_store(30);
    st.add_window_at(String::from("mpv"), 3, T0);

    // unknown class: not tracked
    assert_eq!(st.sync_floating_window("ghost", true, g).unwrap_err(), Error::BlankClass);

    // a tiled client with nothing stored is left alone, nothing to write
    st.mark_saved();
    st.sync_floating_window("mpv", false, g).unwrap();
    assert!(!st.is_changed());

    // a floating client's geometry is stored
    st.sync_floating_window("mpv", true, g).unwrap();
    assert_eq!(st.get_program(String::from("mpv")).unwrap().floating_window, Some(g));

    // back to tiled: the stored geometry is cleared
    st.sync_floating_window("mpv", false, g).unwrap();
    assert_eq!(st.get_program(String::from("mpv")).unwrap().floating_window, None);
}

#[test]
fn advisor_returns_to_origin_within_the_timeout_only() {
    let w = Window { class: String::from("launcher"), timestamp: T0, origin: 2 };
    let list: Vec<String> = vec![];
    // at the timeout: still within
    assert!(should_return_to_origin(&w, T0 + 10, 10, &list, FilterMode::Exclude));
    // one second past the timeout: no longer
    assert!(!should_return_to_origin(&w, T0 + 11, 10, &list, FilterMode::Exclude));
    // the filter can veto the return
    let veto = vec![String::from("launcher")];
    assert!(!should_return_to_origin(&w, T0 + 5, 10, &veto, FilterMode::Exclude));
}

#[test]
fn closing_a_short_lived_window_switches_back() {
    let mut st = open_store(30);
    st.workspace_changed(2);
    st.add_window_at(String::from("launcher"), 8, T0);
    st.workspace_changed(5);
    // closed 4 seconds after opening, timeout is 10
    assert_eq!(st.window_closed_at(8, T0 + 4), Some(2));
    // the handle is gone now
    assert_eq!(st.window_closed_at(8, T0 + 5), None);
}

#[test]
fn closing_a_long_lived_window_stays_put() {
    let mut st = open_store(30);
    st.add_window_at(String::from("firefox"), 8, T0);
    assert_eq!(st.window_closed_at(8, T0 + 3600), None);
}

#[test]
fn unregister_returns_the_handle_and_keeps_the_record() {
    let mut st = open_store(30);
    st.workspace_changed(3);
    st.add_window_at(String::from("firefox"), 8, T0);
    let w = st.remove_window(8).unwrap();
    assert_eq!(w.class, "firefox");
    assert_eq!(w.timestamp, T0);
    assert_eq!(w.origin, 3);
    assert!(st.remove_window(8).is_none());
    assert!(st.get_program(String::from("firefox")).is_some());
}

#[test]
fn load_keeps_the_last_record_of_a_class() {
    let a = nest::codec::decode("firefox:[1;100]&[]").unwrap();
    let b = nest::codec::decode("firefox:[2;200]&[]").unwrap();
    let st = State::load(
        vec![a, b],
        (vec![], FilterMode::Exclude, 30),
        (vec![], FilterMode::Exclude),
        (vec![], FilterMode::Exclude, 10),
    );
    let p = st.get_program(String::from("firefox")).unwrap();
    assert_eq!(p.workspaces[0].workspace_id, 2);
    assert!(!st.is_changed());
}

#[test]
fn snapshots_cover_every_record_once() {
    let mut st = open_store(30);
    st.add_window_at(String::from("a"), 1, T0);
    st.add_window_at(String::from("b"), 2, T0);
    st.add_window_at(String::from("c"), 3, T0);
    let all = st.get_programs();
    assert_eq!(all.len(), 3);
    let mut classes: Vec<String> = all.iter().map(|p| p.class.clone()).collect();
    classes.sort();
    assert_eq!(classes, vec!["a", "b", "c"]);
    let mapped = st.get_mapped_programs();
    assert_eq!(mapped.len(), 3);
}

#[test]
fn snapshot_then_encode_then_reload() {
    let mut st = open_store(30);
    st.workspace_changed(4);
    st.add_window_at(String::from("firefox"), 1, T0);
    st.window_moved_at(1, 6, T0 + 10).unwrap();
    st.add_floating_window("firefox", FloatingWindow { at: (1, 2), size: (3, 4) }).unwrap();

    let content = nest::codec::encode_programs(&st.get_programs());
    let reloaded = nest::codec::decode_programs(&content).unwrap();
    let st2 = State::load(
        reloaded,
        (vec![], FilterMode::Exclude, 30),
        (vec![], FilterMode::Exclude),
        (vec![], FilterMode::Exclude, 10),
    );
    let p = st2.get_program(String::from("firefox")).unwrap();
    assert_eq!(p.workspaces.len(), 2);
    assert_eq!(p.workspaces[0].workspace_id, 4);
    assert_eq!(p.workspaces[1].workspace_id, 6);
    assert_eq!(p.floating_window, Some(FloatingWindow { at: (1, 2), size: (3, 4) }));
}

#[test]
fn target_workspace_scores_history_or_stays_put() {
    let mut st = open_store(30);
    st.workspace_changed(3);
    // unknown class: no history, stay on the current workspace
    assert_eq!(st.target_workspace(String::from("ghost"), 100, T0), 3);
    // a loaded record with an empty history behaves the same
    let empty = nest::codec::decode("idle:[]&[]").unwrap();
    let mut st = State::load(
        vec![empty],
        (vec![], FilterMode::Exclude, 30),
        (vec![], FilterMode::Exclude),
        (vec![], FilterMode::Exclude, 10),
    );
    assert_eq!(st.target_workspace(String::from("idle"), 100, T0), 1);
    // with history, the scored workspace wins
    st.add_window_at(String::from("firefox"), 1, T0 - 50);
    st.window_moved_at(1, 6, T0 - 1).unwrap();
    assert_eq!(st.target_workspace(String::from("firefox"), 100, T0), 6);
}

#[test]
fn current_workspace_follows_change_events() {
    let mut st = open_store(30);
    assert_eq!(st.current_workspace(), 1);
    st.workspace_changed(9);
    assert_eq!(st.current_workspace(), 9);
}
