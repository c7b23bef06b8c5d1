use nest::codec::Workspace;
use nest::score::{calculate_workspace, weight, SCALE};

const NOW: i64 = 1_000_000;

#[test]
fn empty_history_selects_nothing() {
    let ws: Vec<Workspace> = vec![];
    assert_eq!(calculate_workspace(&ws, 100, NOW), None);
}

#[test]
fn singleton_selects_its_workspace_for_any_tau() {
    for tau in [1i64, 100, 604800] {
        let ws = vec![Workspace { workspace_id: 5, timestamp: NOW - 42 }];
        assert_eq!(calculate_workspace(&ws, tau, NOW), Some(5));
    }
}

#[test]
fn recent_placement_dominates_under_decay() {
    // ages 10 and 1000 under tau = 100: the weight of the recent placement
    // (about 0.94 here, about 0.905 under the exact exponential) towers
    // over the decayed one (below 0.0001), so workspace 1 must win.
    let ws = vec![
        Workspace { workspace_id: 1, timestamp: NOW - 10 },
        Workspace { workspace_id: 2, timestamp: NOW - 1000 },
    ];
    assert_eq!(calculate_workspace(&ws, 100, NOW), Some(1));
}

#[test]
fn repeated_old_placements_can_outweigh_one_recent() {
    // twenty old placements on 3 against one recent on 9
    let mut ws = vec![Workspace { workspace_id: 9, timestamp: NOW - 1 }];
    for _ in 0..20 {
        ws.push(Workspace { workspace_id: 3, timestamp: NOW - 50 });
    }
    assert_eq!(calculate_workspace(&ws, 604800, NOW), Some(3));
}

#[test]
fn equal_scores_break_toward_lowest_id() {
    let ws = vec![
        Workspace { workspace_id: 7, timestamp: NOW - 30 },
        Workspace { workspace_id: 2, timestamp: NOW - 30 },
        Workspace { workspace_id: 4, timestamp: NOW - 30 },
    ];
    assert_eq!(calculate_workspace(&ws, 100, NOW), Some(2));
}

#[test]
fn weight_is_full_at_age_zero_and_for_future_timestamps() {
    assert_eq!(weight(NOW, NOW, 100), SCALE);
    assert_eq!(weight(NOW, NOW + 500, 100), SCALE);
}

#[test]
fn weight_decreases_with_age() {
    let w_young = weight(NOW, NOW - 10, 100);
    let w_mid = weight(NOW, NOW - 150, 100);
    let w_old = weight(NOW, NOW - 1000, 100);
    assert!(w_young > w_mid);
    assert!(w_mid > w_old);
    assert!(w_old >= 0);
    assert!(w_young <= SCALE);
}

#[test]
fn weight_matches_the_documented_fixed_point_values() {
    // age 10, tau 100: 1e6 - (1e6 - 367879) * 10 / 100 = 936788
    assert_eq!(weight(NOW, NOW - 10, 100), 936_788);
    // age exactly tau: one full decay step
    assert_eq!(weight(NOW, NOW - 100, 100), 367_879);
}

#[test]
fn very_old_placements_weigh_nothing() {
    assert_eq!(weight(NOW, NOW - 100 * 100, 100), 0);
}
