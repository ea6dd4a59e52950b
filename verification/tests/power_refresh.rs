use deep_tek::{PowerRefresh, TilePos, connections_changed, dirty_candidates, power_refresh, recheck_visibility};

#[test]
fn a_new_power_revision_rebuilds_everything() {
    assert_eq!(power_refresh(None, 0, 0, 0), PowerRefresh::Rebuild);
    assert_eq!(power_refresh(Some(3), 7, 4, 7), PowerRefresh::Rebuild);
}

#[test]
fn a_foreground_change_alone_rechecks_sight_lines() {
    assert_eq!(power_refresh(Some(4), 7, 4, 8), PowerRefresh::RecheckVisibility);
    assert_eq!(power_refresh(Some(4), 8, 4, 8), PowerRefresh::Unchanged);
}

#[test]
fn only_candidates_crossing_a_changed_tile_are_rechecked() {
    let crossed = vec![
        vec![TilePos::new(1, 1), TilePos::new(2, 1)],
        vec![TilePos::new(5, 5)],
        vec![TilePos::new(2, 1), TilePos::new(3, 1)],
    ];
    let changes = [TilePos::new(2, 1)];
    assert_eq!(dirty_candidates(&crossed, Some(&changes)), vec![0, 2]);
    assert_eq!(dirty_candidates(&crossed, Some(&[])), Vec::<usize>::new());
    assert_eq!(dirty_candidates(&crossed, None), vec![0, 1, 2]);
}

#[test]
fn rechecking_stores_fresh_sight_lines_and_reports_a_change() {
    let mut visible = vec![true, true, false];
    assert!(!recheck_visibility(&mut visible, &[0, 2], &[true, false]));
    assert_eq!(visible, vec![true, true, false]);
    assert!(recheck_visibility(&mut visible, &[2], &[true]));
    assert_eq!(visible, vec![true, true, true]);
}

#[test]
fn connections_change_after_a_rebuild_or_a_changed_sight_line() {
    assert!(connections_changed(PowerRefresh::Rebuild, false));
    assert!(connections_changed(PowerRefresh::RecheckVisibility, true));
    assert!(!connections_changed(PowerRefresh::RecheckVisibility, false));
    assert!(!connections_changed(PowerRefresh::Unchanged, true));
}
