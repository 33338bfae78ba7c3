use workshop_whisperer::config::SpreadsheetConfig;
use workshop_whisperer::store::{non_default_configs, GameEntry, WorkshopMod};

fn mk_mod(id: &str) -> WorkshopMod {
    WorkshopMod {
        id: id.to_string(),
        name: None,
        status: None,
        last_updated: None,
        local_updated: None,
    }
}

fn mk_game(mods: Vec<WorkshopMod>) -> GameEntry {
    GameEntry {
        appid: "10".to_string(),
        name: "Game".to_string(),
        path: "/lib".to_string(),
        spreadsheet: SpreadsheetConfig::default(),
        sheet_data: None,
        mods,
    }
}

#[test]
fn outdated_when_local_older() {
    // P6: local=100, remote=200 -> outdated.
    let mut m = mk_mod("1");
    m.local_updated = Some("100".to_string());
    m.last_updated = Some("200".to_string());
    assert_eq!(m.is_outdated(), Some(true));
}

#[test]
fn not_outdated_when_local_newer() {
    // P6: local=200, remote=100 -> up to date.
    let mut m = mk_mod("1");
    m.local_updated = Some("200".to_string());
    m.last_updated = Some("100".to_string());
    assert_eq!(m.is_outdated(), Some(false));
}

#[test]
fn outdated_unknown_when_absent_or_non_numeric() {
    // P6: a missing or unreadable timestamp leaves the state unknown.
    let mut m = mk_mod("1");
    assert_eq!(m.is_outdated(), None);
    m.local_updated = Some("100".to_string());
    assert_eq!(m.is_outdated(), None);
    m.last_updated = Some("soon".to_string());
    assert_eq!(m.is_outdated(), None);
    m.last_updated = Some("200".to_string());
    assert_eq!(m.is_outdated(), Some(true));
}

#[test]
fn rescan_preserves_remote_metadata() {
    // P3: a still-installed id keeps name/status/remote timestamp and
    // renews only the local timestamp.
    let mut m = mk_mod("42");
    m.name = Some("Fetched".to_string());
    m.status = Some("Functional".to_string());
    m.last_updated = Some("900".to_string());
    m.local_updated = Some("100".to_string());
    let mut g = mk_game(vec![m]);
    g.rescan_mods(&vec![("42".to_string(), 555u64)]);
    assert_eq!(g.mods.len(), 1);
    assert_eq!(g.mods[0].id.as_str(), "42");
    assert_eq!(g.mods[0].name.as_deref(), Some("Fetched"));
    assert_eq!(g.mods[0].status.as_deref(), Some("Functional"));
    assert_eq!(g.mods[0].last_updated.as_deref(), Some("900"));
    assert_eq!(g.mods[0].local_updated.as_deref(), Some("555"));
}

#[test]
fn rescan_drops_uninstalled_and_creates_fresh() {
    // P4: an id the scan no longer lists is removed; a new id starts
    // with only the local timestamp.
    let mut old = mk_mod("gone");
    old.name = Some("Old".to_string());
    let mut g = mk_game(vec![old]);
    g.rescan_mods(&vec![("new".to_string(), 7u64)]);
    assert_eq!(g.mods.len(), 1);
    assert_eq!(g.mods[0].id.as_str(), "new");
    assert_eq!(g.mods[0].name, None);
    assert_eq!(g.mods[0].status, None);
    assert_eq!(g.mods[0].last_updated, None);
    assert_eq!(g.mods[0].local_updated.as_deref(), Some("7"));
}

#[test]
fn remote_update_overwrites_matching_record() {
    let mut m = mk_mod("5");
    m.name = Some("Stale".to_string());
    m.status = Some("Broken".to_string());
    m.local_updated = Some("1".to_string());
    let mut g = mk_game(vec![m, mk_mod("6")]);
    g.apply_remote_update("5", "Fresh Title", "1234");
    assert_eq!(g.mods[0].name.as_deref(), Some("Fresh Title"));
    assert_eq!(g.mods[0].last_updated.as_deref(), Some("1234"));
    assert_eq!(g.mods[0].status.as_deref(), Some("Broken"));
    assert_eq!(g.mods[0].local_updated.as_deref(), Some("1"));
    assert_eq!(g.mods[1].name, None);
    assert_eq!(g.mods[1].last_updated, None);
}

#[test]
fn late_remote_update_is_noop() {
    // P5: an update for an id with no current record changes nothing.
    let mut m = mk_mod("kept");
    m.local_updated = Some("3".to_string());
    let mut g = mk_game(vec![m]);
    g.apply_remote_update("removed", "Ghost", "999");
    assert_eq!(g.mods.len(), 1);
    assert_eq!(g.mods[0].id.as_str(), "kept");
    assert_eq!(g.mods[0].name, None);
    assert_eq!(g.mods[0].last_updated, None);
    assert_eq!(g.mods[0].local_updated.as_deref(), Some("3"));
}

fn overlay_game() -> GameEntry {
    let mut g = mk_game(vec![mk_mod("100"), mk_mod("200")]);
    g.mods[1].name = Some("Remote Name".to_string());
    g.spreadsheet.header_row_index = Some(0);
    g.spreadsheet.id_col = Some(0);
    g.spreadsheet.status_col = Some(1);
    g.spreadsheet.name_col = Some(2);
    g.sheet_data = Some(vec![
        vec!["id".to_string(), "status".to_string(), "name".to_string()],
        vec!["100".to_string(), "Functional".to_string(), "Overlay A".to_string()],
        vec!["200".to_string(), "Broken".to_string(), "Overlay B".to_string()],
    ]);
    g
}

#[test]
fn overlay_sets_status_and_fallback_name() {
    // P7: the overlay name fills only a record with no name yet; a name
    // fetched remotely stands.
    let mut g = overlay_game();
    g.apply_spreadsheet();
    assert_eq!(g.mods[0].status.as_deref(), Some("Functional"));
    assert_eq!(g.mods[0].name.as_deref(), Some("Overlay A"));
    assert_eq!(g.mods[1].status.as_deref(), Some("Broken"));
    assert_eq!(g.mods[1].name.as_deref(), Some("Remote Name"));
}

#[test]
fn overlay_application_is_idempotent() {
    // P9: applying twice with unchanged snapshot and mapping gives the
    // same records as applying once.
    let mut once = overlay_game();
    once.apply_spreadsheet();
    let mut twice = overlay_game();
    twice.apply_spreadsheet();
    twice.apply_spreadsheet();
    assert_eq!(once.mods.len(), twice.mods.len());
    let mut i = 0;
    while i < once.mods.len() {
        assert_eq!(once.mods[i].id, twice.mods[i].id);
        assert_eq!(once.mods[i].name, twice.mods[i].name);
        assert_eq!(once.mods[i].status, twice.mods[i].status);
        assert_eq!(once.mods[i].last_updated, twice.mods[i].last_updated);
        assert_eq!(once.mods[i].local_updated, twice.mods[i].local_updated);
        i += 1;
    }
}

#[test]
fn overlay_noop_without_header_or_out_of_range() {
    let mut g = overlay_game();
    g.spreadsheet.header_row_index = None;
    g.apply_spreadsheet();
    assert_eq!(g.mods[0].status, None);

    let mut g2 = overlay_game();
    g2.spreadsheet.header_row_index = Some(9);
    g2.apply_spreadsheet();
    assert_eq!(g2.mods[0].status, None);
}

#[test]
fn overlay_later_row_wins() {
    let mut g = overlay_game();
    if let Some(rows) = &mut g.sheet_data {
        rows.push(vec!["100".to_string(), "Deprecated".to_string()]);
    }
    g.apply_spreadsheet();
    assert_eq!(g.mods[0].status.as_deref(), Some("Deprecated"));
    // the later row has no name cell, so the earlier name stands
    assert_eq!(g.mods[0].name.as_deref(), Some("Overlay A"));
}

#[test]
fn non_default_configs_filters_and_keeps_order() {
    let g1 = mk_game(vec![]);
    let mut g2 = mk_game(vec![]);
    g2.appid = "20".to_string();
    g2.spreadsheet.header_row_index = Some(1);
    let mut g3 = mk_game(vec![]);
    g3.appid = "30".to_string();
    g3.spreadsheet.sheet_url = "http://example".to_string();
    let out = non_default_configs(&vec![g1, g2, g3]);
    assert_eq!(out.len(), 2);
    assert_eq!(out[0].0.as_str(), "20");
    assert_eq!(out[0].1.header_row_index, Some(1));
    assert_eq!(out[1].0.as_str(), "30");
    assert_eq!(out[1].1.sheet_url.as_str(), "http://example");
}

#[test]
fn spreadsheet_config_default_and_clear() {
    let c = SpreadsheetConfig::default();
    assert!(c.is_default());
    let mut c2 = SpreadsheetConfig::default();
    c2.id_col = Some(3);
    c2.status_col = Some(4);
    assert!(!c2.is_default());
    c2.clear_columns_without_header();
    assert_eq!(c2.id_col, None);
    assert_eq!(c2.status_col, None);
    let mut c3 = SpreadsheetConfig::default();
    c3.header_row_index = Some(0);
    c3.id_col = Some(3);
    c3.clear_columns_without_header();
    assert_eq!(c3.id_col, Some(3));
}
