use workshop_whisperer::config::SpreadsheetConfig;
use workshop_whisperer::spreadsheet::to_csv_url;
use workshop_whisperer::store::{GameEntry, WorkshopMod};
use workshop_whisperer::text::{parse_u64, u64_to_string};

#[test]
fn csv_url_from_share_link() {
    let url = to_csv_url("https://docs.google.com/spreadsheets/d/abc123/edit#gid=0").unwrap();
    assert_eq!(
        url.as_str(),
        "https://docs.google.com/spreadsheets/d/abc123/export?format=csv&gid=0"
    );
}

#[test]
fn csv_url_none_without_d_segment() {
    assert!(to_csv_url("https://example.com/spreadsheets/x/abc123").is_none());
    assert!(to_csv_url("").is_none());
}

#[test]
fn csv_url_none_when_d_is_last() {
    assert!(to_csv_url("https://docs.google.com/spreadsheets/d").is_none());
}

#[test]
fn csv_url_uses_first_d_segment() {
    let url = to_csv_url("x/d/first/d/second").unwrap();
    assert_eq!(
        url.as_str(),
        "https://docs.google.com/spreadsheets/d/first/export?format=csv&gid=0"
    );
}

fn mk_game() -> GameEntry {
    GameEntry {
        appid: "10".to_string(),
        name: "Game".to_string(),
        path: "/lib".to_string(),
        spreadsheet: SpreadsheetConfig::default(),
        sheet_data: None,
        mods: vec![WorkshopMod {
            id: "100".to_string(),
            name: None,
            status: None,
            last_updated: None,
            local_updated: None,
        }],
    }
}

#[test]
fn sheet_text_decodes_into_rows() {
    // Runs the real delimited-text reader: its first line is consumed as
    // the column header, the rest become rows of cells.
    let mut g = mk_game();
    g.load_sheet_data("id,status,name\n100,Functional,Alpha\n200,Broken,Beta\n");
    let rows = g.sheet_data.as_ref().unwrap();
    assert_eq!(rows.len(), 2);
    assert_eq!(rows[0], vec!["100".to_string(), "Functional".to_string(), "Alpha".to_string()]);
    assert_eq!(rows[1], vec!["200".to_string(), "Broken".to_string(), "Beta".to_string()]);
}

#[test]
fn sheet_load_clears_stale_columns_without_header() {
    let mut g = mk_game();
    g.spreadsheet.id_col = Some(4);
    g.spreadsheet.status_col = Some(5);
    g.load_sheet_data("a,b\n1,2\n");
    assert_eq!(g.spreadsheet.id_col, None);
    assert_eq!(g.spreadsheet.status_col, None);

    let mut g2 = mk_game();
    g2.spreadsheet.header_row_index = Some(0);
    g2.spreadsheet.id_col = Some(0);
    g2.load_sheet_data("a,b\n1,2\n");
    assert_eq!(g2.spreadsheet.id_col, Some(0));
}

#[test]
fn sheet_load_then_overlay_applies_status() {
    let mut g = mk_game();
    g.load_sheet_data("col1,col2\nid,status\n100,Functional\n");
    g.spreadsheet.header_row_index = Some(0);
    g.spreadsheet.id_col = Some(0);
    g.spreadsheet.status_col = Some(1);
    g.apply_spreadsheet();
    assert_eq!(g.mods[0].status.as_deref(), Some("Functional"));
}

#[test]
fn decimal_print_and_parse_round_trip() {
    assert_eq!(u64_to_string(0).as_str(), "0");
    assert_eq!(u64_to_string(7).as_str(), "7");
    assert_eq!(u64_to_string(1700000000).as_str(), "1700000000");
    assert_eq!(u64_to_string(u64::MAX).as_str(), "18446744073709551615");
    assert_eq!(parse_u64("18446744073709551615"), Some(u64::MAX));
    assert_eq!(parse_u64("18446744073709551616"), None);
    assert_eq!(parse_u64("+42"), Some(42));
    assert_eq!(parse_u64(""), None);
    assert_eq!(parse_u64("+"), None);
    assert_eq!(parse_u64("12a"), None);
    assert_eq!(parse_u64("-1"), None);
    assert_eq!(parse_u64(&u64_to_string(987654321)), Some(987654321));
}
