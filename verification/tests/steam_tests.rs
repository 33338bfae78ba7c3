use workshop_whisperer::steam::{
    game_name_from_manifest, parse_library_listing, parse_workshop_items,
};

#[test]
fn library_listing_paths_and_app_ids() {
    let text = "\"libraryfolders\"\n{\n\
        \"0\"\n{\n\"path\" \"/mnt/a\"\n\"apps\"\n{\n\"10\" \"0\"\n\"20\" \"0\"\n}\n}\n\
        \"1\"\n{\n\"path\" \"/mnt/b\"\n\"apps\"\n{\n\"30\" \"0\"\n}\n}\n}";
    let listing = parse_library_listing(text);
    assert_eq!(listing.len(), 2);
    assert_eq!(listing[0].0.as_str(), "/mnt/a");
    assert_eq!(listing[0].1.len(), 2);
    assert_eq!(listing[0].1[0].as_str(), "10");
    assert_eq!(listing[0].1[1].as_str(), "20");
    assert_eq!(listing[1].0.as_str(), "/mnt/b");
    assert_eq!(listing[1].1[0].as_str(), "30");
}

#[test]
fn library_listing_skips_incomplete_folders() {
    let text = "\"libraryfolders\"\n{\n\
        \"0\"\n{\n\"path\" \"/only/path\"\n}\n\
        \"1\"\n{\n\"path\" \"/ok\"\n\"apps\"\n{\n\"7\" \"0\"\n}\n}\n}";
    let listing = parse_library_listing(text);
    assert_eq!(listing.len(), 1);
    assert_eq!(listing[0].0.as_str(), "/ok");
}

#[test]
fn library_listing_empty_when_key_missing() {
    assert_eq!(parse_library_listing("\"other\" \"x\"").len(), 0);
    assert_eq!(parse_library_listing("").len(), 0);
}

#[test]
fn game_name_read_from_appstate() {
    let text = "\"AppState\"\n{\n\"appid\" \"10\"\n\"name\" \"My Game\"\n}";
    assert_eq!(game_name_from_manifest(text).as_str(), "My Game");
}

#[test]
fn game_name_placeholder_when_missing() {
    assert_eq!(game_name_from_manifest("").as_str(), "<unknown>");
    assert_eq!(
        game_name_from_manifest("\"AppState\"\n{\n\"appid\" \"10\"\n}").as_str(),
        "<unknown>"
    );
    assert_eq!(game_name_from_manifest("\"AppState\" \"leaf\"").as_str(), "<unknown>");
}

#[test]
fn workshop_items_with_timestamps() {
    let text = "\"AppWorkshop\"\n{\n\"WorkshopItemsInstalled\"\n{\n\
        \"111\"\n{\n\"timeupdated\" \"1700000001\"\n}\n\
        \"222\"\n{\n\"timeupdated\" \"1700000002\"\n}\n}\n}";
    let items = parse_workshop_items(text);
    assert_eq!(items.len(), 2);
    assert_eq!(items[0].0.as_str(), "111");
    assert_eq!(items[0].1, 1700000001u64);
    assert_eq!(items[1].0.as_str(), "222");
    assert_eq!(items[1].1, 1700000002u64);
}

#[test]
fn workshop_items_skip_unreadable_timestamps() {
    let text = "\"AppWorkshop\"\n{\n\"WorkshopItemsInstalled\"\n{\n\
        \"111\"\n{\n\"timeupdated\" \"not-a-number\"\n}\n\
        \"222\"\n{\n\"size\" \"10\"\n}\n\
        \"333\"\n{\n\"timeupdated\" \"5\"\n}\n}\n}";
    let items = parse_workshop_items(text);
    assert_eq!(items.len(), 1);
    assert_eq!(items[0].0.as_str(), "333");
    assert_eq!(items[0].1, 5u64);
}

#[test]
fn workshop_items_empty_on_missing_sections() {
    assert_eq!(parse_workshop_items("").len(), 0);
    assert_eq!(parse_workshop_items("\"AppWorkshop\" { }").len(), 0);
}
