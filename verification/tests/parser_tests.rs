use workshop_whisperer::parser::{parse_vdf, tokenize, KeyValue};

fn get_str<'a>(kv: &'a KeyValue, key: &str) -> Option<&'a String> {
    kv.get(key).and_then(|v| v.as_str())
}

#[test]
fn tokenize_quoted_and_braces() {
    let toks = tokenize("\"a\" { \"b\" \"c\" }");
    let expect = vec!["a", "{", "b", "c", "}"];
    assert_eq!(toks.len(), expect.len());
    let mut i = 0;
    while i < toks.len() {
        assert_eq!(toks[i].as_str(), expect[i]);
        i += 1;
    }
}

#[test]
fn tokenize_ignores_noise_and_keeps_braces_in_quotes() {
    let toks = tokenize("noise \"a{b}\" x { }");
    assert_eq!(toks.len(), 3);
    assert_eq!(toks[0].as_str(), "a{b}");
    assert_eq!(toks[1].as_str(), "{");
    assert_eq!(toks[2].as_str(), "}");
}

#[test]
fn tokenize_drops_unterminated_quote() {
    let toks = tokenize("\"a\" \"unfinished");
    assert_eq!(toks.len(), 1);
    assert_eq!(toks[0].as_str(), "a");
}

#[test]
fn parse_flat_pairs() {
    let root = parse_vdf("\"k1\" \"v1\"\n\"k2\" \"v2\"");
    assert_eq!(get_str(&root, "k1").unwrap().as_str(), "v1");
    assert_eq!(get_str(&root, "k2").unwrap().as_str(), "v2");
    assert!(root.get("k3").is_none());
}

#[test]
fn parse_nested_object() {
    let text = "\"outer\"\n{\n  \"inner\" \"x\"\n  \"deep\" { \"a\" \"1\" }\n}";
    let root = parse_vdf(text);
    let outer = root.get("outer").unwrap();
    assert_eq!(get_str(outer, "inner").unwrap().as_str(), "x");
    let deep = outer.get("deep").unwrap();
    assert_eq!(get_str(deep, "a").unwrap().as_str(), "1");
}

#[test]
fn parse_round_trip_order_preserved() {
    // P1 on concrete values: a serialized document parses back exactly,
    // keys in writing order.
    let text = "\"b\" \"2\" \"a\" \"1\" \"c\" { \"z\" \"9\" }";
    let root = parse_vdf(text);
    let entries = root.obj_entries().unwrap();
    assert_eq!(entries.len(), 3);
    assert_eq!(entries[0].0.as_str(), "b");
    assert_eq!(entries[1].0.as_str(), "a");
    assert_eq!(entries[2].0.as_str(), "c");
}

#[test]
fn parse_duplicate_key_last_write_wins() {
    let root = parse_vdf("\"k\" \"old\" \"k\" \"new\"");
    assert_eq!(get_str(&root, "k").unwrap().as_str(), "new");
    let entries = root.obj_entries().unwrap();
    assert_eq!(entries.len(), 1);
}

#[test]
fn parse_truncated_input_returns_partial_tree() {
    // P2 on concrete values: a truncated document still parses, keeping
    // what was complete and inventing nothing for the dangling key.
    let root = parse_vdf("\"a\" \"1\" \"b\"");
    assert_eq!(get_str(&root, "a").unwrap().as_str(), "1");
    assert!(root.get("b").is_none());
    assert_eq!(root.obj_entries().unwrap().len(), 1);
}

#[test]
fn parse_unbalanced_braces_returns_partial_tree() {
    let root = parse_vdf("\"a\" { \"x\" \"1\" ");
    let a = root.get("a").unwrap();
    assert_eq!(get_str(a, "x").unwrap().as_str(), "1");
}

#[test]
fn parse_key_directly_followed_by_close_is_dropped() {
    let root = parse_vdf("\"a\" } \"b\" \"2\"");
    assert!(root.get("a").is_none());
    assert_eq!(get_str(&root, "b").unwrap().as_str(), "2");
}

#[test]
fn parse_empty_input() {
    let root = parse_vdf("");
    assert_eq!(root.obj_entries().unwrap().len(), 0);
}

#[test]
fn parse_cut_mid_token_keeps_earlier_structure() {
    // a cut inside the nested object's value token: the unterminated
    // token disappears, its key is dropped, everything before stands
    let root = parse_vdf("\"a\" \"1\" \"b\" { \"x\" \"y");
    assert_eq!(get_str(&root, "a").unwrap().as_str(), "1");
    let b = root.get("b").unwrap();
    assert_eq!(b.obj_entries().unwrap().len(), 0);
}

#[test]
fn parse_ignores_filler_between_tokens() {
    let plain = parse_vdf("\"k\" \"v\"");
    let spaced = parse_vdf("  \t\"k\"  ,, \n \"v\" junk ");
    assert_eq!(get_str(&plain, "k").unwrap(), get_str(&spaced, "k").unwrap());
    assert_eq!(spaced.obj_entries().unwrap().len(), 1);
}
