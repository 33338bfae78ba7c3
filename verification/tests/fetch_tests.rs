use workshop_whisperer::fetch::{
    build_batch_params, fetch_events, fetch_events_from_responses, plan_batches, FetchEvent,
    FetchState,
};

fn ids(n: usize) -> Vec<String> {
    let mut v = Vec::new();
    let mut i = 0;
    while i < n {
        v.push(format!("id{}", i));
        i += 1;
    }
    v
}

#[test]
fn batches_of_125_are_50_50_25() {
    // P8: 125 ids make exactly three calls of sizes 50, 50, 25.
    let batches = plan_batches(&ids(125));
    assert_eq!(batches.len(), 3);
    assert_eq!(batches[0].len(), 50);
    assert_eq!(batches[1].len(), 50);
    assert_eq!(batches[2].len(), 25);
    assert_eq!(batches[0][0].as_str(), "id0");
    assert_eq!(batches[1][0].as_str(), "id50");
    assert_eq!(batches[2][24].as_str(), "id124");
}

#[test]
fn batches_edge_sizes() {
    assert_eq!(plan_batches(&ids(0)).len(), 0);
    let one = plan_batches(&ids(1));
    assert_eq!(one.len(), 1);
    assert_eq!(one[0].len(), 1);
    let exact = plan_batches(&ids(50));
    assert_eq!(exact.len(), 1);
    assert_eq!(exact[0].len(), 50);
    let plus = plan_batches(&ids(51));
    assert_eq!(plus.len(), 2);
    assert_eq!(plus[0].len(), 50);
    assert_eq!(plus[1].len(), 1);
}

fn triples(prefix: &str, n: usize) -> Vec<(String, String, String)> {
    let mut v = Vec::new();
    let mut i = 0;
    while i < n {
        v.push((
            format!("{}{}", prefix, i),
            format!("t{}", i),
            format!("{}", 1000 + i),
        ));
        i += 1;
    }
    v
}

#[test]
fn events_report_cumulative_progress_and_end_with_done() {
    // P8: progress events carry 50/125, 100/125, 125/125, terminal last.
    let batch_results = vec![triples("a", 50), triples("b", 50), triples("c", 25)];
    let events = fetch_events(125, &batch_results);
    assert_eq!(events.len(), 125 + 3 + 1);
    let mut progresses = Vec::new();
    for ev in &events {
        if let FetchEvent::Progress { done, total } = ev {
            progresses.push((*done, *total));
        }
    }
    assert_eq!(progresses, vec![(50, 125), (100, 125), (125, 125)]);
    match events.last().unwrap() {
        FetchEvent::Done => {}
        _ => panic!("terminal event must come last"),
    }
    let mut i = 0;
    while i + 1 < events.len() {
        match &events[i] {
            FetchEvent::Done => panic!("terminal event before the end"),
            _ => {}
        }
        i += 1;
    }
}

#[test]
fn events_failed_batch_contributes_nothing() {
    let batch_results = vec![triples("a", 2), Vec::new(), triples("c", 1)];
    let events = fetch_events(103, &batch_results);
    // 3 items, 3 progress events, 1 terminal
    assert_eq!(events.len(), 7);
    if let FetchEvent::Progress { done, total } = &events[2] {
        assert_eq!((*done, *total), (2, 103));
    } else {
        panic!("expected a progress event after the first batch");
    }
    if let FetchEvent::Progress { done, total } = &events[3] {
        assert_eq!((*done, *total), (2, 103));
    } else {
        panic!("expected a progress event for the empty batch");
    }
    if let FetchEvent::Progress { done, total } = &events[5] {
        assert_eq!((*done, *total), (3, 103));
    } else {
        panic!("expected a progress event after the last batch");
    }
}

#[test]
fn batch_params_carry_count_and_indexed_ids() {
    let batch = vec!["111".to_string(), "222".to_string()];
    let params = build_batch_params(&batch);
    assert_eq!(params.len(), 3);
    assert_eq!(params[0].0.as_str(), "itemcount");
    assert_eq!(params[0].1.as_str(), "2");
    assert_eq!(params[1].0.as_str(), "publishedfileids[0]");
    assert_eq!(params[1].1.as_str(), "111");
    assert_eq!(params[2].0.as_str(), "publishedfileids[1]");
    assert_eq!(params[2].1.as_str(), "222");
}

#[test]
fn fetch_state_rejects_second_start_and_returns_to_idle() {
    let mut st = FetchState::Idle;
    assert!(st.try_start(10));
    assert!(!st.try_start(5));
    match st {
        FetchState::Fetching { done, total } => {
            assert_eq!(done, 0);
            assert_eq!(total, 10);
        }
        _ => panic!("expected a running fetch"),
    }
    st.on_event(&FetchEvent::Item {
        id: "1".to_string(),
        title: "t".to_string(),
        updated: "2".to_string(),
    });
    match st {
        FetchState::Fetching { done, total } => {
            assert_eq!(done, 1);
            assert_eq!(total, 10);
        }
        _ => panic!("an item event must keep the fetch running"),
    }
    st.on_event(&FetchEvent::Done);
    match st {
        FetchState::Idle => {}
        _ => panic!("the terminal event must return to idle"),
    }
    assert!(st.try_start(3));
}

#[test]
fn responses_decode_through_the_metadata_reader() {
    // Runs the real response decoding: a wrapper that handed its input
    // back unchanged could not produce these events.
    let body = "{\"response\":{\"publishedfiledetails\":[\
        {\"publishedfileid\":\"77\",\"title\":\"Neat Mod\",\"time_updated\":1700000000},\
        {\"publishedfileid\":\"88\",\"title\":\"Other\",\"time_updated\":1600000000}]}}";
    let responses = vec![Some(body.to_string())];
    let events = fetch_events_from_responses(2, &responses);
    assert_eq!(events.len(), 4);
    match &events[0] {
        FetchEvent::Item { id, title, updated } => {
            assert_eq!(id.as_str(), "77");
            assert_eq!(title.as_str(), "Neat Mod");
            assert_eq!(updated.as_str(), "1700000000");
        }
        _ => panic!("expected the first item event"),
    }
    match &events[1] {
        FetchEvent::Item { id, title, updated } => {
            assert_eq!(id.as_str(), "88");
            assert_eq!(title.as_str(), "Other");
            assert_eq!(updated.as_str(), "1600000000");
        }
        _ => panic!("expected the second item event"),
    }
    match &events[2] {
        FetchEvent::Progress { done, total } => {
            assert_eq!((*done, *total), (2, 2));
        }
        _ => panic!("expected a progress event"),
    }
    match &events[3] {
        FetchEvent::Done => {}
        _ => panic!("expected the terminal event"),
    }
}

#[test]
fn malformed_or_missing_response_contributes_no_items() {
    let responses = vec![
        Some("this is not json".to_string()),
        None,
        Some("{\"response\":{}}".to_string()),
    ];
    let events = fetch_events_from_responses(150, &responses);
    // no items: three progress events and the terminal one
    assert_eq!(events.len(), 4);
    for ev in &events[0..3] {
        match ev {
            FetchEvent::Progress { done, total } => {
                assert_eq!((*done, *total), (0, 150));
            }
            _ => panic!("expected only progress events"),
        }
    }
    // an item with missing fields decodes to empty strings
    let one = vec![Some(
        "{\"response\":{\"publishedfiledetails\":[{\"title\":\"NoId\"}]}}".to_string(),
    )];
    let events2 = fetch_events_from_responses(1, &one);
    match &events2[0] {
        FetchEvent::Item { id, title, updated } => {
            assert_eq!(id.as_str(), "");
            assert_eq!(title.as_str(), "NoId");
            assert_eq!(updated.as_str(), "");
        }
        _ => panic!("expected one item event"),
    }
}
