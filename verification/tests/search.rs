use maskmatch::Pattern;
use maskmatch::PatternSearchType;
use maskmatch::Searcher;
use maskmatch::searcher::scan;

fn expected_events() -> Vec<PatternSearchType<u8>> {
    vec![
        PatternSearchType::NonMatch(0x1a),
        PatternSearchType::Match {
            data: [0x2b, 0x3c].to_vec(),
            index: 1,
        },
        PatternSearchType::Match {
            data: [0x4d, 0x5e].to_vec(),
            index: 3,
        },
        PatternSearchType::NonMatch(0x6f),
    ]
}

#[test]
fn pattern_search_iterator_search_global() {
    let d = [0x1a, 0x2b, 0x3c, 0x4d, 0x5e, 0x6f];
    let s = Pattern::from_str("0b???0???? 0b???1????").unwrap();
    let mut events = Vec::new();
    let mut searcher = Searcher::new(&s);
    for byte in d.to_vec().into_iter() {
        if let Some(event) = searcher.handle_next(byte) {
            events.push(event);
            while let Some(event) = searcher.handle_existing_data() {
                events.push(event);
            }
        }
    }
    while let Some(event) = searcher.handle_existing_data() {
        events.push(event);
    }
    assert_eq!(events, expected_events());
}

#[test]
fn pattern_search_ref_iterator_search_global() {
    let d = [0x1a, 0x2b, 0x3c, 0x4d, 0x5e, 0x6f];
    let s = Pattern::from_str("0b???0???? 0b???1????").unwrap();
    let mut events = Vec::new();
    let mut searcher = Searcher::new(&s);
    for byte in d.iter() {
        if let Some(event) = searcher.handle_next(*byte) {
            events.push(event);
            while let Some(event) = searcher.handle_existing_data() {
                events.push(event);
            }
        }
    }
    while let Some(event) = searcher.handle_existing_data() {
        events.push(event);
    }
    assert_eq!(events, expected_events());
}

#[test]
fn pattern_search_result_iterator_search_global() {
    let d = [0x1a, 0x2b, 0x3c, 0x4d, 0x5e, 0x6f];
    let s = Pattern::from_str("0b???0???? 0b???1????").unwrap();
    let mut events = Vec::new();
    let mut searcher = Searcher::new(&s);
    for result in d.iter().map(|b| Ok::<u8, std::io::Error>(*b)) {
        let byte = result.unwrap();
        if let Some(event) = searcher.handle_next(byte) {
            events.push(event);
            while let Some(event) = searcher.handle_existing_data() {
                events.push(event);
            }
        }
    }
    while let Some(event) = searcher.handle_existing_data() {
        events.push(event);
    }
    assert_eq!(events, expected_events());
}

#[test]
fn scan_collects_the_event_stream() {
    let d = vec![0x1a, 0x2b, 0x3c, 0x4d, 0x5e, 0x6f];
    let s = Pattern::from_str("0b???0???? 0b???1????").unwrap();
    assert_eq!(scan(&s, &d), expected_events());
}

#[test]
fn scan_drains_a_partial_match_at_the_end() {
    let d = vec![0x2b];
    let s = Pattern::from_str("0b???0???? 0b???1????").unwrap();
    // 0x2b starts a possible match; the end of input drains it as a non-match
    assert_eq!(scan(&s, &d), vec![PatternSearchType::NonMatch(0x2b)]);
}

#[test]
fn scan_does_not_restart_inside_an_expelled_window() {
    // the pattern 0xaa 0xab overlaps itself on 0xaa; a failed extension
    // expels the window without re-testing its tail, so the match starting
    // at the second 0xaa is missed
    let s = Pattern::from_str("0xaa 0xab").unwrap();
    let d = vec![0xaa, 0xaa, 0xab];
    assert_eq!(
        scan(&s, &d),
        vec![
            PatternSearchType::NonMatch(0xaa),
            PatternSearchType::NonMatch(0xaa),
            PatternSearchType::NonMatch(0xab),
        ]
    );
}
