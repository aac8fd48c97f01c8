use maskmatch::Error;
use maskmatch::Pattern;
use maskmatch::PatternSearchType;
use maskmatch::Replacer;
use maskmatch::Skipper;
use maskmatch::Taker;
use maskmatch::replacer::replace_all;
use maskmatch::searcher::scan;
use maskmatch::skipper::skip_all;
use maskmatch::taker::take_all;

fn scenario_events() -> Vec<PatternSearchType<u8>> {
    let d = vec![0x1a, 0x2b, 0x3c, 0x4d, 0x5e, 0x6f];
    let s = Pattern::from_str("0b???0???? 0b???1????").unwrap();
    scan(&s, &d)
}

#[test]
fn replace_engine_rewrites_matches() {
    // search for 0x1? and rewrite the matched unit to 0xa?
    let search = Pattern::from_str("0x1?").unwrap();
    let rewrite = Pattern::from_str("0xa?").unwrap();
    let events = scan(&search, &vec![0x12, 0x34]);
    let out = replace_all(&rewrite, &events);
    assert_eq!(out.len(), 2);
    assert_eq!(*out[0].as_ref().unwrap(), 0xa2);
    assert_eq!(*out[1].as_ref().unwrap(), 0x34);
}

#[test]
fn replace_engine_appends_defined_overhang() {
    let search = Pattern::from_str("0x1?").unwrap();
    let rewrite = Pattern::from_str("0x?a 0xbc").unwrap();
    let events = scan(&search, &vec![0x12, 0x34]);
    let out = replace_all(&rewrite, &events);
    // the matched 0x12 becomes 0x1a with 0xbc appended; 0x34 passes through
    assert_eq!(out.len(), 3);
    assert_eq!(*out[0].as_ref().unwrap(), 0x1a);
    assert_eq!(*out[1].as_ref().unwrap(), 0xbc);
    assert_eq!(*out[2].as_ref().unwrap(), 0x34);
}

#[test]
fn replace_engine_reports_undefined_overhang_and_goes_on() {
    let search = Pattern::from_str("0x1?").unwrap();
    let rewrite = Pattern::from_str("0x?a 0x2?").unwrap();
    let events = scan(&search, &vec![0x12, 0x34, 0x15]);
    let out = replace_all(&rewrite, &events);
    // both matches fail on the undefined overhanging 0x2?, the non-match
    // passes through, and the engine keeps going after each failure
    assert_eq!(out.len(), 3);
    assert!(matches!(out[0], Err(Error::ReplaceNotDefined)));
    assert_eq!(*out[1].as_ref().unwrap(), 0x34);
    assert!(matches!(out[2], Err(Error::ReplaceNotDefined)));
}

#[test]
fn replacer_single_steps() {
    let rewrite = Pattern::from_str("0xab 0xcd").unwrap();
    let mut rep = Replacer::new(&rewrite);
    assert_eq!(rep.handle_existing_data(), None);
    let r = rep.handle_next(PatternSearchType::Match {
        data: vec![0x11, 0x22],
        index: 0,
    });
    assert_eq!(r.unwrap(), 0xab);
    assert_eq!(rep.handle_existing_data(), Some(0xcd));
    assert_eq!(rep.handle_existing_data(), None);
    assert_eq!(rep.handle_next(PatternSearchType::NonMatch(0x99)).unwrap(), 0x99);
}

#[test]
fn take_forwards_the_first_matches() {
    let events = scenario_events();
    let taken = take_all(&events, 1);
    assert_eq!(
        taken,
        vec![
            PatternSearchType::NonMatch(0x1a),
            PatternSearchType::Match {
                data: vec![0x2b, 0x3c],
                index: 1,
            },
            PatternSearchType::NonMatch(0x4d),
            PatternSearchType::NonMatch(0x5e),
            PatternSearchType::NonMatch(0x6f),
        ]
    );
}

#[test]
fn skip_demotes_the_first_matches() {
    let events = scenario_events();
    let skipped = skip_all(&events, 1);
    assert_eq!(
        skipped,
        vec![
            PatternSearchType::NonMatch(0x1a),
            PatternSearchType::NonMatch(0x2b),
            PatternSearchType::NonMatch(0x3c),
            PatternSearchType::Match {
                data: vec![0x4d, 0x5e],
                index: 3,
            },
            PatternSearchType::NonMatch(0x6f),
        ]
    );
}

#[test]
fn skip_zero_and_take_zero_are_complements() {
    let events = scenario_events();
    // skip of zero forwards everything untouched
    assert_eq!(skip_all(&events, 0), scenario_events());
    // take of zero demotes every match to its units
    assert_eq!(
        take_all(&events, 0),
        vec![
            PatternSearchType::NonMatch(0x1a),
            PatternSearchType::NonMatch(0x2b),
            PatternSearchType::NonMatch(0x3c),
            PatternSearchType::NonMatch(0x4d),
            PatternSearchType::NonMatch(0x5e),
            PatternSearchType::NonMatch(0x6f),
        ]
    );
}

#[test]
fn taker_and_skipper_single_steps() {
    let mut taker = Taker::new(1);
    let passed = taker.handle_next(PatternSearchType::Match {
        data: vec![1, 2],
        index: 0,
    });
    assert_eq!(
        passed,
        PatternSearchType::Match {
            data: vec![1, 2],
            index: 0,
        }
    );
    let demoted = taker.handle_next(PatternSearchType::Match {
        data: vec![3, 4],
        index: 5,
    });
    assert_eq!(demoted, PatternSearchType::NonMatch(3));
    assert_eq!(taker.handle_existing_data(), Some(4));
    assert_eq!(taker.handle_existing_data(), None);

    let mut skipper = Skipper::new(1);
    let demoted = skipper.handle_next(PatternSearchType::Match {
        data: vec![1, 2],
        index: 0,
    });
    assert_eq!(demoted, PatternSearchType::NonMatch(1));
    assert_eq!(skipper.handle_existing_data(), Some(2));
    assert_eq!(skipper.handle_existing_data(), None);
    let passed = skipper.handle_next(PatternSearchType::Match {
        data: vec![3, 4],
        index: 5,
    });
    assert_eq!(
        passed,
        PatternSearchType::Match {
            data: vec![3, 4],
            index: 5,
        }
    );
    // non-matches never touch either counter
    assert_eq!(
        skipper.handle_next(PatternSearchType::NonMatch(9)),
        PatternSearchType::NonMatch(9)
    );
}

#[test]
fn replace_and_rescan_round_trip() {
    // a fully defined pattern: rescanning a replaced match reproduces it
    let p = Pattern::from_str("0xab 0xcd").unwrap();
    let d = vec![0x99, 0xab, 0xcd, 0x77];
    let events = scan(&p, &d);
    assert_eq!(events.len(), 3);
    let replaced: Vec<u8> = match &events[1] {
        PatternSearchType::Match { data, index } => {
            assert_eq!(*index, 1);
            p.replace(data.clone()).unwrap()
        }
        other => panic!("expected a match, got {:?}", other),
    };
    assert_eq!(replaced, vec![0xab, 0xcd]);
    let again = scan(&p, &replaced);
    assert_eq!(
        again,
        vec![PatternSearchType::Match {
            data: vec![0xab, 0xcd],
            index: 0,
        }]
    );
}
