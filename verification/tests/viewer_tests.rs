use procview::memread::ReadError;
use procview::viewer::{
    after_page, page_len, parse_viewer_cmd, render_units, step_input, UnitOutcome, ViewSession,
    ViewerCmd, ViewerState,
};

#[test]
fn a_thousand_bytes_come_as_three_pages_of_400_400_200() {
    let mut sess = ViewSession::new(0, 1000);
    let mut pages = Vec::new();
    let mut transitions = Vec::new();
    loop {
        let page = page_len(&sess);
        pages.push(page);
        sess.offset += page;
        let st = after_page(&sess);
        transitions.push(st);
        if st == ViewerState::Finished {
            break;
        }
    }
    assert_eq!(pages, vec![400, 400, 200]);
    assert_eq!(
        transitions,
        vec![
            ViewerState::AwaitingUserInput,
            ViewerState::AwaitingUserInput,
            ViewerState::Finished,
        ]
    );
}

#[test]
fn quitting_while_awaiting_input_finishes_at_once() {
    assert_eq!(step_input(&ViewerCmd::Quit), ViewerState::Finished);
    assert_eq!(step_input(&ViewerCmd::Next), ViewerState::Active);
    assert_eq!(step_input(&ViewerCmd::Invalid), ViewerState::AwaitingUserInput);
}

#[test]
fn sub_prompt_accepts_exactly_n_and_q() {
    assert_eq!(parse_viewer_cmd("n"), ViewerCmd::Next);
    assert_eq!(parse_viewer_cmd("q"), ViewerCmd::Quit);
    assert_eq!(parse_viewer_cmd(" n "), ViewerCmd::Next);
    assert_eq!(parse_viewer_cmd("next"), ViewerCmd::Invalid);
    assert_eq!(parse_viewer_cmd(""), ViewerCmd::Invalid);
    assert_eq!(parse_viewer_cmd("N"), ViewerCmd::Invalid);
}

#[test]
fn offset_is_monotonic_and_advances_by_each_page() {
    let mut sess = ViewSession::new(0x1000, 0x2000);
    let mut last = sess.offset;
    while after_page(&sess) != ViewerState::Finished {
        let page = page_len(&sess);
        sess.offset += page;
        assert!(sess.offset >= last);
        assert_eq!(sess.offset, last + page);
        last = sess.offset;
    }
}

#[test]
fn reads_over_an_executable_range_cover_it_exactly_in_forty_byte_units() {
    // The region [0x1000, 0x2000): 4096 bytes.
    let mut sess = ViewSession::new(0x1000, 0x2000);
    let mut total: u64 = 0;
    let mut reads = Vec::new();
    loop {
        let page = page_len(&sess);
        if page == 0 {
            break;
        }
        let mut done: u64 = 0;
        while done < page {
            let unit = (page - done).min(40);
            let addr = sess.start + sess.offset + done;
            reads.push((addr, unit));
            done += unit;
        }
        sess.offset += page;
        if after_page(&sess) == ViewerState::Finished {
            break;
        }
    }
    for (addr, unit) in &reads {
        assert!(*addr >= 0x1000);
        assert!(addr + unit <= 0x2000, "a read extends past the range end");
        assert!(*unit >= 1 && *unit <= 40);
        total += unit;
    }
    assert_eq!(total, 4096);
    assert_eq!(reads.first().unwrap().0, 0x1000);
    let (last_addr, last_unit) = reads.last().unwrap();
    assert_eq!(last_addr + last_unit, 0x2000);
}

#[test]
fn a_fault_at_unit_three_is_reported_once_and_the_rest_still_render() {
    let mut results: Vec<(u64, usize, Result<Vec<u8>, ReadError>)> = Vec::new();
    for i in 0..10u64 {
        let addr = 0x1000 + 40 * i;
        if i == 2 {
            results.push((
                addr,
                40,
                Err(ReadError::ReadFault("unit unreadable".to_string())),
            ));
        } else {
            results.push((addr, 40, Ok(vec![0xABu8; 40])));
        }
    }
    let out = render_units(results);
    assert_eq!(out.len(), 10);
    let faults: Vec<usize> = out
        .iter()
        .enumerate()
        .filter(|(_, o)| matches!(o.2, UnitOutcome::Fault(_)))
        .map(|(i, _)| i)
        .collect();
    assert_eq!(faults, vec![2]);
    for (i, (addr, len, o)) in out.iter().enumerate() {
        assert_eq!(*addr, 0x1000 + 40 * i as u64);
        assert_eq!(*len, 40);
        if i != 2 {
            match o {
                UnitOutcome::Hex(h) => assert_eq!(h, &"AB".repeat(40)),
                UnitOutcome::Fault(_) => panic!("unexpected fault"),
            }
        } else {
            assert!(matches!(o, UnitOutcome::Fault(m) if m == "unit unreadable"));
        }
    }
}

#[test]
fn empty_read_results_render_to_nothing() {
    let out = render_units(Vec::new());
    assert!(out.is_empty());
}
