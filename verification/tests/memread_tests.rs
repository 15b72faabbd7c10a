use procview::memread::{open_handle, read_bytes, ReadError};
use procview::viewer::{run_page, ViewSession};

#[test]
fn reading_own_memory_returns_the_bytes_there() {
    let me = procfs::process::Process::myself().unwrap().pid;
    let handle = open_handle(me).unwrap();
    let buf = [0xA5u8; 40];
    let addr = buf.as_ptr() as u64;
    let bytes = read_bytes(&handle, addr, 40).unwrap();
    assert_eq!(bytes, vec![0xA5u8; 40]);
}

#[test]
fn reading_an_unmapped_address_faults_without_panicking() {
    let me = procfs::process::Process::myself().unwrap().pid;
    let handle = open_handle(me).unwrap();
    // The null page is never mapped in this process.
    let r = read_bytes(&handle, 0, 8);
    assert!(matches!(r, Err(ReadError::ReadFault(_))));
}

#[test]
fn a_page_over_own_memory_renders_as_hex() {
    let me = procfs::process::Process::myself().unwrap().pid;
    let handle = open_handle(me).unwrap();
    let buf = [0x5Cu8; 100];
    let addr = buf.as_ptr() as u64;
    let mut sess = ViewSession::new(addr, addr + 100);
    let out = run_page(&handle, &mut sess);
    // 100 bytes in one page: units of 40, 40, 20, at contiguous addresses.
    assert_eq!(out.len(), 3);
    assert_eq!(sess.offset, 100);
    assert_eq!((out[0].0, out[0].1), (addr, 40));
    assert_eq!((out[1].0, out[1].1), (addr + 40, 40));
    assert_eq!((out[2].0, out[2].1), (addr + 80, 20));
    match &out[0].2 {
        procview::viewer::UnitOutcome::Hex(h) => assert_eq!(h, &"5C".repeat(40)),
        _ => panic!("own memory should be readable"),
    }
    match &out[2].2 {
        procview::viewer::UnitOutcome::Hex(h) => assert_eq!(h, &"5C".repeat(20)),
        _ => panic!("own memory should be readable"),
    }
}

#[test]
fn issued_reads_cover_a_live_range_exactly_and_stop_at_its_end() {
    let me = procfs::process::Process::myself().unwrap().pid;
    let handle = open_handle(me).unwrap();
    let buf = vec![0x11u8; 1000];
    let start = buf.as_ptr() as u64;
    let end = start + 1000;
    let mut sess = ViewSession::new(start, end);
    let mut next = start;
    let mut total: u64 = 0;
    loop {
        for (addr, len, _) in run_page(&handle, &mut sess) {
            assert_eq!(addr, next, "reads must be contiguous");
            assert!(len >= 1 && len <= 40);
            assert!(addr + len as u64 <= end, "a read extends past the range end");
            next = addr + len as u64;
            total += len as u64;
        }
        if procview::viewer::after_page(&sess) == procview::viewer::ViewerState::Finished {
            break;
        }
    }
    assert_eq!(total, 1000);
    assert_eq!(next, end);
}
