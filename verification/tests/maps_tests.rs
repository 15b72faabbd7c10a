use procview::maps::{fetch_regions, module_paths, normalize_regions, FetchError};
use procview::region::{Backing, Region};

fn region(start: u64, end: u64, execute: bool, backing: Backing) -> Region {
    Region {
        start,
        end,
        read: true,
        write: false,
        execute,
        shared: false,
        backing,
    }
}

#[test]
fn normalization_output_is_sorted_and_disjoint() {
    // An out-of-order, overlapping, and malformed mix.
    let raw = vec![
        region(0x2000, 0x3000, false, Backing::Heap),
        region(0x1000, 0x2000, false, Backing::Anonymous),
        region(0x2800, 0x3800, false, Backing::Anonymous),
        region(0x5000, 0x5000, false, Backing::Anonymous),
        region(0x4000, 0x4800, false, Backing::Stack),
    ];
    let out = normalize_regions(raw);
    for r in &out {
        assert!(r.start < r.end);
    }
    for w in out.windows(2) {
        assert!(w[0].end <= w[1].start);
    }
}

#[test]
fn normalization_keeps_an_ordered_list_whole() {
    let raw = vec![
        region(0x1000, 0x2000, true, Backing::FilePath("/lib/libc.so".into())),
        region(0x2000, 0x3000, false, Backing::Heap),
        region(0x4000, 0x5000, false, Backing::Stack),
    ];
    let out = normalize_regions(raw);
    assert_eq!(out.len(), 3);
    assert_eq!((out[0].start, out[0].end), (0x1000, 0x2000));
    assert_eq!((out[1].start, out[1].end), (0x2000, 0x3000));
    assert_eq!((out[2].start, out[2].end), (0x4000, 0x5000));
}

#[test]
fn fetching_a_missing_pid_reports_process_not_found() {
    let r = fetch_regions(i32::MAX);
    assert!(matches!(r, Err(FetchError::ProcessNotFound)));
}

#[test]
fn fetching_own_maps_yields_ordered_regions() {
    let me = procfs::process::Process::myself().unwrap().pid;
    let regions = fetch_regions(me).unwrap();
    assert!(!regions.is_empty());
    for r in &regions {
        assert!(r.start < r.end);
    }
    for w in regions.windows(2) {
        assert!(w[0].end <= w[1].start);
    }
    // A live process maps at least one file and one executable region.
    assert!(regions
        .iter()
        .any(|r| matches!(r.backing, Backing::FilePath(_))));
    assert!(regions.iter().any(|r| r.execute));
}

#[test]
fn module_paths_are_distinct_file_backed_paths() {
    let rs = vec![
        region(0x1000, 0x2000, true, Backing::FilePath("/a".into())),
        region(0x2000, 0x3000, false, Backing::FilePath("/b".into())),
        region(0x3000, 0x4000, false, Backing::FilePath("/a".into())),
        region(0x4000, 0x5000, false, Backing::Heap),
    ];
    let paths = module_paths(rs);
    assert_eq!(paths, vec!["/a".to_string(), "/b".to_string()]);
}

#[test]
fn module_paths_come_in_ascending_order() {
    let rs = vec![
        region(0x1000, 0x2000, false, Backing::FilePath("/c".into())),
        region(0x2000, 0x3000, false, Backing::FilePath("/a".into())),
        region(0x3000, 0x4000, false, Backing::FilePath("/b".into())),
        region(0x4000, 0x5000, false, Backing::FilePath("/a".into())),
    ];
    let paths = module_paths(rs);
    assert_eq!(
        paths,
        vec!["/a".to_string(), "/b".to_string(), "/c".to_string()]
    );
}

#[test]
fn module_paths_of_nothing_is_empty() {
    let paths = module_paths(vec![region(0x1000, 0x2000, false, Backing::Heap)]);
    assert!(paths.is_empty());
}
