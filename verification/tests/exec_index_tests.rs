use procview::exec_index::{build_exec_index, lookup_exec_region, IndexError};
use procview::region::{Backing, Region};

fn region(start: u64, end: u64, execute: bool, backing: Backing) -> Region {
    Region {
        start,
        end,
        read: true,
        write: !execute,
        execute,
        shared: false,
        backing,
    }
}

fn sample() -> Vec<Region> {
    vec![
        region(0x1000, 0x2000, true, Backing::FilePath("/lib/libc.so".into())),
        region(0x2000, 0x3000, false, Backing::Anonymous),
    ]
}

#[test]
fn only_the_executable_region_is_listed_at_ordinal_zero() {
    let index = build_exec_index(sample());
    assert_eq!(index.len(), 1);
    assert_eq!(index[0].start, 0x1000);
    assert_eq!(index[0].end, 0x2000);
    assert!(index[0].execute);
    assert!(matches!(&index[0].backing, Backing::FilePath(p) if p == "/lib/libc.so"));
}

#[test]
fn ordinals_follow_ascending_start_order() {
    let rs = vec![
        region(0x1000, 0x2000, true, Backing::Heap),
        region(0x2000, 0x3000, false, Backing::Heap),
        region(0x3000, 0x4000, true, Backing::Stack),
        region(0x5000, 0x6000, true, Backing::Anonymous),
    ];
    let index = build_exec_index(rs);
    assert_eq!(index.len(), 3);
    assert_eq!(index[0].start, 0x1000);
    assert_eq!(index[1].start, 0x3000);
    assert_eq!(index[2].start, 0x5000);
    for w in index.windows(2) {
        assert!(w[0].start < w[1].start);
    }
}

#[test]
fn rebuilding_on_unchanged_input_yields_identical_ordinals() {
    let a = build_exec_index(sample());
    let b = build_exec_index(sample());
    assert_eq!(a.len(), b.len());
    for (x, y) in a.iter().zip(b.iter()) {
        assert_eq!(x.start, y.start);
        assert_eq!(x.end, y.end);
        assert_eq!(x.execute, y.execute);
    }
}

#[test]
fn lookup_returns_the_range_at_the_ordinal() {
    let index = build_exec_index(sample());
    assert_eq!(lookup_exec_region(&index, 0), Ok((0x1000, 0x2000)));
}

#[test]
fn lookup_past_the_count_is_not_found() {
    let index = build_exec_index(sample());
    assert_eq!(lookup_exec_region(&index, 1), Err(IndexError::NotFound));
    assert_eq!(lookup_exec_region(&index, 99), Err(IndexError::NotFound));
}
