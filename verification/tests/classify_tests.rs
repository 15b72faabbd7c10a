use procview::classify::{display_label, label_of, trim_path};
use procview::region::Backing;

#[test]
fn trim_is_identity_up_to_forty_characters() {
    let p = "/usr/lib/x86_64-linux-gnu/libc.so.6";
    assert!(p.chars().count() <= 40);
    assert_eq!(trim_path(p), p);
    assert_eq!(trim_path(""), "");
    let exactly_forty = "0123456789012345678901234567890123456789";
    assert_eq!(exactly_forty.chars().count(), 40);
    assert_eq!(trim_path(exactly_forty), exactly_forty);
}

#[test]
fn trim_collapses_a_long_path_to_a_short_tail() {
    let p = "/aaaaaaaaaa/bbbbbbbbbb/cccccccccc/dddddddddd";
    assert_eq!(p.chars().count(), 44);
    let t = trim_path(p);
    assert_eq!(t, ".../bbbbbbbbbb/cccccccccc/dddddddddd");
    assert!(t.strip_prefix(".../").unwrap().chars().count() <= 36);
}

#[test]
fn trim_output_is_a_suffix_after_a_slash() {
    let p = "/very/long/path/to/some/deeply/nested/shared/object/libexample.so";
    assert!(p.chars().count() > 40);
    let t = trim_path(p);
    let tail = t.strip_prefix(".../").unwrap();
    assert!(tail.chars().count() <= 36);
    assert!(p.ends_with(tail));
    assert!(p[..p.len() - tail.len()].ends_with('/'));
}

#[test]
fn trim_is_idempotent() {
    let p = "/very/long/path/to/some/deeply/nested/shared/object/libexample.so";
    let once = trim_path(p);
    assert_eq!(trim_path(&once), once);
    let short = "/lib/libc.so";
    assert_eq!(trim_path(&trim_path(short)), trim_path(short));
}

#[test]
fn labels_match_the_backing() {
    assert_eq!(label_of(&Backing::Heap), "Heap");
    assert_eq!(label_of(&Backing::Stack), "Stack");
    assert_eq!(label_of(&Backing::ThreadStack(77)), "Thread Stack. TID: 77");
    assert_eq!(
        label_of(&Backing::Vdso),
        "Virtual Dynamically Linked Shared Object"
    );
    assert_eq!(label_of(&Backing::Vvar), "Shared kernel variables");
    assert_eq!(label_of(&Backing::Vsyscall), "Virtual syscalls");
    assert_eq!(label_of(&Backing::Anonymous), "Anonymous/Private");
    assert_eq!(label_of(&Backing::Other("foo".to_string())), "Other: foo");
    assert_eq!(
        label_of(&Backing::FilePath("/lib/libc.so".to_string())),
        "/lib/libc.so"
    );
}

#[test]
fn display_label_trims_long_paths() {
    let long = "/aaaaaaaaaa/bbbbbbbbbb/cccccccccc/dddddddddd".to_string();
    let b = Backing::FilePath(long);
    assert_eq!(display_label(&b), ".../bbbbbbbbbb/cccccccccc/dddddddddd");
    assert_eq!(display_label(&Backing::Heap), "Heap");
}
