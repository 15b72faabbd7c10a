//! The map reader: querying one process's current memory mappings
//! through `/proc` and normalising them into ordered, disjoint regions.

use vstd::prelude::*;
use crate::region::{Backing, Region, all_wf, sorted_disjoint};
use crate::strutil::{lemma_lex_irreflexive, lemma_lex_transitive, lemma_lex_trichotomy, lex_lt,
    lex_lt_str, lex_sorted, views_of};
use procfs::ProcError;
use procfs::process::{MMPermissions, MMapPath, Process};

verus! {

/// Failure of a map query, as the error taxonomy of the inspector has
/// it: the process is gone, it may not be read, or `/proc` failed in
/// some rarer way described by the carried text.
#[derive(Debug)]
pub enum FetchError {
    ProcessNotFound,
    PermissionDenied,
    Other(String),
}

#[verifier::external_type_specification]
#[verifier::external_body]
pub struct ExProcess(Process);

#[verifier::external_type_specification]
#[verifier::external_body]
pub struct ExProcError(ProcError);

#[verifier::external_type_specification]
#[verifier::external_body]
pub struct ExMMapPath(MMapPath);

/// Relies on procfs's `ProcError`: tells its `NotFound` and
/// `PermissionDenied` variants apart from the rarer rest.
#[verifier::external_body]
fn error_kind(e: ProcError) -> (r: FetchError) {
    match e {
        ProcError::NotFound(_) => FetchError::ProcessNotFound,
        ProcError::PermissionDenied(_) => FetchError::PermissionDenied,
        other => FetchError::Other(format!("{:?}", other)),
    }
}

/// Relies on procfs's `MMapPath`: carries each backing variant of a
/// mapping line over to the inspector's own model, one arm each.
#[verifier::external_body]
fn backing_of(p: MMapPath) -> (r: Backing) {
    match p {
        MMapPath::Path(b) => Backing::FilePath(b.to_string_lossy().into_owned()),
        MMapPath::Heap => Backing::Heap,
        MMapPath::Stack => Backing::Stack,
        MMapPath::TStack(t) => Backing::ThreadStack(t),
        MMapPath::Vdso => Backing::Vdso,
        MMapPath::Vvar => Backing::Vvar,
        MMapPath::Vsyscall => Backing::Vsyscall,
        MMapPath::Anonymous => Backing::Anonymous,
        MMapPath::Rollup => Backing::Other(String::from("rollup")),
        MMapPath::Vsys(k) => Backing::Other(format!("vsys {}", k)),
        MMapPath::Other(s) => Backing::Other(s),
    }
}

/// Relies on `procfs::process::Process::new`: opens the `/proc` entry of
/// the given pid, failing when it does not exist or may not be read.
#[verifier::external_body]
fn open_process(pid: i32) -> (r: Result<Process, FetchError>) {
    Process::new(pid).map_err(error_kind)
}

/// Relies on `procfs::process::Process::maps`: reads the process's
/// mapping lines, and carries each over to the inspector's model: the
/// address pair, the four permission bits, and the backing.
#[verifier::external_body]
fn maps_of(p: &Process) -> (r: Result<Vec<Region>, FetchError>) {
    match p.maps() {
        Ok(maps) => Ok(maps.0.into_iter().map(|m| Region {
            start: m.address.0,
            end: m.address.1,
            read: m.perms.contains(MMPermissions::READ),
            write: m.perms.contains(MMPermissions::WRITE),
            execute: m.perms.contains(MMPermissions::EXECUTE),
            shared: m.perms.contains(MMPermissions::SHARED),
            backing: backing_of(m.pathname),
        }).collect()),
        Err(e) => Err(error_kind(e)),
    }
}

/// The regions kept from a raw mapping list, scanning forward: a region
/// stays when it is well-formed and begins at or after `bound`, the end
/// of the region kept before it.
pub open spec fn keep_from(rs: Seq<Region>, bound: u64) -> Seq<Region>
    decreases rs.len(),
{
    if rs.len() == 0 {
        Seq::<Region>::empty()
    } else {
        let r = rs.first();
        if r.wf() && r.start >= bound {
            seq![r] + keep_from(rs.drop_first(), r.end)
        } else {
            keep_from(rs.drop_first(), bound)
        }
    }
}

/// What normalisation returns: the kept regions, from a bound of zero.
pub open spec fn normalize_spec(rs: Seq<Region>) -> Seq<Region> {
    keep_from(rs, 0)
}

/// Normalises a raw mapping list: keeps the regions that are well-formed
/// and in ascending, non-overlapping order, dropping any line that would
/// break that order.  On a list that is already ordered — as the kernel
/// produces it — this keeps everything.
pub fn normalize_regions(raw: Vec<Region>) -> (r: Vec<Region>)
    ensures
        r@ == normalize_spec(raw@),
{
    let ghost all = raw@;
    let mut rest = raw;
    let n = rest.len();
    let mut out: Vec<Region> = Vec::new();
    let mut bound: u64 = 0;
    let mut i: usize = 0;
    while rest.len() > 0
        invariant
            all.len() == n,
            rest@ == all.subrange(i as int, all.len() as int),
            0 <= i <= n,
            normalize_spec(all) == out@ + keep_from(rest@, bound),
        decreases rest@.len(),
    {
        let ghost rest0 = rest@;
        let r = rest.remove(0);
        proof {
            assert(i < all.len());
            assert(rest0.first() == r);
            assert(rest0.drop_first() =~= all.subrange((i + 1) as int, all.len() as int));
            assert(rest@ =~= rest0.drop_first());
        }
        if r.start < r.end && r.start >= bound {
            let new_bound = r.end;
            proof {
                assert(keep_from(rest0, bound) == seq![r] + keep_from(rest0.drop_first(), r.end));
                assert(out@ + (seq![r] + keep_from(rest0.drop_first(), r.end)) =~= (out@.push(r))
                    + keep_from(rest0.drop_first(), r.end));
            }
            out.push(r);
            bound = new_bound;
        } else {
            proof {
                assert(keep_from(rest0, bound) == keep_from(rest0.drop_first(), bound));
            }
        }
        i = i + 1;
    }
    proof {
        assert(out@ + keep_from(rest@, bound) =~= out@);
    }
    out
}

/// Every kept region is well-formed, begins at or after the given bound,
/// and the kept regions stand in ascending, non-overlapping order.
pub proof fn lemma_keep_from_sorted(rs: Seq<Region>, bound: u64)
    ensures
        all_wf(keep_from(rs, bound)),
        sorted_disjoint(keep_from(rs, bound)),
        forall|k: int|
            0 <= k < keep_from(rs, bound).len() ==> (#[trigger] keep_from(rs, bound)[k]).start
                >= bound,
    decreases rs.len(),
{
    if rs.len() > 0 {
        let r = rs.first();
        if r.wf() && r.start >= bound {
            lemma_keep_from_sorted(rs.drop_first(), r.end);
            let tail = keep_from(rs.drop_first(), r.end);
            let whole = keep_from(rs, bound);
            assert(whole == seq![r] + tail);
            assert(whole[0] == r);
            assert(forall|k: int| 1 <= k < whole.len() ==> whole[k] == tail[k - 1]);
        } else {
            lemma_keep_from_sorted(rs.drop_first(), bound);
        }
    }
}

/// The output of normalisation is sorted ascending by `start` and its
/// regions never overlap, whatever the raw list held.
pub proof fn lemma_normalize_sorted(rs: Seq<Region>)
    ensures
        all_wf(normalize_spec(rs)),
        sorted_disjoint(normalize_spec(rs)),
{
    lemma_keep_from_sorted(rs, 0);
}

proof fn lemma_keep_from_identity(rs: Seq<Region>, bound: u64)
    requires
        all_wf(rs),
        sorted_disjoint(rs),
        rs.len() > 0 ==> rs.first().start >= bound,
    ensures
        keep_from(rs, bound) == rs,
    decreases rs.len(),
{
    if rs.len() > 0 {
        let r = rs.first();
        let rest = rs.drop_first();
        assert(forall|k: int| 0 <= k < rest.len() ==> rest[k] == rs[k + 1]);
        if rest.len() > 0 {
            assert(rs[0].end <= rs[1].start);
        }
        lemma_keep_from_identity(rest, r.end);
        assert(keep_from(rs, bound) =~= rs);
    }
}

/// On a raw list that is already well-formed, ascending, and
/// non-overlapping, normalisation keeps every region as it is.
pub proof fn lemma_normalize_identity(rs: Seq<Region>)
    requires
        all_wf(rs),
        sorted_disjoint(rs),
    ensures
        normalize_spec(rs) == rs,
{
    lemma_keep_from_identity(rs, 0);
}

/// Queries the current memory mappings of the process, freshly: the
/// regions returned are well-formed and stand in ascending,
/// non-overlapping order.  Fails when the process is gone or `/proc`
/// refuses the read.
pub fn fetch_regions(pid: i32) -> (r: Result<Vec<Region>, FetchError>)
    ensures
        match r {
            Ok(v) => all_wf(v@) && sorted_disjoint(v@),
            Err(_) => true,
        },
{
    match open_process(pid) {
        Err(e) => Err(e),
        Ok(p) => match maps_of(&p) {
            Err(e) => Err(e),
            Ok(raw) => {
                proof {
                    lemma_normalize_sorted(raw@);
                }
                Ok(normalize_regions(raw))
            },
        },
    }
}

/// The region is file-backed by the given path.
pub open spec fn is_path_of(r: Region, p: Seq<char>) -> bool {
    match r.backing {
        Backing::FilePath(q) => q@ == p,
        _ => false,
    }
}

/// Some region of the list is file-backed by the given path.
pub open spec fn some_region_has_path(rs: Seq<Region>, p: Seq<char>) -> bool {
    exists|k: int| 0 <= k < rs.len() && is_path_of(#[trigger] rs[k], p)
}

/// Puts the path into the sorted list at its place, unless it is
/// already there: the list stays strictly sorted and gains exactly the
/// given path.
fn insert_sorted(out: &mut Vec<String>, p: String)
    requires
        lex_sorted(views_of(old(out)@)),
    ensures
        lex_sorted(views_of(final(out)@)),
        forall|q: Seq<char>|
            #[trigger] views_of(final(out)@).contains(q) <==> views_of(old(out)@).contains(q) || q
                == p@,
{
    let ghost before = views_of(out@);
    let mut j: usize = 0;
    loop
        invariant_except_break
            out@ == old(out)@,
            before == views_of(out@),
            0 <= j <= out@.len(),
            forall|k: int| 0 <= k < j ==> lex_lt(#[trigger] before[k], p@),
        ensures
            out@ == old(out)@,
            before == views_of(out@),
            0 <= j <= out@.len(),
            forall|k: int| 0 <= k < j ==> lex_lt(#[trigger] before[k], p@),
            j == out@.len() || !lex_lt(before[j as int], p@),
        decreases out@.len() - j,
    {
        if j >= out.len() {
            break;
        }
        if !lex_lt_str(out[j].as_str(), p.as_str()) {
            proof {
                assert(before[j as int] == out@[j as int]@);
            }
            break;
        }
        proof {
            assert(before[j as int] == out@[j as int]@);
        }
        j = j + 1;
    }
    if j < out.len() && out[j] == p {
        // Already present: nothing to add.
        proof {
            assert(views_of(out@)[j as int] == p@);
            assert(views_of(out@).contains(p@));
        }
        return ;
    }
    proof {
        if j < out@.len() {
            lemma_lex_trichotomy(before[j as int], p@);
            assert(before[j as int] == out@[j as int]@);
            assert(lex_lt(p@, before[j as int]));
        }
    }
    out.insert(j, p);
    proof {
        let after = views_of(out@);
        assert(after =~= before.insert(j as int, p@));
        assert forall|x: int, y: int| 0 <= x < y < after.len() implies lex_lt(
            #[trigger] after[x],
            #[trigger] after[y],
        ) by {
            if y < j {
                assert(after[x] == before[x] && after[y] == before[y]);
            } else if x < j && y == j {
                assert(after[x] == before[x] && after[y] == p@);
            } else if x < j && y > j {
                assert(after[x] == before[x] && after[y] == before[y - 1]);
            } else if x == j {
                assert(after[x] == p@ && after[y] == before[y - 1]);
                if y - 1 > j {
                    lemma_lex_transitive(p@, before[j as int], before[y - 1]);
                }
            } else {
                assert(after[x] == before[x - 1] && after[y] == before[y - 1]);
            }
        }
        assert forall|q: Seq<char>| #[trigger] after.contains(q) implies before.contains(q) || q
            == p@ by {
            let w = choose|w: int| 0 <= w < after.len() && after[w] == q;
            if w < j {
                assert(before[w] == q);
            } else if w > j {
                assert(before[w - 1] == q);
            }
        }
        assert forall|q: Seq<char>| before.contains(q) || q == p@ implies #[trigger] after.contains(
            q,
        ) by {
            if q == p@ {
                assert(after[j as int] == q);
            } else {
                let w = choose|w: int| 0 <= w < before.len() && before[w] == q;
                if w < j {
                    assert(after[w] == q);
                } else {
                    assert(after[w + 1] == q);
                }
            }
        }
    }
}

/// Gathers the distinct file-backed mapping paths of the regions, in
/// ascending lexicographic order: a path is listed exactly when some
/// region of the list is file-backed by it, each path once.
pub fn module_paths(regions: Vec<Region>) -> (r: Vec<String>)
    ensures
        forall|p: Seq<char>|
            #[trigger] views_of(r@).contains(p) <==> some_region_has_path(regions@, p),
        lex_sorted(views_of(r@)),
        forall|i: int, j: int|
            0 <= i < j < r@.len() ==> views_of(r@)[i] != views_of(r@)[j],
{
    let ghost all = regions@;
    let mut rest = regions;
    let n = rest.len();
    let mut out: Vec<String> = Vec::new();
    let mut i: usize = 0;
    proof {
        assert(views_of(out@) =~= Seq::<Seq<char>>::empty());
    }
    while rest.len() > 0
        invariant
            all.len() == n,
            rest@ == all.subrange(i as int, all.len() as int),
            0 <= i <= n,
            lex_sorted(views_of(out@)),
            forall|p: Seq<char>|
                #[trigger] views_of(out@).contains(p) <==> some_region_has_path(
                    all.subrange(0, i as int),
                    p,
                ),
        decreases rest@.len(),
    {
        let ghost rest0 = rest@;
        let r = rest.remove(0);
        proof {
            assert(i < all.len());
            assert(rest0.first() == r);
            assert(all[i as int] == r);
            assert(rest@ =~= all.subrange((i + 1) as int, all.len() as int));
        }
        let ghost s0 = all.subrange(0, i as int);
        let ghost s1 = all.subrange(0, (i + 1) as int);
        proof {
            assert(s1.len() == i + 1);
            assert(forall|k: int| 0 <= k < i ==> s1[k] == s0[k]);
            assert(s1[i as int] == r);
        }
        match r.backing {
            Backing::FilePath(p) => {
                proof {
                    assert(is_path_of(r, p@));
                }
                insert_sorted(&mut out, p);
            },
            _ => {},
        }
        proof {
            assert forall|q: Seq<char>| #[trigger] views_of(out@).contains(q) implies
                some_region_has_path(s1, q) by {
                if some_region_has_path(s0, q) {
                    let k = choose|k: int| 0 <= k < s0.len() && is_path_of(#[trigger] s0[k], q);
                    assert(is_path_of(s1[k], q));
                } else {
                    assert(is_path_of(s1[i as int], q));
                }
            }
            assert forall|q: Seq<char>| some_region_has_path(s1, q) implies
                #[trigger] views_of(out@).contains(q) by {
                let k = choose|k: int| 0 <= k < s1.len() && is_path_of(#[trigger] s1[k], q);
                if k < i {
                    assert(is_path_of(s0[k], q));
                    assert(some_region_has_path(s0, q));
                }
            }
        }
        i = i + 1;
    }
    proof {
        assert(all.subrange(0, n as int) =~= all);
        assert forall|x: int, y: int| 0 <= x < y < out@.len() implies views_of(out@)[x]
            != views_of(out@)[y] by {
            lemma_lex_irreflexive(views_of(out@)[x]);
        }
    }
    out
}

} // verus!
