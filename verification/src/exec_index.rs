//! The executable-region index: the execute-permission subset of a
//! process's regions, addressed by transient ordinal positions.

use vstd::prelude::*;
use crate::region::{Region, all_wf, sorted_disjoint};

verus! {

/// Failure of `lookup_exec_region`: the ordinal is at or past the count
/// of executable regions.
#[derive(Clone, Copy, Debug, PartialEq, Eq, Structural)]
pub enum IndexError {
    NotFound,
}

/// The execute-permission subset of a region string, in its order.
pub open spec fn exec_only(rs: Seq<Region>) -> Seq<Region> {
    rs.filter(|x: Region| x.execute)
}

/// Keeps exactly the execute-permission regions, in their order: the
/// ordinal of each kept region is its position in the result.
pub fn build_exec_index(regions: Vec<Region>) -> (r: Vec<Region>)
    ensures
        r@ == exec_only(regions@),
{
    broadcast use vstd::seq_lib::group_filter_ensures;
    broadcast use Seq::lemma_filter_push;

    let ghost all = regions@;
    let mut rest = regions;
    let n = rest.len();
    let mut out: Vec<Region> = Vec::new();
    let mut i: usize = 0;
    while rest.len() > 0
        invariant
            all.len() == n,
            rest@ == all.subrange(i as int, all.len() as int),
            0 <= i <= n,
            out@ == exec_only(all.subrange(0, i as int)),
        decreases rest@.len(),
    {
        let r = rest.remove(0);
        proof {
            let pre = all.subrange(0, i as int);
            assert(i < all.len());
            assert(all.subrange(0, (i + 1) as int) =~= pre.push(r));
            assert(rest@ =~= all.subrange((i + 1) as int, all.len() as int));
            pre.lemma_filter_push(r, |x: Region| x.execute);
            if r.execute {
                assert(exec_only(pre.push(r)) == exec_only(pre).push(r));
            } else {
                assert(exec_only(pre.push(r)) == exec_only(pre));
            }
        }
        if r.execute {
            out.push(r);
        }
        i = i + 1;
    }
    proof {
        assert(all.subrange(0, all.len() as int) =~= all);
    }
    out
}

/// The address range of the region at the given ordinal, or `NotFound`
/// exactly when the ordinal is at or past the region count.
pub fn lookup_exec_region(index: &Vec<Region>, ordinal: usize) -> (r: Result<
    (u64, u64),
    IndexError,
>)
    ensures
        match r {
            Ok(range) => ordinal < index@.len() && range == (
                index@[ordinal as int].start,
                index@[ordinal as int].end,
            ),
            Err(e) => ordinal >= index@.len() && e == IndexError::NotFound,
        },
{
    if ordinal < index.len() {
        let region = &index[ordinal];
        Ok((region.start, region.end))
    } else {
        Err(IndexError::NotFound)
    }
}

/// Rebuilding the index on unchanged input yields identical ordinals:
/// what `build_exec_index` returns is a function of the regions alone.
pub proof fn lemma_exec_index_repeatable(rs1: Seq<Region>, rs2: Seq<Region>)
    requires
        rs1 == rs2,
    ensures
        exec_only(rs1) == exec_only(rs2),
{
}

/// Every region the index keeps has execute permission.
pub proof fn lemma_exec_index_all_exec(rs: Seq<Region>)
    ensures
        forall|k: int| 0 <= k < exec_only(rs).len() ==> (#[trigger] exec_only(rs)[k]).execute,
{
    broadcast use vstd::seq_lib::group_filter_ensures;

}

/// A region kept by the index stands in the input, and every
/// execute-permission region of the input is kept.
pub proof fn lemma_exec_index_membership(rs: Seq<Region>)
    ensures
        forall|k: int|
            0 <= k < exec_only(rs).len() ==> rs.contains(#[trigger] exec_only(rs)[k]),
        forall|j: int|
            0 <= j < rs.len() && (#[trigger] rs[j]).execute ==> exec_only(rs).contains(rs[j]),
{
    broadcast use vstd::seq_lib::group_filter_ensures;

    assert forall|k: int| 0 <= k < exec_only(rs).len() implies rs.contains(
        #[trigger] exec_only(rs)[k],
    ) by {
        lemma_filter_witness(rs, k);
    }
}

/// An element of the filtered string has a witness position in the
/// unfiltered one.
proof fn lemma_filter_witness(rs: Seq<Region>, k: int)
    requires
        0 <= k < exec_only(rs).len(),
    ensures
        exists|j: int| 0 <= j < rs.len() && rs[j] == exec_only(rs)[k],
    decreases rs.len(),
{
    reveal(Seq::filter);
    if rs.len() > 0 {
        let dl = rs.drop_last();
        if k < exec_only(dl).len() {
            lemma_filter_witness(dl, k);
            let j = choose|j: int| 0 <= j < dl.len() && dl[j] == exec_only(dl)[k];
            assert(rs[j] == exec_only(rs)[k]);
        } else {
            assert(rs[rs.len() - 1] == exec_only(rs)[k]);
        }
    }
}

/// Ordinals follow ascending `start` order: when the regions handed to
/// the index are sorted and disjoint, so is the execute-permission
/// subset, so a lower ordinal means a lower start address.
pub proof fn lemma_exec_index_ordered(rs: Seq<Region>)
    requires
        sorted_disjoint(rs),
    ensures
        sorted_disjoint(exec_only(rs)),
    decreases rs.len(),
{
    reveal(Seq::filter);
    if rs.len() > 0 {
        let dl = rs.drop_last();
        assert(forall|i: int| 0 <= i < dl.len() ==> dl[i] == rs[i]);
        lemma_exec_index_ordered(dl);
        let f = exec_only(dl);
        if rs.last().execute {
            assert forall|k: int| 0 <= k < f.len() implies f[k].end <= rs.last().start by {
                lemma_filter_witness(dl, k);
                let j = choose|j: int| 0 <= j < dl.len() && dl[j] == f[k];
                assert(rs[j].end <= rs[rs.len() - 1].start);
            }
            assert(exec_only(rs) == f.push(rs.last()));
        } else {
            assert(exec_only(rs) == f);
        }
    }
}

/// Well-formedness carries into the index.
pub proof fn lemma_exec_index_wf(rs: Seq<Region>)
    requires
        all_wf(rs),
    ensures
        all_wf(exec_only(rs)),
{
    lemma_exec_index_membership(rs);
    assert forall|k: int| 0 <= k < exec_only(rs).len() implies (#[trigger] exec_only(
        rs,
    )[k]).wf() by {
        lemma_filter_witness(rs, k);
        let j = choose|j: int| 0 <= j < rs.len() && rs[j] == exec_only(rs)[k];
        assert(rs[j].wf());
    }
}

} // verus!
