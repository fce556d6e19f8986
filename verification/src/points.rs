use crate::cluster::{ClusterData, ClusterId};
use vstd::prelude::*;

verus! {

/// The predicate that holds of every record.
pub open spec fn every_record() -> spec_fn(ClusterData) -> bool {
    |r: ClusterData| true
}

/// The predicate that holds of the records not yet taken at `zoom`.
pub open spec fn pending_at(zoom: usize) -> spec_fn(ClusterData) -> bool {
    |r: ClusterData| !r.consumed(zoom)
}

/// The predicate that holds of the records taken in by the cluster `p`.
pub open spec fn child_of(p: ClusterId) -> spec_fn(ClusterData) -> bool {
    |r: ClusterData| r.parent_id == Some(p)
}

/// What `r` adds to a count of the points under `f`.
pub open spec fn weight(r: ClusterData, f: spec_fn(ClusterData) -> bool) -> nat {
    if f(r) {
        r.num_points as nat
    } else {
        0
    }
}

/// Number of source points that the records of `s` under `f` stand for.
pub open spec fn points_where(s: Seq<ClusterData>, f: spec_fn(ClusterData) -> bool) -> nat
    decreases s.len(),
{
    if s.len() == 0 {
        0
    } else {
        points_where(s.drop_last(), f) + weight(s.last(), f)
    }
}

/// Number of source points that the records of `s` stand for.
pub open spec fn total_points(s: Seq<ClusterData>) -> nat {
    points_where(s, every_record())
}

/// Number of source points in records of `s` not yet taken at `zoom`.
pub open spec fn pending_points(s: Seq<ClusterData>, zoom: usize) -> nat {
    points_where(s, pending_at(zoom))
}

/// Number of source points in records of `s` that the cluster `p` took in.
pub open spec fn points_under(s: Seq<ClusterData>, p: ClusterId) -> nat {
    points_where(s, child_of(p))
}

/// Number of source points in the records of `data` at the indices `members`,
/// each occurrence counted.
pub open spec fn member_points(data: Seq<ClusterData>, members: Seq<usize>) -> nat
    decreases members.len(),
{
    if members.len() == 0 {
        0
    } else {
        member_points(data, members.drop_last()) + data[members.last() as int].num_points as nat
    }
}

/// A record appended adds its weight.
pub proof fn lemma_points_push(s: Seq<ClusterData>, r: ClusterData, f: spec_fn(ClusterData) -> bool)
    ensures
        points_where(s.push(r), f) == points_where(s, f) + weight(r, f),
{
    assert(s.push(r).drop_last() =~= s);
}

/// A record replaced exchanges its weight.
pub proof fn lemma_points_update(
    s: Seq<ClusterData>,
    j: int,
    r: ClusterData,
    f: spec_fn(ClusterData) -> bool,
)
    requires
        0 <= j < s.len(),
    ensures
        points_where(s.update(j, r), f) + weight(s[j], f) == points_where(s, f) + weight(r, f),
    decreases s.len(),
{
    if j == s.len() - 1 {
        assert(s.update(j, r).drop_last() =~= s.drop_last());
    } else {
        lemma_points_update(s.drop_last(), j, r, f);
        assert(s.update(j, r).drop_last() =~= s.drop_last().update(j, r));
    }
}

/// Sequences whose records weigh the same, index by index, count the same.
pub proof fn lemma_points_same(
    a: Seq<ClusterData>,
    b: Seq<ClusterData>,
    f: spec_fn(ClusterData) -> bool,
    g: spec_fn(ClusterData) -> bool,
)
    requires
        a.len() == b.len(),
        forall|j: int| 0 <= j < a.len() ==> weight(#[trigger] a[j], f) == weight(b[j], g),
    ensures
        points_where(a, f) == points_where(b, g),
    decreases a.len(),
{
    if a.len() > 0 {
        lemma_points_same(a.drop_last(), b.drop_last(), f, g);
    }
}

/// No count exceeds the total.
pub proof fn lemma_points_le_total(s: Seq<ClusterData>, f: spec_fn(ClusterData) -> bool)
    ensures
        points_where(s, f) <= total_points(s),
    decreases s.len(),
{
    if s.len() > 0 {
        lemma_points_le_total(s.drop_last(), f);
    }
}

/// Where no record is under `f`, the count is zero.
pub proof fn lemma_points_none(s: Seq<ClusterData>, f: spec_fn(ClusterData) -> bool)
    requires
        forall|j: int| 0 <= j < s.len() ==> !f(#[trigger] s[j]),
    ensures
        points_where(s, f) == 0,
    decreases s.len(),
{
    if s.len() > 0 {
        lemma_points_none(s.drop_last(), f);
    }
}

/// Where every record is under `f`, the count is the total.
pub proof fn lemma_points_all(s: Seq<ClusterData>, f: spec_fn(ClusterData) -> bool)
    requires
        forall|j: int| 0 <= j < s.len() ==> f(#[trigger] s[j]),
    ensures
        points_where(s, f) == total_points(s),
    decreases s.len(),
{
    if s.len() > 0 {
        lemma_points_all(s.drop_last(), f);
    }
}

/// No record stands for more points than the whole layer.
pub proof fn lemma_record_le_total(s: Seq<ClusterData>, j: int)
    requires
        0 <= j < s.len(),
    ensures
        s[j].num_points <= total_points(s),
    decreases s.len(),
{
    if j < s.len() - 1 {
        lemma_record_le_total(s.drop_last(), j);
    }
}

/// A layer of records that stand for at least one point each holds no more
/// records than points.
pub proof fn lemma_len_le_total(s: Seq<ClusterData>)
    requires
        forall|j: int| 0 <= j < s.len() ==> (#[trigger] s[j]).num_points >= 1,
    ensures
        s.len() <= total_points(s),
    decreases s.len(),
{
    if s.len() > 0 {
        lemma_len_le_total(s.drop_last());
    }
}

/// One more member adds the points of its record.
pub proof fn lemma_member_points_push(data: Seq<ClusterData>, members: Seq<usize>, j: usize)
    ensures
        member_points(data, members.push(j)) == member_points(data, members)
            + data[j as int].num_points,
{
    assert(members.push(j).drop_last() =~= members);
}

} // verus!
