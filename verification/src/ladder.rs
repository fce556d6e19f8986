use crate::cluster::{ClusterData, ClusterId};
use crate::pass::{came_from, formed_from, link_inv, linked, pass_inv, record_ok};
use crate::points::{
    every_record, lemma_points_all, lemma_points_none, lemma_points_same, pending_at,
    points_under, total_points,
};
use vstd::prelude::*;

verus! {

/// The full-resolution layer over `n` source points: one untouched record per
/// point, in insertion order.
pub open spec fn sources(n: int) -> Seq<ClusterData> {
    Seq::new(
        n as nat,
        |j: int|
            ClusterData { zoom: None, source_id: ClusterId(j as usize), parent_id: None, num_points: 1 },
    )
}

/// Whether the layer holds one record per source point, in insertion order,
/// whatever passes have marked on them.
pub open spec fn is_source_layer(s: Seq<ClusterData>, n: int) -> bool {
    &&& s.len() == n
    &&& forall|j: int|
        0 <= j < n ==> (#[trigger] s[j]).source_id.value() == j && s[j].num_points == 1
}

/// Whether two layers hold the same nodes: at each index the same identifier
/// and the same number of points.
pub open spec fn same_nodes(a: Seq<ClusterData>, b: Seq<ClusterData>) -> bool {
    &&& a.len() == b.len()
    &&& forall|k: int|
        0 <= k < a.len() ==> (#[trigger] a[k]).source_id == b[k].source_id && a[k].num_points
            == b[k].num_points
}

/// Whether the pass at `zoom` over `upper` is complete and has emitted the
/// nodes of `lower`.
pub open spec fn settled(
    upper: Seq<ClusterData>,
    lower: Seq<ClusterData>,
    zoom: usize,
    length: usize,
    min_points: usize,
) -> bool {
    link_inv(upper, lower, upper.len() as int, zoom, length, min_points)
}

/// The full-resolution layer stands for as many points as it has records.
pub proof fn lemma_sources_total(n: int)
    requires
        0 <= n,
    ensures
        total_points(sources(n)) == n,
    decreases n,
{
    if n > 0 {
        lemma_sources_total(n - 1);
        assert(sources(n).drop_last() =~= sources(n - 1));
    }
}

/// A pass can start on the full-resolution layer.
pub proof fn lemma_sources_ready(n: usize, zoom: usize, min_points: usize)
    ensures
        pass_inv(sources(n as int), Seq::empty(), 0, zoom, n, min_points),
        is_source_layer(sources(n as int), n as int),
{
    let s = sources(n as int);
    lemma_sources_total(n as int);
    assert forall|j: int| 0 <= j < s.len() implies pending_at(zoom)(#[trigger] s[j]) by {}
    lemma_points_all(s, pending_at(zoom));
}

/// A complete pass has emitted as many points as the index holds.
pub proof fn lemma_settled_total(
    upper: Seq<ClusterData>,
    lower: Seq<ClusterData>,
    zoom: usize,
    length: usize,
    min_points: usize,
)
    requires
        settled(upper, lower, zoom, length, min_points),
    ensures
        total_points(lower) == length,
        total_points(upper) == length,
{
    assert forall|j: int| 0 <= j < upper.len() implies !pending_at(zoom)(#[trigger] upper[j]) by {}
    lemma_points_none(upper, pending_at(zoom));
}

/// What links two layers depends on the nodes of the lower one alone, not on
/// what later passes mark on them.
pub proof fn lemma_link_same_nodes(
    prev: Seq<ClusterData>,
    next: Seq<ClusterData>,
    other: Seq<ClusterData>,
    cursor: int,
    zoom: usize,
    length: usize,
    min_points: usize,
)
    requires
        link_inv(prev, next, cursor, zoom, length, min_points),
        same_nodes(next, other),
    ensures
        link_inv(prev, other, cursor, zoom, length, min_points),
{
    lemma_points_same(next, other, every_record(), every_record());
    assert forall|k: int| 0 <= k < other.len() implies record_ok(
        #[trigger] other[k],
        length,
        min_points,
    ) by {
        assert(record_ok(next[k], length, min_points));
    }
    assert forall|j: int| 0 <= j < prev.len() && (#[trigger] prev[j]).parent_id is Some implies linked(
        prev,
        other,
        cursor,
        zoom,
        length,
        prev[j].parent_id->0,
    ) by {
        let p = prev[j].parent_id->0;
        assert(linked(prev, next, cursor, zoom, length, p));
        let n = points_under(prev, p);
        let k = choose|k: int|
            0 <= k < next.len() && (#[trigger] next[k]).source_id == p && next[k].num_points == n;
        assert(other[k].source_id == p && other[k].num_points == n);
    }
    assert forall|k: int| 0 <= k < other.len() implies came_from(
        prev,
        #[trigger] other[k],
    ) || formed_from(prev, other[k], cursor, zoom, length) by {
        let r = next[k];
        assert(other[k].source_id == r.source_id && other[k].num_points == r.num_points);
        if came_from(prev, r) {
            let j = choose|j: int|
                0 <= j < prev.len() && (#[trigger] prev[j]).source_id == r.source_id
                    && prev[j].num_points == r.num_points;
            assert(prev[j].source_id == other[k].source_id);
        }
    }
}

/// The layer that a complete pass at `zoom` has emitted is ready for the pass
/// at the zoom below.
pub proof fn lemma_next_pass_ready(
    upper: Seq<ClusterData>,
    lower: Seq<ClusterData>,
    zoom: usize,
    length: usize,
    min_points: usize,
)
    requires
        pass_inv(upper, lower, upper.len() as int, zoom, length, min_points),
        zoom > 0,
    ensures
        pass_inv(lower, Seq::empty(), 0, (zoom - 1) as usize, length, min_points),
{
    lemma_settled_total(upper, lower, zoom, length, min_points);
    let below = (zoom - 1) as usize;
    assert forall|j: int| 0 <= j < lower.len() implies pending_at(below)(#[trigger] lower[j]) by {}
    lemma_points_all(lower, pending_at(below));
}

} // verus!
