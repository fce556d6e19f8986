use crate::cluster::{packed, ClusterData, ClusterId};
use crate::points::{
    child_of, every_record, lemma_member_points_push, lemma_points_le_total, lemma_points_push,
    lemma_points_same, lemma_points_update, member_points, pending_at, pending_points,
    points_under, points_where, total_points, weight,
};
use vstd::prelude::*;

verus! {

/// Whether the index `j` occurs in `members`.
pub open spec fn is_member(members: Seq<usize>, j: int) -> bool {
    exists|t: int| 0 <= t < members.len() && #[trigger] members[t] == j
}

/// The records that the seed takes along: the hits other than the seed that
/// no pass at `zoom` or below has taken yet, each once, in the order of
/// their first occurrence in `hits`.
pub open spec fn absorbed(data: Seq<ClusterData>, seed: int, zoom: usize, hits: Seq<usize>) -> Seq<
    usize,
>
    decreases hits.len(),
{
    if hits.len() == 0 {
        Seq::empty()
    } else {
        let before = absorbed(data, seed, zoom, hits.drop_last());
        let j = hits.last();
        if j != seed && !data[j as int].consumed(zoom) && !is_member(before, j as int) {
            before.push(j)
        } else {
            before
        }
    }
}

/// The layer after the seed and the members were taken at `zoom` without
/// forming a cluster.
pub open spec fn marked(data: Seq<ClusterData>, seed: int, members: Seq<usize>, zoom: usize) -> Seq<
    ClusterData,
> {
    Seq::new(
        data.len(),
        |j: int|
            if j == seed || is_member(members, j) {
                data[j].seen(zoom)
            } else {
                data[j]
            },
    )
}

/// The layer after the cluster `id` took in the seed and the members at
/// `zoom`.
pub open spec fn adopted_by(
    data: Seq<ClusterData>,
    seed: int,
    members: Seq<usize>,
    zoom: usize,
    id: ClusterId,
) -> Seq<ClusterData> {
    Seq::new(
        data.len(),
        |j: int|
            if j == seed || is_member(members, j) {
                data[j].adopted(zoom, id)
            } else {
                data[j]
            },
    )
}

/// The members' records as they pass to the next layer unclustered.
pub open spec fn passed_on(data: Seq<ClusterData>, members: Seq<usize>, zoom: usize) -> Seq<
    ClusterData,
> {
    Seq::new(members.len(), |t: int| data[members[t] as int].seen(zoom))
}

/// The members are distinct records of the layer, none of them the seed, and
/// none taken before.
pub proof fn lemma_absorbed(data: Seq<ClusterData>, seed: int, zoom: usize, hits: Seq<usize>)
    requires
        forall|k: int| 0 <= k < hits.len() ==> (#[trigger] hits[k]) < data.len(),
    ensures
        forall|t: int|
            #![trigger absorbed(data, seed, zoom, hits)[t]]
            0 <= t < absorbed(data, seed, zoom, hits).len() ==> {
                let m = absorbed(data, seed, zoom, hits)[t];
                &&& m < data.len()
                &&& m != seed
                &&& !data[m as int].consumed(zoom)
            },
        absorbed(data, seed, zoom, hits).no_duplicates(),
        forall|k: int|
            0 <= k < hits.len() && (#[trigger] hits[k]) != seed && !data[hits[k] as int].consumed(
                zoom,
            ) ==> is_member(absorbed(data, seed, zoom, hits), hits[k] as int),
    decreases hits.len(),
{
    if hits.len() > 0 {
        let rest = hits.drop_last();
        lemma_absorbed(data, seed, zoom, rest);
        let before = absorbed(data, seed, zoom, rest);
        let now = absorbed(data, seed, zoom, hits);
        let j = hits.last();
        assert forall|k: int|
            0 <= k < hits.len() && (#[trigger] hits[k]) != seed && !data[hits[k] as int].consumed(
                zoom,
            ) implies is_member(now, hits[k] as int) by {
            if k < hits.len() - 1 {
                assert(rest[k] == hits[k]);
                let t = choose|t: int| 0 <= t < before.len() && #[trigger] before[t] == hits[k];
                assert(now[t] == hits[k]);
            } else if is_member(before, j as int) {
                let t = choose|t: int| 0 <= t < before.len() && #[trigger] before[t] == j;
                assert(now[t] == j);
            } else {
                assert(now[now.len() - 1] == j);
            }
        }
    }
}

/// Takes the seed `i` and the hits that go with it: marks them as seen at
/// `zoom`, and returns the number of points they stand for together and the
/// members in order.
pub(crate) fn absorb(prev: &mut Vec<ClusterData>, i: usize, zoom: usize, hits: &Vec<usize>) -> (r: (
    usize,
    Vec<usize>,
))
    requires
        i < old(prev)@.len(),
        !old(prev)@[i as int].consumed(zoom),
        forall|k: int| 0 <= k < hits@.len() ==> (#[trigger] hits@[k]) < old(prev)@.len(),
        total_points(old(prev)@) <= usize::MAX,
    ensures
        r.1@ == absorbed(old(prev)@, i as int, zoom, hits@),
        r.0 == old(prev)@[i as int].num_points + member_points(old(prev)@, r.1@),
        final(prev)@ == marked(old(prev)@, i as int, r.1@, zoom),
        r.0 + pending_points(final(prev)@, zoom) == pending_points(old(prev)@, zoom),
{
    let ghost data = prev@;
    let seed = prev[i];
    proof {
        lemma_points_update(data, i as int, seed.seen(zoom), pending_at(zoom));
        lemma_points_le_total(data, pending_at(zoom));
    }
    prev.set(i, ClusterData { zoom: Some(zoom), ..seed });
    let mut count: usize = seed.num_points;
    let mut members: Vec<usize> = Vec::new();
    let mut k: usize = 0;
    assert(prev@ =~= marked(data, i as int, members@, zoom));
    while k < hits.len()
        invariant
            0 <= k <= hits@.len(),
            i < data.len(),
            !data[i as int].consumed(zoom),
            forall|k: int| 0 <= k < hits@.len() ==> (#[trigger] hits@[k]) < data.len(),
            members@ == absorbed(data, i as int, zoom, hits@.take(k as int)),
            prev@ == marked(data, i as int, members@, zoom),
            count == data[i as int].num_points + member_points(data, members@),
            count + pending_points(prev@, zoom) == pending_points(data, zoom),
            pending_points(data, zoom) <= usize::MAX,
        decreases hits@.len() - k,
    {
        let j = hits[k];
        let r = prev[j];
        let ghost before = members@;
        assert(hits@.take(k as int + 1).drop_last() =~= hits@.take(k as int));
        assert(hits@.take(k as int + 1).last() == j);
        if !r.is_consumed(zoom) {
            proof {
                lemma_points_update(prev@, j as int, r.seen(zoom), pending_at(zoom));
                lemma_member_points_push(data, members@, j);
                assert(j != i);
                assert(!is_member(before, j as int));
                assert(r == data[j as int]);
            }
            prev.set(j, ClusterData { zoom: Some(zoom), ..r });
            count = count + r.num_points;
            members.push(j);
            proof {
                lemma_is_member_push(before, j);
                assert(prev@ =~= marked(data, i as int, members@, zoom));
            }
        } else {
            proof {
                if j != i {
                    assert(is_member(before, j as int) || data[j as int].consumed(zoom));
                }
            }
        }
        k += 1;
    }
    assert(hits@.take(k as int) =~= hits@);
    (count, members)
}

/// One more member is one more index that occurs.
pub proof fn lemma_is_member_push(members: Seq<usize>, j: usize)
    ensures
        forall|x: int| is_member(members.push(j), x) <==> (is_member(members, x) || x == j),
{
    let longer = members.push(j);
    assert forall|x: int| is_member(longer, x) <==> (is_member(members, x) || x == j) by {
        if is_member(members, x) {
            let t = choose|t: int| 0 <= t < members.len() && #[trigger] members[t] == x;
            assert(longer[t] == x);
        }
        if x == j {
            assert(longer[members.len() as int] == j);
        }
        if is_member(longer, x) {
            let t = choose|t: int| 0 <= t < longer.len() && #[trigger] longer[t] == x;
            if t < members.len() {
                assert(members[t] == x);
            }
        }
    }
}

/// Sets the cluster `id` as the parent of the seed `i` and of the members.
pub(crate) fn adopt(
    prev: &mut Vec<ClusterData>,
    i: usize,
    members: &Vec<usize>,
    zoom: usize,
    id: ClusterId,
    Ghost(data): Ghost<Seq<ClusterData>>,
)
    requires
        i < data.len(),
        old(prev)@ == marked(data, i as int, members@, zoom),
        forall|t: int| 0 <= t < members@.len() ==> (#[trigger] members@[t]) < data.len(),
    ensures
        final(prev)@ == adopted_by(data, i as int, members@, zoom, id),
{
    let seed = prev[i];
    prev.set(i, ClusterData { parent_id: Some(id), ..seed });
    let mut t: usize = 0;
    assert(members@.take(0) =~= Seq::<usize>::empty());
    assert(prev@ =~= Seq::new(
        data.len(),
        |j: int|
            if j == i || is_member(members@.take(0), j) {
                data[j].adopted(zoom, id)
            } else {
                marked(data, i as int, members@, zoom)[j]
            },
    ));
    while t < members.len()
        invariant
            0 <= t <= members@.len(),
            i < data.len(),
            forall|t: int| 0 <= t < members@.len() ==> (#[trigger] members@[t]) < data.len(),
            prev@ == Seq::new(
                data.len(),
                |j: int|
                    if j == i || is_member(members@.take(t as int), j) {
                        data[j].adopted(zoom, id)
                    } else {
                        marked(data, i as int, members@, zoom)[j]
                    },
            ),
        decreases members@.len() - t,
    {
        let m = members[t];
        let r = prev[m];
        prev.set(m, ClusterData { parent_id: Some(id), ..r });
        proof {
            assert(members@.take(t as int + 1) =~= members@.take(t as int).push(m));
            lemma_is_member_push(members@.take(t as int), m);
            assert(is_member(members@, m as int)) by {
                assert(members@[t as int] == m);
            }
            assert(prev@ =~= Seq::new(
                data.len(),
                |j: int|
                    if j == i || is_member(members@.take(t as int + 1), j) {
                        data[j].adopted(zoom, id)
                    } else {
                        marked(data, i as int, members@, zoom)[j]
                    },
            ));
        }
        t += 1;
    }
    proof {
        assert(members@.take(t as int) =~= members@);
        assert(prev@ =~= adopted_by(data, i as int, members@, zoom, id));
    }
}

/// Appends the seed `i` and the members to the next layer, as they are.
pub(crate) fn pass_on(
    prev: &Vec<ClusterData>,
    next: &mut Vec<ClusterData>,
    i: usize,
    members: &Vec<usize>,
    zoom: usize,
    Ghost(data): Ghost<Seq<ClusterData>>,
)
    requires
        i < data.len(),
        prev@ == marked(data, i as int, members@, zoom),
        forall|t: int| 0 <= t < members@.len() ==> (#[trigger] members@[t]) < data.len(),
    ensures
        final(next)@ == old(next)@ + seq![data[i as int].seen(zoom)] + passed_on(
            data,
            members@,
            zoom,
        ),
        total_points(final(next)@) == total_points(old(next)@) + data[i as int].num_points
            + member_points(data, members@),
{
    let ghost start = next@;
    proof {
        lemma_points_push(start, data[i as int].seen(zoom), every_record());
    }
    next.push(prev[i]);
    let mut t: usize = 0;
    assert(members@.take(0) =~= Seq::<usize>::empty());
    assert(next@ =~= start + seq![data[i as int].seen(zoom)] + passed_on(
        data,
        members@.take(0),
        zoom,
    ));
    while t < members.len()
        invariant
            0 <= t <= members@.len(),
            i < data.len(),
            prev@ == marked(data, i as int, members@, zoom),
            forall|t: int| 0 <= t < members@.len() ==> (#[trigger] members@[t]) < data.len(),
            next@ == start + seq![data[i as int].seen(zoom)] + passed_on(
                data,
                members@.take(t as int),
                zoom,
            ),
            total_points(next@) == total_points(start) + data[i as int].num_points
                + member_points(data, members@.take(t as int)),
        decreases members@.len() - t,
    {
        let m = members[t];
        proof {
            assert(is_member(members@, m as int)) by {
                assert(members@[t as int] == m);
            }
            assert(members@.take(t as int + 1) =~= members@.take(t as int).push(m));
            lemma_member_points_push(data, members@.take(t as int), m);
            lemma_points_push(next@, data[m as int].seen(zoom), every_record());
        }
        next.push(prev[m]);
        proof {
            assert(next@ =~= start + seq![data[i as int].seen(zoom)] + passed_on(
                data,
                members@.take(t as int + 1),
                zoom,
            ));
        }
        t += 1;
    }
    proof {
        assert(members@.take(t as int) =~= members@);
    }
}

/// What holds of every record of an index over `length` source points: it
/// stands for at least one point; it carries a source identifier exactly if
/// it stands for one point; and a cluster holds at least `min_points` points.
pub open spec fn record_ok(r: ClusterData, length: usize, min_points: usize) -> bool {
    &&& r.num_points >= 1
    &&& (r.num_points == 1 ==> r.source_id.value() < length)
    &&& (r.num_points > 1 ==> r.source_id.value() >= length && r.num_points >= min_points)
}

/// Every record of the layer is as `record_ok` says.
pub open spec fn layer_ok(s: Seq<ClusterData>, length: usize, min_points: usize) -> bool {
    forall|j: int| 0 <= j < s.len() ==> record_ok(#[trigger] s[j], length, min_points)
}

/// Whether the layer holds a record of the cluster `p` that stands for `n`
/// points.
pub open spec fn has_cluster(next: Seq<ClusterData>, p: ClusterId, n: nat) -> bool {
    exists|k: int| 0 <= k < next.len() && (#[trigger] next[k]).source_id == p && next[k].num_points == n
}

/// What holds of a parent link `p` found in `prev` while the pass at `zoom`
/// stands at `cursor`: `p` names a seed before the cursor that the cluster
/// took in as well, and the next layer holds the cluster's record, which
/// stands for as many points as the records of `prev` that point at it.
pub open spec fn linked(
    prev: Seq<ClusterData>,
    next: Seq<ClusterData>,
    cursor: int,
    zoom: usize,
    length: usize,
    p: ClusterId,
) -> bool {
    &&& p.value() >= length
    &&& p.origin_zoom(length as int) == zoom + 1
    &&& 0 <= p.origin_idx(length as int) < cursor
    &&& prev[p.origin_idx(length as int)].parent_id == Some(p)
    &&& has_cluster(next, p, points_under(prev, p))
}

/// Whether the node `r` is a node of `prev` that passed on as it was.
pub open spec fn came_from(prev: Seq<ClusterData>, r: ClusterData) -> bool {
    exists|j: int|
        0 <= j < prev.len() && (#[trigger] prev[j]).source_id == r.source_id && prev[j].num_points
            == r.num_points
}

/// Whether the node `r` is a cluster that the pass at `zoom` formed from
/// records of `prev` before `cursor`: its identifier names the seed, which
/// points at it, and it stands for as many points as the records of `prev`
/// that point at it.
pub open spec fn formed_from(
    prev: Seq<ClusterData>,
    r: ClusterData,
    cursor: int,
    zoom: usize,
    length: usize,
) -> bool {
    let id = r.source_id;
    &&& r.num_points > 1
    &&& id.value() >= length
    &&& id.origin_zoom(length as int) == zoom + 1
    &&& 0 <= id.origin_idx(length as int) < cursor
    &&& prev[id.origin_idx(length as int)].parent_id == Some(id)
    &&& points_under(prev, id) == r.num_points
}

/// What links the layer `prev`, scanned at `zoom` up to `cursor`, to the
/// layer `next` that the scan has emitted so far.
pub open spec fn link_inv(
    prev: Seq<ClusterData>,
    next: Seq<ClusterData>,
    cursor: int,
    zoom: usize,
    length: usize,
    min_points: usize,
) -> bool {
    &&& 0 <= cursor <= prev.len()
    &&& layer_ok(prev, length, min_points)
    &&& layer_ok(next, length, min_points)
    &&& total_points(prev) == length
    &&& total_points(next) + pending_points(prev, zoom) == length
    &&& forall|j: int| 0 <= j < cursor ==> (#[trigger] prev[j]).consumed(zoom)
    &&& forall|j: int|
        0 <= j < prev.len() && !(#[trigger] prev[j]).consumed(zoom) ==> prev[j].parent_id is None
    &&& forall|j: int|
        0 <= j < prev.len() && (#[trigger] prev[j]).parent_id is Some ==> linked(
            prev,
            next,
            cursor,
            zoom,
            length,
            prev[j].parent_id->0,
        )
    &&& forall|k: int|
        0 <= k < next.len() ==> came_from(prev, #[trigger] next[k]) || formed_from(
            prev,
            next[k],
            cursor,
            zoom,
            length,
        )
}

/// No pass below `zoom` has touched the records of `next`.
pub open spec fn untouched(next: Seq<ClusterData>, zoom: usize) -> bool {
    forall|k: int|
        0 <= k < next.len() ==> {
            &&& ((#[trigger] next[k]).zoom is None || next[k].zoom == Some(zoom))
            &&& next[k].parent_id is None
        }
}

/// The invariant of a pass at `zoom` over `prev` that stands at `cursor` and
/// has emitted `next`.
pub open spec fn pass_inv(
    prev: Seq<ClusterData>,
    next: Seq<ClusterData>,
    cursor: int,
    zoom: usize,
    length: usize,
    min_points: usize,
) -> bool {
    &&& link_inv(prev, next, cursor, zoom, length, min_points)
    &&& untouched(next, zoom)
}

/// Number of points that the seed and what it takes along stand for.
pub open spec fn gathered_points(data: Seq<ClusterData>, seed: int, zoom: usize, hits: Seq<usize>) -> nat {
    data[seed].num_points as nat + member_points(data, absorbed(data, seed, zoom, hits))
}

/// Whether the seed forms a cluster: it takes at least one record along, and
/// together they stand for at least `min_points` points.
pub open spec fn forms_cluster(
    data: Seq<ClusterData>,
    seed: int,
    zoom: usize,
    hits: Seq<usize>,
    min_points: usize,
) -> bool {
    let n = gathered_points(data, seed, zoom, hits);
    n > data[seed].num_points && n >= min_points
}

/// Identifier of the cluster that the seed forms at `zoom`.
pub open spec fn cluster_id_of(seed: int, zoom: usize, length: usize) -> ClusterId {
    ClusterId(packed(seed, zoom as int, length as int) as usize)
}

/// The scanned layer after the visit of `seed`.
pub open spec fn visited(
    data: Seq<ClusterData>,
    seed: int,
    zoom: usize,
    hits: Seq<usize>,
    min_points: usize,
    length: usize,
) -> Seq<ClusterData> {
    let members = absorbed(data, seed, zoom, hits);
    if forms_cluster(data, seed, zoom, hits, min_points) {
        adopted_by(data, seed, members, zoom, cluster_id_of(seed, zoom, length))
    } else {
        marked(data, seed, members, zoom)
    }
}

/// The records that the visit of `seed` appends to the next layer: the new
/// cluster, or else the seed and the members as they are.
pub open spec fn emitted(
    data: Seq<ClusterData>,
    seed: int,
    zoom: usize,
    hits: Seq<usize>,
    min_points: usize,
    length: usize,
) -> Seq<ClusterData> {
    let members = absorbed(data, seed, zoom, hits);
    if forms_cluster(data, seed, zoom, hits, min_points) {
        seq![
            ClusterData {
                zoom: None,
                source_id: cluster_id_of(seed, zoom, length),
                parent_id: None,
                num_points: gathered_points(data, seed, zoom, hits) as usize,
            },
        ]
    } else {
        seq![data[seed].seen(zoom)] + passed_on(data, members, zoom)
    }
}

/// What the visit of one seed did.
#[derive(Debug)]
pub struct Visit {
    /// The cluster that was formed, if one was.
    pub cluster: Option<ClusterId>,
    /// The records that the seed took along, in the order of the hits.
    pub members: Vec<usize>,
}

/// Counts that add up record by record add up over the layers.
pub proof fn lemma_points_split(
    a: Seq<ClusterData>,
    f: spec_fn(ClusterData) -> bool,
    b: Seq<ClusterData>,
    g: spec_fn(ClusterData) -> bool,
    c: Seq<ClusterData>,
    h: spec_fn(ClusterData) -> bool,
)
    requires
        a.len() == b.len(),
        a.len() == c.len(),
        forall|j: int|
            0 <= j < a.len() ==> weight(#[trigger] a[j], f) == weight(b[j], g) + weight(c[j], h),
    ensures
        points_where(a, f) == points_where(b, g) + points_where(c, h),
    decreases a.len(),
{
    if a.len() > 0 {
        lemma_points_split(a.drop_last(), f, b.drop_last(), g, c.drop_last(), h);
    }
}

/// A record of a cluster that a layer holds is still there when records are
/// appended.
pub proof fn lemma_has_cluster_extends(
    next: Seq<ClusterData>,
    more: Seq<ClusterData>,
    p: ClusterId,
    n: nat,
)
    requires
        has_cluster(next, p, n),
    ensures
        has_cluster(next + more, p, n),
{
    let k = choose|k: int|
        0 <= k < next.len() && (#[trigger] next[k]).source_id == p && next[k].num_points == n;
    assert((next + more)[k] == next[k]);
}

/// The points under the cluster `p` stay what they were where records only
/// gain parents other than `p`.
pub proof fn lemma_links_kept(data: Seq<ClusterData>, after: Seq<ClusterData>, p: ClusterId)
    requires
        data.len() == after.len(),
        forall|j: int|
            0 <= j < data.len() ==> {
                &&& (#[trigger] after[j]).num_points == data[j].num_points
                &&& (after[j].parent_id == data[j].parent_id || (data[j].parent_id is None
                    && after[j].parent_id != Some(p)))
            },
    ensures
        points_under(after, p) == points_under(data, p),
{
    assert forall|j: int| 0 <= j < data.len() implies weight(#[trigger] data[j], child_of(p))
        == weight(after[j], child_of(p)) by {
        assert(after[j].num_points == data[j].num_points);
    }
    lemma_points_same(data, after, child_of(p), child_of(p));
}

/// The visit of a seed that forms a cluster keeps the invariant of the pass.
proof fn lemma_step_clustered(
    data: Seq<ClusterData>,
    next: Seq<ClusterData>,
    i: int,
    zoom: usize,
    hits: Seq<usize>,
    min_points: usize,
    length: usize,
)
    requires
        pass_inv(data, next, i, zoom, length, min_points),
        0 <= i < data.len(),
        !data[i].consumed(zoom),
        forall|k: int| 0 <= k < hits.len() ==> (#[trigger] hits[k]) < data.len(),
        zoom < 31,
        packed(i, zoom as int, length as int) <= usize::MAX,
        forms_cluster(data, i, zoom, hits, min_points),
        gathered_points(data, i, zoom, hits) + pending_points(
            marked(data, i, absorbed(data, i, zoom, hits), zoom),
            zoom,
        ) == pending_points(data, zoom),
    ensures
        pass_inv(
            visited(data, i, zoom, hits, min_points, length),
            next + emitted(data, i, zoom, hits, min_points, length),
            i + 1,
            zoom,
            length,
            min_points,
        ),
{
    let members = absorbed(data, i, zoom, hits);
    let id = cluster_id_of(i, zoom, length);
    let count = gathered_points(data, i, zoom, hits);
    let prev1 = marked(data, i, members, zoom);
    let prev2 = visited(data, i, zoom, hits, min_points, length);
    let out = emitted(data, i, zoom, hits, min_points, length);
    let next2 = next + out;
    lemma_absorbed(data, i, zoom, hits);
    lemma_points_le_total(data, pending_at(zoom));
    assert(next2 =~= next.push(out[0]));
    lemma_points_push(next, out[0], every_record());
    lemma_points_same(data, prev2, every_record(), every_record());
    lemma_points_same(prev1, prev2, pending_at(zoom), pending_at(zoom));
    assert(id.value() == packed(i, zoom as int, length as int));
    assert(id.origin_idx(length as int) == i);
    assert(id.origin_zoom(length as int) == zoom + 1);
    // No record points at the new cluster before the visit.
    assert forall|j: int| 0 <= j < data.len() implies (#[trigger] data[j]).parent_id != Some(
        id,
    ) by {
        if data[j].parent_id is Some {
            assert(linked(data, next, i, zoom, length, data[j].parent_id->0));
        }
    }
    // The records taken are those that point at it after the visit.
    assert forall|j: int| 0 <= j < data.len() implies weight(
        #[trigger] data[j],
        pending_at(zoom),
    ) == weight(prev1[j], pending_at(zoom)) + weight(prev2[j], child_of(id)) by {
        if j == i || is_member(members, j) {
            if j != i {
                let t = choose|t: int| 0 <= t < members.len() && #[trigger] members[t] == j;
            }
            assert(!data[j].consumed(zoom));
        }
    }
    lemma_points_split(data, pending_at(zoom), prev1, pending_at(zoom), prev2, child_of(id));
    assert(points_under(prev2, id) == count);
    assert(next2[next.len() as int] == out[0]);
    assert(has_cluster(next2, id, points_under(prev2, id)));
    assert forall|j: int| 0 <= j < prev2.len() && (#[trigger] prev2[j]).parent_id is Some implies linked(
        prev2,
        next2,
        i + 1,
        zoom,
        length,
        prev2[j].parent_id->0,
    ) by {
        let taken = j == i || is_member(members, j);
        if taken {
            assert(prev2[j].parent_id == Some(id));
            assert(prev2[i].parent_id == Some(id));
        } else {
            let p = data[j].parent_id->0;
            assert(linked(data, next, i, zoom, length, p));
            let s = p.origin_idx(length as int);
            assert(data[s].parent_id == Some(p));
            assert(data[s].consumed(zoom));
            assert(!is_member(members, s)) by {
                if is_member(members, s) {
                    let t = choose|t: int| 0 <= t < members.len() && #[trigger] members[t] == s;
                    assert(!data[members[t] as int].consumed(zoom));
                }
            }
            assert(prev2[s] == data[s]);
            assert forall|x: int| 0 <= x < data.len() implies weight(
                #[trigger] data[x],
                child_of(p),
            ) == weight(prev2[x], child_of(p)) by {
                if x == i || is_member(members, x) {
                    if x != i {
                        let t = choose|t: int| 0 <= t < members.len() && #[trigger] members[t] == x;
                    }
                    assert(!data[x].consumed(zoom));
                    assert(data[x].parent_id is None);
                }
            }
            lemma_points_same(data, prev2, child_of(p), child_of(p));
            lemma_has_cluster_extends(next, out, p, points_under(data, p));
        }
    }
    assert forall|j: int| 0 <= j < prev2.len() && !(#[trigger] prev2[j]).consumed(zoom) implies prev2[j].parent_id is None by {
        assert(prev2[j] == data[j]);
    }
    assert forall|j: int| 0 <= j < i + 1 implies (#[trigger] prev2[j]).consumed(zoom) by {
        if j < i {
            assert(data[j].consumed(zoom));
        }
    }
    assert forall|x: int| 0 <= x < data.len() implies {
        &&& (#[trigger] prev2[x]).num_points == data[x].num_points
        &&& prev2[x].source_id == data[x].source_id
        &&& (prev2[x].parent_id == data[x].parent_id || (data[x].parent_id is None
            && prev2[x].parent_id == Some(id)))
    } by {
        if x == i || is_member(members, x) {
            if x != i {
                let t = choose|t: int| 0 <= t < members.len() && #[trigger] members[t] == x;
            }
            assert(!data[x].consumed(zoom));
        }
    }
    assert forall|k: int| 0 <= k < next2.len() implies came_from(prev2, #[trigger] next2[k])
        || formed_from(prev2, next2[k], i + 1, zoom, length) by {
        if k < next.len() {
            let r = next[k];
            assert(next2[k] == r);
            if came_from(data, r) {
                let j = choose|j: int|
                    0 <= j < data.len() && (#[trigger] data[j]).source_id == r.source_id
                        && data[j].num_points == r.num_points;
                assert(prev2[j].source_id == r.source_id);
            } else {
                assert(formed_from(data, r, i, zoom, length));
                let s = r.source_id.origin_idx(length as int);
                assert(prev2[s].parent_id == data[s].parent_id);
                assert(r.source_id != id);
                lemma_links_kept(data, prev2, r.source_id);
            }
        } else {
            assert(next2[k] == out[0]);
            assert(formed_from(prev2, out[0], i + 1, zoom, length));
        }
    }
    assert(layer_ok(prev2, length, min_points)) by {
        assert forall|j: int| 0 <= j < prev2.len() implies record_ok(
            #[trigger] prev2[j],
            length,
            min_points,
        ) by {
            assert(record_ok(data[j], length, min_points));
        }
    }
    assert(layer_ok(next2, length, min_points)) by {
        assert forall|k: int| 0 <= k < next2.len() implies record_ok(
            #[trigger] next2[k],
            length,
            min_points,
        ) by {
            if k < next.len() {
                assert(record_ok(next[k], length, min_points));
            } else {
                assert(record_ok(data[i], length, min_points));
            }
        }
    }
    assert(untouched(next2, zoom)) by {
        assert forall|k: int| 0 <= k < next2.len() implies {
            &&& ((#[trigger] next2[k]).zoom is None || next2[k].zoom == Some(zoom))
            &&& next2[k].parent_id is None
        } by {
            if k < next.len() {
                assert(next2[k] == next[k]);
            }
        }
    }
}

/// The visit of a seed that forms no cluster keeps the invariant of the
/// pass.
proof fn lemma_step_passed(
    data: Seq<ClusterData>,
    next: Seq<ClusterData>,
    i: int,
    zoom: usize,
    hits: Seq<usize>,
    min_points: usize,
    length: usize,
)
    requires
        pass_inv(data, next, i, zoom, length, min_points),
        0 <= i < data.len(),
        !data[i].consumed(zoom),
        forall|k: int| 0 <= k < hits.len() ==> (#[trigger] hits[k]) < data.len(),
        !forms_cluster(data, i, zoom, hits, min_points),
        gathered_points(data, i, zoom, hits) + pending_points(
            marked(data, i, absorbed(data, i, zoom, hits), zoom),
            zoom,
        ) == pending_points(data, zoom),
        total_points(next + emitted(data, i, zoom, hits, min_points, length)) == total_points(next)
            + gathered_points(data, i, zoom, hits),
    ensures
        pass_inv(
            visited(data, i, zoom, hits, min_points, length),
            next + emitted(data, i, zoom, hits, min_points, length),
            i + 1,
            zoom,
            length,
            min_points,
        ),
{
    let members = absorbed(data, i, zoom, hits);
    let prev2 = visited(data, i, zoom, hits, min_points, length);
    let out = emitted(data, i, zoom, hits, min_points, length);
    let next2 = next + out;
    lemma_absorbed(data, i, zoom, hits);
    lemma_points_same(data, prev2, every_record(), every_record());
    assert forall|j: int| 0 <= j < prev2.len() && (#[trigger] prev2[j]).parent_id is Some implies linked(
        prev2,
        next2,
        i + 1,
        zoom,
        length,
        prev2[j].parent_id->0,
    ) by {
        assert(prev2[j].parent_id == data[j].parent_id);
        let p = data[j].parent_id->0;
        assert(linked(data, next, i, zoom, length, p));
        let s = p.origin_idx(length as int);
        assert(prev2[s].parent_id == data[s].parent_id);
        assert forall|x: int| 0 <= x < data.len() implies weight(
            #[trigger] data[x],
            child_of(p),
        ) == weight(prev2[x], child_of(p)) by {
            assert(prev2[x].parent_id == data[x].parent_id);
        }
        lemma_points_same(data, prev2, child_of(p), child_of(p));
        lemma_has_cluster_extends(next, out, p, points_under(data, p));
    }
    assert forall|j: int| 0 <= j < prev2.len() && !(#[trigger] prev2[j]).consumed(zoom) implies prev2[j].parent_id is None by {
        assert(prev2[j] == data[j]);
    }
    assert forall|j: int| 0 <= j < i + 1 implies (#[trigger] prev2[j]).consumed(zoom) by {
        if j < i {
            assert(data[j].consumed(zoom));
        }
    }
    assert forall|x: int| 0 <= x < data.len() implies {
        &&& (#[trigger] prev2[x]).num_points == data[x].num_points
        &&& prev2[x].source_id == data[x].source_id
        &&& prev2[x].parent_id == data[x].parent_id
    } by {}
    assert forall|k: int| 0 <= k < next2.len() implies came_from(prev2, #[trigger] next2[k])
        || formed_from(prev2, next2[k], i + 1, zoom, length) by {
        if k < next.len() {
            let r = next[k];
            assert(next2[k] == r);
            if came_from(data, r) {
                let j = choose|j: int|
                    0 <= j < data.len() && (#[trigger] data[j]).source_id == r.source_id
                        && data[j].num_points == r.num_points;
                assert(prev2[j].source_id == r.source_id);
            } else {
                assert(formed_from(data, r, i, zoom, length));
                let s = r.source_id.origin_idx(length as int);
                assert(prev2[s].parent_id == data[s].parent_id);
                lemma_links_kept(data, prev2, r.source_id);
            }
        } else if k == next.len() {
            assert(next2[k] == data[i].seen(zoom));
            assert(prev2[i].source_id == data[i].source_id);
        } else {
            let t = k - next.len() - 1;
            let m = members[t];
            assert(next2[k] == data[m as int].seen(zoom));
            assert(prev2[m as int].source_id == data[m as int].source_id);
        }
    }
    assert(layer_ok(prev2, length, min_points)) by {
        assert forall|j: int| 0 <= j < prev2.len() implies record_ok(
            #[trigger] prev2[j],
            length,
            min_points,
        ) by {
            assert(record_ok(data[j], length, min_points));
        }
    }
    assert forall|k: int| 0 <= k < next2.len() implies {
        &&& record_ok(#[trigger] next2[k], length, min_points)
        &&& (next2[k].zoom is None || next2[k].zoom == Some(zoom))
        &&& next2[k].parent_id is None
    } by {
        if k < next.len() {
            assert(next2[k] == next[k]);
            assert(record_ok(next[k], length, min_points));
        } else if k == next.len() {
            assert(next2[k] == data[i].seen(zoom));
            assert(record_ok(data[i], length, min_points));
        } else {
            let t = k - next.len() - 1;
            let m = members[t];
            assert(next2[k] == data[m as int].seen(zoom));
            assert(record_ok(data[m as int], length, min_points));
            assert(!data[m as int].consumed(zoom));
        }
    }
}

/// Visits the seed `i` of a pass at `zoom`: takes the hits that no pass at
/// `zoom` or below has taken yet, and either forms a cluster of them, which
/// is appended to `next`, or appends them to `next` as they are.
pub(crate) fn visit_step(
    prev: &mut Vec<ClusterData>,
    next: &mut Vec<ClusterData>,
    i: usize,
    zoom: usize,
    hits: &Vec<usize>,
    min_points: usize,
    length: usize,
) -> (v: Visit)
    requires
        pass_inv(old(prev)@, old(next)@, i as int, zoom, length, min_points),
        i < old(prev)@.len(),
        !old(prev)@[i as int].consumed(zoom),
        forall|k: int| 0 <= k < hits@.len() ==> (#[trigger] hits@[k]) < old(prev)@.len(),
        zoom < 31,
        packed(i as int, zoom as int, length as int) <= usize::MAX,
    ensures
        final(prev)@ == visited(old(prev)@, i as int, zoom, hits@, min_points, length),
        final(next)@ == old(next)@ + emitted(
            old(prev)@,
            i as int,
            zoom,
            hits@,
            min_points,
            length,
        ),
        v.members@ == absorbed(old(prev)@, i as int, zoom, hits@),
        v.cluster == if forms_cluster(old(prev)@, i as int, zoom, hits@, min_points) {
            Some(cluster_id_of(i as int, zoom, length))
        } else {
            None
        },
        pass_inv(final(prev)@, final(next)@, i + 1, zoom, length, min_points),
{
    let ghost data = prev@;
    let ghost start = next@;
    let origin = prev[i].num_points;
    let (count, members) = absorb(prev, i, zoom, hits);
    proof {
        lemma_absorbed(data, i as int, zoom, hits@);
    }
    if count > origin && count >= min_points {
        let id = ClusterId::new(i, zoom, length);
        adopt(prev, i, &members, zoom, id, Ghost(data));
        next.push(ClusterData { zoom: None, source_id: id, parent_id: None, num_points: count });
        proof {
            assert(id == cluster_id_of(i as int, zoom, length));
            assert(next@ =~= start + emitted(data, i as int, zoom, hits@, min_points, length));
            lemma_step_clustered(data, start, i as int, zoom, hits@, min_points, length);
        }
        Visit { cluster: Some(id), members }
    } else {
        pass_on(prev, next, i, &members, zoom, Ghost(data));
        proof {
            assert(next@ =~= start + emitted(data, i as int, zoom, hits@, min_points, length));
            lemma_step_passed(data, start, i as int, zoom, hits@, min_points, length);
        }
        Visit { cluster: None, members }
    }
}

/// What the seed takes along is among the hits.
pub proof fn lemma_absorbed_among_hits(
    data: Seq<ClusterData>,
    seed: int,
    zoom: usize,
    hits: Seq<usize>,
)
    ensures
        forall|j: int|
            #[trigger] is_member(absorbed(data, seed, zoom, hits), j) ==> is_member(hits, j),
    decreases hits.len(),
{
    let now = absorbed(data, seed, zoom, hits);
    if hits.len() > 0 {
        let rest = hits.drop_last();
        let before = absorbed(data, seed, zoom, rest);
        lemma_absorbed_among_hits(data, seed, zoom, rest);
        lemma_is_member_push(before, hits.last());
        assert(hits =~= rest.push(hits.last()));
        lemma_is_member_push(rest, hits.last());
        assert forall|j: int| #[trigger] is_member(now, j) implies is_member(hits, j) by {
            if is_member(before, j) {
                assert(is_member(rest, j));
            }
        }
    } else {
        assert forall|j: int| #[trigger] is_member(now, j) implies is_member(hits, j) by {
            let t = choose|t: int| 0 <= t < now.len() && #[trigger] now[t] == j;
        }
    }
}

/// The records that point at a cluster when it is formed are its seed and
/// what the seed took along, all of which but the seed are among the hits.
pub proof fn lemma_children_when_formed(
    data: Seq<ClusterData>,
    next: Seq<ClusterData>,
    i: int,
    zoom: usize,
    hits: Seq<usize>,
    min_points: usize,
    length: usize,
)
    requires
        pass_inv(data, next, i, zoom, length, min_points),
        0 <= i < data.len(),
        !data[i].consumed(zoom),
        forall|k: int| 0 <= k < hits.len() ==> (#[trigger] hits[k]) < data.len(),
        zoom < 31,
        packed(i, zoom as int, length as int) <= usize::MAX,
        forms_cluster(data, i, zoom, hits, min_points),
    ensures
        forall|j: int|
            0 <= j < data.len() ==> ((#[trigger] visited(
                data,
                i,
                zoom,
                hits,
                min_points,
                length,
            )[j]).parent_id == Some(cluster_id_of(i, zoom, length)) <==> (j == i || is_member(
                absorbed(data, i, zoom, hits),
                j,
            ))),
        forall|j: int|
            #[trigger] is_member(absorbed(data, i, zoom, hits), j) ==> is_member(hits, j),
{
    let id = cluster_id_of(i, zoom, length);
    let after = visited(data, i, zoom, hits, min_points, length);
    lemma_absorbed_among_hits(data, i, zoom, hits);
    assert(id.origin_idx(length as int) == i);
    assert forall|j: int| 0 <= j < data.len() implies ((#[trigger] after[j]).parent_id == Some(id)
        <==> (j == i || is_member(absorbed(data, i, zoom, hits), j))) by {
        if !(j == i || is_member(absorbed(data, i, zoom, hits), j)) {
            assert(after[j] == data[j]);
            if data[j].parent_id is Some {
                assert(linked(data, next, i, zoom, length, data[j].parent_id->0));
            }
        }
    }
}

} // verus!
