use crate::builder::{fits, layers_of};
use crate::cluster::{ClusterData, ClusterId, ClusterInfo};
use crate::error::SuperclusterError;
use crate::ladder::{is_source_layer, lemma_settled_total, settled};
use crate::pass::{
    came_from, formed_from, has_cluster, is_member, lemma_is_member_push, linked, record_ok,
};
use crate::points::{
    child_of, lemma_len_le_total, lemma_member_points_push, lemma_points_none, lemma_points_same,
    lemma_points_update, lemma_record_le_total, member_points, points_under, total_points,
    weight,
};
use crate::options::SuperclusterOptions;
use vstd::prelude::*;

verus! {

/// The ladder of layers of an index.
pub struct Ladder {
    /// The options the index was built with.
    pub options: SuperclusterOptions,
    /// Number of source points.
    pub num_points: usize,
    /// The layers, highest zoom first: the full-resolution layer, then one
    /// layer for each zoom from the maximum down to the minimum.
    pub layers: Seq<Seq<ClusterData>>,
}

impl Ladder {
    /// The invariant of an index: the first layer holds the source points,
    /// and each layer below was emitted by a complete pass over the one
    /// above it.
    pub open spec fn wf(self) -> bool {
        &&& self.options.valid()
        &&& fits(self.num_points)
        &&& self.layers.len() == self.options.max_zoom - self.options.min_zoom + 2
        &&& is_source_layer(self.layers[0], self.num_points as int)
        &&& forall|k: int|
            #![trigger self.layers[k]]
            0 <= k < self.layers.len() - 1 ==> settled(
                self.layers[k],
                self.layers[k + 1],
                (self.options.max_zoom - k) as usize,
                self.num_points,
                self.options.min_points,
            )
    }

    /// Whether the ladder has a layer for `zoom`.
    pub open spec fn has_layer(self, zoom: int) -> bool {
        self.options.min_zoom <= zoom <= self.options.max_zoom + 1
    }

    /// The layer for `zoom`.
    pub open spec fn layer(self, zoom: int) -> Seq<ClusterData> {
        self.layers[self.options.max_zoom + 1 - zoom]
    }

    /// The zoom of the layer that answers a query at `zoom`.
    pub open spec fn clamp_zoom(self, zoom: usize) -> usize {
        if zoom < self.options.min_zoom {
            self.options.min_zoom
        } else if zoom > self.options.max_zoom + 1 {
            (self.options.max_zoom + 1) as usize
        } else {
            zoom
        }
    }

    /// The children of the cluster `id` among the hits of the query around
    /// its site, or `None` where there is no such cluster: where `id` has no
    /// site, or none of the hits is a child of it.
    pub open spec fn children(self, id: ClusterId, hits: Seq<usize>) -> Option<Seq<ClusterInfo>> {
        match self.site(id) {
            None => None,
            Some(at) => {
                let layer = self.layer(at.0 as int);
                let kids = children_among(layer, id, hits);
                if kids.len() == 0 {
                    None
                } else {
                    Some(reported(layer, kids))
                }
            },
        }
    }

    /// Where the children of the cluster `id` are to be looked for: the zoom
    /// of their layer, and the index of the cluster's seed in it. `None` if
    /// `id` names a source point, a zoom without a layer, or no record of
    /// that layer.
    pub open spec fn site(self, id: ClusterId) -> Option<(usize, usize)> {
        let zoom = id.origin_zoom(self.num_points as int);
        let idx = id.origin_idx(self.num_points as int);
        if id.value() >= self.num_points && self.has_layer(zoom) && idx < self.layer(zoom).len() {
            Some((zoom as usize, idx as usize))
        } else {
            None
        }
    }
}

impl Ladder {
    /// Every layer is linked to a neighbour by a complete pass, which has
    /// seen the whole index.
    proof fn lemma_layer(self, zoom: int)
        requires
            self.wf(),
            self.has_layer(zoom),
        ensures
            total_points(self.layer(zoom)) == self.num_points,
            forall|j: int|
                0 <= j < self.layer(zoom).len() ==> record_ok(
                    #[trigger] self.layer(zoom)[j],
                    self.num_points,
                    self.options.min_points,
                ),
    {
        let k = self.options.max_zoom + 1 - zoom;
        if k == 0 {
            assert(settled(
                self.layers[0],
                self.layers[1],
                self.options.max_zoom,
                self.num_points,
                self.options.min_points,
            ));
            lemma_settled_total(
                self.layers[0],
                self.layers[1],
                self.options.max_zoom,
                self.num_points,
                self.options.min_points,
            );
        } else {
            assert(settled(
                self.layers[k - 1],
                self.layers[k],
                (self.options.max_zoom - (k - 1)) as usize,
                self.num_points,
                self.options.min_points,
            ));
            lemma_settled_total(
                self.layers[k - 1],
                self.layers[k],
                (self.options.max_zoom - (k - 1)) as usize,
                self.num_points,
                self.options.min_points,
            );
        }
    }

    /// The records of every layer stand for all the source points together:
    /// no pass loses or invents a point.
    pub proof fn lemma_count_conservation(self, zoom: int)
        requires
            self.wf(),
            self.has_layer(zoom),
        ensures
            total_points(self.layer(zoom)) == self.num_points,
    {
        self.lemma_layer(zoom);
    }

    /// Every record is a single source point under its insertion index, or a
    /// cluster of at least two and at least `min_points` points under an
    /// identifier that is none of a source point; and the layer holds no
    /// more records than there are source points.
    pub proof fn lemma_records(self, zoom: int, j: int)
        requires
            self.wf(),
            self.has_layer(zoom),
            0 <= j < self.layer(zoom).len(),
        ensures
            record_ok(self.layer(zoom)[j], self.num_points, self.options.min_points),
            self.layer(zoom)[j].num_points <= self.num_points,
            self.layer(zoom).len() <= self.num_points,
    {
        self.lemma_layer(zoom);
        lemma_record_le_total(self.layer(zoom), j);
        lemma_len_le_total(self.layer(zoom));
    }

    /// A parent link of a record at `zoom + 1` names a cluster record at
    /// `zoom`, which stands for as many points as all the records at
    /// `zoom + 1` that point at it. The identifier is packed from `zoom` and
    /// from the index of a record at `zoom + 1` that points at it too.
    pub proof fn lemma_parent_consistency(self, zoom: int, j: int)
        requires
            self.wf(),
            self.has_layer(zoom),
            self.has_layer(zoom + 1),
            0 <= j < self.layer(zoom + 1).len(),
            self.layer(zoom + 1)[j].parent_id is Some,
        ensures
            ({
                let p = self.layer(zoom + 1)[j].parent_id->0;
                &&& has_cluster(self.layer(zoom), p, points_under(self.layer(zoom + 1), p))
                &&& self.site(p) == Some(
                    ((zoom + 1) as usize, p.origin_idx(self.num_points as int) as usize),
                )
                &&& self.layer(zoom + 1)[p.origin_idx(self.num_points as int)].parent_id == Some(p)
            }),
    {
        let k = self.options.max_zoom - zoom;
        assert(settled(
            self.layers[k],
            self.layers[k + 1],
            (self.options.max_zoom - k) as usize,
            self.num_points,
            self.options.min_points,
        ));
        let p = self.layer(zoom + 1)[j].parent_id->0;
        assert(linked(
            self.layers[k],
            self.layers[k + 1],
            self.layers[k].len() as int,
            zoom as usize,
            self.num_points,
            p,
        ));
    }

    /// A parent link names a cluster: the record it leads to stands for more
    /// than one point.
    pub proof fn lemma_parent_is_cluster(self, zoom: int, j: int, k: int)
        requires
            self.wf(),
            self.has_layer(zoom),
            self.has_layer(zoom + 1),
            0 <= j < self.layer(zoom + 1).len(),
            0 <= k < self.layer(zoom).len(),
            self.layer(zoom + 1)[j].parent_id == Some(self.layer(zoom)[k].source_id),
        ensures
            self.layer(zoom)[k].num_points > 1,
    {
        self.lemma_parent_consistency(zoom, j);
        self.lemma_records(zoom, k);
    }

    /// Every cluster record, at whatever zoom it is found, was formed by one
    /// pass: its identifier names the layer above that pass and a record of
    /// that layer, which points at the cluster; and the cluster stands for
    /// as many points as the records of that layer that point at it.
    pub proof fn lemma_cluster_rooted(self, zoom: int, k: int)
        requires
            self.wf(),
            self.has_layer(zoom),
            0 <= k < self.layer(zoom).len(),
            self.layer(zoom)[k].num_points > 1,
        ensures
            ({
                let r = self.layer(zoom)[k];
                let above = r.source_id.origin_zoom(self.num_points as int);
                let seed = r.source_id.origin_idx(self.num_points as int);
                &&& zoom < above
                &&& self.site(r.source_id) == Some((above as usize, seed as usize))
                &&& self.layer(above)[seed].parent_id == Some(r.source_id)
                &&& points_under(self.layer(above), r.source_id) == r.num_points
            }),
        decreases self.options.max_zoom + 1 - zoom,
    {
        let r = self.layer(zoom)[k];
        if zoom == self.options.max_zoom + 1 {
            assert(self.layer(zoom) == self.layers[0]);
            assert(self.layers[0][k].num_points == 1);
        } else {
            let i = self.options.max_zoom - zoom;
            assert(settled(
                self.layers[i],
                self.layers[i + 1],
                (self.options.max_zoom - i) as usize,
                self.num_points,
                self.options.min_points,
            ));
            let upper = self.layers[i];
            assert(self.layers[i + 1][k] == r);
            assert(came_from(upper, r) || formed_from(
                upper,
                r,
                upper.len() as int,
                zoom as usize,
                self.num_points,
            ));
            if !formed_from(upper, r, upper.len() as int, zoom as usize, self.num_points) {
                let j = choose|j: int|
                    0 <= j < upper.len() && (#[trigger] upper[j]).source_id == r.source_id
                        && upper[j].num_points == r.num_points;
                self.lemma_cluster_rooted(zoom + 1, j);
            }
        }
    }

    /// The children of a cluster add up to it: where the hits hold every
    /// record that points at the cluster, each once, the children reported
    /// stand together for as many points as the cluster.
    pub proof fn lemma_children_add_up(self, zoom: int, k: int, hits: Seq<usize>)
        requires
            self.wf(),
            self.has_layer(zoom),
            0 <= k < self.layer(zoom).len(),
            self.layer(zoom)[k].num_points > 1,
            hits.no_duplicates(),
            ({
                let id = self.layer(zoom)[k].source_id;
                let above = self.layer(id.origin_zoom(self.num_points as int));
                &&& within_layer(above, hits)
                &&& forall|j: int|
                    0 <= j < above.len() && (#[trigger] above[j]).parent_id == Some(id)
                        ==> is_member(hits, j)
            }),
        ensures
            self.children(self.layer(zoom)[k].source_id, hits) is Some,
            reported_points(self.children(self.layer(zoom)[k].source_id, hits)->0) == self.layer(
                zoom,
            )[k].num_points,
    {
        let r = self.layer(zoom)[k];
        let id = r.source_id;
        self.lemma_cluster_rooted(zoom, k);
        let oz = id.origin_zoom(self.num_points as int);
        let above = self.layer(oz);
        let kids = children_among(above, id, hits);
        lemma_hits_cover(above, id, hits);
        assert forall|j: int| 0 <= j < above.len() implies (#[trigger] above[j]).num_points
            >= 1 by {
            self.lemma_records(oz, j);
        }
        lemma_children_within(above, id, hits);
        lemma_reported_points(above, kids);
        assert(kids.len() > 0) by {
            if kids.len() == 0 {
                assert(member_points(above, kids) == 0);
            }
        }
    }

    /// Above the maximum zoom a query is answered from the full-resolution
    /// layer: what is reported of its record `j` is the source point `j`.
    pub proof fn lemma_full_resolution(self, zoom: usize, j: int)
        requires
            self.wf(),
            zoom > self.options.max_zoom,
            0 <= j < self.num_points,
        ensures
            self.layer(self.clamp_zoom(zoom) as int).len() == self.num_points,
            ClusterInfo::of(self.layer(self.clamp_zoom(zoom) as int)[j]) == (ClusterInfo {
                id: ClusterId(j as usize),
                cluster: false,
                point_count: 1,
            }),
    {
        assert(self.layer(self.clamp_zoom(zoom) as int) == self.layers[0]);
        assert(self.layers[0][j].source_id.value() == j);
    }

    /// An index over fewer source points than a cluster needs, or over a
    /// single one, holds no cluster at any zoom.
    pub proof fn lemma_too_few_for_a_cluster(self, zoom: int, j: int)
        requires
            self.wf(),
            self.has_layer(zoom),
            0 <= j < self.layer(zoom).len(),
            self.num_points < self.options.min_points || self.num_points <= 1,
        ensures
            self.layer(zoom)[j].num_points == 1,
            !ClusterInfo::of(self.layer(zoom)[j]).cluster,
    {
        self.lemma_records(zoom, j);
    }

    /// An index over a single source point holds that point alone at every
    /// zoom.
    pub proof fn lemma_single_point(self, zoom: int)
        requires
            self.wf(),
            self.has_layer(zoom),
            self.num_points == 1,
        ensures
            self.layer(zoom).len() == 1,
            ClusterInfo::of(self.layer(zoom)[0]).cluster == false,
    {
        self.lemma_layer(zoom);
        lemma_len_le_total(self.layer(zoom));
        if self.layer(zoom).len() == 0 {
            assert(total_points(self.layer(zoom)) == 0);
        }
        self.lemma_records(zoom, 0);
    }
}

/// What is reported of the records of `layer` at the indices `hits`, in the
/// order of the hits.
pub open spec fn reported(layer: Seq<ClusterData>, hits: Seq<usize>) -> Seq<ClusterInfo> {
    hits.map_values(|j: usize| ClusterInfo::of(layer[j as int]))
}

/// Number of points that `infos` stand for together.
pub open spec fn reported_points(infos: Seq<ClusterInfo>) -> nat
    decreases infos.len(),
{
    if infos.len() == 0 {
        0
    } else {
        reported_points(infos.drop_last()) + infos.last().point_count as nat
    }
}

/// The layer with the parent links of the records outside `hits` taken off.
pub open spec fn masked(layer: Seq<ClusterData>, hits: Seq<usize>) -> Seq<ClusterData> {
    Seq::new(
        layer.len(),
        |j: int|
            if is_member(hits, j) {
                layer[j]
            } else {
                ClusterData { parent_id: None, ..layer[j] }
            },
    )
}

/// The children among the hits are records of the layer that the hits are
/// records of.
pub proof fn lemma_children_within(layer: Seq<ClusterData>, id: ClusterId, hits: Seq<usize>)
    requires
        within_layer(layer, hits),
    ensures
        within_layer(layer, children_among(layer, id, hits)),
    decreases hits.len(),
{
    reveal(Seq::filter);
    if hits.len() > 0 {
        lemma_children_within(layer, id, hits.drop_last());
    }
}

/// The children among hits that name each record at most once stand for
/// the points under the cluster in the records that are hit.
pub proof fn lemma_masked_points(layer: Seq<ClusterData>, id: ClusterId, hits: Seq<usize>)
    requires
        within_layer(layer, hits),
        hits.no_duplicates(),
    ensures
        member_points(layer, children_among(layer, id, hits)) == points_under(
            masked(layer, hits),
            id,
        ),
    decreases hits.len(),
{
    reveal(Seq::filter);
    if hits.len() == 0 {
        assert forall|j: int| 0 <= j < layer.len() implies !child_of(id)(
            #[trigger] masked(layer, hits)[j],
        ) by {}
        lemma_points_none(masked(layer, hits), child_of(id));
    } else {
        let h = hits.drop_last();
        let x = hits.last();
        lemma_masked_points(layer, id, h);
        assert(!is_member(h, x as int)) by {
            if is_member(h, x as int) {
                let t = choose|t: int| 0 <= t < h.len() && #[trigger] h[t] == x as int;
                assert(hits[t] == hits[hits.len() - 1]);
            }
        }
        assert(hits =~= h.push(x));
        lemma_is_member_push(h, x);
        assert(masked(layer, hits) =~= masked(layer, h).update(x as int, layer[x as int]));
        lemma_points_update(masked(layer, h), x as int, layer[x as int], child_of(id));
        if points_at(layer, id)(x) {
            lemma_member_points_push(layer, children_among(layer, id, h), x);
        }
    }
}

/// Hits that hold every record that points at the cluster, each once, yield
/// children that stand for all the points under the cluster.
pub proof fn lemma_hits_cover(layer: Seq<ClusterData>, id: ClusterId, hits: Seq<usize>)
    requires
        within_layer(layer, hits),
        hits.no_duplicates(),
        forall|j: int|
            0 <= j < layer.len() && (#[trigger] layer[j]).parent_id == Some(id) ==> is_member(
                hits,
                j,
            ),
    ensures
        member_points(layer, children_among(layer, id, hits)) == points_under(layer, id),
{
    lemma_masked_points(layer, id, hits);
    assert forall|j: int| 0 <= j < layer.len() implies weight(
        #[trigger] masked(layer, hits)[j],
        child_of(id),
    ) == weight(layer[j], child_of(id)) by {}
    lemma_points_same(masked(layer, hits), layer, child_of(id), child_of(id));
}

/// What is reported of records stands for as many points as the records.
pub proof fn lemma_reported_points(layer: Seq<ClusterData>, kids: Seq<usize>)
    requires
        within_layer(layer, kids),
        forall|j: int| 0 <= j < layer.len() ==> (#[trigger] layer[j]).num_points >= 1,
    ensures
        reported_points(reported(layer, kids)) == member_points(layer, kids),
    decreases kids.len(),
{
    if kids.len() > 0 {
        lemma_reported_points(layer, kids.drop_last());
        assert(reported(layer, kids).drop_last() =~= reported(layer, kids.drop_last()));
        assert(layer[kids.last() as int].num_points >= 1);
    }
}

/// Every index of a layer of `len` records, in order: the hits of a query
/// that finds them all.
pub open spec fn every_index(len: nat) -> Seq<usize> {
    Seq::new(len, |j: int| j as usize)
}

/// Where the hits are the whole layer, what is reported is the whole layer,
/// record by record.
pub proof fn lemma_whole_layer(layer: Seq<ClusterData>)
    requires
        layer.len() <= usize::MAX,
    ensures
        within_layer(layer, every_index(layer.len())),
        reported(layer, every_index(layer.len())).len() == layer.len(),
        forall|j: int|
            0 <= j < layer.len() ==> (#[trigger] reported(layer, every_index(layer.len()))[j])
                == ClusterInfo::of(layer[j]),
{
}

/// What is reported of the hits of two queries, one after the other, is what
/// is reported of the first, then what is reported of the second.
pub proof fn lemma_reported_concat(layer: Seq<ClusterData>, first: Seq<usize>, second: Seq<usize>)
    ensures
        reported(layer, first + second) == reported(layer, first) + reported(layer, second),
{
    assert(reported(layer, first + second) =~= reported(layer, first) + reported(layer, second));
}

/// The predicate that holds of the indices of the records of `layer` which
/// the cluster `id` took in.
pub open spec fn points_at(layer: Seq<ClusterData>, id: ClusterId) -> spec_fn(usize) -> bool {
    |j: usize| layer[j as int].parent_id == Some(id)
}

/// The hits that name records of `layer` which the cluster `id` took in.
pub open spec fn children_among(layer: Seq<ClusterData>, id: ClusterId, hits: Seq<usize>) -> Seq<
    usize,
> {
    hits.filter(points_at(layer, id))
}

/// Whether `hits` name records of `layer`.
pub open spec fn within_layer(layer: Seq<ClusterData>, hits: Seq<usize>) -> bool {
    forall|k: int| 0 <= k < hits.len() ==> (#[trigger] hits[k]) < layer.len()
}

/// A hierarchical clustering index, as far as it can be told without the
/// positions of its nodes.
#[derive(Debug, Clone)]
pub struct Supercluster {
    options: SuperclusterOptions,
    num_points: usize,
    layers: Vec<Vec<ClusterData>>,
}

impl View for Supercluster {
    type V = Ladder;

    closed spec fn view(&self) -> Ladder {
        Ladder { options: self.options, num_points: self.num_points, layers: layers_of(self.layers@) }
    }
}

impl Supercluster {
    /// Wraps a complete ladder of layers.
    pub(crate) fn new(
        num_points: usize,
        layers: Vec<Vec<ClusterData>>,
        options: SuperclusterOptions,
    ) -> (s: Self)
        ensures
            s@ == (Ladder { options, num_points, layers: layers_of(layers@) }),
    {
        Supercluster { options, num_points, layers }
    }

    /// The options the index was built with.
    pub fn options(&self) -> (o: SuperclusterOptions)
        ensures
            o == self@.options,
    {
        self.options
    }

    /// Number of source points.
    pub fn num_points(&self) -> (n: usize)
        ensures
            n == self@.num_points,
    {
        self.num_points
    }

    /// The zoom of the layer that answers a query at `zoom`.
    pub fn clamp_zoom(&self, zoom: usize) -> (z: usize)
        requires
            self@.wf(),
        ensures
            z == self@.clamp_zoom(zoom),
            self@.has_layer(z as int),
    {
        if zoom < self.options.min_zoom {
            self.options.min_zoom
        } else if zoom > self.options.max_zoom + 1 {
            self.options.max_zoom + 1
        } else {
            zoom
        }
    }

    /// The records of the layer for `zoom`.
    fn layer_at(&self, zoom: usize) -> (layer: &Vec<ClusterData>)
        requires
            self@.wf(),
            self@.has_layer(zoom as int),
        ensures
            layer@ == self@.layer(zoom as int),
    {
        &self.layers[self.options.max_zoom + 1 - zoom]
    }

    /// Number of records of the layer that answers a query at `zoom`.
    pub fn layer_len(&self, zoom: usize) -> (n: usize)
        requires
            self@.wf(),
        ensures
            n == self@.layer(self@.clamp_zoom(zoom) as int).len(),
    {
        let z = self.clamp_zoom(zoom);
        self.layer_at(z).len()
    }

    /// The records of the layer for `zoom`.
    pub fn data(&self, zoom: usize) -> (layer: &Vec<ClusterData>)
        requires
            self@.wf(),
            self@.has_layer(zoom as int),
        ensures
            layer@ == self@.layer(zoom as int),
    {
        self.layer_at(zoom)
    }

    /// What is reported of the records of `data` at the indices `hits`.
    fn report(data: &Vec<ClusterData>, hits: &Vec<usize>) -> (infos: Vec<ClusterInfo>)
        requires
            within_layer(data@, hits@),
        ensures
            infos@ == reported(data@, hits@),
    {
        let mut clusters: Vec<ClusterInfo> = Vec::with_capacity(hits.len());
        let mut k: usize = 0;
        while k < hits.len()
            invariant
                0 <= k <= hits@.len(),
                within_layer(data@, hits@),
                clusters@ == reported(data@, hits@.take(k as int)),
            decreases hits@.len() - k,
        {
            let id = hits[k];
            clusters.push(ClusterInfo::from_record(&data[id]));
            proof {
                assert(clusters@ =~= reported(data@, hits@.take(k as int + 1)));
            }
            k += 1;
        }
        proof {
            assert(hits@.take(k as int) =~= hits@);
        }
        clusters
    }

    /// The clusters and points of a viewport at `zoom`, given the hits of the
    /// range query for the viewport on the layer that `clamp_zoom` names.
    pub fn get_clusters(&self, zoom: usize, hits: &Vec<usize>) -> (infos: Vec<ClusterInfo>)
        requires
            self@.wf(),
            within_layer(self@.layer(self@.clamp_zoom(zoom) as int), hits@),
        ensures
            infos@ == reported(self@.layer(self@.clamp_zoom(zoom) as int), hits@),
    {
        let z = self.clamp_zoom(zoom);
        Self::report(self.layer_at(z), hits)
    }

    /// Where the children of the cluster `cluster_id` are to be looked for:
    /// the zoom of their layer, and the index in it of the record around
    /// which they lie.
    pub fn locate(&self, cluster_id: ClusterId) -> (site: Result<(usize, usize), SuperclusterError>)
        requires
            self@.wf(),
        ensures
            site == match self@.site(cluster_id) {
                Some(at) => Ok::<(usize, usize), SuperclusterError>(at),
                None => Err(SuperclusterError::NoClusterFound),
            },
    {
        if cluster_id.as_usize() < self.num_points {
            return Err(SuperclusterError::NoClusterFound);
        }
        let origin_id = cluster_id.get_origin_idx(self.num_points);
        let origin_zoom = cluster_id.get_origin_zoom(self.num_points);
        if origin_zoom < self.options.min_zoom || origin_zoom > self.options.max_zoom + 1 {
            return Err(SuperclusterError::NoClusterFound);
        }
        let data = self.layer_at(origin_zoom);
        if origin_id >= data.len() {
            return Err(SuperclusterError::NoClusterFound);
        }
        Ok((origin_zoom, origin_id))
    }

    /// The hits that are children of the cluster `cluster_id`, in the order
    /// of the hits; none where the cluster has no site.
    pub fn child_hits(&self, cluster_id: ClusterId, hits: &Vec<usize>) -> (kids: Vec<usize>)
        requires
            self@.wf(),
            self@.site(cluster_id) matches Some(at) ==> within_layer(
                self@.layer(at.0 as int),
                hits@,
            ),
        ensures
            kids@ == match self@.site(cluster_id) {
                Some(at) => children_among(self@.layer(at.0 as int), cluster_id, hits@),
                None => Seq::empty(),
            },
            self@.site(cluster_id) matches Some(at) ==> within_layer(
                self@.layer(at.0 as int),
                kids@,
            ),
    {
        let mut kids: Vec<usize> = Vec::new();
        let origin_zoom = match self.locate(cluster_id) {
            Ok(at) => at.0,
            Err(_) => {
                return kids;
            },
        };
        let data = self.layer_at(origin_zoom);
        let mut k: usize = 0;
        proof {
            reveal(Seq::filter);
            assert(hits@.take(0) =~= Seq::<usize>::empty());
        }
        while k < hits.len()
            invariant
                0 <= k <= hits@.len(),
                within_layer(data@, hits@),
                within_layer(data@, kids@),
                kids@ == children_among(data@, cluster_id, hits@.take(k as int)),
            decreases hits@.len() - k,
        {
            let id = hits[k];
            proof {
                reveal(Seq::filter);
                assert(hits@.take(k as int + 1).drop_last() =~= hits@.take(k as int));
            }
            let is_child = match data[id].parent_id {
                Some(parent_id) => parent_id == cluster_id,
                None => false,
            };
            if is_child {
                kids.push(id);
            }
            k += 1;
        }
        proof {
            assert(hits@.take(k as int) =~= hits@);
        }
        kids
    }

    /// The children of the cluster `cluster_id`, given the hits of the query
    /// around the record that `locate` names, within the radius at which the
    /// cluster was formed.
    pub fn get_children(&self, cluster_id: ClusterId, hits: &Vec<usize>) -> (r: Result<
        Vec<ClusterInfo>,
        SuperclusterError,
    >)
        requires
            self@.wf(),
            self@.site(cluster_id) matches Some(at) ==> within_layer(
                self@.layer(at.0 as int),
                hits@,
            ),
        ensures
            match self@.children(cluster_id, hits@) {
                Some(kids) => r is Ok && r->Ok_0@ == kids,
                None => r is Err && r->Err_0 == SuperclusterError::NoClusterFound,
            },
    {
        let origin_zoom = match self.locate(cluster_id) {
            Ok(at) => at.0,
            Err(e) => {
                return Err(e);
            },
        };
        let kids = self.child_hits(cluster_id, hits);
        if kids.len() == 0 {
            return Err(SuperclusterError::NoClusterFound);
        }
        Ok(Self::report(self.layer_at(origin_zoom), &kids))
    }
}

} // verus!
