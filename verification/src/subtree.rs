use crate::cluster::{ClusterId, ClusterInfo};
use crate::leaves::{
    counted, counted_all, leaves_below, leaves_of, lemma_counted_all_deeper, lemma_counted_deeper,
    lemma_leaves_of_concat, window, Walk,
};
use crate::pass::is_member;
use crate::points::member_points;
use crate::supercluster::{
    children_among, lemma_children_within, lemma_hits_cover, reported, within_layer, Ladder,
};
use vstd::prelude::*;

verus! {

/// What a caller answers when asked for the children of a cluster, where
/// `hits_for` gives the hits of its query for each cluster.
pub open spec fn answers(l: Ladder, hits_for: spec_fn(ClusterId) -> Seq<usize>) -> spec_fn(
    ClusterId,
) -> Seq<ClusterInfo> {
    |id: ClusterId|
        match l.children(id, hits_for(id)) {
            Some(kids) => kids,
            None => Seq::empty(),
        }
}

/// Whether the hits for each cluster hold every record that points at it,
/// each once, and nothing but records of the layer of its children.
pub open spec fn covering(l: Ladder, hits_for: spec_fn(ClusterId) -> Seq<usize>) -> bool {
    forall|id: ClusterId|
        (#[trigger] l.site(id)) matches Some(at) ==> {
            let layer = l.layer(at.0 as int);
            &&& hits_for(id).no_duplicates()
            &&& within_layer(layer, hits_for(id))
            &&& forall|j: int|
                0 <= j < layer.len() && (#[trigger] layer[j]).parent_id == Some(id) ==> is_member(
                    hits_for(id),
                    j,
                )
        }
}

/// A tree that is no higher than `depth` is no higher than any greater
/// depth, and has the same leaves.
pub proof fn lemma_counted_raise(
    kids: spec_fn(ClusterId) -> Seq<ClusterInfo>,
    node: ClusterInfo,
    depth: nat,
    more: nat,
)
    requires
        counted(kids, node, depth),
        depth <= more,
    ensures
        counted(kids, node, more),
        leaves_below(kids, node, more) == leaves_below(kids, node, depth),
    decreases more - depth,
{
    if depth < more {
        lemma_counted_deeper(kids, node, depth);
        lemma_counted_raise(kids, node, depth + 1, more);
    }
}

impl Ladder {
    /// Number of layers above the layer for `zoom`.
    pub open spec fn height(self, zoom: int) -> nat {
        (self.options.max_zoom + 1 - zoom) as nat
    }

    /// Below every record of the index lies a tree of its children, which
    /// ends in the full-resolution layer and has as many leaves as the
    /// record stands for points.
    pub proof fn lemma_node_counted(self, hits_for: spec_fn(ClusterId) -> Seq<usize>, zoom: int, k: int)
        requires
            self.wf(),
            covering(self, hits_for),
            self.has_layer(zoom),
            0 <= k < self.layer(zoom).len(),
        ensures
            counted(answers(self, hits_for), ClusterInfo::of(self.layer(zoom)[k]), self.height(zoom)),
            leaves_below(
                answers(self, hits_for),
                ClusterInfo::of(self.layer(zoom)[k]),
                self.height(zoom),
            ).len() == self.layer(zoom)[k].num_points,
        decreases self.options.max_zoom + 1 - zoom, 0nat,
    {
        let r = self.layer(zoom)[k];
        let kids = answers(self, hits_for);
        self.lemma_records(zoom, k);
        if r.num_points > 1 {
            let id = r.source_id;
            self.lemma_cluster_rooted(zoom, k);
            let oz = id.origin_zoom(self.num_points as int);
            let above = self.layer(oz);
            assert(self.site(id) is Some);
            let hits = hits_for(id);
            let idx = children_among(above, id, hits);
            lemma_children_within(above, id, hits);
            lemma_hits_cover(above, id, hits);
            assert(idx.len() > 0) by {
                if idx.len() == 0 {
                    assert(member_points(above, idx) == 0);
                }
            }
            assert(kids(id) == reported(above, idx));
            let depth = self.height(zoom);
            self.lemma_nodes_counted(hits_for, oz, idx, (depth - 1) as nat);
        }
    }

    /// Below the records `idx` of the layer for `zoom` lie trees that are no
    /// higher than `depth`, with as many leaves as the records stand for
    /// points.
    pub proof fn lemma_nodes_counted(
        self,
        hits_for: spec_fn(ClusterId) -> Seq<usize>,
        zoom: int,
        idx: Seq<usize>,
        depth: nat,
    )
        requires
            self.wf(),
            covering(self, hits_for),
            self.has_layer(zoom),
            within_layer(self.layer(zoom), idx),
            depth >= self.height(zoom),
        ensures
            counted_all(
                answers(self, hits_for),
                reported(self.layer(zoom), idx).reverse(),
                depth,
            ),
            leaves_of(answers(self, hits_for), reported(self.layer(zoom), idx).reverse(), depth).len()
                == member_points(self.layer(zoom), idx),
        decreases self.options.max_zoom + 1 - zoom, idx.len() + 1,
    {
        let kids = answers(self, hits_for);
        let layer = self.layer(zoom);
        let nodes = reported(layer, idx).reverse();
        if idx.len() == 0 {
            assert(nodes =~= Seq::<ClusterInfo>::empty());
        } else {
            let init = idx.drop_last();
            let j = idx.last();
            let node = ClusterInfo::of(layer[j as int]);
            self.lemma_nodes_counted(hits_for, zoom, init, depth);
            self.lemma_node_counted(hits_for, zoom, j as int);
            lemma_counted_raise(kids, node, self.height(zoom), depth);
            let under = seq![node];
            let top = reported(layer, init).reverse();
            assert(nodes =~= under + top);
            assert(under.drop_last() =~= Seq::<ClusterInfo>::empty());
            assert(under.last() == node);
            assert(counted_all(kids, under.drop_last(), depth));
            assert(leaves_of(kids, under.drop_last(), depth) =~= Seq::<ClusterInfo>::empty());
            assert(counted_all(kids, under, depth));
            assert(leaves_of(kids, under, depth) =~= leaves_below(kids, node, depth));
            lemma_leaves_of_concat(kids, under, top, depth);
        }
    }

    /// A walk for the leaves of a cluster of the index, from the first leaf
    /// on and with room for all of them, comes to as many leaves as the
    /// cluster stands for points, where the caller's hits hold every child
    /// once.
    pub proof fn lemma_leaves_of_cluster(
        self,
        hits_for: spec_fn(ClusterId) -> Seq<usize>,
        zoom: int,
        k: int,
        limit: usize,
    )
        requires
            self.wf(),
            covering(self, hits_for),
            self.has_layer(zoom),
            0 <= k < self.layer(zoom).len(),
            self.layer(zoom)[k].num_points > 1,
            limit >= self.layer(zoom)[k].num_points,
        ensures
            ({
                let start = Walk::start(self.layer(zoom)[k].source_id, limit, 0);
                &&& start.on_tree(answers(self, hits_for), self.height(zoom))
                &&& start.outcome(answers(self, hits_for), self.height(zoom)).len() == self.layer(
                    zoom,
                )[k].num_points
            }),
    {
        let r = self.layer(zoom)[k];
        let kids = answers(self, hits_for);
        let depth = self.height(zoom);
        self.lemma_node_counted(hits_for, zoom, k);
        self.lemma_cluster_rooted(zoom, k);
        Walk::lemma_start_outcome(r.source_id, limit, 0, kids, depth);
        let all = leaves_of(kids, kids(r.source_id).reverse(), (depth - 1) as nat);
        assert(all == leaves_below(kids, ClusterInfo::of(r), depth));
        assert(window(all, 0, limit as int) =~= all);
    }
}

} // verus!
