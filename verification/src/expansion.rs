use crate::cluster::{ClusterId, ClusterInfo};
use crate::error::SuperclusterError;
use crate::supercluster::{Ladder, Supercluster};
use vstd::prelude::*;

verus! {

/// Where the search for the zoom at which a cluster expands stands.
#[derive(Debug, Clone, Copy, PartialEq, Eq, Structural)]
pub enum Expansion {
    /// The children of `cluster_id` are wanted. Unless they are a single
    /// one, the cluster expands at `zoom`.
    Ask { cluster_id: ClusterId, zoom: usize },
    /// The cluster expands at `zoom`.
    Done { zoom: usize },
}

impl Expansion {
    /// The zoom that the search has reached.
    pub open spec fn reached(self) -> usize {
        match self {
            Expansion::Ask { zoom, .. } => zoom,
            Expansion::Done { zoom } => zoom,
        }
    }

    /// The zoom that the search has reached.
    pub fn zoom(&self) -> (z: usize)
        ensures
            z == self.reached(),
    {
        match self {
            Expansion::Ask { zoom, .. } => *zoom,
            Expansion::Done { zoom } => *zoom,
        }
    }
}

impl Ladder {
    /// The start of the search for the cluster `id`: `None` if `id` names a
    /// source point. The search starts one zoom below the layer of the
    /// cluster's children, and is over at once if that is above the maximum
    /// zoom.
    pub open spec fn expansion_start(self, id: ClusterId) -> Option<Expansion> {
        let zoom = id.origin_zoom(self.num_points as int);
        if id.value() < self.num_points {
            None
        } else if zoom <= self.options.max_zoom + 1 {
            Some(Expansion::Ask { cluster_id: id, zoom: zoom as usize })
        } else {
            Some(Expansion::Done { zoom: (zoom - 1) as usize })
        }
    }

    /// The search after the children that it asked for came in: it is over
    /// unless there is a single child and the maximum zoom is not passed;
    /// else it goes on with that child, one zoom up.
    pub open spec fn expansion_next(self, asked: Expansion, children: Seq<ClusterInfo>) -> Expansion {
        match asked {
            Expansion::Done { zoom } => asked,
            Expansion::Ask { cluster_id, zoom } => {
                if children.len() == 1 && zoom <= self.options.max_zoom {
                    Expansion::Ask { cluster_id: children[0].id, zoom: (zoom + 1) as usize }
                } else {
                    Expansion::Done { zoom }
                }
            },
        }
    }

    /// The search after a run of answers came in, one after the other.
    pub open spec fn expansion_run(self, from: Expansion, answers: Seq<Seq<ClusterInfo>>) -> Expansion
        decreases answers.len(),
    {
        if answers.len() == 0 {
            from
        } else {
            self.expansion_next(self.expansion_run(from, answers.drop_last()), answers.last())
        }
    }

    /// The search never falls back: whatever comes in, the zoom it has
    /// reached does not decrease.
    pub proof fn lemma_expansion_run_monotone(self, from: Expansion, answers: Seq<Seq<ClusterInfo>>)
        requires
            self.options.valid(),
        ensures
            self.expansion_run(from, answers).reached() >= from.reached(),
        decreases answers.len(),
    {
        if answers.len() > 0 {
            self.lemma_expansion_run_monotone(from, answers.drop_last());
        }
    }

    /// The search is over within as many answers as there are zooms left:
    /// it goes up by one zoom with each answer, and stops past the maximum.
    pub proof fn lemma_expansion_run_ends(self, from: Expansion, answers: Seq<Seq<ClusterInfo>>)
        requires
            self.options.valid(),
            from.reached() <= self.options.max_zoom + 1,
        ensures
            self.expansion_run(from, answers).reached() <= self.options.max_zoom + 1,
            self.expansion_run(from, answers) is Ask ==> self.expansion_run(from, answers).reached()
                == from.reached() + answers.len(),
            from.reached() + answers.len() > self.options.max_zoom + 1 ==> self.expansion_run(
                from,
                answers,
            ) is Done,
        decreases answers.len(),
    {
        if answers.len() > 0 {
            self.lemma_expansion_run_ends(from, answers.drop_last());
        }
    }

    /// A cluster whose children have a layer expands above the zoom at which
    /// it was formed, which is one less than the zoom field of its
    /// identifier.
    pub proof fn lemma_expansion_above_origin(self, id: ClusterId, answers: Seq<Seq<ClusterInfo>>)
        requires
            self.wf(),
            id.value() >= self.num_points,
            id.origin_zoom(self.num_points as int) <= self.options.max_zoom + 1,
        ensures
            self.expansion_start(id) is Some,
            self.expansion_run(self.expansion_start(id)->0, answers).reached() > id.origin_zoom(
                self.num_points as int,
            ) - 1,
    {
        self.lemma_expansion_run_monotone(self.expansion_start(id)->0, answers);
    }
}

impl Supercluster {
    /// Starts the search for the zoom at which the cluster `cluster_id`
    /// expands into several children.
    ///
    /// While the search asks, the caller answers with the children of the
    /// cluster asked for, by `expand`; the search ends with the zoom.
    pub fn get_cluster_expansion_zoom(&self, cluster_id: ClusterId) -> (r: Result<
        Expansion,
        SuperclusterError,
    >)
        requires
            self@.wf(),
        ensures
            r == match self@.expansion_start(cluster_id) {
                Some(e) => Ok::<Expansion, SuperclusterError>(e),
                None => Err(SuperclusterError::NoClusterFound),
            },
    {
        let length = self.num_points();
        if cluster_id.as_usize() < length {
            return Err(SuperclusterError::NoClusterFound);
        }
        let zoom = cluster_id.get_origin_zoom(length);
        if zoom <= self.options().max_zoom + 1 {
            Ok(Expansion::Ask { cluster_id, zoom })
        } else {
            Ok(Expansion::Done { zoom: zoom - 1 })
        }
    }

    /// Goes on with the search, given the children of the cluster that it
    /// asked for.
    pub fn expand(&self, asked: Expansion, children: &Vec<ClusterInfo>) -> (e: Expansion)
        requires
            self@.wf(),
        ensures
            e == self@.expansion_next(asked, children@),
    {
        match asked {
            Expansion::Done { zoom } => asked,
            Expansion::Ask { cluster_id, zoom } => {
                if children.len() == 1 && zoom <= self.options().max_zoom {
                    Expansion::Ask { cluster_id: children[0].id(), zoom: zoom + 1 }
                } else {
                    Expansion::Done { zoom }
                }
            },
        }
    }
}

} // verus!
