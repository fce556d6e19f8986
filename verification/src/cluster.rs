use vstd::prelude::*;

verus! {

/// Identifier of a node of the index.
///
/// A source point is identified by its insertion index. A cluster is
/// identified by the index of its seed in the layer it was formed from, the
/// zoom it was formed at, and the number of source points, packed into one
/// integer.
#[derive(Debug, Clone, Copy, PartialEq, Eq, Structural)]
pub struct ClusterId(pub usize);

/// The integer that packs seed index `i` and zoom `zoom` above `length`
/// source points.
pub open spec fn packed(i: int, zoom: int, length: int) -> int {
    i * 32 + (zoom + 1) + length
}

impl ClusterId {
    /// The integer value of this identifier.
    pub open spec fn value(self) -> int {
        self.0 as int
    }

    /// Whether this identifier names one of `length` source points.
    pub open spec fn is_source(self, length: int) -> bool {
        self.0 < length
    }

    /// Index of the seed from which the cluster originated.
    pub open spec fn origin_idx(self, length: int) -> int {
        (self.0 - length) / 32
    }

    /// Zoom field of the identifier.
    pub open spec fn origin_zoom(self, length: int) -> int {
        (self.0 - length) % 32
    }

    /// Identifier of the cluster seeded by record `i` at zoom `zoom`, in an
    /// index over `length` source points.
    pub fn new(i: usize, zoom: usize, length: usize) -> (id: Self)
        requires
            packed(i as int, zoom as int, length as int) <= usize::MAX,
        ensures
            id.value() == packed(i as int, zoom as int, length as int),
    {
        assert((i << 5) == (i * 32) as usize) by (bit_vector);
        let id = (i << 5) + (zoom + 1) + length;
        Self(id)
    }

    /// Identifier of the source point with insertion index `id`.
    pub fn new_source_id(id: usize) -> (r: Self)
        ensures
            r.value() == id,
    {
        Self(id)
    }

    /// The identifier as an integer.
    pub fn as_usize(self) -> (v: usize)
        ensures
            v == self.value(),
    {
        self.0
    }

    /// Index of the seed from which the cluster originated.
    pub fn get_origin_idx(&self, length: usize) -> (i: usize)
        requires
            length <= self.value(),
        ensures
            i == self.origin_idx(length as int),
    {
        let d = self.0 - length;
        assert((d >> 5) == d / 32) by (bit_vector);
        d >> 5
    }

    /// Zoom field of the identifier: one more than the zoom at which the
    /// cluster was formed.
    pub fn get_origin_zoom(&self, length: usize) -> (z: usize)
        requires
            length <= self.value(),
        ensures
            z == self.origin_zoom(length as int),
            z < 32,
    {
        (self.0 - length) % 32
    }
}

impl From<ClusterId> for usize {
    fn from(value: ClusterId) -> (v: usize) {
        value.0
    }
}

impl vstd::std_specs::convert::FromSpecImpl<ClusterId> for usize {
    open spec fn obeys_from_spec() -> bool {
        true
    }

    open spec fn from_spec(value: ClusterId) -> usize {
        value.0
    }
}

/// An identifier gives back what it was packed from: the index of the seed,
/// and one more than the zoom at which the cluster was formed. It is never
/// the identifier of a source point.
pub proof fn lemma_cluster_id_round_trip(i: usize, zoom: usize, length: usize)
    requires
        zoom <= 30,
        packed(i as int, zoom as int, length as int) <= usize::MAX,
    ensures
        ({
            let id = ClusterId(packed(i as int, zoom as int, length as int) as usize);
            &&& id.origin_idx(length as int) == i
            &&& id.origin_zoom(length as int) == zoom + 1
            &&& !id.is_source(length as int)
        }),
{
}

/// Identifiers packed from different seeds or zooms differ.
pub proof fn lemma_cluster_id_injective(i: usize, zoom: usize, j: usize, other: usize, length: usize)
    requires
        zoom <= 30,
        other <= 30,
        packed(i as int, zoom as int, length as int) == packed(j as int, other as int, length as int),
    ensures
        i == j,
        zoom == other,
{
}

/// Bookkeeping record of one node of a layer.
///
/// The position of the node is kept by the caller, at the same index of a
/// vector of its own.
#[derive(Debug, Clone, Copy, PartialEq, Eq, Structural)]
pub struct ClusterData {
    /// The last zoom the record was processed at.
    pub zoom: Option<usize>,
    /// Identifier of the node: a source point, or the cluster it stands for.
    pub source_id: ClusterId,
    /// The cluster of the next lower zoom that took this record in.
    pub parent_id: Option<ClusterId>,
    /// Number of source points that the record stands for.
    pub num_points: usize,
}

impl ClusterData {
    /// A record for a single source point that no pass has seen yet.
    pub fn new(source_id: ClusterId) -> (r: Self)
        ensures
            r == (ClusterData { zoom: None, source_id, parent_id: None, num_points: 1 }),
    {
        ClusterData { zoom: None, source_id, parent_id: None, num_points: 1 }
    }

    /// Whether the record was already taken at `zoom` or below.
    pub open spec fn consumed(self, zoom: usize) -> bool {
        match self.zoom {
            Some(z) => z <= zoom,
            None => false,
        }
    }

    /// The record once a pass at `zoom` has taken it.
    pub open spec fn seen(self, zoom: usize) -> ClusterData {
        ClusterData { zoom: Some(zoom), ..self }
    }

    /// The record once the cluster `id`, formed at `zoom`, has taken it in.
    pub open spec fn adopted(self, zoom: usize, id: ClusterId) -> ClusterData {
        ClusterData { zoom: Some(zoom), parent_id: Some(id), ..self }
    }

    /// Whether the record was already taken at `zoom` or below.
    pub fn is_consumed(&self, zoom: usize) -> (b: bool)
        ensures
            b == self.consumed(zoom),
    {
        match self.zoom {
            Some(z) => z <= zoom,
            None => false,
        }
    }
}

/// Information describing a cluster of points, or a single point.
#[derive(Debug, Clone, Copy, PartialEq, Eq, Structural)]
pub struct ClusterInfo {
    /// For a cluster, its identifier; for a point, its insertion index.
    pub id: ClusterId,
    /// Whether this stands for more than one source point.
    pub cluster: bool,
    /// Number of source points; 1 if this is not a cluster.
    pub point_count: usize,
}

impl ClusterInfo {
    /// What is reported of the record `r`.
    pub open spec fn of(r: ClusterData) -> ClusterInfo {
        if r.num_points > 1 {
            ClusterInfo { id: r.source_id, cluster: true, point_count: r.num_points }
        } else {
            ClusterInfo { id: r.source_id, cluster: false, point_count: 1 }
        }
    }

    /// Information on a cluster of `count` points.
    pub fn new_cluster(id: ClusterId, count: usize) -> (info: Self)
        ensures
            info == (ClusterInfo { id, cluster: true, point_count: count }),
    {
        ClusterInfo { id, cluster: true, point_count: count }
    }

    /// Information on a single source point.
    pub fn new_leaf(id: ClusterId) -> (info: Self)
        ensures
            info == (ClusterInfo { id, cluster: false, point_count: 1 }),
    {
        ClusterInfo { id, cluster: false, point_count: 1 }
    }

    /// What is reported of a record.
    pub fn from_record(r: &ClusterData) -> (info: Self)
        ensures
            info == ClusterInfo::of(*r),
    {
        if r.num_points > 1 {
            ClusterInfo::new_cluster(r.source_id, r.num_points)
        } else {
            ClusterInfo::new_leaf(r.source_id)
        }
    }

    /// For a cluster, its identifier; for a point, its insertion index.
    pub fn id(&self) -> (id: ClusterId)
        ensures
            id == self.id,
    {
        self.id
    }

    /// Whether this stands for a cluster rather than a single source point.
    pub fn is_cluster(&self) -> (b: bool)
        ensures
            b == self.cluster,
    {
        self.cluster
    }

    /// The number of points contained; 1 if this is not a cluster.
    pub fn count(&self) -> (n: usize)
        ensures
            n == self.point_count,
    {
        self.point_count
    }
}

impl From<ClusterInfo> for ClusterId {
    fn from(value: ClusterInfo) -> (id: ClusterId) {
        value.id
    }
}

impl vstd::std_specs::convert::FromSpecImpl<ClusterInfo> for ClusterId {
    open spec fn obeys_from_spec() -> bool {
        true
    }

    open spec fn from_spec(value: ClusterInfo) -> ClusterId {
        value.id
    }
}

impl From<&ClusterInfo> for ClusterId {
    fn from(value: &ClusterInfo) -> (id: ClusterId) {
        value.id
    }
}

impl vstd::std_specs::convert::FromSpecImpl<&ClusterInfo> for ClusterId {
    open spec fn obeys_from_spec() -> bool {
        true
    }

    open spec fn from_spec(value: &ClusterInfo) -> ClusterId {
        value.id
    }
}

} // verus!
