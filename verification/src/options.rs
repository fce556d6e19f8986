use vstd::prelude::*;

verus! {

/// Highest zoom at which clusters can be formed: the zoom field of a cluster
/// identifier holds the zoom plus one in five bits.
pub const MAX_ZOOM_LIMIT: usize = 30;

/// Options for index generation.
///
/// The clustering radius and the tile extent are lengths, and stay with the
/// caller who measures distances.
#[derive(Debug, Clone, Copy, PartialEq, Eq, Structural)]
pub struct SuperclusterOptions {
    /// Minimum zoom level at which clusters are generated.
    pub min_zoom: usize,
    /// Maximum zoom level at which clusters are generated.
    pub max_zoom: usize,
    /// Minimum number of points to form a cluster.
    pub min_points: usize,
    /// Size of the KD-tree leaf node. Affects performance.
    pub node_size: usize,
}

impl SuperclusterOptions {
    /// The default options.
    pub open spec fn standard() -> SuperclusterOptions {
        SuperclusterOptions { min_zoom: 0, max_zoom: 16, min_points: 2, node_size: 64 }
    }

    /// Whether an index can be built with these options.
    pub open spec fn valid(self) -> bool {
        self.min_zoom <= self.max_zoom <= MAX_ZOOM_LIMIT
    }

    /// The default options.
    pub fn new() -> (o: Self)
        ensures
            o == Self::standard(),
    {
        SuperclusterOptions { min_zoom: 0, max_zoom: 16, min_points: 2, node_size: 64 }
    }

    /// These options with another minimum zoom.
    pub fn with_min_zoom(self, min_zoom: usize) -> (o: Self)
        ensures
            o == (SuperclusterOptions { min_zoom, ..self }),
    {
        SuperclusterOptions { min_zoom, ..self }
    }

    /// These options with another maximum zoom.
    pub fn with_max_zoom(self, max_zoom: usize) -> (o: Self)
        ensures
            o == (SuperclusterOptions { max_zoom, ..self }),
    {
        SuperclusterOptions { max_zoom, ..self }
    }

    /// These options with another minimum number of points per cluster.
    pub fn with_min_points(self, min_points: usize) -> (o: Self)
        ensures
            o == (SuperclusterOptions { min_points, ..self }),
    {
        SuperclusterOptions { min_points, ..self }
    }

    /// These options with another leaf size of the KD-tree.
    pub fn with_node_size(self, node_size: usize) -> (o: Self)
        ensures
            o == (SuperclusterOptions { node_size, ..self }),
    {
        SuperclusterOptions { node_size, ..self }
    }

    /// Whether an index can be built with these options.
    pub fn is_valid(&self) -> (b: bool)
        ensures
            b == self.valid(),
    {
        self.min_zoom <= self.max_zoom && self.max_zoom <= MAX_ZOOM_LIMIT
    }
}

impl Default for SuperclusterOptions {
    fn default() -> (o: Self)
        ensures
            o == Self::standard(),
    {
        SuperclusterOptions::new()
    }
}

} // verus!
