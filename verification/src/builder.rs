use crate::cluster::{ClusterData, ClusterId};
use crate::ladder::{
    is_source_layer, lemma_link_same_nodes, lemma_next_pass_ready, lemma_settled_total,
    lemma_sources_ready, same_nodes, settled, sources,
};
use crate::options::SuperclusterOptions;
use crate::pass::{
    absorbed, cluster_id_of, emitted, forms_cluster, pass_inv, visit_step, visited, Visit,
};
use crate::points::lemma_len_le_total;
use crate::supercluster::{Ladder, Supercluster};
use vstd::prelude::*;

verus! {

/// The state of an index under construction.
pub struct Progress {
    /// The options the index is built with.
    pub options: SuperclusterOptions,
    /// Number of source points the index is built for.
    pub num_items: usize,
    /// The layers whose pass is complete, highest zoom first.
    pub done: Seq<Seq<ClusterData>>,
    /// The layer that is filled or scanned.
    pub scanning: Seq<ClusterData>,
    /// What the scan has emitted so far for the layer below.
    pub emitting: Seq<ClusterData>,
    /// The scan has dealt with the records before this index.
    pub cursor: int,
    /// Number of layers still to be emitted.
    pub remaining: int,
}

/// Whether cluster identifiers over `num_items` source points fit the machine
/// word.
pub open spec fn fits(num_items: usize) -> bool {
    num_items * 33 + 32 <= usize::MAX
}

impl Progress {
    /// Number of layers to be emitted in all: one per zoom of the options.
    pub open spec fn span(self) -> int {
        self.options.max_zoom - self.options.min_zoom + 1
    }

    /// The state of a new builder.
    pub open spec fn start(num_items: usize, options: SuperclusterOptions) -> Progress {
        Progress {
            options,
            num_items,
            done: Seq::empty(),
            scanning: Seq::empty(),
            emitting: Seq::empty(),
            cursor: 0,
            remaining: options.max_zoom - options.min_zoom + 1,
        }
    }

    /// Whether every source point was added.
    pub open spec fn filled(self) -> bool {
        self.top().len() == self.num_items
    }

    /// Whether every layer was emitted.
    pub open spec fn complete(self) -> bool {
        self.filled() && self.remaining == 0
    }

    /// The zoom of the layer that is emitted.
    pub open spec fn zoom(self) -> usize {
        (self.options.min_zoom + self.remaining - 1) as usize
    }

    /// Whether the scan has reached the end of the layer.
    pub open spec fn scan_done(self) -> bool {
        self.cursor == self.scanning.len()
    }

    /// The layer emitted from the layer `done[k]`.
    pub open spec fn below(self, k: int) -> Seq<ClusterData> {
        if k + 1 < self.done.len() {
            self.done[k + 1]
        } else {
            self.scanning
        }
    }

    /// The layer of highest zoom.
    pub open spec fn top(self) -> Seq<ClusterData> {
        if self.done.len() > 0 {
            self.done[0]
        } else {
            self.scanning
        }
    }

    /// The invariant of the construction.
    pub open spec fn wf(self) -> bool {
        &&& self.options.valid()
        &&& fits(self.num_items)
        &&& 0 <= self.remaining <= self.span()
        &&& self.done.len() == self.span() - self.remaining
        &&& self.top().len() <= self.num_items
        &&& 0 <= self.cursor <= self.scanning.len()
        &&& !self.filled() ==> {
            &&& self.scanning == sources(self.scanning.len() as int)
            &&& self.remaining == self.span()
            &&& self.emitting.len() == 0
            &&& self.cursor == 0
        }
        &&& self.filled() ==> {
            &&& is_source_layer(self.top(), self.num_items as int)
            &&& forall|k: int|
                #![trigger self.done[k]]
                0 <= k < self.done.len() ==> settled(
                    self.done[k],
                    self.below(k),
                    (self.options.max_zoom - k) as usize,
                    self.num_items,
                    self.options.min_points,
                )
            &&& self.remaining > 0 ==> pass_inv(
                self.scanning,
                self.emitting,
                self.cursor,
                self.zoom(),
                self.num_items,
                self.options.min_points,
            )
            &&& self.remaining == 0 ==> self.emitting.len() == 0 && self.cursor == 0
        }
    }

    /// The state after one more source point was added.
    pub open spec fn added(self) -> Progress {
        Progress {
            scanning: self.scanning.push(
                ClusterData {
                    zoom: None,
                    source_id: ClusterId(self.scanning.len() as usize),
                    parent_id: None,
                    num_points: 1,
                },
            ),
            ..self
        }
    }

    /// Whether a pass can go on: every source point was added, and a layer
    /// is still to be emitted.
    pub open spec fn scanning_layer(self) -> bool {
        self.filled() && self.remaining > 0
    }

    /// Whether the scan stands at a record that it has to visit.
    pub open spec fn at_seed(self) -> bool {
        &&& self.filled()
        &&& self.remaining > 0
        &&& self.cursor < self.scanning.len()
        &&& !self.scanning[self.cursor].consumed(self.zoom())
    }

    /// Whether `hits` name records of the scanned layer.
    pub open spec fn in_range(self, hits: Seq<usize>) -> bool {
        forall|k: int| 0 <= k < hits.len() ==> (#[trigger] hits[k]) < self.scanning.len()
    }

    /// The state after the record at the cursor was passed over.
    pub open spec fn skipped(self) -> Progress {
        Progress { cursor: self.cursor + 1, ..self }
    }

    /// The state after the seed at the cursor was visited with the hits of
    /// the query around it.
    pub open spec fn visited(self, hits: Seq<usize>) -> Progress {
        Progress {
            scanning: visited(
                self.scanning,
                self.cursor,
                self.zoom(),
                hits,
                self.options.min_points,
                self.num_items,
            ),
            emitting: self.emitting + emitted(
                self.scanning,
                self.cursor,
                self.zoom(),
                hits,
                self.options.min_points,
                self.num_items,
            ),
            cursor: self.cursor + 1,
            ..self
        }
    }

    /// The state after the scan has moved on to the next record that it has
    /// to visit, or to the end of the layer.
    pub open spec fn sought(self) -> Progress
        decreases self.scanning.len() - self.cursor,
    {
        if 0 <= self.cursor < self.scanning.len() && self.scanning[self.cursor].consumed(
            self.zoom(),
        ) {
            self.skipped().sought()
        } else {
            self
        }
    }

    /// The state after the complete layer was set aside and the emitted one
    /// took its place.
    pub open spec fn descended(self) -> Progress {
        Progress {
            done: self.done.push(self.scanning),
            scanning: self.emitting,
            emitting: Seq::empty(),
            cursor: 0,
            remaining: self.remaining - 1,
            ..self
        }
    }

    /// The state after the scan has run to the end of the layer, with
    /// `neighbors[i]` as the hits of the query around record `i`.
    pub open spec fn scanned(self, neighbors: Seq<Seq<usize>>) -> Progress
        decreases self.scanning.len() - self.cursor,
    {
        if 0 <= self.cursor < self.scanning.len() {
            if self.scanning[self.cursor].consumed(self.zoom()) {
                self.skipped().scanned(neighbors)
            } else {
                self.visited(neighbors[self.cursor]).scanned(neighbors)
            }
        } else {
            self
        }
    }
}

/// The hit lists of a vector of hit lists.
pub open spec fn hit_lists(v: Seq<Vec<usize>>) -> Seq<Seq<usize>> {
    Seq::new(v.len(), |i: int| v[i]@)
}

/// Moving on to the next seed changes nothing in what the scan comes to.
pub proof fn lemma_sought_scanned(p: Progress, neighbors: Seq<Seq<usize>>)
    ensures
        p.sought().scanned(neighbors) == p.scanned(neighbors),
        p.sought().scanning == p.scanning,
        p.sought().cursor >= p.cursor,
    decreases p.scanning.len() - p.cursor,
{
    if 0 <= p.cursor < p.scanning.len() && p.scanning[p.cursor].consumed(p.zoom()) {
        lemma_sought_scanned(p.skipped(), neighbors);
    }
}

/// The layers of a vector of layers.
pub open spec fn layers_of(v: Seq<Vec<ClusterData>>) -> Seq<Seq<ClusterData>> {
    Seq::new(v.len(), |k: int| v[k]@)
}

/// The largest number of source points whose cluster identifiers fit the
/// machine word.
pub fn max_items() -> (n: usize)
    ensures
        forall|m: usize| fits(m) <==> m <= n,
{
    (usize::MAX - 32) / 33
}

/// Builds the ladder of layers of an index, from the full-resolution layer
/// down to the lowest zoom.
///
/// Source points are added first. Then each layer is scanned in insertion
/// order: the builder names a seed, the caller answers with the records
/// within the clustering radius of the seed, and the builder decides what
/// becomes of them in the layer below.
#[derive(Debug)]
pub struct SuperclusterBuilder {
    options: SuperclusterOptions,
    num_items: usize,
    done: Vec<Vec<ClusterData>>,
    scanning: Vec<ClusterData>,
    emitting: Vec<ClusterData>,
    cursor: usize,
    remaining: usize,
}

impl View for SuperclusterBuilder {
    type V = Progress;

    closed spec fn view(&self) -> Progress {
        Progress {
            options: self.options,
            num_items: self.num_items,
            done: layers_of(self.done@),
            scanning: self.scanning@,
            emitting: self.emitting@,
            cursor: self.cursor as int,
            remaining: self.remaining as int,
        }
    }
}

impl SuperclusterBuilder {
    /// A builder for `num_items` source points, with the default options.
    pub fn new(num_items: usize) -> (b: Self)
        requires
            fits(num_items),
        ensures
            b@ == Progress::start(num_items, SuperclusterOptions::standard()),
            b@.wf(),
    {
        Self::new_with_options(num_items, SuperclusterOptions::new())
    }

    /// A builder for `num_items` source points, with the given options.
    pub fn new_with_options(num_items: usize, options: SuperclusterOptions) -> (b: Self)
        requires
            fits(num_items),
            options.valid(),
        ensures
            b@ == Progress::start(num_items, options),
            b@.wf(),
    {
        let b = SuperclusterBuilder {
            options,
            num_items,
            done: Vec::new(),
            scanning: Vec::with_capacity(num_items),
            emitting: Vec::new(),
            cursor: 0,
            remaining: options.max_zoom - options.min_zoom + 1,
        };
        proof {
            assert(b@.done =~= Seq::empty());
            assert(b@.scanning =~= sources(0));
            lemma_sources_ready(num_items, options.max_zoom, options.min_points);
        }
        b
    }

    /// The options the index is built with.
    pub fn options(&self) -> (o: SuperclusterOptions)
        ensures
            o == self@.options,
    {
        self.options
    }

    /// Number of source points the index is built for.
    pub fn num_items(&self) -> (n: usize)
        ensures
            n == self@.num_items,
    {
        self.num_items
    }

    /// Number of records of the layer that is filled or scanned.
    pub fn len(&self) -> (n: usize)
        ensures
            n == self@.scanning.len(),
    {
        self.scanning.len()
    }

    /// The record `j` of the layer that is filled or scanned.
    pub fn record(&self, j: usize) -> (r: ClusterData)
        requires
            j < self@.scanning.len(),
        ensures
            r == self@.scanning[j as int],
    {
        self.scanning[j]
    }

    /// Number of records that the scan has emitted so far.
    pub fn emitted_len(&self) -> (n: usize)
        ensures
            n == self@.emitting.len(),
    {
        self.emitting.len()
    }

    /// The zoom of the layer that is emitted, or `None` when every layer was.
    pub fn zoom(&self) -> (z: Option<usize>)
        requires
            self@.wf(),
        ensures
            z == if self@.remaining > 0 {
                Some(self@.zoom())
            } else {
                None
            },
    {
        if self.remaining > 0 {
            Some(self.options.min_zoom + self.remaining - 1)
        } else {
            None
        }
    }

    /// Adds a source point and returns its insertion index.
    pub fn add(&mut self) -> (idx: usize)
        requires
            old(self)@.wf(),
            !old(self)@.filled(),
        ensures
            final(self)@ == old(self)@.added(),
            final(self)@.wf(),
            idx == old(self)@.scanning.len(),
    {
        let idx = self.scanning.len();
        self.scanning.push(ClusterData::new(ClusterId::new_source_id(idx)));
        proof {
            assert(self@.scanning =~= sources(idx + 1));
            lemma_sources_ready(self.num_items, self.options.max_zoom, self.options.min_points);
        }
        idx
    }

    /// Moves the scan on to the next record that it has to visit, and returns
    /// its index, or `None` at the end of the layer.
    pub fn next_seed(&mut self) -> (seed: Option<usize>)
        requires
            old(self)@.wf(),
            old(self)@.filled(),
            old(self)@.remaining > 0,
        ensures
            final(self)@ == old(self)@.sought(),
            final(self)@ == (Progress { cursor: final(self)@.cursor, ..old(self)@ }),
            final(self)@.cursor >= old(self)@.cursor,
            final(self)@.wf(),
            seed == if final(self)@.scan_done() {
                None
            } else {
                Some(final(self)@.cursor as usize)
            },
            seed is Some ==> final(self)@.at_seed(),
    {
        let zoom = self.options.min_zoom + self.remaining - 1;
        while self.cursor < self.scanning.len() && self.scanning[self.cursor].is_consumed(zoom)
            invariant
                self@.wf(),
                self@.filled(),
                self@.remaining > 0,
                zoom == self@.zoom(),
                self@.sought() == old(self)@.sought(),
                self@ == (Progress { cursor: self@.cursor, ..old(self)@ }),
                self@.cursor >= old(self)@.cursor,
            decreases self@.scanning.len() - self@.cursor,
        {
            self.cursor += 1;
        }
        if self.cursor < self.scanning.len() {
            Some(self.cursor)
        } else {
            None
        }
    }

    /// Visits the seed at which the scan stands, with the hits of the query
    /// around it: the records within the clustering radius of the seed.
    pub fn visit(&mut self, hits: &Vec<usize>) -> (v: Visit)
        requires
            old(self)@.wf(),
            old(self)@.at_seed(),
            old(self)@.in_range(hits@),
        ensures
            final(self)@ == old(self)@.visited(hits@),
            final(self)@.wf(),
            final(self)@.scanning_layer(),
            v.members@ == absorbed(
                old(self)@.scanning,
                old(self)@.cursor,
                old(self)@.zoom(),
                hits@,
            ),
            v.cluster == if forms_cluster(
                old(self)@.scanning,
                old(self)@.cursor,
                old(self)@.zoom(),
                hits@,
                old(self)@.options.min_points,
            ) {
                Some(cluster_id_of(old(self)@.cursor, old(self)@.zoom(), old(self)@.num_items))
            } else {
                None
            },
    {
        let zoom = self.options.min_zoom + self.remaining - 1;
        let ghost before = self@;
        proof {
            lemma_len_le_total(self.scanning@);
        }
        let v = visit_step(
            &mut self.scanning,
            &mut self.emitting,
            self.cursor,
            zoom,
            hits,
            self.options.min_points,
            self.num_items,
        );
        self.cursor += 1;
        proof {
            assert(self@.done == before.done);
            assert(same_nodes(before.scanning, self@.scanning));
            if before.done.len() > 0 {
                let k = before.done.len() - 1;
                lemma_link_same_nodes(
                    before.done[k],
                    before.scanning,
                    self@.scanning,
                    before.done[k].len() as int,
                    (self.options.max_zoom - k) as usize,
                    self.num_items,
                    self.options.min_points,
                );
            }
        }
        v
    }

    /// Whether every source point was added.
    pub fn is_filled(&self) -> (b: bool)
        requires
            self@.wf(),
        ensures
            b == self@.filled(),
    {
        if self.done.len() > 0 {
            self.done[0].len() == self.num_items
        } else {
            self.scanning.len() == self.num_items
        }
    }

    /// Sets the scanned layer aside, once the scan has reached its end, and
    /// goes on with the layer that the scan has emitted.
    pub fn descend(&mut self)
        requires
            old(self)@.wf(),
            old(self)@.scanning_layer(),
            old(self)@.scan_done(),
        ensures
            final(self)@ == old(self)@.descended(),
            final(self)@.wf(),
            final(self)@.filled(),
    {
        let ghost before = self@;
        let mut layer: Vec<ClusterData> = Vec::new();
        std::mem::swap(&mut layer, &mut self.emitting);
        std::mem::swap(&mut layer, &mut self.scanning);
        self.done.push(layer);
        self.cursor = 0;
        self.remaining = self.remaining - 1;
        proof {
            assert(self@.done =~= before.done.push(before.scanning));
            assert(self@ == before.descended());
            lemma_settled_total(
                before.scanning,
                before.emitting,
                before.zoom(),
                self.num_items,
                self.options.min_points,
            );
            lemma_len_le_total(before.emitting);
            if before.remaining > 1 {
                lemma_next_pass_ready(
                    before.scanning,
                    before.emitting,
                    before.zoom(),
                    self.num_items,
                    self.options.min_points,
                );
            }
            assert forall|k: int| #![trigger self@.done[k]] 0 <= k < self@.done.len() implies settled(
                self@.done[k],
                self@.below(k),
                (self.options.max_zoom - k) as usize,
                self.num_items,
                self.options.min_points,
            ) by {
                if k < before.done.len() {
                    assert(self@.done[k] == before.done[k]);
                    assert(self@.below(k) == before.below(k));
                }
            }
        }
    }

    /// Wraps the ladder of layers, once every layer was emitted.
    pub fn finish(self) -> (s: Supercluster)
        requires
            self@.wf(),
            self@.complete(),
        ensures
            s@ == (Ladder {
                options: self@.options,
                num_points: self@.num_items,
                layers: self@.done.push(self@.scanning),
            }),
            s@.wf(),
    {
        let ghost before = self@;
        let SuperclusterBuilder { options, num_items, done, scanning, .. } = self;
        let mut layers = done;
        layers.push(scanning);
        proof {
            assert(layers_of(layers@) =~= before.done.push(before.scanning));
            let l = layers_of(layers@);
            assert forall|k: int| #![trigger l[k]] 0 <= k < l.len() - 1 implies settled(
                l[k],
                l[k + 1],
                (options.max_zoom - k) as usize,
                num_items,
                options.min_points,
            ) by {
                assert(l[k] == before.done[k]);
                assert(l[k + 1] == before.below(k));
            }
        }
        Supercluster::new(num_items, layers, options)
    }

    /// Runs the pass over the scanned layer from where the scan stands to
    /// its end, with `neighbors[i]` as the hits of the query around record
    /// `i`, and goes on with the layer that the pass has emitted.
    pub fn cluster(&mut self, neighbors: &Vec<Vec<usize>>)
        requires
            old(self)@.wf(),
            old(self)@.scanning_layer(),
            neighbors@.len() == old(self)@.scanning.len(),
            forall|i: int|
                0 <= i < neighbors@.len() ==> old(self)@.in_range((#[trigger] neighbors@[i])@),
        ensures
            final(self)@ == old(self)@.scanned(hit_lists(neighbors@)).descended(),
            final(self)@.wf(),
            final(self)@.filled(),
            final(self)@.options == old(self)@.options,
            final(self)@.num_items == old(self)@.num_items,
            final(self)@.remaining == old(self)@.remaining - 1,
            final(self)@.done.len() == old(self)@.done.len() + 1,
            final(self)@.cursor == 0,
            final(self)@.emitting.len() == 0,
    {
        let ghost lists = hit_lists(neighbors@);
        let ghost start = self@;
        proof {
            lemma_sought_scanned(self@, lists);
        }
        let mut seed = self.next_seed();
        while seed.is_some()
            invariant
                self@.wf(),
                self@.scanning_layer(),
                self@.scanning.len() == neighbors@.len(),
                lists == hit_lists(neighbors@),
                forall|i: int|
                    0 <= i < neighbors@.len() ==> self@.in_range((#[trigger] neighbors@[i])@),
                self@.scanned(lists) == start.scanned(lists),
                self@.options == start.options,
                self@.num_items == start.num_items,
                self@.remaining == start.remaining,
                self@.done == start.done,
                seed == if self@.scan_done() {
                    None
                } else {
                    Some(self@.cursor as usize)
                },
                seed is Some ==> self@.at_seed(),
            decreases self@.scanning.len() - self@.cursor,
        {
            let i = seed.unwrap();
            let ghost at = self@;
            assert(at.in_range(neighbors@[i as int]@));
            self.visit(&neighbors[i]);
            proof {
                assert(lists[i as int] == neighbors@[i as int]@);
                assert(at.scanned(lists) == at.visited(lists[i as int]).scanned(lists));
                lemma_sought_scanned(self@, lists);
                assert forall|x: int| 0 <= x < neighbors@.len() implies self@.in_range(
                    (#[trigger] neighbors@[x])@,
                ) by {
                    assert(at.in_range(neighbors@[x]@));
                }
            }
            seed = self.next_seed();
            proof {
                assert forall|x: int| 0 <= x < neighbors@.len() implies self@.in_range(
                    (#[trigger] neighbors@[x])@,
                ) by {
                    assert(at.in_range(neighbors@[x]@));
                }
            }
        }
        self.descend();
    }
}

} // verus!
