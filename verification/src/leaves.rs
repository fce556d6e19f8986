use crate::cluster::{ClusterId, ClusterInfo};
use crate::supercluster::Supercluster;
use vstd::prelude::*;

verus! {

/// Number of leaves that are collected where no limit is given.
pub const DEFAULT_LIMIT: usize = 10;

/// The state of a depth-first walk that collects the leaves under a cluster.
pub struct Walk {
    /// Number of leaves at which the walk stops.
    pub limit: usize,
    /// Number of leaves that are passed over before the first is collected.
    pub offset: usize,
    /// Number of leaves passed over so far.
    pub skipped: usize,
    /// The leaves collected so far.
    pub leaves: Seq<ClusterInfo>,
    /// What is still to be walked, the next at the end.
    pub todo: Seq<ClusterInfo>,
    /// The cluster whose children are wanted, if the walk waits for any.
    pub asking: Option<ClusterId>,
}

impl Walk {
    /// The walk that starts at the cluster `id`, whose children it asks for.
    pub open spec fn start(id: ClusterId, limit: usize, offset: usize) -> Walk {
        Walk {
            limit,
            offset,
            skipped: 0,
            leaves: Seq::empty(),
            todo: Seq::empty(),
            asking: Some(id),
        }
    }

    /// The invariant of a walk.
    pub open spec fn wf(self) -> bool {
        &&& self.skipped <= self.offset
        &&& self.leaves.len() <= self.limit
        &&& forall|k: int| 0 <= k < self.leaves.len() ==> !(#[trigger] self.leaves[k]).cluster
    }

    /// Whether the walk is over.
    pub open spec fn finished(self) -> bool {
        self.asking is None
    }

    /// The walk as it goes on by itself: it stops for good once `limit`
    /// leaves are collected or nothing is left to walk. Else it takes the
    /// next node. A cluster that lies wholly before the offset is passed
    /// over, and its points are counted as skipped; the walk stops at any
    /// other cluster and asks for its children. A leaf before the offset is
    /// skipped; any other leaf is collected.
    pub open spec fn settled(self) -> Walk
        decreases self.todo.len(),
    {
        if self.leaves.len() == self.limit {
            Walk { todo: Seq::empty(), asking: None, ..self }
        } else if self.todo.len() == 0 {
            Walk { asking: None, ..self }
        } else {
            let node = self.todo.last();
            let rest = self.todo.drop_last();
            if node.cluster {
                if self.skipped + node.point_count <= self.offset {
                    (Walk {
                        skipped: (self.skipped + node.point_count) as usize,
                        todo: rest,
                        ..self
                    }).settled()
                } else {
                    Walk { todo: rest, asking: Some(node.id), ..self }
                }
            } else if self.skipped < self.offset {
                (Walk { skipped: (self.skipped + 1) as usize, todo: rest, ..self }).settled()
            } else {
                (Walk { leaves: self.leaves.push(node), todo: rest, ..self }).settled()
            }
        }
    }

    /// The walk after the children that it asked for came in: they are
    /// walked first, in their order, before what was left to walk.
    pub open spec fn fed(self, children: Seq<ClusterInfo>) -> Walk {
        (Walk { todo: self.todo + children.reverse(), asking: None, ..self }).settled()
    }

    /// A walk that goes on keeps its invariant, its limit and its offset,
    /// and loses none of the leaves it has.
    pub proof fn lemma_settled(self)
        requires
            self.wf(),
        ensures
            self.settled().wf(),
            self.settled().limit == self.limit,
            self.settled().offset == self.offset,
            self.settled().skipped >= self.skipped,
            self.leaves.is_prefix_of(self.settled().leaves),
        decreases self.todo.len(),
    {
        if self.leaves.len() != self.limit && self.todo.len() > 0 {
            let node = self.todo.last();
            let rest = self.todo.drop_last();
            if node.cluster {
                if self.skipped + node.point_count <= self.offset {
                    (Walk {
                        skipped: (self.skipped + node.point_count) as usize,
                        todo: rest,
                        ..self
                    }).lemma_settled();
                }
            } else if self.skipped < self.offset {
                (Walk { skipped: (self.skipped + 1) as usize, todo: rest, ..self }).lemma_settled();
            } else {
                let more = Walk { leaves: self.leaves.push(node), todo: rest, ..self };
                more.lemma_settled();
                assert(self.leaves.is_prefix_of(more.leaves));
            }
        }
    }
}

/// The leaves below `node`, in depth-first order, where `kids` gives the
/// children of each cluster and the tree below `node` is no higher than
/// `depth`.
pub open spec fn leaves_below(
    kids: spec_fn(ClusterId) -> Seq<ClusterInfo>,
    node: ClusterInfo,
    depth: nat,
) -> Seq<ClusterInfo>
    decreases depth, 0nat,
{
    if !node.cluster {
        seq![node]
    } else if depth == 0 {
        Seq::empty()
    } else {
        leaves_of(kids, kids(node.id).reverse(), (depth - 1) as nat)
    }
}

/// The leaves below the nodes of `todo`, the last node first.
pub open spec fn leaves_of(
    kids: spec_fn(ClusterId) -> Seq<ClusterInfo>,
    todo: Seq<ClusterInfo>,
    depth: nat,
) -> Seq<ClusterInfo>
    decreases depth, todo.len() + 1,
{
    if todo.len() == 0 {
        Seq::empty()
    } else {
        leaves_below(kids, todo.last(), depth) + leaves_of(kids, todo.drop_last(), depth)
    }
}

/// Whether the tree below `node` is no higher than `depth`, and every
/// cluster in it counts as many points as there are leaves below it.
pub open spec fn counted(
    kids: spec_fn(ClusterId) -> Seq<ClusterInfo>,
    node: ClusterInfo,
    depth: nat,
) -> bool
    decreases depth, 0nat,
{
    if !node.cluster {
        true
    } else {
        &&& depth > 0
        &&& counted_all(kids, kids(node.id).reverse(), (depth - 1) as nat)
        &&& node.point_count == leaves_below(kids, node, depth).len()
    }
}

/// Whether every node of `todo` is as `counted` says.
pub open spec fn counted_all(
    kids: spec_fn(ClusterId) -> Seq<ClusterInfo>,
    todo: Seq<ClusterInfo>,
    depth: nat,
) -> bool
    decreases depth, todo.len() + 1,
{
    todo.len() == 0 || (counted(kids, todo.last(), depth) && counted_all(
        kids,
        todo.drop_last(),
        depth,
    ))
}

/// A tree that is no higher than `depth` is no higher than `depth + 1`, and
/// has the same leaves.
pub proof fn lemma_counted_deeper(
    kids: spec_fn(ClusterId) -> Seq<ClusterInfo>,
    node: ClusterInfo,
    depth: nat,
)
    requires
        counted(kids, node, depth),
    ensures
        counted(kids, node, depth + 1),
        leaves_below(kids, node, depth + 1) == leaves_below(kids, node, depth),
    decreases depth, 0nat,
{
    if node.cluster {
        lemma_counted_all_deeper(kids, kids(node.id).reverse(), (depth - 1) as nat);
    }
}

/// Trees that are no higher than `depth` are no higher than `depth + 1`, and
/// have the same leaves.
pub proof fn lemma_counted_all_deeper(
    kids: spec_fn(ClusterId) -> Seq<ClusterInfo>,
    todo: Seq<ClusterInfo>,
    depth: nat,
)
    requires
        counted_all(kids, todo, depth),
    ensures
        counted_all(kids, todo, depth + 1),
        leaves_of(kids, todo, depth + 1) == leaves_of(kids, todo, depth),
    decreases depth, todo.len() + 1,
{
    if todo.len() > 0 {
        lemma_counted_deeper(kids, todo.last(), depth);
        lemma_counted_all_deeper(kids, todo.drop_last(), depth);
    }
}

/// The leaves of nodes put on top of others come first.
pub proof fn lemma_leaves_of_concat(
    kids: spec_fn(ClusterId) -> Seq<ClusterInfo>,
    under: Seq<ClusterInfo>,
    top: Seq<ClusterInfo>,
    depth: nat,
)
    requires
        counted_all(kids, under, depth),
        counted_all(kids, top, depth),
    ensures
        counted_all(kids, under + top, depth),
        leaves_of(kids, under + top, depth) == leaves_of(kids, top, depth) + leaves_of(
            kids,
            under,
            depth,
        ),
    decreases top.len(),
{
    if top.len() == 0 {
        assert(under + top =~= under);
        assert(leaves_of(kids, top, depth) + leaves_of(kids, under, depth) =~= leaves_of(
            kids,
            under,
            depth,
        ));
    } else {
        lemma_leaves_of_concat(kids, under, top.drop_last(), depth);
        assert((under + top).drop_last() =~= under + top.drop_last());
        assert((under + top).last() == top.last());
        assert(leaves_of(kids, under + top, depth) =~= leaves_of(kids, top, depth) + leaves_of(
            kids,
            under,
            depth,
        ));
    }
}

/// The elements of `s` after the first `skip`, up to `room` of them.
pub open spec fn window(s: Seq<ClusterInfo>, skip: int, room: int) -> Seq<ClusterInfo> {
    let from = if skip <= 0 {
        0
    } else if skip >= s.len() {
        s.len() as int
    } else {
        skip
    };
    let to = if room <= 0 {
        from
    } else if from + room >= s.len() {
        s.len() as int
    } else {
        from + room
    };
    s.subrange(from, to)
}

/// A window that starts after a first part lies in the rest.
pub proof fn lemma_window_past(a: Seq<ClusterInfo>, b: Seq<ClusterInfo>, skip: int, room: int)
    requires
        skip >= a.len(),
    ensures
        window(a + b, skip, room) == window(b, skip - a.len(), room),
{
    assert(window(a + b, skip, room) =~= window(b, skip - a.len(), room));
}

/// A window with room that starts at once holds the first element.
pub proof fn lemma_window_first(x: ClusterInfo, b: Seq<ClusterInfo>, room: int)
    requires
        room >= 1,
    ensures
        window(seq![x] + b, 0, room) == seq![x] + window(b, 0, room - 1),
{
    assert(window(seq![x] + b, 0, room) =~= seq![x] + window(b, 0, room - 1));
}

impl Walk {
    /// The leaves that the walk still has before it, in the order in which
    /// it comes to them: those below the cluster it asks for, then those
    /// below what is left to walk.
    pub open spec fn upcoming(self, kids: spec_fn(ClusterId) -> Seq<ClusterInfo>, depth: nat) -> Seq<
        ClusterInfo,
    > {
        let first = match self.asking {
            Some(id) => leaves_of(kids, kids(id).reverse(), (depth - 1) as nat),
            None => Seq::empty(),
        };
        first + leaves_of(kids, self.todo, depth)
    }

    /// What the walk will have collected at its end: the leaves it has,
    /// and of those before it, the ones after what is left of the offset, up
    /// to the limit.
    pub open spec fn outcome(self, kids: spec_fn(ClusterId) -> Seq<ClusterInfo>, depth: nat) -> Seq<
        ClusterInfo,
    > {
        self.leaves + window(
            self.upcoming(kids, depth),
            self.offset - self.skipped,
            self.limit - self.leaves.len(),
        )
    }

    /// Whether the walk is on a tree that `kids` describes: what it has
    /// before it is no higher than `depth`, and the clusters count their
    /// leaves.
    pub open spec fn on_tree(self, kids: spec_fn(ClusterId) -> Seq<ClusterInfo>, depth: nat) -> bool {
        &&& self.wf()
        &&& counted_all(kids, self.todo, depth)
        &&& self.asking matches Some(id) ==> depth > 0 && counted_all(
            kids,
            kids(id).reverse(),
            (depth - 1) as nat,
        )
    }

    /// A walk that goes on by itself on a tree comes to the same outcome.
    pub proof fn lemma_settled_outcome(
        self,
        kids: spec_fn(ClusterId) -> Seq<ClusterInfo>,
        depth: nat,
    )
        requires
            self.on_tree(kids, depth),
            self.asking is None,
        ensures
            self.settled().on_tree(kids, depth),
            self.settled().outcome(kids, depth) == self.outcome(kids, depth),
            self.settled().asking is None ==> self.settled().outcome(kids, depth)
                == self.settled().leaves,
        decreases self.todo.len(),
    {
        let empty = Seq::<ClusterInfo>::empty();
        let before = leaves_of(kids, self.todo, depth);
        assert(self.upcoming(kids, depth) =~= before);
        let skip = self.offset - self.skipped;
        let room = self.limit - self.leaves.len();
        if self.leaves.len() == self.limit {
            let after = self.settled();
            assert(after.upcoming(kids, depth) =~= empty);
            assert(after.outcome(kids, depth) =~= self.leaves);
            assert(self.outcome(kids, depth) =~= self.leaves);
        } else if self.todo.len() == 0 {
            assert(self.outcome(kids, depth) =~= self.leaves);
        } else {
            let node = self.todo.last();
            let rest = self.todo.drop_last();
            let below = leaves_below(kids, node, depth);
            let later = leaves_of(kids, rest, depth);
            assert(before == below + later);
            assert(counted(kids, node, depth) && counted_all(kids, rest, depth));
            if node.cluster {
                assert(depth > 0);
                assert(node.point_count == below.len());
                assert(counted_all(kids, kids(node.id).reverse(), (depth - 1) as nat));
                assert(below == leaves_of(kids, kids(node.id).reverse(), (depth - 1) as nat));
                if self.skipped + node.point_count <= self.offset {
                    let next = Walk {
                        skipped: (self.skipped + node.point_count) as usize,
                        todo: rest,
                        ..self
                    };
                    next.lemma_settled_outcome(kids, depth);
                    assert(next.upcoming(kids, depth) =~= later);
                    lemma_window_past(below, later, skip, room);
                } else {
                    let next = Walk { todo: rest, asking: Some(node.id), ..self };
                    assert(next.upcoming(kids, depth) =~= below + later);
                }
            } else if self.skipped < self.offset {
                let next = Walk { skipped: (self.skipped + 1) as usize, todo: rest, ..self };
                next.lemma_settled_outcome(kids, depth);
                assert(next.upcoming(kids, depth) =~= later);
                lemma_window_past(below, later, skip, room);
            } else {
                let next = Walk { leaves: self.leaves.push(node), todo: rest, ..self };
                next.lemma_settled_outcome(kids, depth);
                assert(next.upcoming(kids, depth) =~= later);
                lemma_window_first(node, later, room);
                assert(self.leaves + (seq![node] + window(later, 0, room - 1))
                    =~= self.leaves.push(node) + window(later, 0, room - 1));
            }
        }
    }

    /// A walk that is fed the children of the cluster it asks for comes to
    /// the same outcome.
    pub proof fn lemma_fed_outcome(self, kids: spec_fn(ClusterId) -> Seq<ClusterInfo>, depth: nat)
        requires
            self.on_tree(kids, depth),
            self.asking is Some,
        ensures
            self.fed(kids(self.asking->0)).on_tree(kids, depth),
            self.fed(kids(self.asking->0)).outcome(kids, depth) == self.outcome(kids, depth),
            self.fed(kids(self.asking->0)).asking is None ==> self.fed(
                kids(self.asking->0),
            ).leaves == self.outcome(kids, depth),
    {
        let id = self.asking->0;
        let top = kids(id).reverse();
        let next = Walk { todo: self.todo + top, asking: None, ..self };
        lemma_counted_all_deeper(kids, top, (depth - 1) as nat);
        lemma_leaves_of_concat(kids, self.todo, top, depth);
        assert(next.upcoming(kids, depth) =~= self.upcoming(kids, depth));
        next.lemma_settled_outcome(kids, depth);
    }

    /// A walk starts out for the leaves below its cluster: those after the
    /// offset, up to the limit.
    pub proof fn lemma_start_outcome(
        id: ClusterId,
        limit: usize,
        offset: usize,
        kids: spec_fn(ClusterId) -> Seq<ClusterInfo>,
        depth: nat,
    )
        ensures
            Walk::start(id, limit, offset).outcome(kids, depth) == window(
                leaves_of(kids, kids(id).reverse(), (depth - 1) as nat),
                offset as int,
                limit as int,
            ),
    {
        let w = Walk::start(id, limit, offset);
        assert(w.upcoming(kids, depth) =~= leaves_of(
            kids,
            kids(id).reverse(),
            (depth - 1) as nat,
        ));
        assert(w.outcome(kids, depth) =~= window(
            w.upcoming(kids, depth),
            offset as int,
            limit as int,
        ));
    }
}

/// A depth-first walk that collects the leaves under a cluster.
///
/// While the walk asks, the caller answers with the children of the cluster
/// asked for, by `append_leaves`.
#[derive(Debug)]
pub struct LeafWalk {
    limit: usize,
    offset: usize,
    skipped: usize,
    leaves: Vec<ClusterInfo>,
    todo: Vec<ClusterInfo>,
    asking: Option<ClusterId>,
}

impl View for LeafWalk {
    type V = Walk;

    closed spec fn view(&self) -> Walk {
        Walk {
            limit: self.limit,
            offset: self.offset,
            skipped: self.skipped,
            leaves: self.leaves@,
            todo: self.todo@,
            asking: self.asking,
        }
    }
}

impl LeafWalk {
    /// The cluster whose children the walk asks for, or `None` when the walk
    /// is over.
    pub fn asking(&self) -> (id: Option<ClusterId>)
        ensures
            id == self@.asking,
    {
        self.asking
    }

    /// Goes on by itself as far as the walk can.
    fn settle(&mut self)
        requires
            old(self)@.wf(),
            old(self)@.asking is None,
        ensures
            final(self)@ == old(self)@.settled(),
    {
        while self.leaves.len() != self.limit && self.todo.len() > 0 && self.asking.is_none()
            invariant
                self@.wf(),
                self@.asking is None ==> self@.settled() == old(self)@.settled(),
                self@.asking is Some ==> self@ == old(self)@.settled(),
            decreases self@.todo.len() + if self@.asking is None { 1int } else { 0int },
        {
            let node = self.todo.pop().unwrap();
            if node.is_cluster() {
                if node.count() <= self.offset - self.skipped {
                    self.skipped = self.skipped + node.count();
                } else {
                    self.asking = Some(node.id());
                }
            } else if self.skipped < self.offset {
                self.skipped = self.skipped + 1;
            } else {
                self.leaves.push(node);
            }
        }
        if self.asking.is_none() && self.leaves.len() == self.limit {
            self.todo.clear();
        }
    }

    /// Takes in the children of the cluster that the walk asked for, and
    /// goes on until it asks again or is over.
    pub fn append_leaves(&mut self, children: &Vec<ClusterInfo>)
        requires
            old(self)@.wf(),
        ensures
            final(self)@ == old(self)@.fed(children@),
            final(self)@.wf(),
    {
        let mut k: usize = children.len();
        let ghost start = self@.todo;
        while k > 0
            invariant
                0 <= k <= children@.len(),
                self@ == (Walk { todo: start + children@.skip(k as int).reverse(), ..old(self)@ }),
            decreases k,
        {
            k -= 1;
            self.todo.push(children[k]);
            proof {
                assert(children@.skip(k as int).reverse() =~= children@.skip(k as int + 1).reverse().push(
                    children@[k as int],
                ));
                assert(self@.todo =~= start + children@.skip(k as int).reverse());
            }
        }
        self.asking = None;
        proof {
            assert(children@.skip(0) =~= children@);
            (Walk { todo: start + children@.reverse(), asking: None, ..old(self)@ }).lemma_settled();
        }
        self.settle();
    }

    /// The leaves collected so far.
    pub fn leaves(&self) -> (l: &Vec<ClusterInfo>)
        ensures
            l@ == self@.leaves,
    {
        &self.leaves
    }

    /// The leaves that the walk has collected.
    pub fn into_leaves(self) -> (l: Vec<ClusterInfo>)
        ensures
            l@ == self@.leaves,
    {
        self.leaves
    }
}

impl Supercluster {
    /// Starts a walk that collects the leaves under the cluster
    /// `cluster_id`: it passes over the first `offset` of them, none where
    /// no offset is given, and stops at `limit` leaves, at ten where no limit
    /// is given.
    pub fn get_leaves(&self, cluster_id: ClusterId, limit: Option<usize>, offset: Option<usize>) -> (w:
        LeafWalk)
        ensures
            w@ == Walk::start(
                cluster_id,
                match limit {
                    Some(n) => n,
                    None => DEFAULT_LIMIT,
                },
                match offset {
                    Some(n) => n,
                    None => 0,
                },
            ),
            w@.wf(),
    {
        let limit = match limit {
            Some(n) => n,
            None => DEFAULT_LIMIT,
        };
        let offset = match offset {
            Some(n) => n,
            None => 0,
        };
        LeafWalk {
            limit,
            offset,
            skipped: 0,
            leaves: Vec::new(),
            todo: Vec::new(),
            asking: Some(cluster_id),
        }
    }
}

} // verus!
