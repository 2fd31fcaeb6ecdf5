//! The dependency graph: observables, the observers that read them, and the
//! propagation of dirtiness from a written observable to every observer
//! that depends on it.
//!
//! The graph is an arena. An observable is a node with a list of dependents;
//! an observer is such a node with a dirty flag. A dependent is named by its
//! index and counts only while the observer is live: an observer that was
//! replaced is no longer live, and the entries that name it are passed over.

use std::marker::PhantomData;
use vstd::prelude::*;
use vstd::std_specs::cmp::PartialEqSpec;

verus! {

/// Whether an observer has to be recomputed.
#[derive(Copy, Clone, Eq, PartialEq, Hash, Debug, Structural)]
pub enum Dirtiness {
    Clean,
    Dirty,
}

impl Dirtiness {
    pub fn is_clean(&self) -> (r: bool)
        ensures
            r == (*self == Dirtiness::Clean),
    {
        *self == Dirtiness::Clean
    }

    pub fn is_dirty(&self) -> (r: bool)
        ensures
            r == (*self == Dirtiness::Dirty),
    {
        *self == Dirtiness::Dirty
    }
}

/// The state of a dependency graph.
pub struct Graph {
    /// For each node, the observers that read it, in the order of the reads.
    pub dependents: Seq<Seq<usize>>,
    /// For each node, whether it is dirty.
    pub dirty: Seq<bool>,
    /// For each node, whether it still exists.
    pub live: Seq<bool>,
    /// The observer whose computation is running, if one is.
    pub scope: Option<usize>,
}

impl Graph {
    /// The number of nodes.
    pub open spec fn len(self) -> nat {
        self.dependents.len()
    }

    /// Every entry names a node.
    pub open spec fn wf(self) -> bool {
        &&& self.dirty.len() == self.dependents.len()
        &&& self.live.len() == self.dependents.len()
        &&& forall|a: int, j: int|
            0 <= a < self.dependents.len() && 0 <= j < self.dependents[a].len() ==> (
            #[trigger] self.dependents[a][j]) < self.dependents.len()
        &&& self.scope is Some ==> self.scope->Some_0 < self.dependents.len()
    }

    /// Whether `n` stands among the dependents of `a`.
    pub open spec fn edge(self, a: int, n: int) -> bool {
        &&& 0 <= a < self.dependents.len()
        &&& exists|j: int| 0 <= j < self.dependents[a].len() && self.dependents[a][j] == n
    }

    /// Whether `n` is a live observer that is clean.
    pub open spec fn clean(self, n: int) -> bool {
        &&& 0 <= n < self.dirty.len()
        &&& 0 <= n < self.live.len()
        &&& self.live[n]
        &&& !self.dirty[n]
    }

    /// Whether `path` leads from a dependent of `from` along dependents, over
    /// clean live observers only.
    pub open spec fn is_path(self, from: int, path: Seq<int>) -> bool {
        &&& path.len() > 0
        &&& self.edge(from, path[0])
        &&& forall|i: int| 0 <= i < path.len() ==> self.clean(#[trigger] path[i])
        &&& forall|i: int| 0 <= i < path.len() - 1 ==> self.edge(#[trigger] path[i], path[i + 1])
    }

    /// Whether a write to `from` reaches `n`: some path of clean live
    /// observers leads from `from` to `n`.
    pub open spec fn reached(self, from: int, n: int) -> bool {
        exists|path: Seq<int>| #[trigger] self.is_path(from, path) && path.last() == n
    }

    /// The graph with one more node, which is live and has no dependents.
    pub open spec fn with_node(self, dirty: bool) -> Graph {
        Graph {
            dependents: self.dependents.push(Seq::empty()),
            dirty: self.dirty.push(dirty),
            live: self.live.push(true),
            scope: self.scope,
        }
    }

    /// The graph after `observable` was read: where a computation is
    /// running, its observer is added to the dependents of `observable`.
    pub open spec fn registered(self, observable: int) -> Graph {
        match self.scope {
            Some(observer) => Graph {
                dependents: self.dependents.update(
                    observable,
                    self.dependents[observable].push(observer),
                ),
                ..self
            },
            None => self,
        }
    }

    /// The graph after `observable` was written: every observer that the
    /// write reaches is dirty, and nothing else has changed.
    pub open spec fn triggered(self, observable: int) -> Graph {
        Graph {
            dirty: Seq::new(self.dirty.len(), |n: int| self.dirty[n] || self.reached(observable, n)),
            ..self
        }
    }

    /// The graph after `observer` was marked dirty: where it was clean it
    /// is dirty now and its own dependents were triggered; where it was
    /// dirty nothing has changed.
    pub open spec fn marked_dirty(self, observer: int) -> Graph {
        if self.dirty[observer] {
            self
        } else {
            (Graph { dirty: self.dirty.update(observer, true), ..self }).triggered(observer)
        }
    }

    /// The graph after `observer` ceased to exist.
    pub open spec fn released(self, observer: int) -> Graph {
        Graph { live: self.live.update(observer, false), ..self }
    }

    /// The graph at the start of a tracked computation: a new clean observer
    /// is the running one.
    pub open spec fn begun(self) -> Graph {
        Graph { scope: Some(self.dependents.len() as usize), ..self.with_node(false) }
    }

    /// The graph at the end of the tracked computation of `observer`: the
    /// computation that ran before runs again, and `observer` is clean.
    pub open spec fn ended(self, resumed: Option<usize>, observer: int) -> Graph {
        Graph { scope: resumed, dirty: self.dirty.update(observer, false), ..self }
    }

    /// How many of the first `upto` nodes are clean live observers.
    pub open spec fn clean_below(self, upto: int) -> nat
        decreases upto,
    {
        if upto <= 0 {
            0
        } else {
            self.clean_below(upto - 1) + if self.clean(upto - 1) {
                1nat
            } else {
                0nat
            }
        }
    }
}

/// How many of the first `upto` entries of `list` name `node`.
pub open spec fn count_in(list: Seq<usize>, node: int, upto: int) -> nat
    decreases upto,
{
    if upto <= 0 {
        0
    } else {
        count_in(list, node, upto - 1) + if list[upto - 1] == node {
            1nat
        } else {
            0nat
        }
    }
}

/// How many entries of the first `upto` lists of dependents name `node`:
/// the number of reads that were recorded for it.
pub open spec fn count_listed(dependents: Seq<Seq<usize>>, node: int, upto: int) -> nat
    decreases upto,
{
    if upto <= 0 {
        0
    } else {
        count_listed(dependents, node, upto - 1) + count_in(
            dependents[upto - 1],
            node,
            dependents[upto - 1].len() as int,
        )
    }
}

/// A dependent of `from` that is clean and live is reached from it.
pub proof fn lemma_reached_first(g: Graph, from: int, n: int)
    requires
        g.edge(from, n),
        g.clean(n),
    ensures
        g.reached(from, n),
{
    let path = seq![n];
    assert(g.is_path(from, path));
    assert(path.last() == n);
}

/// A clean live dependent of a reached observer is reached.
pub proof fn lemma_reached_next(g: Graph, from: int, m: int, n: int)
    requires
        g.reached(from, m),
        g.edge(m, n),
        g.clean(n),
    ensures
        g.reached(from, n),
{
    let path = choose|path: Seq<int>| #[trigger] g.is_path(from, path) && path.last() == m;
    let longer = path.push(n);
    assert forall|i: int| 0 <= i < longer.len() implies g.clean(#[trigger] longer[i]) by {
        if i < path.len() {
            assert(longer[i] == path[i]);
        }
    }
    assert forall|i: int| 0 <= i < longer.len() - 1 implies g.edge(
        #[trigger] longer[i],
        longer[i + 1],
    ) by {
        if i < path.len() - 1 {
            assert(longer[i] == path[i]);
            assert(longer[i + 1] == path[i + 1]);
        } else {
            assert(longer[i] == m);
        }
    }
    assert(longer[0] == path[0]);
    assert(g.is_path(from, longer));
    assert(longer.last() == n);
}

/// An observer is reached only through a node that lists it: the one that
/// was written, or an observer that the write reaches.
pub proof fn lemma_reached_through(g: Graph, from: int, n: int)
    requires
        g.reached(from, n),
    ensures
        g.clean(n),
        g.edge(from, n) || exists|m: int| g.reached(from, m) && #[trigger] g.edge(m, n),
{
    let path = choose|path: Seq<int>| #[trigger] g.is_path(from, path) && path.last() == n;
    assert(g.clean(path[path.len() - 1]));
    if path.len() > 1 {
        let shorter = path.drop_last();
        let m = shorter.last();
        assert forall|i: int| 0 <= i < shorter.len() implies g.clean(#[trigger] shorter[i]) by {
            assert(shorter[i] == path[i]);
        }
        assert forall|i: int| 0 <= i < shorter.len() - 1 implies g.edge(
            #[trigger] shorter[i],
            shorter[i + 1],
        ) by {
            assert(shorter[i] == path[i]);
            assert(shorter[i + 1] == path[i + 1]);
        }
        assert(shorter[0] == path[0]);
        assert(g.is_path(from, shorter));
        assert(g.reached(from, m));
        assert(m == path[path.len() - 2]);
        assert(g.edge(path[path.len() - 2], path[path.len() - 2 + 1]));
    }
}

/// Where every clean live dependent of `from`, and of every node of `marked`
/// that was clean, is in `marked`, every observer that a write to `from`
/// reaches is in `marked`.
proof fn lemma_reached_closed(g: Graph, from: int, marked: Seq<bool>, path: Seq<int>, upto: int)
    requires
        g.wf(),
        marked.len() == g.len(),
        g.is_path(from, path),
        0 <= upto < path.len(),
        forall|n: int| g.edge(from, n) && g.clean(n) ==> marked[n],
        forall|a: int, n: int|
            0 <= a < marked.len() && marked[a] && g.clean(a) && #[trigger] g.edge(a, n) && g.clean(
                n,
            ) ==> marked[n],
    ensures
        marked[path[upto]],
    decreases upto,
{
    assert(g.clean(path[upto]));
    if upto > 0 {
        lemma_reached_closed(g, from, marked, path, upto - 1);
        assert(g.clean(path[upto - 1]));
        assert(g.edge(path[upto - 1], path[upto - 1 + 1]));
    }
}

/// Marking a clean live observer dirty leaves one clean live observer less.
proof fn lemma_clean_below_marked(g: Graph, after: Graph, n: int, upto: int)
    requires
        g.dirty.len() == g.live.len(),
        after.live == g.live,
        after.dirty == g.dirty.update(n, true),
        g.clean(n),
        0 <= upto <= g.dirty.len(),
    ensures
        after.clean_below(upto) + (if n < upto {
            1nat
        } else {
            0nat
        }) == g.clean_below(upto),
    decreases upto,
{
    if upto > 0 {
        lemma_clean_below_marked(g, after, n, upto - 1);
    }
}

/// The dependency graph.
pub struct Tracker {
    dependents: Vec<Vec<usize>>,
    dirty: Vec<bool>,
    live: Vec<bool>,
    scope: Option<usize>,
}

impl View for Tracker {
    type V = Graph;

    closed spec fn view(&self) -> Graph {
        Graph {
            dependents: Seq::new(self.dependents@.len(), |i: int| self.dependents@[i]@),
            dirty: self.dirty@,
            live: self.live@,
            scope: self.scope,
        }
    }
}

/// A node that computations can read and that is triggered when it is
/// written.
#[derive(Copy, Clone, PartialEq, Eq, Debug, Structural)]
pub struct ObservableInner {
    id: usize,
}

/// A node that depends on the observables that were read while it was
/// computed, and that others can read in turn.
#[derive(Copy, Clone, PartialEq, Eq, Debug, Structural)]
pub struct ObserverInner {
    id: usize,
}

/// A tracked computation that has begun and has not ended yet.
pub struct Pending {
    resumed: Option<usize>,
    observer: ObserverInner,
}

impl Pending {
    /// The observer whose computation ran before and will run again.
    pub closed spec fn resumed(&self) -> Option<usize> {
        self.resumed
    }

    /// The observer of the computation.
    pub closed spec fn observer(&self) -> usize {
        self.observer.id
    }
}

impl Tracker {
    /// An empty graph, in which no computation is running.
    pub fn new() -> (r: Tracker)
        ensures
            r@.wf(),
            r@.len() == 0,
            r@.scope is None,
    {
        Tracker { dependents: Vec::new(), dirty: Vec::new(), live: Vec::new(), scope: None }
    }

    /// The number of nodes.
    pub fn len(&self) -> (r: usize)
        ensures
            r == self@.len(),
    {
        self.dependents.len()
    }

    /// How many reads were recorded for `node`, counted up to the largest
    /// `usize`.
    pub fn count_reads(&self, node: usize) -> (r: usize)
        ensures
            r == if count_listed(self@.dependents, node as int, self@.len() as int)
                <= usize::MAX {
                count_listed(self@.dependents, node as int, self@.len() as int) as int
            } else {
                usize::MAX as int
            },
    {
        let mut count: usize = 0;
        let lists = self.dependents.len();
        let mut a: usize = 0;
        while a < lists
            invariant
                lists == self.dependents@.len(),
                a <= lists,
                count == if count_listed(self@.dependents, node as int, a as int) <= usize::MAX {
                    count_listed(self@.dependents, node as int, a as int) as int
                } else {
                    usize::MAX as int
                },
            decreases lists - a,
        {
            let entries = self.dependents[a].len();
            let ghost before = count_listed(self@.dependents, node as int, a as int);
            let mut j: usize = 0;
            while j < entries
                invariant
                    a < self.dependents@.len(),
                    entries == self.dependents@[a as int]@.len(),
                    self@.dependents[a as int] == self.dependents@[a as int]@,
                    j <= entries,
                    count == if before + count_in(self@.dependents[a as int], node as int, j as int)
                        <= usize::MAX {
                        (before + count_in(self@.dependents[a as int], node as int, j as int)) as int
                    } else {
                        usize::MAX as int
                    },
                decreases entries - j,
            {
                if self.dependents[a][j] == node && count < usize::MAX {
                    count = count + 1;
                }
                j = j + 1;
            }
            a = a + 1;
        }
        count
    }

    /// Whether a computation is running.
    pub fn is_tracking(&self) -> (r: bool)
        ensures
            r == (self@.scope is Some),
    {
        self.scope.is_some()
    }

    fn add_node(&mut self, dirty: bool) -> (r: usize)
        requires
            old(self)@.wf(),
        ensures
            final(self)@.wf(),
            r == old(self)@.len(),
            final(self)@ == old(self)@.with_node(dirty),
    {
        let id = self.dependents.len();
        self.dependents.push(Vec::new());
        self.dirty.push(dirty);
        self.live.push(true);
        // Reading the length tells that it fits a `usize`.
        let count = self.dependents.len();
        proof {
            assert(self@.dependents =~= old(self)@.dependents.push(Seq::empty()));
            assert forall|a: int, j: int|
                0 <= a < self@.dependents.len() && 0 <= j < self@.dependents[a].len() implies (
            #[trigger] self@.dependents[a][j]) < self@.dependents.len() by {
                assert(self@.dependents[a][j] == old(self)@.dependents[a][j]);
            }
        }
        id
    }

    /// Starts a tracked computation: a new clean observer becomes the
    /// running one. Returns the observer whose computation ran before, and
    /// the new observer.
    fn begin_tracking(&mut self) -> (r: (Option<usize>, ObserverInner))
        requires
            old(self)@.wf(),
        ensures
            final(self)@.wf(),
            final(self)@ == old(self)@.begun(),
            r.0 == old(self)@.scope,
            r.1.id == old(self)@.len(),
    {
        let id = self.add_node(false);
        let resumed = self.scope;
        self.scope = Some(id);
        proof {
            lemma_steps_keep_wf(old(self)@.with_node(false), id as int);
            assert(self@ =~= old(self)@.begun());
        }
        (resumed, ObserverInner { id })
    }

    /// Ends the tracked computation of `observer`: the computation that ran
    /// before runs again, and `observer` is clean.
    fn end_tracking(&mut self, resumed: Option<usize>, observer: ObserverInner)
        requires
            old(self)@.wf(),
            observer.id < old(self)@.len(),
            resumed is Some ==> resumed->Some_0 < old(self)@.len(),
        ensures
            final(self)@.wf(),
            final(self)@ == old(self)@.ended(resumed, observer.id as int),
    {
        self.scope = resumed;
        self.dirty.set(observer.id, false);
        proof {
            assert(self@.dependents =~= old(self)@.dependents);
            assert(self@ =~= old(self)@.ended(resumed, observer.id as int));
        }
    }

    /// Starts a tracked computation: a new clean observer becomes the
    /// running one, and every read is recorded for it until the computation
    /// is ended.
    pub fn begin(&mut self) -> (r: Pending)
        requires
            old(self)@.wf(),
        ensures
            final(self)@.wf(),
            final(self)@ == old(self)@.begun(),
            r.resumed() == old(self)@.scope,
            r.observer() == old(self)@.len(),
    {
        let (resumed, observer) = self.begin_tracking();
        Pending { resumed, observer }
    }

    /// Ends the tracked computation `pending`: the computation that ran
    /// before runs again, and the observer of `pending` is clean. Returns
    /// the observer.
    pub fn end(&mut self, pending: Pending) -> (r: ObserverInner)
        requires
            old(self)@.wf(),
            pending.observer() < old(self)@.len(),
            pending.resumed() is Some ==> pending.resumed()->Some_0 < old(self)@.len(),
        ensures
            final(self)@.wf(),
            final(self)@ == old(self)@.ended(pending.resumed(), pending.observer() as int),
            r.spec_id() == pending.observer(),
    {
        self.end_tracking(pending.resumed, pending.observer);
        pending.observer
    }

    /// Marks every clean live dependent of `node` dirty and pushes it on
    /// `to_visit`.
    fn mark_and_push_children(&mut self, to_visit: &mut Vec<usize>, node: usize)
        requires
            old(self)@.wf(),
            node < old(self)@.len(),
        ensures
            final(self)@.wf(),
            final(self)@.dependents == old(self)@.dependents,
            final(self)@.live == old(self)@.live,
            final(self)@.scope == old(self)@.scope,
            final(self)@.dirty.len() == old(self)@.dirty.len(),
            forall|n: int|
                0 <= n < old(self)@.len() ==> (#[trigger] final(self)@.dirty[n]) == (old(
                    self)@.dirty[n] || (old(self)@.edge(node as int, n) && old(self)@.live[n])),
            final(to_visit)@.len() >= old(to_visit)@.len(),
            final(to_visit)@.subrange(0, old(to_visit)@.len() as int) == old(to_visit)@,
            forall|k: int|
                old(to_visit)@.len() <= k < final(to_visit)@.len() ==> {
                    &&& (#[trigger] final(to_visit)@[k]) < old(self)@.len()
                    &&& !old(self)@.dirty[final(to_visit)@[k] as int]
                    &&& final(self)@.dirty[final(to_visit)@[k] as int]
                },
            forall|n: int|
                0 <= n < old(self)@.len() && final(self)@.dirty[n] && !old(self)@.dirty[n]
                    ==> exists|k: int|
                    old(to_visit)@.len() <= k < final(to_visit)@.len() && #[trigger] final(to_visit)@[k] == n,
            final(self)@.clean_below(old(self)@.len() as int) + final(to_visit)@.len()
                == old(self)@.clean_below(old(self)@.len() as int) + old(to_visit)@.len(),
    {
        let count = self.dependents[node].len();
        let mut i: usize = 0;
        while i < count
            invariant
                old(self)@.wf(),
                self@.wf(),
                node < self@.len(),
                self.dependents@ == old(self).dependents@,
                self.live@ == old(self).live@,
                self.scope == old(self).scope,
                self.dirty@.len() == old(self).dirty@.len(),
                count == self.dependents@[node as int]@.len(),
                i <= count,
                forall|n: int|
                    0 <= n < self.dirty@.len() ==> (#[trigger] self.dirty@[n]) == (old(
                        self).dirty@[n] || (self.live@[n] && exists|j: int|
                        0 <= j < i && self.dependents@[node as int]@[j] == n)),
                to_visit@.len() >= old(to_visit)@.len(),
                to_visit@.subrange(0, old(to_visit)@.len() as int) == old(to_visit)@,
                forall|k: int|
                    old(to_visit)@.len() <= k < to_visit@.len() ==> {
                        &&& (#[trigger] to_visit@[k]) < self.dirty@.len()
                        &&& !old(self).dirty@[to_visit@[k] as int]
                        &&& self.dirty@[to_visit@[k] as int]
                    },
                forall|n: int|
                    0 <= n < self.dirty@.len() && self.dirty@[n] && !old(self).dirty@[n]
                        ==> exists|k: int|
                        old(to_visit)@.len() <= k < to_visit@.len() && #[trigger] to_visit@[k]
                            == n,
                self@.clean_below(self.dirty@.len() as int) + to_visit@.len()
                    == old(self)@.clean_below(self.dirty@.len() as int) + old(to_visit)@.len(),
            decreases count - i,
        {
            let observer = self.dependents[node][i];
            proof {
                assert(self@.dependents[node as int][i as int] == observer);
            }
            if self.live[observer] && !self.dirty[observer] {
                let ghost before = self@;
                let ghost stack = to_visit@;
                self.dirty.set(observer, true);
                to_visit.push(observer);
                proof {
                    assert(self@.dependents =~= before.dependents);
                    lemma_clean_below_marked(
                        before,
                        self@,
                        observer as int,
                        self.dirty@.len() as int,
                    );
                    assert forall|n: int|
                        0 <= n < self.dirty@.len() && self.dirty@[n] && !old(self).dirty@[n] implies exists|k: int|
                        old(to_visit)@.len() <= k < to_visit@.len() && #[trigger] to_visit@[k]
                            == n by {
                        if n == observer {
                            assert(to_visit@[stack.len() as int] == n);
                        } else {
                            let k = choose|k: int|
                                old(to_visit)@.len() <= k < stack.len() && #[trigger] stack[k]
                                    == n;
                            assert(to_visit@[k] == n);
                        }
                    }
                    assert(to_visit@.subrange(0, old(to_visit)@.len() as int) =~= stack.subrange(
                        0,
                        old(to_visit)@.len() as int,
                    ));
                }
            }
            i = i + 1;
        }
        proof {
            assert(self@.dependents =~= old(self)@.dependents);
            let listed = self.dependents@[node as int]@;
            assert(old(self)@.dependents[node as int] == listed);
            assert forall|n: int| 0 <= n < old(self)@.len() implies (#[trigger] self@.dirty[n]) == (
            old(self)@.dirty[n] || (old(self)@.edge(node as int, n) && old(self)@.live[n])) by {
                if old(self)@.edge(node as int, n) {
                    let j = choose|j: int| 0 <= j < listed.len() && listed[j] == n;
                    assert(0 <= j < i && self.dependents@[node as int]@[j] == n);
                }
            }
        }
    }

    /// Marks every observer that a write to `node` reaches dirty, and
    /// changes nothing else.
    fn trigger_node(&mut self, node: usize)
        requires
            old(self)@.wf(),
            node < old(self)@.len(),
        ensures
            final(self)@.wf(),
            final(self)@ == old(self)@.triggered(node as int),
    {
        let ghost g = self@;
        let mut to_visit: Vec<usize> = Vec::new();
        self.mark_and_push_children(&mut to_visit, node);
        proof {
            assert forall|n: int|
                0 <= n < g.len() && (#[trigger] self@.dirty[n]) && !g.dirty[n] implies g.reached(
                node as int,
                n,
            ) by {
                lemma_reached_first(g, node as int, n);
            }
        }
        while to_visit.len() > 0
            invariant
                g.wf(),
                g == old(self)@,
                self@.wf(),
                node < g.len(),
                self@.dependents == g.dependents,
                self@.live == g.live,
                self@.scope == g.scope,
                self@.dirty.len() == g.dirty.len(),
                forall|n: int| 0 <= n < g.len() && g.dirty[n] ==> #[trigger] self@.dirty[n],
                forall|n: int|
                    0 <= n < g.len() && (#[trigger] self@.dirty[n]) && !g.dirty[n] ==> g.reached(
                        node as int,
                        n,
                    ),
                forall|k: int|
                    0 <= k < to_visit@.len() ==> {
                        &&& (#[trigger] to_visit@[k]) < g.len()
                        &&& self@.dirty[to_visit@[k] as int]
                        &&& !g.dirty[to_visit@[k] as int]
                    },
                forall|n: int| g.edge(node as int, n) && g.clean(n) ==> self@.dirty[n],
                forall|a: int, n: int|
                    0 <= a < g.len() && self@.dirty[a] && g.clean(a) && #[trigger] g.edge(a, n)
                        && g.clean(n) ==> self@.dirty[n] || exists|k: int|
                        0 <= k < to_visit@.len() && #[trigger] to_visit@[k] == a,
            decreases self@.clean_below(g.len() as int) + to_visit@.len(),
        {
            let ghost stack = to_visit@;
            let ghost marks = self@;
            let next = match to_visit.pop() {
                Some(next) => next,
                None => 0,
            };
            proof {
                assert(stack[stack.len() - 1] == next);
                assert(to_visit@ =~= stack.subrange(0, stack.len() - 1));
            }
            let ghost popped = to_visit@;
            self.mark_and_push_children(&mut to_visit, next);
            proof {
                assert forall|k: int| 0 <= k < popped.len() implies to_visit@[k] == popped[k] by {
                    assert(to_visit@.subrange(0, popped.len() as int)[k] == popped[k]);
                }
                assert forall|n: int|
                    0 <= n < g.len() && (#[trigger] self@.dirty[n])
                        && !g.dirty[n] implies g.reached(node as int, n) by {
                    if !marks.dirty[n] {
                        assert(marks.edge(next as int, n));
                        assert(g.edge(next as int, n));
                        lemma_reached_next(g, node as int, next as int, n);
                    }
                }
                assert forall|k: int| 0 <= k < to_visit@.len() implies {
                    &&& (#[trigger] to_visit@[k]) < g.len()
                    &&& self@.dirty[to_visit@[k] as int]
                    &&& !g.dirty[to_visit@[k] as int]
                } by {
                    if k < popped.len() {
                        assert(to_visit@[k] == popped[k]);
                        assert(popped[k] == stack[k]);
                    }
                }
                assert forall|a: int, n: int|
                    0 <= a < g.len() && self@.dirty[a] && g.clean(a) && #[trigger] g.edge(a, n)
                        && g.clean(n) implies self@.dirty[n] || exists|k: int|
                    0 <= k < to_visit@.len() && #[trigger] to_visit@[k] == a by {
                    if a == next {
                        assert(marks.edge(next as int, n));
                    } else if marks.dirty[a] {
                        if !marks.dirty[n] {
                            let k = choose|k: int| 0 <= k < stack.len() && #[trigger] stack[k] == a;
                            assert(k < popped.len());
                            assert(to_visit@[k] == popped[k]);
                            assert(popped[k] == stack[k]);
                        }
                    } else {
                        let k = choose|k: int|
                            popped.len() <= k < to_visit@.len() && #[trigger] to_visit@[k] == a;
                    }
                }
            }
        }
        proof {
            assert forall|n: int| 0 <= n < g.len() implies (#[trigger] self@.dirty[n]) == (g.dirty[n]
                || g.reached(node as int, n)) by {
                if g.reached(node as int, n) {
                    let path = choose|path: Seq<int>|
                        #[trigger] g.is_path(node as int, path) && path.last() == n;
                    assert forall|a: int, m: int|
                        0 <= a < self@.dirty.len() && self@.dirty[a] && g.clean(a)
                            && #[trigger] g.edge(a, m) && g.clean(m) implies self@.dirty[m] by {
                        if !self@.dirty[m] {
                            let k = choose|k: int|
                                0 <= k < to_visit@.len() && #[trigger] to_visit@[k] == a;
                        }
                    }
                    lemma_reached_closed(g, node as int, self@.dirty, path, path.len() - 1);
                }
            }
            assert(self@.dirty =~= g.triggered(node as int).dirty);
        }
    }
}

impl Graph {
    /// Whether `self` has every node of `before`, and every list of
    /// dependents of `before` at the start of its own: nothing was taken out
    /// of the graph.
    pub open spec fn extends(self, before: Graph) -> bool {
        &&& self.dependents.len() >= before.dependents.len()
        &&& forall|a: int|
            0 <= a < before.dependents.len() ==> before.dependents[a].is_prefix_of(
                #[trigger] self.dependents[a],
            )
    }
}

/// No step takes anything out of the graph.
pub proof fn lemma_steps_extend(g: Graph, node: int, resumed: Option<usize>)
    requires
        g.wf(),
        0 <= node < g.len(),
    ensures
        g.extends(g),
        g.registered(node).extends(g),
        g.triggered(node).extends(g),
        g.marked_dirty(node).extends(g),
        g.released(node).extends(g),
        g.with_node(false).extends(g),
        g.with_node(true).extends(g),
        g.begun().extends(g),
        g.ended(resumed, node).extends(g),
{
}

/// What was not taken out at either of two steps was not taken out at all,
/// and a dependent stays a dependent.
pub proof fn lemma_extends_onwards(first: Graph, second: Graph, third: Graph)
    requires
        second.extends(first),
        third.extends(second),
    ensures
        third.extends(first),
        forall|a: int, n: int| first.edge(a, n) ==> #[trigger] third.edge(a, n),
{
    assert forall|a: int| 0 <= a < first.dependents.len() implies first.dependents[a].is_prefix_of(
        #[trigger] third.dependents[a],
    ) by {
        assert(first.dependents[a].is_prefix_of(second.dependents[a]));
        assert(second.dependents[a].is_prefix_of(third.dependents[a]));
    }
    assert forall|a: int, n: int| first.edge(a, n) implies #[trigger] third.edge(a, n) by {
        let j = choose|j: int| 0 <= j < first.dependents[a].len() && first.dependents[a][j] == n;
        assert(first.dependents[a].is_prefix_of(third.dependents[a]));
        assert(third.dependents[a][j] == n);
    }
}

/// A dependent stays a dependent as long as nothing is taken out of the
/// graph.
pub proof fn lemma_edges_kept(before: Graph, after: Graph)
    requires
        after.extends(before),
    ensures
        forall|a: int, n: int| before.edge(a, n) ==> #[trigger] after.edge(a, n),
{
    assert forall|a: int, n: int| before.edge(a, n) implies #[trigger] after.edge(a, n) by {
        let j = choose|j: int| 0 <= j < before.dependents[a].len() && before.dependents[a][j] == n;
        assert(before.dependents[a].is_prefix_of(after.dependents[a]));
        assert(after.dependents[a][j] == n);
    }
}

/// Reading, triggering and marking keep a well-formed graph well-formed.
pub proof fn lemma_steps_keep_wf(g: Graph, node: int)
    requires
        g.wf(),
        0 <= node < g.len(),
    ensures
        g.registered(node).wf(),
        g.triggered(node).wf(),
        g.marked_dirty(node).wf(),
        g.released(node).wf(),
        g.with_node(false).wf(),
        g.with_node(true).wf(),
        g.begun().wf(),
{
    let r = g.registered(node);
    assert forall|a: int, j: int|
        0 <= a < r.dependents.len() && 0 <= j < r.dependents[a].len() implies (
    #[trigger] r.dependents[a][j]) < r.dependents.len() by {
        if g.scope is Some && a == node && j == g.dependents[node].len() {
        } else {
            assert(r.dependents[a][j] == g.dependents[a][j]);
        }
    }
    let w = g.with_node(false);
    assert forall|a: int, j: int|
        0 <= a < w.dependents.len() && 0 <= j < w.dependents[a].len() implies (
    #[trigger] w.dependents[a][j]) < w.dependents.len() by {
        assert(w.dependents[a][j] == g.dependents[a][j]);
    }
    assert(g.with_node(true).dependents == w.dependents);
}

impl ObservableInner {
    /// The index of the node.
    pub closed spec fn spec_id(&self) -> usize {
        self.id
    }

    /// The index of the node.
    #[verifier::when_used_as_spec(spec_id)]
    pub fn id(&self) -> (r: usize)
        ensures
            r == self.spec_id(),
    {
        self.id
    }

    /// Adds an observable that nothing depends on yet.
    pub fn new(tracker: &mut Tracker) -> (r: ObservableInner)
        requires
            old(tracker)@.wf(),
        ensures
            final(tracker)@.wf(),
            r.spec_id() == old(tracker)@.len(),
            final(tracker)@ == old(tracker)@.with_node(false),
    {
        ObservableInner { id: tracker.add_node(false) }
    }

    /// Records a read: where a computation is running, its observer is
    /// added to the dependents of this observable. Otherwise nothing
    /// changes.
    pub fn register(&self, tracker: &mut Tracker)
        requires
            old(tracker)@.wf(),
            self.spec_id() < old(tracker)@.len(),
        ensures
            final(tracker)@.wf(),
            final(tracker)@ == old(tracker)@.registered(self.spec_id() as int),
    {
        match tracker.scope {
            Some(observer) => {
                let mut list: Vec<usize> = Vec::new();
                std::mem::swap(&mut list, &mut tracker.dependents[self.id]);
                list.push(observer);
                std::mem::swap(&mut list, &mut tracker.dependents[self.id]);
                proof {
                    lemma_steps_keep_wf(old(tracker)@, self.id as int);
                    assert(tracker@.dependents =~= old(tracker)@.registered(
                        self.id as int,
                    ).dependents);
                }
            },
            None => {},
        }
    }

    /// Records a write: every observer that the write reaches is marked
    /// dirty. An observer is reached where a chain of reads leads from this
    /// observable to it over clean live observers; the marking stops at an
    /// observer that is dirty already.
    pub fn trigger(&self, tracker: &mut Tracker)
        requires
            old(tracker)@.wf(),
            self.spec_id() < old(tracker)@.len(),
        ensures
            final(tracker)@.wf(),
            final(tracker)@ == old(tracker)@.triggered(self.spec_id() as int),
    {
        tracker.trigger_node(self.id);
    }
}

impl ObserverInner {
    /// The index of the node.
    pub closed spec fn spec_id(&self) -> usize {
        self.id
    }

    /// The index of the node.
    #[verifier::when_used_as_spec(spec_id)]
    pub fn id(&self) -> (r: usize)
        ensures
            r == self.spec_id(),
    {
        self.id
    }

    /// Adds an observer that depends on nothing yet and that nothing
    /// depends on.
    pub fn new(tracker: &mut Tracker, starting: Dirtiness) -> (r: ObserverInner)
        requires
            old(tracker)@.wf(),
        ensures
            final(tracker)@.wf(),
            r.spec_id() == old(tracker)@.len(),
            final(tracker)@ == old(tracker)@.with_node(starting == Dirtiness::Dirty),
    {
        ObserverInner { id: tracker.add_node(starting.is_dirty()) }
    }

    /// The observer as something that others read.
    pub fn as_observable(&self) -> (r: ObservableInner)
        ensures
            r.spec_id() == self.spec_id(),
    {
        ObservableInner { id: self.id }
    }

    /// Runs `f` as the computation of a new observer: while `f` runs, every
    /// read is recorded for the new observer; afterwards the computation
    /// that ran before runs again, and the new observer is clean. Returns
    /// the observer and what `f` returned.
    pub fn run_and_track<T, F: FnOnce(&mut Tracker) -> T>(tracker: &mut Tracker, f: F) -> (r: (
        ObserverInner,
        T,
    ))
        requires
            old(tracker)@.wf(),
            forall|t: &mut Tracker|
                t@ == old(tracker)@.begun() ==> #[trigger] call_requires(f, (t,)),
            forall|t: &mut Tracker, v: T|
                t@ == old(tracker)@.begun() && #[trigger] call_ensures(f, (t,), v)
                    ==> final(t)@.wf() && final(t)@.len() >= t@.len(),
        ensures
            final(tracker)@.wf(),
            r.0.spec_id() == old(tracker)@.len(),
            exists|t: &mut Tracker, value: T|
                {
                    &&& value == r.1
                    &&& t@ == old(tracker)@.begun()
                    &&& #[trigger] call_ensures(f, (t,), value)
                    &&& final(tracker)@ == final(t)@.ended(
                        old(tracker)@.scope,
                        old(tracker)@.len() as int,
                    )
                },
    {
        let (resumed, observer) = tracker.begin_tracking();
        let value = f(tracker);
        tracker.end_tracking(resumed, observer);
        (observer, value)
    }

    /// Whether the observer is dirty.
    pub fn is_dirty(&self, tracker: &Tracker) -> (r: bool)
        requires
            tracker@.wf(),
            self.spec_id() < tracker@.len(),
        ensures
            r == tracker@.dirty[self.spec_id() as int],
    {
        tracker.dirty[self.id]
    }

    /// Marks the observer dirty. Where it was clean, its own dependents are
    /// triggered; where it was dirty, nothing changes.
    pub fn mark_dirty(&self, tracker: &mut Tracker)
        requires
            old(tracker)@.wf(),
            self.spec_id() < old(tracker)@.len(),
        ensures
            final(tracker)@.wf(),
            final(tracker)@ == old(tracker)@.marked_dirty(self.spec_id() as int),
    {
        let was_dirty = tracker.dirty[self.id];
        tracker.dirty.set(self.id, true);
        if !was_dirty {
            proof {
                assert(tracker@ =~= (Graph {
                    dirty: old(tracker)@.dirty.update(self.id as int, true),
                    ..old(tracker)@
                }));
            }
            tracker.trigger_node(self.id);
        } else {
            proof {
                assert(tracker@.dirty =~= old(tracker)@.dirty);
                assert(tracker@.dependents =~= old(tracker)@.dependents);
            }
        }
    }

    /// Gives the observer up: the entries that name it no longer count.
    pub fn release(self, tracker: &mut Tracker)
        requires
            old(tracker)@.wf(),
            self.spec_id() < old(tracker)@.len(),
        ensures
            final(tracker)@.wf(),
            final(tracker)@ == old(tracker)@.released(self.spec_id() as int),
    {
        tracker.live.set(self.id, false);
        proof {
            assert(tracker@ =~= old(tracker)@.released(self.id as int));
        }
    }
}

/// A value that a tracked computation can read.
pub trait ReadableSignal<T: Clone> {
    /// The node with which a read is registered.
    spec fn node(&self) -> usize;

    /// The value that a read hands out.
    spec fn current(&self) -> T;

    /// Registers a read and returns a clone of the value.
    fn get(&self, tracker: &mut Tracker) -> (r: T)
        requires
            old(tracker)@.wf(),
            self.node() < old(tracker)@.len(),
        ensures
            final(tracker)@.wf(),
            final(tracker)@ == old(tracker)@.registered(self.node() as int),
            cloned(self.current(), r),
    ;

    /// Returns a clone of the value and registers nothing.
    fn get_untracked(&self) -> (r: T)
        ensures
            cloned(self.current(), r),
    ;

    /// Registers a read.
    fn track(&self, tracker: &mut Tracker)
        requires
            old(tracker)@.wf(),
            self.node() < old(tracker)@.len(),
        ensures
            final(tracker)@.wf(),
            final(tracker)@ == old(tracker)@.registered(self.node() as int),
    ;
}

/// A value that can be written.
pub trait WritableSignal<T> {
    /// The node that a write triggers.
    spec fn target(&self) -> usize;

    /// The value that was written last.
    spec fn written(&self) -> T;

    /// Replaces the value and triggers nothing.
    fn set_untracked(&mut self, value: T)
        ensures
            final(self).written() == value,
            final(self).target() == old(self).target(),
    ;

    /// Replaces the value, then triggers the dependents.
    fn set(&mut self, tracker: &mut Tracker, value: T)
        requires
            old(tracker)@.wf(),
            old(self).target() < old(tracker)@.len(),
        ensures
            final(self).written() == value,
            final(self).target() == old(self).target(),
            final(tracker)@.wf(),
            final(tracker)@ == old(tracker)@.triggered(old(self).target() as int),
    ;

    /// Lets `f` change the value and triggers nothing.
    fn update_untracked<O, F: FnOnce(&mut T) -> O>(&mut self, f: F) -> (r: O)
        requires
            forall|v: &mut T| *v == old(self).written() ==> #[trigger] call_requires(f, (v,)),
        ensures
            final(self).target() == old(self).target(),
            exists|v: &mut T, out: O|
                {
                    &&& out == r
                    &&& *v == old(self).written()
                    &&& #[trigger] call_ensures(f, (v,), out)
                    &&& final(self).written() == *final(v)
                },
    ;

    /// Lets `f` change the value, then triggers the dependents.
    fn update<O, F: FnOnce(&mut T) -> O>(&mut self, tracker: &mut Tracker, f: F) -> (r: O)
        requires
            old(tracker)@.wf(),
            old(self).target() < old(tracker)@.len(),
            forall|v: &mut T| *v == old(self).written() ==> #[trigger] call_requires(f, (v,)),
        ensures
            final(self).target() == old(self).target(),
            final(tracker)@.wf(),
            final(tracker)@ == old(tracker)@.triggered(old(self).target() as int),
            exists|v: &mut T, out: O|
                {
                    &&& out == r
                    &&& *v == old(self).written()
                    &&& #[trigger] call_ensures(f, (v,), out)
                    &&& final(self).written() == *final(v)
                },
    ;
}

/// A value with the observable that stands for it.
pub struct SignalInner<T> {
    as_observable: ObservableInner,
    value: T,
}

impl<T> SignalInner<T> {
    fn new(tracker: &mut Tracker, value: T) -> (r: SignalInner<T>)
        requires
            old(tracker)@.wf(),
        ensures
            final(tracker)@.wf(),
            final(tracker)@ == old(tracker)@.with_node(false),
            r.as_observable.spec_id() == old(tracker)@.len(),
            r.value == value,
    {
        SignalInner { as_observable: ObservableInner::new(tracker), value }
    }
}

/// A value that the application writes and that tracked computations read.
pub struct RwSignal<T> {
    inner: SignalInner<T>,
}

impl<T> RwSignal<T> {
    /// The node of the signal.
    pub closed spec fn spec_node(&self) -> usize {
        self.inner.as_observable.spec_id()
    }

    /// The value of the signal.
    pub closed spec fn value(&self) -> T {
        self.inner.value
    }

    /// A signal with the given value, which nothing depends on yet.
    pub fn new(tracker: &mut Tracker, value: T) -> (r: RwSignal<T>)
        requires
            old(tracker)@.wf(),
        ensures
            final(tracker)@.wf(),
            final(tracker)@ == old(tracker)@.with_node(false),
            r.spec_node() == old(tracker)@.len(),
            r.value() == value,
    {
        RwSignal { inner: SignalInner::new(tracker, value) }
    }

    /// Hands the value to `f`, then registers the read. Returns what `f`
    /// returned.
    pub fn with<O, F: FnOnce(&T) -> O>(&self, tracker: &mut Tracker, f: F) -> (r: O)
        requires
            old(tracker)@.wf(),
            self.spec_node() < old(tracker)@.len(),
            call_requires(f, (&self.value(),)),
        ensures
            call_ensures(f, (&self.value(),), r),
            final(tracker)@.wf(),
            final(tracker)@ == old(tracker)@.registered(self.spec_node() as int),
    {
        let value = f(&self.inner.value);
        self.inner.as_observable.register(tracker);
        value
    }

    /// Lets `f` change the value, then triggers the dependents.
    pub fn update<F: FnOnce(&mut T)>(&mut self, tracker: &mut Tracker, f: F)
        requires
            old(tracker)@.wf(),
            old(self).spec_node() < old(tracker)@.len(),
            forall|v: &mut T| *v == old(self).value() ==> #[trigger] call_requires(f, (v,)),
        ensures
            final(self).spec_node() == old(self).spec_node(),
            final(tracker)@.wf(),
            final(tracker)@ == old(tracker)@.triggered(old(self).spec_node() as int),
            exists|v: &mut T|
                {
                    &&& *v == old(self).value()
                    &&& #[trigger] call_ensures(f, (v,), ())
                    &&& final(self).value() == *final(v)
                },
    {
        f(&mut self.inner.value);
        self.inner.as_observable.trigger(tracker);
    }
}

impl<T: Clone> ReadableSignal<T> for RwSignal<T> {
    open spec fn node(&self) -> usize {
        self.spec_node()
    }

    open spec fn current(&self) -> T {
        self.value()
    }

    fn get(&self, tracker: &mut Tracker) -> (r: T) {
        self.inner.as_observable.register(tracker);
        self.inner.value.clone()
    }

    fn get_untracked(&self) -> (r: T) {
        self.inner.value.clone()
    }

    fn track(&self, tracker: &mut Tracker) {
        self.inner.as_observable.register(tracker);
    }
}

impl<T> WritableSignal<T> for RwSignal<T> {
    open spec fn target(&self) -> usize {
        self.spec_node()
    }

    open spec fn written(&self) -> T {
        self.value()
    }

    fn set_untracked(&mut self, value: T) {
        self.inner.value = value;
    }

    fn set(&mut self, tracker: &mut Tracker, value: T) {
        self.inner.value = value;
        self.inner.as_observable.trigger(tracker);
    }

    fn update_untracked<O, F: FnOnce(&mut T) -> O>(&mut self, f: F) -> (r: O) {
        f(&mut self.inner.value)
    }

    fn update<O, F: FnOnce(&mut T) -> O>(&mut self, tracker: &mut Tracker, f: F) -> (r: O) {
        let out = f(&mut self.inner.value);
        self.inner.as_observable.trigger(tracker);
        out
    }
}

/// A value that is computed by a function handed in at each update, and
/// recomputed only while it is dirty.
pub struct Computed<V> {
    as_observer: ObserverInner,
    value: V,
}

impl<V: Default> Computed<V> {
    /// A dirty cell that holds the default value.
    pub fn new(tracker: &mut Tracker) -> (r: Computed<V>)
        requires
            old(tracker)@.wf(),
        ensures
            final(tracker)@.wf(),
            final(tracker)@ == old(tracker)@.with_node(true),
            r.spec_node() == old(tracker)@.len(),
            call_ensures(V::default, (), r.value()),
    {
        Computed::new_with_initial(tracker, V::default())
    }
}

impl<V> Computed<V> {
    /// The observer that stands for the cell at present.
    pub closed spec fn spec_node(&self) -> usize {
        self.as_observer.spec_id()
    }

    /// The cached value.
    pub closed spec fn value(&self) -> V {
        self.value
    }

    /// A dirty cell that holds `initial`.
    pub fn new_with_initial(tracker: &mut Tracker, initial: V) -> (r: Computed<V>)
        requires
            old(tracker)@.wf(),
        ensures
            final(tracker)@.wf(),
            final(tracker)@ == old(tracker)@.with_node(true),
            r.spec_node() == old(tracker)@.len(),
            r.value() == initial,
    {
        Computed { as_observer: ObserverInner::new(tracker, Dirtiness::Dirty), value: initial }
    }

    /// Whether the value has to be recomputed.
    pub fn is_dirty(&self, tracker: &Tracker) -> (r: bool)
        requires
            tracker@.wf(),
            self.spec_node() < tracker@.len(),
        ensures
            r == tracker@.dirty[self.spec_node() as int],
    {
        self.as_observer.is_dirty(tracker)
    }

    /// Marks the cell dirty, and with it whatever depends on it.
    pub fn invalidate(&self, tracker: &mut Tracker)
        requires
            old(tracker)@.wf(),
            self.spec_node() < old(tracker)@.len(),
        ensures
            final(tracker)@.wf(),
            final(tracker)@ == old(tracker)@.marked_dirty(self.spec_node() as int),
    {
        self.as_observer.mark_dirty(tracker);
    }

    /// Recomputes the value if the cell is dirty. Then `f` runs as the
    /// computation of a new observer, which replaces that of the cell, and
    /// what `f` returned becomes the value; the observer that was replaced
    /// ceases to exist, and the cell is clean. A clean cell stays as it is,
    /// and `f` does not run.
    pub fn maybe_update<F: FnOnce(&mut Tracker) -> V>(&mut self, tracker: &mut Tracker, f: F)
        requires
            old(tracker)@.wf(),
            old(self).spec_node() < old(tracker)@.len(),
            forall|t: &mut Tracker|
                t@ == old(tracker)@.begun() ==> #[trigger] call_requires(f, (t,)),
            forall|t: &mut Tracker, v: V|
                t@ == old(tracker)@.begun() && #[trigger] call_ensures(f, (t,), v) ==> final(t)@.wf()
                    && final(t)@.len() >= t@.len(),
        ensures
            final(tracker)@.wf(),
            final(self).spec_node() < final(tracker)@.len(),
            !old(tracker)@.dirty[old(self).spec_node() as int] ==> {
                &&& final(tracker)@ == old(tracker)@
                &&& final(self).spec_node() == old(self).spec_node()
                &&& final(self).value() == old(self).value()
            },
            old(tracker)@.dirty[old(self).spec_node() as int] ==> {
                &&& final(self).spec_node() == old(tracker)@.len()
                &&& !final(tracker)@.dirty[final(self).spec_node() as int]
                &&& exists|t: &mut Tracker, value: V|
                    {
                        &&& value == final(self).value()
                        &&& t@ == old(tracker)@.begun()
                        &&& #[trigger] call_ensures(f, (t,), value)
                        &&& final(tracker)@ == final(t)@.ended(
                            old(tracker)@.scope,
                            old(tracker)@.len() as int,
                        ).released(old(self).spec_node() as int)
                    }
            },
    {
        if self.is_dirty(tracker) {
            self.as_observer.mark_dirty(tracker);
            let (observer, value) = ObserverInner::run_and_track(tracker, f);
            self.install(tracker, observer, value);
        }
    }

    /// Makes `value` the value and `observer` the observer of the cell. The
    /// observer that was replaced ceases to exist.
    pub fn install(&mut self, tracker: &mut Tracker, observer: ObserverInner, value: V)
        requires
            old(tracker)@.wf(),
            old(self).spec_node() < old(tracker)@.len(),
            observer.spec_id() < old(tracker)@.len(),
        ensures
            final(tracker)@.wf(),
            final(tracker)@ == old(tracker)@.released(old(self).spec_node() as int),
            final(self).spec_node() == observer.spec_id(),
            final(self).value() == value,
    {
        self.value = value;
        let replaced = self.as_observer;
        self.as_observer = observer;
        proof {
            lemma_steps_keep_wf(tracker@, replaced.spec_id() as int);
        }
        replaced.release(tracker);
    }

    /// How many reads were recorded for the observer of the cell, counted
    /// up to the largest `usize`, see [`Tracker::count_reads`].
    pub fn count_observers(&self, tracker: &Tracker) -> (r: usize)
        ensures
            r == if count_listed(tracker@.dependents, self.spec_node() as int, tracker@.len() as int)
                <= usize::MAX {
                count_listed(
                    tracker@.dependents,
                    self.spec_node() as int,
                    tracker@.len() as int,
                ) as int
            } else {
                usize::MAX as int
            },
    {
        tracker.count_reads(self.as_observer.id)
    }

    /// The cached value.
    pub fn peek(&self) -> (r: &V)
        ensures
            *r == self.value(),
    {
        &self.value
    }
}

impl<V: Clone> ReadableSignal<V> for Computed<V> {
    open spec fn node(&self) -> usize {
        self.spec_node()
    }

    open spec fn current(&self) -> V {
        self.value()
    }

    fn get(&self, tracker: &mut Tracker) -> (r: V) {
        self.as_observer.as_observable().register(tracker);
        self.get_untracked()
    }

    fn get_untracked(&self) -> (r: V) {
        self.value.clone()
    }

    fn track(&self, tracker: &mut Tracker) {
        self.as_observer.as_observable().register(tracker);
    }
}

/// A value that is computed from a model by a function of its own, and
/// recomputed only while it is dirty.
pub struct Derived<A, V, F> {
    as_observer: ObserverInner,
    value: V,
    compute: F,
    model: PhantomData<A>,
}

impl<A, V: Default, F: Fn(&mut Tracker, &mut A) -> V> Derived<A, V, F> {
    /// A dirty cell that holds the default value.
    pub fn new(tracker: &mut Tracker, compute: F) -> (r: Derived<A, V, F>)
        requires
            old(tracker)@.wf(),
        ensures
            final(tracker)@.wf(),
            final(tracker)@ == old(tracker)@.with_node(true),
            r.spec_node() == old(tracker)@.len(),
            r.compute() == compute,
            call_ensures(V::default, (), r.value()),
    {
        Derived::new_with_initial(tracker, V::default(), compute)
    }
}

impl<A, V, F: Fn(&mut Tracker, &mut A) -> V> Derived<A, V, F> {
    /// The observer that stands for the cell at present.
    pub closed spec fn spec_node(&self) -> usize {
        self.as_observer.spec_id()
    }

    /// The cached value.
    pub closed spec fn value(&self) -> V {
        self.value
    }

    /// The function that computes the value.
    pub closed spec fn compute(&self) -> F {
        self.compute
    }

    /// A dirty cell that holds `initial`.
    pub fn new_with_initial(tracker: &mut Tracker, initial: V, compute: F) -> (r: Derived<A, V, F>)
        requires
            old(tracker)@.wf(),
        ensures
            final(tracker)@.wf(),
            final(tracker)@ == old(tracker)@.with_node(true),
            r.spec_node() == old(tracker)@.len(),
            r.value() == initial,
            r.compute() == compute,
    {
        Derived {
            as_observer: ObserverInner::new(tracker, Dirtiness::Dirty),
            value: initial,
            compute,
            model: PhantomData,
        }
    }

    /// Whether the value has to be recomputed.
    pub fn is_dirty(&self, tracker: &Tracker) -> (r: bool)
        requires
            tracker@.wf(),
            self.spec_node() < tracker@.len(),
        ensures
            r == tracker@.dirty[self.spec_node() as int],
    {
        self.as_observer.is_dirty(tracker)
    }

    /// The cached value.
    pub fn peek(&self) -> (r: &V)
        ensures
            *r == self.value(),
    {
        &self.value
    }

    /// Recomputes the value if the cell is dirty. Then the function of the
    /// cell runs on `model` as the computation of a new observer, which
    /// replaces that of the cell, and what it returned becomes the value;
    /// the observer that was replaced ceases to exist, and the cell is
    /// clean. Returns the value that was replaced and the new one. A clean
    /// cell stays as it is, the function does not run, and `None` is
    /// returned.
    pub fn maybe_update<'a>(&'a mut self, tracker: &mut Tracker, model: &mut A) -> (r: Option<
        (V, &'a V),
    >)
        requires
            old(tracker)@.wf(),
            old(self).spec_node() < old(tracker)@.len(),
            forall|t: &mut Tracker, m: &mut A|
                t@ == old(tracker)@.begun() && *m == *old(model) ==> #[trigger] call_requires(
                    old(self).compute(),
                    (t, m),
                ),
            forall|t: &mut Tracker, m: &mut A, v: V|
                t@ == old(tracker)@.begun() && *m == *old(model) && #[trigger] call_ensures(
                    old(self).compute(),
                    (t, m),
                    v,
                ) ==> final(t)@.wf() && final(t)@.len() >= t@.len(),
        ensures
            final(tracker)@.wf(),
            final(self).spec_node() < final(tracker)@.len(),
            final(self).compute() == old(self).compute(),
            !old(tracker)@.dirty[old(self).spec_node() as int] ==> {
                &&& r is None
                &&& final(tracker)@ == old(tracker)@
                &&& *final(model) == *old(model)
                &&& final(self).spec_node() == old(self).spec_node()
                &&& final(self).value() == old(self).value()
            },
            old(tracker)@.dirty[old(self).spec_node() as int] ==> {
                &&& r is Some
                &&& r->Some_0.0 == old(self).value()
                &&& *r->Some_0.1 == final(self).value()
                &&& final(self).spec_node() == old(tracker)@.len()
                &&& !final(tracker)@.dirty[final(self).spec_node() as int]
                &&& exists|t: &mut Tracker, m: &mut A, value: V|
                    {
                        &&& value == final(self).value()
                        &&& t@ == old(tracker)@.begun()
                        &&& *m == *old(model)
                        &&& #[trigger] call_ensures(old(self).compute(), (t, m), value)
                        &&& *final(model) == *final(m)
                        &&& final(tracker)@ == final(t)@.ended(
                            old(tracker)@.scope,
                            old(tracker)@.len() as int,
                        ).released(old(self).spec_node() as int)
                    }
            },
    {
        if self.as_observer.is_dirty(tracker) {
            self.as_observer.mark_dirty(tracker);
            let (resumed, observer) = tracker.begin_tracking();
            proof {
                assert(old(self).compute() == self.compute);
            }
            let mut value = (self.compute)(tracker, model);
            tracker.end_tracking(resumed, observer);
            std::mem::swap(&mut self.value, &mut value);
            let replaced = self.as_observer;
            self.as_observer = observer;
            proof {
                lemma_steps_keep_wf(tracker@, replaced.spec_id() as int);
            }
            replaced.release(tracker);
            Some((value, &self.value))
        } else {
            None
        }
    }
}

impl<A, V: Clone, F: Fn(&mut Tracker, &mut A) -> V> ReadableSignal<V> for Derived<A, V, F> {
    open spec fn node(&self) -> usize {
        self.spec_node()
    }

    open spec fn current(&self) -> V {
        self.value()
    }

    fn get(&self, tracker: &mut Tracker) -> (r: V) {
        self.as_observer.as_observable().register(tracker);
        self.value.clone()
    }

    fn get_untracked(&self) -> (r: V) {
        self.value.clone()
    }

    fn track(&self, tracker: &mut Tracker) {
        self.as_observer.as_observable().register(tracker);
    }
}

/// A value that is computed from an input, and recomputed only while it is
/// dirty or when the input is another.
pub struct Computed2<I, V> {
    as_observer: ObserverInner,
    input: I,
    value: V,
}

impl<I, V> Computed2<I, V> {
    /// The observer that stands for the cell at present.
    pub closed spec fn spec_node(&self) -> usize {
        self.as_observer.spec_id()
    }

    /// The input of the last computation.
    pub closed spec fn input(&self) -> I {
        self.input
    }

    /// The cached value.
    pub closed spec fn value(&self) -> V {
        self.value
    }

    /// A dirty cell that holds the default input and the default value.
    pub fn new(tracker: &mut Tracker) -> (r: Computed2<I, V>) where I: Default, V: Default
        requires
            old(tracker)@.wf(),
        ensures
            final(tracker)@.wf(),
            final(tracker)@ == old(tracker)@.with_node(true),
            r.spec_node() == old(tracker)@.len(),
            call_ensures(I::default, (), r.input()),
            call_ensures(V::default, (), r.value()),
    {
        Computed2 {
            as_observer: ObserverInner::new(tracker, Dirtiness::Dirty),
            input: I::default(),
            value: V::default(),
        }
    }

    /// A dirty cell that holds `input` and `value`.
    pub fn new_with_initial(tracker: &mut Tracker, input: I, value: V) -> (r: Computed2<I, V>)
        requires
            old(tracker)@.wf(),
        ensures
            final(tracker)@.wf(),
            final(tracker)@ == old(tracker)@.with_node(true),
            r.spec_node() == old(tracker)@.len(),
            r.input() == input,
            r.value() == value,
    {
        Computed2 { as_observer: ObserverInner::new(tracker, Dirtiness::Dirty), input, value }
    }

    /// Whether the value has to be recomputed whatever the input.
    pub fn is_dirty(&self, tracker: &Tracker) -> (r: bool)
        requires
            tracker@.wf(),
            self.spec_node() < tracker@.len(),
        ensures
            r == tracker@.dirty[self.spec_node() as int],
    {
        self.as_observer.is_dirty(tracker)
    }

    /// The cached value.
    pub fn peek(&self) -> (r: &V)
        ensures
            *r == self.value(),
    {
        &self.value
    }

    /// Whether `after` and `after_graph` are the cell and the graph after a
    /// recomputation with `input`, where `before` and `graph` are those
    /// before it and `ran` is the graph as the computation left it: the new
    /// observer has replaced that of the cell and `input` is the input; the
    /// observer that was replaced was marked dirty after the computation had
    /// run, and has ceased to exist.
    pub open spec fn installed(
        before: Self,
        after: Self,
        graph: Graph,
        after_graph: Graph,
        input: I,
        ran: Graph,
    ) -> bool {
        &&& after.spec_node() == graph.len()
        &&& after.input() == input
        &&& after_graph == ran.ended(graph.scope, graph.len() as int).marked_dirty(
            before.spec_node() as int,
        ).released(before.spec_node() as int)
    }

    /// Recomputes the value if `stale` holds. Then `f` runs on `input` as
    /// the computation of a new observer and what it returned becomes the
    /// value, see [`Self::installed`]. Otherwise nothing changes, and `f`
    /// does not run.
    pub fn refresh<F: FnOnce(&mut Tracker, &I) -> V>(
        &mut self,
        tracker: &mut Tracker,
        stale: bool,
        input: I,
        f: F,
    )
        requires
            old(tracker)@.wf(),
            old(self).spec_node() < old(tracker)@.len(),
            forall|t: &mut Tracker|
                t@ == old(tracker)@.begun() ==> #[trigger] call_requires(f, (t, &input)),
            forall|t: &mut Tracker, v: V|
                t@ == old(tracker)@.begun() && #[trigger] call_ensures(f, (t, &input), v)
                    ==> final(t)@.wf() && final(t)@.len() >= t@.len(),
        ensures
            final(tracker)@.wf(),
            final(self).spec_node() < final(tracker)@.len(),
            !stale ==> {
                &&& final(tracker)@ == old(tracker)@
                &&& final(self).spec_node() == old(self).spec_node()
                &&& final(self).input() == old(self).input()
                &&& final(self).value() == old(self).value()
            },
            stale ==> exists|t: &mut Tracker, value: V|
                {
                    &&& value == final(self).value()
                    &&& t@ == old(tracker)@.begun()
                    &&& #[trigger] call_ensures(f, (t, &input), value)
                    &&& Self::installed(
                        *old(self),
                        *final(self),
                        old(tracker)@,
                        final(tracker)@,
                        input,
                        final(t)@,
                    )
                },
    {
        if stale {
            let (resumed, observer) = tracker.begin_tracking();
            let value = f(tracker, &input);
            tracker.end_tracking(resumed, observer);
            proof {
                lemma_steps_keep_wf(tracker@, self.as_observer.spec_id() as int);
            }
            self.as_observer.mark_dirty(tracker);
            self.input = input;
            let replaced = self.as_observer;
            self.as_observer = observer;
            self.value = value;
            proof {
                lemma_steps_keep_wf(tracker@, replaced.spec_id() as int);
            }
            replaced.release(tracker);
        }
    }

    /// Recomputes the value if the cell is dirty or `input` is not equal to
    /// the input of the last computation, as [`Self::refresh`] does. The
    /// cell has a new observer exactly if it was recomputed.
    pub fn maybe_update<F: FnOnce(&mut Tracker, &I) -> V>(
        &mut self,
        tracker: &mut Tracker,
        input: I,
        f: F,
    ) where I: PartialEq
        requires
            old(tracker)@.wf(),
            old(self).spec_node() < old(tracker)@.len(),
            forall|t: &mut Tracker|
                t@ == old(tracker)@.begun() ==> #[trigger] call_requires(f, (t, &input)),
            forall|t: &mut Tracker, v: V|
                t@ == old(tracker)@.begun() && #[trigger] call_ensures(f, (t, &input), v)
                    ==> final(t)@.wf() && final(t)@.len() >= t@.len(),
        ensures
            final(tracker)@.wf(),
            final(self).spec_node() < final(tracker)@.len(),
            final(self).spec_node() == old(self).spec_node() || final(self).spec_node() == old(tracker)@.len(),
            old(tracker)@.dirty[old(self).spec_node() as int] ==> final(self).spec_node() == old(tracker)@.len(),
            I::obeys_eq_spec() ==> (final(self).spec_node() == old(tracker)@.len()) == (
            old(tracker)@.dirty[old(self).spec_node() as int] || !input.eq_spec(
                &old(self).input(),
            )),
            final(self).spec_node() == old(self).spec_node() ==> {
                &&& final(tracker)@ == old(tracker)@
                &&& final(self).input() == old(self).input()
                &&& final(self).value() == old(self).value()
            },
            final(self).spec_node() == old(tracker)@.len() ==> exists|t: &mut Tracker, value: V|
                {
                    &&& value == final(self).value()
                    &&& t@ == old(tracker)@.begun()
                    &&& #[trigger] call_ensures(f, (t, &input), value)
                    &&& Self::installed(
                        *old(self),
                        *final(self),
                        old(tracker)@,
                        final(tracker)@,
                        input,
                        final(t)@,
                    )
                },
    {
        let stale = self.as_observer.is_dirty(tracker) || input != self.input;
        self.refresh(tracker, stale, input, f);
    }
}

impl<I, V: Clone> ReadableSignal<V> for Computed2<I, V> {
    open spec fn node(&self) -> usize {
        self.spec_node()
    }

    open spec fn current(&self) -> V {
        self.value()
    }

    fn get(&self, tracker: &mut Tracker) -> (r: V) {
        self.as_observer.as_observable().register(tracker);
        self.value.clone()
    }

    fn get_untracked(&self) -> (r: V) {
        self.value.clone()
    }

    fn track(&self, tracker: &mut Tracker) {
        self.as_observer.as_observable().register(tracker);
    }
}

/// A list that tracked computations read as a whole.
pub struct TrackedVec<T> {
    inner: RwSignal<Vec<T>>,
}

impl<T> TrackedVec<T> {
    /// The node of the list.
    pub closed spec fn spec_node(&self) -> usize {
        self.inner.spec_node()
    }

    /// The items of the list.
    pub closed spec fn items(&self) -> Seq<T> {
        self.inner.value()@
    }

    /// An empty list, which nothing depends on yet.
    pub fn new(tracker: &mut Tracker) -> (r: TrackedVec<T>)
        requires
            old(tracker)@.wf(),
        ensures
            final(tracker)@.wf(),
            final(tracker)@ == old(tracker)@.with_node(false),
            r.spec_node() == old(tracker)@.len(),
            r.items() == Seq::<T>::empty(),
    {
        TrackedVec { inner: RwSignal::new(tracker, Vec::new()) }
    }

    /// Hands the items to `f`, then registers the read. Returns what `f`
    /// returned.
    pub fn with<O, F: FnOnce(&[T]) -> O>(&self, tracker: &mut Tracker, f: F) -> (r: O)
        requires
            old(tracker)@.wf(),
            self.spec_node() < old(tracker)@.len(),
            forall|items: &[T]| items@ == self.items() ==> #[trigger] call_requires(f, (items,)),
        ensures
            final(tracker)@.wf(),
            final(tracker)@ == old(tracker)@.registered(self.spec_node() as int),
            exists|items: &[T], out: O|
                out == r && items@ == self.items() && #[trigger] call_ensures(f, (items,), out),
    {
        let out = f(self.inner.inner.value.as_slice());
        self.inner.inner.as_observable.register(tracker);
        out
    }

    /// Lets `f` change the items in place, and triggers nothing: the list
    /// keeps its node and the number of its items. What `f` ensures has to
    /// tell that the slice keeps its length, as every mutable slice does.
    pub fn with_mut_untracked<O, F: FnOnce(&mut [T]) -> O>(&mut self, f: F) -> (r: O)
        requires
            forall|items: &mut [T]|
                items@ == old(self).items() ==> #[trigger] call_requires(f, (items,)),
            forall|items: &mut [T], out: O|
                items@ == old(self).items() && #[trigger] call_ensures(f, (items,), out)
                    ==> final(items)@.len() == items@.len(),
        ensures
            final(self).spec_node() == old(self).spec_node(),
            final(self).items().len() == old(self).items().len(),
            exists|items: &mut [T], out: O|
                {
                    &&& out == r
                    &&& items@ == old(self).items()
                    &&& #[trigger] call_ensures(f, (items,), out)
                    &&& final(self).items() == final(items)@
                },
    {
        f(self.inner.inner.value.as_mut_slice())
    }

    /// Appends `item`, then triggers the dependents.
    pub fn push(&mut self, tracker: &mut Tracker, item: T)
        requires
            old(tracker)@.wf(),
            old(self).spec_node() < old(tracker)@.len(),
        ensures
            final(self).spec_node() == old(self).spec_node(),
            final(self).items() == old(self).items().push(item),
            final(tracker)@.wf(),
            final(tracker)@ == old(tracker)@.triggered(old(self).spec_node() as int),
    {
        self.inner.inner.value.push(item);
        self.inner.inner.as_observable.trigger(tracker);
    }
}

/// A new observer stands among the dependents of no node.
pub proof fn lemma_new_observer_unlisted(g: Graph, a: int)
    requires
        g.wf(),
    ensures
        !g.with_node(false).edge(a, g.len() as int),
        !g.with_node(true).edge(a, g.len() as int),
        !g.begun().edge(a, g.len() as int),
{
    let w = g.with_node(false);
    if w.edge(a, g.len() as int) {
        let j = choose|j: int| 0 <= j < w.dependents[a].len() && w.dependents[a][j] == g.len();
        assert(w.dependents[a][j] == g.dependents[a][j]);
    }
    assert(g.with_node(true).dependents == w.dependents);
    assert(g.begun().dependents == w.dependents);
}

/// A write marks every clean live observer that stands among the dependents
/// of what was written: a computation is marked by a write to a cell that it
/// has read.
pub proof fn lemma_listed_is_marked(g: Graph, written: int, observer: int)
    requires
        g.wf(),
        g.edge(written, observer),
        g.clean(observer),
    ensures
        g.triggered(written).dirty[observer],
{
    lemma_reached_first(g, written, observer);
}

/// A write leaves clean every clean observer that stands neither among the
/// dependents of what was written nor among those of an observer that the
/// write reaches. So a computation that has stopped reading a cell is not
/// marked by a write to it: its new observer is listed only where it read.
pub proof fn lemma_unlisted_stays_clean(g: Graph, written: int, observer: int)
    requires
        g.wf(),
        0 <= observer < g.len(),
        !g.dirty[observer],
        !g.edge(written, observer),
        forall|m: int| #[trigger] g.edge(m, observer) ==> !g.reached(written, m),
    ensures
        !g.triggered(written).dirty[observer],
{
    if g.reached(written, observer) {
        lemma_reached_through(g, written, observer);
    }
}

/// A write passes over an observer that has ceased to exist, and over one
/// that is dirty already: neither is reached.
pub proof fn lemma_released_not_reached(g: Graph, written: int, observer: int)
    requires
        g.wf(),
        0 <= observer < g.len(),
        !g.live[observer] || g.dirty[observer],
    ensures
        !g.reached(written, observer),
        g.triggered(written).dirty[observer] == g.dirty[observer],
{
    if g.reached(written, observer) {
        lemma_reached_through(g, written, observer);
    }
}

} // verus!
