//! The root of a widget tree: the layout tree with, for each node, the
//! cached set of interactions of its subtree, kept up to date through the
//! dependency graph.

use crate::interact::{Interaction, InteractSet};
use crate::layout::{ComputedLayout, Layout, LayoutInput};
use crate::math::{Point, Rect, Size, UNBOUNDED};
use crate::style::{ContainerLayoutStyle, LayoutStyle};
use crate::tracking::{
    lemma_edges_kept, lemma_extends_onwards, lemma_steps_extend, lemma_steps_keep_wf, Computed,
    Dirtiness, Graph, ObservableInner, ObserverInner, Tracker,
};
use crate::tree::{is_ancestor_or_self, lemma_ancestor_extend, up, LayoutTree};
use vstd::prelude::*;

verus! {

/// The graph after each of the first `upto` nodes whose flag in `changed`
/// is set was triggered, in the order of the nodes.
pub open spec fn triggered_where(g: Graph, nodes: Seq<usize>, changed: Seq<bool>, upto: int) -> Graph
    decreases upto,
{
    if upto <= 0 {
        g
    } else {
        let before = triggered_where(g, nodes, changed, upto - 1);
        if changed[upto - 1] {
            before.triggered(nodes[upto - 1] as int)
        } else {
            before
        }
    }
}

/// A layout tree with the interactions of its subtrees.
pub struct Root {
    tree: LayoutTree,
    root: usize,
    /// For each node, whether it takes clicks itself.
    clickable: Vec<bool>,
    /// For each node, the observable that stands for its final layout.
    layout_reads: Vec<ObservableInner>,
    /// For each node, the observer of its set of interactions.
    observers: Vec<ObserverInner>,
    /// For each node, its set of interactions as computed last.
    sets: Vec<InteractSet>,
    /// Dirty while anything that was read during the last update has
    /// changed.
    redraw: Computed<()>,
}

impl Root {
    /// The layout tree.
    pub closed spec fn spec_tree(&self) -> LayoutTree {
        self.tree
    }

    /// The node at which layout and interactions start.
    pub closed spec fn spec_root(&self) -> usize {
        self.root
    }

    /// For each node, whether it takes clicks itself.
    pub closed spec fn clickable(&self) -> Seq<bool> {
        self.clickable@
    }

    /// For each node, the index in the graph of the observable that stands
    /// for its final layout.
    pub closed spec fn layout_nodes(&self) -> Seq<usize> {
        Seq::new(self.layout_reads@.len(), |i: int| self.layout_reads@[i].spec_id())
    }

    /// For each node, the index in the graph of the observer of its set of
    /// interactions.
    pub closed spec fn set_nodes(&self) -> Seq<usize> {
        Seq::new(self.observers@.len(), |i: int| self.observers@[i].spec_id())
    }

    /// For each node, its set of interactions as computed last.
    pub closed spec fn sets(&self) -> Seq<InteractSet> {
        self.sets@
    }

    /// The index in the graph of the observer that is dirty while a redraw
    /// is needed.
    pub closed spec fn redraw_node(&self) -> usize {
        self.redraw.spec_node()
    }

    /// The tree is well-formed, every list has an entry for each node of the
    /// tree, and every index into the graph names a node of `graph`.
    pub closed spec fn wf(&self, graph: Graph) -> bool {
        &&& self.tree.wf()
        &&& graph.wf()
        &&& self.clickable@.len() == self.tree.spec_len()
        &&& self.layout_reads@.len() == self.tree.spec_len()
        &&& self.observers@.len() == self.tree.spec_len()
        &&& self.sets@.len() == self.tree.spec_len()
        &&& self.redraw.spec_node() < graph.len()
        &&& forall|i: int|
            0 <= i < self.layout_reads@.len() ==> (#[trigger] self.layout_reads@[i]).spec_id()
                < graph.len()
        &&& forall|i: int|
            0 <= i < self.observers@.len() ==> (#[trigger] self.observers@[i]).spec_id()
                < graph.len()
    }

    /// What holds of a well-formed root.
    pub proof fn lemma_wf(&self, graph: Graph)
        requires
            self.wf(graph),
        ensures
            self.spec_tree().wf(),
            graph.wf(),
            self.clickable().len() == self.spec_tree().spec_len(),
            self.layout_nodes().len() == self.spec_tree().spec_len(),
            self.set_nodes().len() == self.spec_tree().spec_len(),
            self.sets().len() == self.spec_tree().spec_len(),
            self.redraw_node() < graph.len(),
            forall|i: int|
                0 <= i < self.spec_tree().spec_len() ==> #[trigger] self.layout_nodes()[i]
                    < graph.len(),
            forall|i: int|
                0 <= i < self.spec_tree().spec_len() ==> #[trigger] self.set_nodes()[i]
                    < graph.len(),
    {
        assert forall|i: int| 0 <= i < self.spec_tree().spec_len() implies #[trigger] self.layout_nodes()[i]
            < graph.len() by {
            assert(self.layout_reads@[i].spec_id() < graph.len());
        }
        assert forall|i: int| 0 <= i < self.spec_tree().spec_len() implies #[trigger] self.set_nodes()[i]
            < graph.len() by {
            assert(self.observers@[i].spec_id() < graph.len());
        }
    }

    /// A root that stays well-formed when the graph is extended.
    proof fn lemma_wf_extended(&self, before: Graph, after: Graph)
        requires
            self.wf(before),
            after.wf(),
            after.len() >= before.len(),
        ensures
            self.wf(after),
    {
        assert forall|i: int| 0 <= i < self.layout_reads@.len() implies (
        #[trigger] self.layout_reads@[i]).spec_id() < after.len() by {
            assert(self.layout_reads@[i].spec_id() < before.len());
        }
        assert forall|i: int| 0 <= i < self.observers@.len() implies (
        #[trigger] self.observers@[i]).spec_id() < after.len() by {
            assert(self.observers@[i].spec_id() < before.len());
        }
    }

    /// A root without nodes, which needs a redraw.
    pub fn new(tracker: &mut Tracker) -> (r: Root)
        requires
            old(tracker)@.wf(),
        ensures
            r.wf(final(tracker)@),
            r.spec_tree().spec_len() == 0,
            final(tracker)@ == old(tracker)@.with_node(true),
            r.redraw_node() == old(tracker)@.len(),
    {
        let redraw = Computed::new_with_initial(tracker, ());
        Root {
            tree: LayoutTree::new(),
            root: 0,
            clickable: Vec::new(),
            layout_reads: Vec::new(),
            observers: Vec::new(),
            sets: Vec::new(),
            redraw,
        }
    }

    /// The layout tree.
    pub fn tree(&self) -> (r: &LayoutTree)
        ensures
            *r == self.spec_tree(),
    {
        &self.tree
    }

    /// The node at which layout and interactions start.
    pub fn root(&self) -> (r: usize)
        ensures
            r == self.spec_root(),
    {
        self.root
    }

    /// Makes `node` the node at which layout and interactions start.
    pub fn set_root(&mut self, node: usize)
        ensures
            final(self).spec_root() == node,
            final(self).spec_tree() == old(self).spec_tree(),
            final(self).clickable() == old(self).clickable(),
            final(self).layout_nodes() == old(self).layout_nodes(),
            final(self).set_nodes() == old(self).set_nodes(),
            final(self).sets() == old(self).sets(),
            final(self).redraw_node() == old(self).redraw_node(),
            forall|graph: Graph| old(self).wf(graph) ==> final(self).wf(graph),
    {
        self.root = node;
    }

    fn add_cells(&mut self, tracker: &mut Tracker, clickable: bool)
        requires
            old(self).tree.wf(),
            old(tracker)@.wf(),
            old(self).clickable@.len() + 1 == old(self).tree.spec_len(),
            old(self).layout_reads@.len() + 1 == old(self).tree.spec_len(),
            old(self).observers@.len() + 1 == old(self).tree.spec_len(),
            old(self).sets@.len() + 1 == old(self).tree.spec_len(),
            old(self).redraw.spec_node() < old(tracker)@.len(),
            forall|i: int|
                0 <= i < old(self).layout_reads@.len() ==> (
                #[trigger] old(self).layout_reads@[i]).spec_id() < old(tracker)@.len(),
            forall|i: int|
                0 <= i < old(self).observers@.len() ==> (#[trigger] old(self).observers@[i]).spec_id()
                    < old(tracker)@.len(),
        ensures
            final(self).wf(final(tracker)@),
            final(self).tree == old(self).tree,
            final(self).root == old(self).root,
            final(self).redraw == old(self).redraw,
            final(tracker)@ == old(tracker)@.with_node(false).with_node(true),
            final(self).clickable() == old(self).clickable().push(clickable),
            final(self).layout_nodes() == old(self).layout_nodes().push(
                old(tracker)@.len() as usize,
            ),
            final(self).set_nodes() == old(self).set_nodes().push(
                (old(tracker)@.len() + 1) as usize,
            ),
            final(self).sets() == old(self).sets().push(InteractSet::spec_empty()),
    {
        let reads = ObservableInner::new(tracker);
        let observer = ObserverInner::new(tracker, Dirtiness::Dirty);
        self.clickable.push(clickable);
        self.layout_reads.push(reads);
        self.observers.push(observer);
        self.sets.push(InteractSet::empty());
        proof {
            assert(self.layout_nodes() =~= old(self).layout_nodes().push(
                old(tracker)@.len() as usize,
            ));
            assert(self.set_nodes() =~= old(self).set_nodes().push(
                (old(tracker)@.len() + 1) as usize,
            ));
            assert forall|i: int| 0 <= i < self.layout_reads@.len() implies (
            #[trigger] self.layout_reads@[i]).spec_id() < tracker@.len() by {
                if i < old(self).layout_reads@.len() {
                    assert(self.layout_reads@[i] == old(self).layout_reads@[i]);
                }
            }
            assert forall|i: int| 0 <= i < self.observers@.len() implies (
            #[trigger] self.observers@[i]).spec_id() < tracker@.len() by {
                if i < old(self).observers@.len() {
                    assert(self.observers@[i] == old(self).observers@[i]);
                }
            }
        }
    }

    /// Adds a node without children to the tree, see
    /// [`LayoutTree::add_leaf`]. Its set of interactions is empty and has to
    /// be computed. `clickable` tells whether the node takes clicks.
    pub fn add_leaf(&mut self, tracker: &mut Tracker, style: LayoutStyle, clickable: bool) -> (r:
        usize)
        requires
            old(self).wf(old(tracker)@),
        ensures
            final(self).wf(final(tracker)@),
            r == old(self).spec_tree().spec_len(),
            final(self).spec_root() == old(self).spec_root(),
            final(self).redraw_node() == old(self).redraw_node(),
            final(self).spec_tree().spec_len() == old(self).spec_tree().spec_len() + 1,
            final(self).spec_tree().parents() == old(self).spec_tree().parents().push(None),
            final(self).spec_tree().child_lists() == old(self).spec_tree().child_lists().push(
                Seq::empty(),
            ),
            final(self).spec_tree().styles() == old(self).spec_tree().styles().push(
                crate::tree::leaf_style(style),
            ),
            final(self).spec_tree().containers() == old(self).spec_tree().containers().push(false),
            final(self).spec_tree().caches() == old(self).spec_tree().caches().push(
                crate::cache::LayoutCache::spec_new(),
            ),
            final(tracker)@ == old(tracker)@.with_node(false).with_node(true),
            final(self).clickable() == old(self).clickable().push(clickable),
            final(self).layout_nodes() == old(self).layout_nodes().push(
                old(tracker)@.len() as usize,
            ),
            final(self).set_nodes() == old(self).set_nodes().push(
                (old(tracker)@.len() + 1) as usize,
            ),
            final(self).sets() == old(self).sets().push(InteractSet::spec_empty()),
    {
        let node = self.tree.add_leaf(style);
        self.add_cells(tracker, clickable);
        node
    }

    /// Adds a node that arranges children to the tree, see
    /// [`LayoutTree::add_container`]. Its set of interactions is empty and
    /// has to be computed. `clickable` tells whether the node takes clicks.
    pub fn add_container(
        &mut self,
        tracker: &mut Tracker,
        style: ContainerLayoutStyle,
        clickable: bool,
    ) -> (r: usize)
        requires
            old(self).wf(old(tracker)@),
        ensures
            final(self).wf(final(tracker)@),
            r == old(self).spec_tree().spec_len(),
            final(self).spec_root() == old(self).spec_root(),
            final(self).redraw_node() == old(self).redraw_node(),
            final(self).spec_tree().spec_len() == old(self).spec_tree().spec_len() + 1,
            final(self).spec_tree().parents() == old(self).spec_tree().parents().push(None),
            final(self).spec_tree().child_lists() == old(self).spec_tree().child_lists().push(
                Seq::empty(),
            ),
            final(self).spec_tree().styles() == old(self).spec_tree().styles().push(style),
            final(self).spec_tree().containers() == old(self).spec_tree().containers().push(true),
            final(self).spec_tree().caches() == old(self).spec_tree().caches().push(
                crate::cache::LayoutCache::spec_new(),
            ),
            final(tracker)@ == old(tracker)@.with_node(false).with_node(true),
            final(self).clickable() == old(self).clickable().push(clickable),
            final(self).layout_nodes() == old(self).layout_nodes().push(
                old(tracker)@.len() as usize,
            ),
            final(self).set_nodes() == old(self).set_nodes().push(
                (old(tracker)@.len() + 1) as usize,
            ),
            final(self).sets() == old(self).sets().push(InteractSet::spec_empty()),
    {
        let node = self.tree.add_container(style);
        self.add_cells(tracker, clickable);
        node
    }

    /// Links `child` under `parent` and invalidates the layout of `parent`,
    /// see [`LayoutTree::add_child`], and marks the set of interactions of
    /// `parent` dirty.
    pub fn add_child(&mut self, tracker: &mut Tracker, parent: usize, child: usize)
        requires
            old(self).wf(old(tracker)@),
            parent < old(self).spec_tree().spec_len(),
            child < old(self).spec_tree().spec_len(),
            old(self).spec_tree().containers()[parent as int],
            old(self).spec_tree().parents()[child as int] is None,
            !is_ancestor_or_self(old(self).spec_tree().parents(), child as int, parent as int),
        ensures
            final(self).wf(final(tracker)@),
            final(self).same_cells(*old(self)),
            final(self).spec_tree().spec_len() == old(self).spec_tree().spec_len(),
            final(self).spec_tree().parents() == old(self).spec_tree().parents().update(
                child as int,
                Some(parent),
            ),
            final(self).spec_tree().child_lists() == old(self).spec_tree().child_lists().update(
                parent as int,
                old(self).spec_tree().child_lists()[parent as int].push(child),
            ),
            final(self).spec_tree().styles() == old(self).spec_tree().styles(),
            final(self).spec_tree().containers() == old(self).spec_tree().containers(),
            final(self).spec_tree().caches().len() == old(self).spec_tree().caches().len(),
            forall|m: int|
                0 <= m < old(self).spec_tree().spec_len() ==> (
                #[trigger] final(self).spec_tree().caches()[m]) == if is_ancestor_or_self(
                    old(self).spec_tree().parents(),
                    m,
                    parent as int,
                ) {
                    old(self).spec_tree().caches()[m].invalidated()
                } else {
                    old(self).spec_tree().caches()[m]
                },
            final(tracker)@ == old(tracker)@.marked_dirty(
                old(self).set_nodes()[parent as int] as int,
            ),
    {
        self.tree.add_child(parent, child);
        let observer = self.observers[parent];
        observer.mark_dirty(tracker);
        proof {
            lemma_steps_keep_wf(old(tracker)@, observer.spec_id() as int);
            self.lemma_wf_kept(*old(self), old(tracker)@, tracker@);
        }
    }

    /// Whether `self` and `other` differ in the tree at most.
    pub open spec fn same_cells(&self, other: Root) -> bool {
        &&& self.spec_root() == other.spec_root()
        &&& self.clickable() == other.clickable()
        &&& self.layout_nodes() == other.layout_nodes()
        &&& self.set_nodes() == other.set_nodes()
        &&& self.sets() == other.sets()
        &&& self.redraw_node() == other.redraw_node()
    }

    /// Removes the link of `child` to its parent and invalidates the layout
    /// of the parent, see [`LayoutTree::remove_child`], and marks the set of
    /// interactions of the parent dirty. Where `child` has no parent nothing
    /// changes.
    pub fn remove_child(&mut self, tracker: &mut Tracker, child: usize)
        requires
            old(self).wf(old(tracker)@),
            child < old(self).spec_tree().spec_len(),
        ensures
            final(self).wf(final(tracker)@),
            final(self).same_cells(*old(self)),
            final(self).spec_tree().spec_len() == old(self).spec_tree().spec_len(),
            final(self).spec_tree().parents() == old(self).spec_tree().parents().update(
                child as int,
                None,
            ),
            final(self).spec_tree().styles() == old(self).spec_tree().styles(),
            final(self).spec_tree().containers() == old(self).spec_tree().containers(),
            final(self).spec_tree().caches().len() == old(self).spec_tree().caches().len(),
            old(self).spec_tree().parents()[child as int] is None ==> {
                &&& final(self).spec_tree().child_lists() == old(self).spec_tree().child_lists()
                &&& final(self).spec_tree().caches() == old(self).spec_tree().caches()
                &&& final(tracker)@ == old(tracker)@
            },
            old(self).spec_tree().parents()[child as int] is Some ==> ({
                let p = old(self).spec_tree().parents()[child as int]->Some_0 as int;
                let list = old(self).spec_tree().child_lists()[p];
                &&& final(self).spec_tree().child_lists() == old(self).spec_tree().child_lists().update(p, list.remove(list.index_of(child)))
                &&& forall|m: int|
                    0 <= m < old(self).spec_tree().spec_len() ==> (
                    #[trigger] final(self).spec_tree().caches()[m]) == if is_ancestor_or_self(
                        old(self).spec_tree().parents(),
                        m,
                        p,
                    ) {
                        old(self).spec_tree().caches()[m].invalidated()
                    } else {
                        old(self).spec_tree().caches()[m]
                    }
                &&& final(tracker)@ == old(tracker)@.marked_dirty(old(self).set_nodes()[p] as int)
            }),
    {
        match self.tree.parent(child) {
            None => {
                self.tree.remove_child(child);
                proof {
                    self.lemma_wf_kept(*old(self), old(tracker)@, tracker@);
                }
            },
            Some(parent) => {
                proof {
                    self.tree.lemma_link(child as int);
                }
                self.tree.remove_child(child);
                let observer = self.observers[parent];
                observer.mark_dirty(tracker);
                proof {
                    lemma_steps_keep_wf(old(tracker)@, observer.spec_id() as int);
                    self.lemma_wf_kept(*old(self), old(tracker)@, tracker@);
                }
            },
        }
    }

    /// Swaps the active child of a node: `new_child` takes the place of
    /// `old_child` and is invalidated, see [`LayoutTree::swap_child`], and
    /// the set of interactions of the parent is marked dirty. Afterwards
    /// every slot of the parent and of each of its ancestors is invalid, the
    /// ancestors of `new_child` are those of the parent, and `old_child` has
    /// none.
    pub fn select(&mut self, tracker: &mut Tracker, old_child: usize, new_child: usize)
        requires
            old(self).wf(old(tracker)@),
            old_child < old(self).spec_tree().spec_len(),
            new_child < old(self).spec_tree().spec_len(),
            old(self).spec_tree().parents()[old_child as int] is Some,
            old(self).spec_tree().parents()[new_child as int] is None,
            !is_ancestor_or_self(
                old(self).spec_tree().parents(),
                new_child as int,
                old(self).spec_tree().parents()[old_child as int]->Some_0 as int,
            ),
        ensures
            final(self).wf(final(tracker)@),
            final(self).same_cells(*old(self)),
            final(self).spec_tree().spec_len() == old(self).spec_tree().spec_len(),
            final(self).spec_tree().parents() == old(self).spec_tree().parents().update(
                old_child as int,
                None,
            ).update(new_child as int, old(self).spec_tree().parents()[old_child as int]),
            final(self).spec_tree().styles() == old(self).spec_tree().styles(),
            final(self).spec_tree().containers() == old(self).spec_tree().containers(),
            final(self).spec_tree().caches().len() == old(self).spec_tree().caches().len(),
            forall|m: int|
                0 <= m < old(self).spec_tree().spec_len() ==> (
                #[trigger] final(self).spec_tree().caches()[m]) == if is_ancestor_or_self(
                    final(self).spec_tree().parents(),
                    m,
                    new_child as int,
                ) {
                    old(self).spec_tree().caches()[m].invalidated()
                } else {
                    old(self).spec_tree().caches()[m]
                },
            forall|a: int|
                0 <= a < old(self).spec_tree().spec_len() && is_ancestor_or_self(
                    old(self).spec_tree().parents(),
                    a,
                    old(self).spec_tree().parents()[old_child as int]->Some_0 as int,
                ) ==> (#[trigger] final(self).spec_tree().caches()[a])
                    == old(self).spec_tree().caches()[a].invalidated(),
            forall|a: int|
                #![trigger is_ancestor_or_self(
                    final(self).spec_tree().parents(),
                    a,
                    new_child as int,
                )]
                is_ancestor_or_self(final(self).spec_tree().parents(), a, new_child as int) <==> (a
                    == new_child || is_ancestor_or_self(
                    old(self).spec_tree().parents(),
                    a,
                    old(self).spec_tree().parents()[old_child as int]->Some_0 as int,
                )),
            forall|a: int|
                #![trigger is_ancestor_or_self(
                    final(self).spec_tree().parents(),
                    a,
                    old_child as int,
                )]
                is_ancestor_or_self(final(self).spec_tree().parents(), a, old_child as int) <==> a
                    == old_child,
            final(tracker)@ == old(tracker)@.marked_dirty(
                old(self).set_nodes()[old(self).spec_tree().parents()[old_child as int]->Some_0 as int] as int,
            ),
    {
        proof {
            self.tree.lemma_link(old_child as int);
        }
        let parent = match self.tree.parent(old_child) {
            Some(parent) => parent,
            None => 0,
        };
        self.tree.swap_child(old_child, new_child);
        let observer = self.observers[parent];
        observer.mark_dirty(tracker);
        proof {
            lemma_steps_keep_wf(old(tracker)@, observer.spec_id() as int);
            self.lemma_wf_kept(*old(self), old(tracker)@, tracker@);
        }
    }

    /// A root that differs from a well-formed one in the caches of the tree
    /// at most, with a graph of the same size, is well-formed.
    proof fn lemma_wf_kept(&self, before: Root, graph: Graph, after: Graph)
        requires
            before.wf(graph),
            self.tree.wf(),
            self.tree.spec_len() == before.tree.spec_len(),
            self.clickable@ == before.clickable@,
            self.layout_reads@ == before.layout_reads@,
            self.observers@ == before.observers@,
            self.sets@.len() == before.sets@.len(),
            self.redraw.spec_node() == before.redraw.spec_node(),
            after.wf(),
            after.len() >= graph.len(),
        ensures
            self.wf(after),
            self.layout_nodes() == before.layout_nodes(),
            self.set_nodes() == before.set_nodes(),
    {
        assert forall|i: int| 0 <= i < self.layout_reads@.len() implies (
        #[trigger] self.layout_reads@[i]).spec_id() < after.len() by {
            assert(before.layout_reads@[i].spec_id() < graph.len());
        }
        assert forall|i: int| 0 <= i < self.observers@.len() implies (
        #[trigger] self.observers@[i]).spec_id() < after.len() by {
            assert(before.observers@[i].spec_id() < graph.len());
        }
    }

    /// Makes every layout slot of `node` and of each of its ancestors
    /// invalid, see [`LayoutTree::invalidate`].
    pub fn invalidate(&mut self, node: usize)
        requires
            old(self).spec_tree().wf(),
            node < old(self).spec_tree().spec_len(),
        ensures
            final(self).spec_tree().wf(),
            final(self).spec_tree().same_shape(old(self).spec_tree()),
            final(self).spec_tree().shape() == old(self).spec_tree().shape(),
            final(self).spec_tree().caches().len() == old(self).spec_tree().caches().len(),
            forall|m: int|
                0 <= m < old(self).spec_tree().spec_len() ==> (
                #[trigger] final(self).spec_tree().caches()[m]) == if is_ancestor_or_self(
                    old(self).spec_tree().parents(),
                    m,
                    node as int,
                ) {
                    old(self).spec_tree().caches()[m].invalidated()
                } else {
                    old(self).spec_tree().caches()[m]
                },
            final(self).same_cells(*old(self)),
            forall|graph: Graph| old(self).wf(graph) ==> final(self).wf(graph),
    {
        self.tree.invalidate(node);
    }

    /// Marks the set of interactions of `node` dirty, and with it those of
    /// the nodes that were computed from it.
    pub fn invalidate_interactions(&self, tracker: &mut Tracker, node: usize)
        requires
            self.wf(old(tracker)@),
            node < self.spec_tree().spec_len(),
        ensures
            self.wf(final(tracker)@),
            final(tracker)@ == old(tracker)@.marked_dirty(self.set_nodes()[node as int] as int),
    {
        let observer = self.observers[node];
        observer.mark_dirty(tracker);
        proof {
            lemma_steps_keep_wf(old(tracker)@, observer.spec_id() as int);
            self.lemma_wf_extended(old(tracker)@, tracker@);
        }
    }

    /// The boxes of the last arrangement of `node`, see
    /// [`LayoutTree::get_final_layout`].
    pub fn get_final_layout(&self, node: usize) -> (r: Layout)
        requires
            self.spec_tree().wf(),
            node < self.spec_tree().spec_len(),
        ensures
            r == self.final_layout(node as int),
    {
        self.tree.get_final_layout(node)
    }

    /// The boxes of the last arrangement of `node`.
    pub open spec fn final_layout(&self, node: int) -> Layout {
        self.spec_tree().caches()[node].spec_final_layout(
            self.spec_tree().styles()[node].layout_style,
        )
    }

    /// For each node, whether its boxes differ between `self` and `before`.
    pub open spec fn rearranged(&self, before: Root) -> Seq<bool> {
        Seq::new(
            self.spec_tree().spec_len(),
            |m: int| self.final_layout(m) != before.final_layout(m),
        )
    }

    /// Arranges the tree within the viewport: the root node is asked for
    /// its answer to the arrangement within the rectangle of size `viewport`
    /// at the origin, see [`LayoutTree::compute_layout`]. Then the layout of
    /// every node whose boxes have changed is triggered, so that what was
    /// computed from them is dirty.
    pub fn layout<F: Fn(usize, Size, u32) -> Size>(
        &mut self,
        tracker: &mut Tracker,
        viewport: Size,
        scale_factor: u32,
        measure: &F,
    ) -> (r: ComputedLayout)
        requires
            old(self).wf(old(tracker)@),
            old(self).spec_root() < old(self).spec_tree().spec_len(),
            old(self).spec_tree().containers()[old(self).spec_root() as int] ==> viewport.spec_axis(
                old(self).spec_tree().styles()[old(self).spec_root() as int].main_axis,
            ) != UNBOUNDED,
            forall|id: usize, content: Size, scale: u32|
                call_requires(*measure, (id, content, scale)),
        ensures
            final(self).wf(final(tracker)@),
            final(self).same_cells(*old(self)),
            final(self).spec_tree().wf(),
            final(self).spec_tree().same_shape(old(self).spec_tree()),
            final(self).spec_tree().computed(
                old(self).spec_tree(),
                old(self).spec_root() as int,
                LayoutInput::FinalLayout {
                    allocated: Rect { x: 0, y: 0, w: viewport.horizontal, h: viewport.vertical },
                    scale_factor,
                },
                r,
                measure,
            ),
            final(self).spec_tree().shape() == old(self).spec_tree().shape(),
            old(self).spec_tree().sound(measure) ==> final(self).spec_tree().sound(measure),
            final(tracker)@ == triggered_where(
                old(tracker)@,
                old(self).layout_nodes(),
                final(self).rearranged(*old(self)),
                old(self).spec_tree().spec_len() as int,
            ),
    {
        let count = self.tree.len();
        let mut before: Vec<Layout> = Vec::new();
        let mut i: usize = 0;
        while i < count
            invariant
                self.wf(tracker@),
                count == self.tree.spec_len(),
                i <= count,
                before@.len() == i,
                forall|m: int| 0 <= m < i ==> #[trigger] before@[m] == self.final_layout(m),
            decreases count - i,
        {
            before.push(self.tree.get_final_layout(i));
            i = i + 1;
        }
        let input = LayoutInput::FinalLayout {
            allocated: Rect::from_topleft_size(Point::new(0, 0), viewport),
            scale_factor,
        };
        let answer = self.tree.compute_layout(self.root, input, measure);
        proof {
            self.lemma_wf_kept(*old(self), old(tracker)@, tracker@);
        }
        let mut i: usize = 0;
        while i < count
            invariant
                old(self).wf(old(tracker)@),
                self.wf(tracker@),
                self.tree.wf(),
                count == self.tree.spec_len(),
                count == old(self).tree.spec_len(),
                self.layout_reads@ == old(self).layout_reads@,
                self.layout_nodes() == old(self).layout_nodes(),
                i <= count,
                before@.len() == count,
                forall|m: int| 0 <= m < count ==> #[trigger] before@[m] == old(self).final_layout(m),
                tracker@ == triggered_where(
                    old(tracker)@,
                    old(self).layout_nodes(),
                    self.rearranged(*old(self)),
                    i as int,
                ),
            decreases count - i,
        {
            let now = self.tree.get_final_layout(i);
            if now != before[i] {
                let reads = self.layout_reads[i];
                let ghost graph = tracker@;
                reads.trigger(tracker);
                proof {
                    lemma_steps_keep_wf(graph, reads.spec_id() as int);
                    self.lemma_wf_extended(graph, tracker@);
                }
            }
            i = i + 1;
        }
        answer
    }

    /// Whether anything that was read during the last update has changed
    /// since.
    pub fn needs_redraw(&self, tracker: &Tracker) -> (r: bool)
        requires
            self.wf(tracker@),
        ensures
            r == tracker@.dirty[self.redraw_node() as int],
    {
        self.redraw.is_dirty(tracker)
    }

    /// Runs `f` as the update of the widgets if a redraw is needed, see
    /// [`Computed::maybe_update`]: what `f` reads is what a later change
    /// makes a redraw needed for.
    pub fn update<F: FnOnce(&mut Tracker)>(&mut self, tracker: &mut Tracker, f: F)
        requires
            old(self).wf(old(tracker)@),
            forall|t: &mut Tracker|
                t@ == old(tracker)@.begun() ==> #[trigger] call_requires(f, (t,)),
            forall|t: &mut Tracker, v: ()|
                t@ == old(tracker)@.begun() && #[trigger] call_ensures(f, (t,), v) ==> final(t)@.wf()
                    && final(t)@.len() >= t@.len(),
        ensures
            final(self).wf(final(tracker)@),
            final(self).spec_tree() == old(self).spec_tree(),
            final(self).spec_root() == old(self).spec_root(),
            final(self).clickable() == old(self).clickable(),
            final(self).layout_nodes() == old(self).layout_nodes(),
            final(self).set_nodes() == old(self).set_nodes(),
            final(self).sets() == old(self).sets(),
            !old(tracker)@.dirty[old(self).redraw_node() as int] ==> {
                &&& final(tracker)@ == old(tracker)@
                &&& final(self).redraw_node() == old(self).redraw_node()
            },
            old(tracker)@.dirty[old(self).redraw_node() as int] ==> {
                &&& final(self).redraw_node() == old(tracker)@.len()
                &&& exists|t: &mut Tracker|
                    {
                        &&& t@ == old(tracker)@.begun()
                        &&& #[trigger] call_ensures(f, (t,), ())
                        &&& final(tracker)@ == final(t)@.ended(
                            old(tracker)@.scope,
                            old(tracker)@.len() as int,
                        ).released(old(self).redraw_node() as int)
                    }
            },
    {
        self.redraw.maybe_update(tracker, f);
        proof {
            if old(tracker)@.dirty[old(self).redraw_node() as int] {
                assert(tracker@.len() >= old(tracker)@.len());
            }
            old(self).lemma_wf_extended(old(tracker)@, tracker@);
        }
    }

    /// What `node` accepts itself: clicks within its border box if it takes
    /// clicks, else nothing.
    pub open spec fn own_set(&self, node: int) -> InteractSet {
        if self.clickable()[node] {
            InteractSet { click: true, click_area: self.final_layout(node).border_box }
        } else {
            InteractSet::spec_empty()
        }
    }

    /// What `node` accepts itself, united with the sets of its first `upto`
    /// children in their order.
    pub open spec fn gathered(&self, node: int, upto: int) -> InteractSet
        decreases upto,
    {
        if upto <= 0 {
            self.own_set(node)
        } else {
            self.gathered(node, upto - 1).spec_union(
                self.sets()[self.spec_tree().child_lists()[node][upto - 1] as int],
            )
        }
    }

    /// What is gathered for a node depends on the tree, on whether the node
    /// takes clicks, and on the sets of its children.
    proof fn lemma_gathered_same(&self, other: Root, node: int, upto: int)
        requires
            self.tree == other.tree,
            self.tree.wf(),
            0 <= node < self.tree.spec_len(),
            0 <= upto <= self.tree.child_lists()[node].len(),
            self.clickable@ == other.clickable@,
            self.sets@.len() == other.sets@.len(),
            self.sets@.len() == self.tree.spec_len(),
            forall|j: int|
                0 <= j < upto ==> self.agrees_at(other, #[trigger] self.child_of(node, j)),
        ensures
            self.gathered(node, upto) == other.gathered(node, upto),
        decreases upto,
    {
        if upto > 0 {
            self.lemma_gathered_same(other, node, upto - 1);
            assert(self.agrees_at(other, self.child_of(node, upto - 1)));
        }
    }

    /// Whether the set of `node` was gathered anew, all the way down: it is
    /// what the node accepts itself united with the sets of its children,
    /// and each child is as [`Self::children_settled`] says. `before` is the
    /// root and `graph` the graph before the gathering.
    pub open spec fn gathered_anew(&self, before: Root, graph: Graph, node: int) -> bool
        decreases self.spec_tree().slack(node), self.spec_tree().child_lists()[node].len() + 1,
    {
        let count = self.spec_tree().child_lists()[node].len() as int;
        &&& self.sets()[node] == self.gathered(node, count)
        &&& self.children_settled(before, graph, node, count)
    }

    /// Whether each of the first `upto` children of `node` is settled: the
    /// set of a child whose observer was dirty in `graph` was gathered anew
    /// itself, and a child whose observer was clean has kept its set and its
    /// observer.
    pub open spec fn children_settled(
        &self,
        before: Root,
        graph: Graph,
        node: int,
        upto: int,
    ) -> bool
        decreases self.spec_tree().slack(node), upto,
    {
        if upto <= 0 {
            true
        } else if upto > self.spec_tree().child_lists()[node].len() || !self.spec_tree().wf() || !(0
            <= node < self.spec_tree().spec_len()) {
            false
        } else {
            proof {
                self.spec_tree().lemma_child_slack(node, upto - 1);
            }
            let child = self.spec_tree().child_lists()[node][upto - 1] as int;
            &&& self.children_settled(before, graph, node, upto - 1)
            &&& if graph.dirty[before.set_nodes()[child] as int] {
                self.gathered_anew(before, graph, child)
            } else {
                self.agrees_at(before, child)
            }
        }
    }

    /// Whether `self` and `other` hold the same set and the same observer
    /// for the node `m`.
    pub open spec fn agrees_at(&self, other: Root, m: int) -> bool {
        self.sets()[m] == other.sets()[m] && self.set_nodes()[m] == other.set_nodes()[m]
    }

    /// Whether `m` is a node of the subtree of `node`.
    pub open spec fn below(&self, node: int, m: int) -> bool {
        0 <= m < self.spec_tree().spec_len() && is_ancestor_or_self(
            self.spec_tree().parents(),
            node,
            m,
        )
    }

    /// The child of `node` at position `j`.
    pub open spec fn child_of(&self, node: int, j: int) -> int {
        self.spec_tree().child_lists()[node][j] as int
    }

    /// Whether `self` and `other` hold the same set and the same observer
    /// for every node of the subtree of `node`.
    pub open spec fn agrees_below(&self, other: Root, node: int) -> bool {
        forall|m: int| self.below(node, m) ==> #[trigger] self.agrees_at(other, m)
    }

    /// Whether `self` and `other` hold the same set and the same observer
    /// for every node that is not in the subtree of `node`.
    pub open spec fn agrees_outside(&self, other: Root, node: int) -> bool {
        forall|m: int|
            0 <= m < self.spec_tree().spec_len() && !self.below(node, m)
                ==> #[trigger] self.agrees_at(other, m)
    }

    /// Whether the observer that `before` holds for `m` is dirty in `graph`
    /// exactly if it is dirty in `other`.
    pub open spec fn dirt_at(before: Root, graph: Graph, other: Graph, m: int) -> bool {
        graph.dirty[before.set_nodes()[m] as int] == other.dirty[before.set_nodes()[m] as int]
    }

    /// Whether the observers that `before` holds for the nodes of the
    /// subtree of `node` are dirty in `graph` exactly if they are dirty in
    /// `other`.
    pub open spec fn same_dirt_below(before: Root, graph: Graph, other: Graph, node: int) -> bool {
        forall|m: int| before.below(node, m) ==> #[trigger] Root::dirt_at(before, graph, other, m)
    }

    /// Whether every observer of `graph` is as dirty in `after` as it is in
    /// `graph`.
    pub open spec fn dirt_kept(graph: Graph, after: Graph) -> bool {
        forall|k: int| 0 <= k < graph.len() ==> (#[trigger] after.dirty[k]) == graph.dirty[k]
    }

    /// Whether every observer that `self` holds for a node is a node of
    /// `graph`.
    pub open spec fn observers_in(&self, graph: Graph) -> bool {
        forall|m: int|
            0 <= m < self.spec_tree().spec_len() ==> (#[trigger] self.set_nodes()[m]) < graph.len()
    }

    /// Whether the observer of the child of `node` at position `j` has
    /// `observer` among its dependents in `graph`.
    pub open spec fn listed_by(&self, graph: Graph, node: int, j: int, observer: int) -> bool {
        graph.edge(self.set_nodes()[self.child_of(node, j)] as int, observer)
    }

    /// A node is in its own subtree.
    proof fn lemma_below_self(&self, node: int)
        requires
            self.sized(),
            0 <= node < self.tree.spec_len(),
        ensures
            self.below(node, node),
    {
        assert(up(self.tree.parents(), node, 0) == Some(node));
    }

    /// The subtree of a child lies in the subtree of its parent, apart from
    /// the parent and from the subtrees of the other children.
    proof fn lemma_below(&self, node: int, i: int, j: int, m: int)
        requires
            self.sized(),
            0 <= node < self.tree.spec_len(),
            0 <= i < self.tree.child_lists()[node].len(),
            0 <= j < self.tree.child_lists()[node].len(),
        ensures
            0 <= self.child_of(node, i) < self.tree.spec_len(),
            self.child_of(node, i) != node,
            self.below(self.child_of(node, i), self.child_of(node, i)),
            self.below(self.child_of(node, i), m) ==> self.below(node, m) && m != node,
            self.below(self.child_of(node, i), m) && i != j ==> !self.below(
                self.child_of(node, j),
                m,
            ),
    {
        let c = self.child_of(node, i);
        self.tree.lemma_child(node, i);
        self.tree.lemma_lengths();
        assert(up(self.tree.parents(), c, 0) == Some(c));
        if self.below(c, m) {
            self.tree.lemma_child_subtrees(node, i, j, m);
        }
    }

    /// Whether a set was gathered anew depends on the subtree of the node
    /// only.
    proof fn lemma_anew_same(
        a: Root,
        b: Root,
        a_before: Root,
        b_before: Root,
        a_graph: Graph,
        b_graph: Graph,
        node: int,
    )
        requires
            a.sized(),
            b.sized(),
            a.tree == b.tree,
            a_before.tree == a.tree,
            a.clickable@ == b.clickable@,
            0 <= node < a.tree.spec_len(),
            a.agrees_below(b, node),
            a_before.agrees_below(b_before, node),
            Root::same_dirt_below(a_before, a_graph, b_graph, node),
        ensures
            a.gathered_anew(a_before, a_graph, node) == b.gathered_anew(b_before, b_graph, node),
        decreases a.tree.slack(node), a.tree.child_lists()[node].len() + 1,
    {
        let count = a.tree.child_lists()[node].len() as int;
        a.lemma_below_self(node);
        assert(a.below(node, node));
        assert(a.agrees_at(b, node));
        assert forall|j: int| 0 <= j < count implies {
            &&& a.agrees_below(b, #[trigger] a.child_of(node, j))
            &&& a_before.agrees_below(b_before, a.child_of(node, j))
            &&& Root::same_dirt_below(a_before, a_graph, b_graph, a.child_of(node, j))
            &&& a.agrees_at(b, a.child_of(node, j))
        } by {
            let c = a.child_of(node, j);
            assert forall|m: int| a.below(c, m) implies #[trigger] a.agrees_at(b, m) by {
                a.lemma_below(node, j, j, m);
                assert(a.below(node, m));
            }
            assert forall|m: int| a_before.below(c, m) implies #[trigger] a_before.agrees_at(
                b_before,
                m,
            ) by {
                a.lemma_below(node, j, j, m);
                assert(a_before.below(node, m));
            }
            assert forall|m: int| a_before.below(c, m) implies #[trigger] Root::dirt_at(
                a_before,
                a_graph,
                b_graph,
                m,
            ) by {
                a.lemma_below(node, j, j, m);
                assert(a_before.below(node, m));
            }
            a.lemma_below(node, j, j, c);
            assert(a.below(c, c));
        }
        a.lemma_gathered_same(b, node, count);
        Root::lemma_children_same(a, b, a_before, b_before, a_graph, b_graph, node, count);
    }

    /// Whether the children of a node are settled depends on their subtrees
    /// only.
    proof fn lemma_children_same(
        a: Root,
        b: Root,
        a_before: Root,
        b_before: Root,
        a_graph: Graph,
        b_graph: Graph,
        node: int,
        upto: int,
    )
        requires
            a.sized(),
            b.sized(),
            a.tree == b.tree,
            a_before.tree == a.tree,
            a.clickable@ == b.clickable@,
            0 <= node < a.tree.spec_len(),
            0 <= upto <= a.tree.child_lists()[node].len(),
            forall|j: int|
                0 <= j < upto ==> {
                    &&& a.agrees_below(b, #[trigger] a.child_of(node, j))
                    &&& a_before.agrees_below(b_before, a.child_of(node, j))
                    &&& Root::same_dirt_below(a_before, a_graph, b_graph, a.child_of(node, j))
                },
        ensures
            a.children_settled(a_before, a_graph, node, upto) == b.children_settled(
                b_before,
                b_graph,
                node,
                upto,
            ),
        decreases a.tree.slack(node), upto,
    {
        if upto > 0 {
            Root::lemma_children_same(a, b, a_before, b_before, a_graph, b_graph, node, upto - 1);
            let c = a.child_of(node, upto - 1);
            a.lemma_below(node, upto - 1, upto - 1, c);
            a.tree.lemma_child_slack(node, upto - 1);
            assert(a.agrees_below(b, c));
            assert(a_before.agrees_below(b_before, c));
            assert(Root::same_dirt_below(a_before, a_graph, b_graph, c));
            assert(a.below(c, c));
            assert(a_before.below(c, c));
            assert(a.agrees_at(b, c));
            assert(a_before.agrees_at(b_before, c));
            assert(Root::dirt_at(a_before, a_graph, b_graph, c));
            Root::lemma_anew_same(a, b, a_before, b_before, a_graph, b_graph, c);
        }
    }

    /// What the asking of the child of `node` at position `i` has left as it
    /// was: where `now` is the root after the asking, `asked` the root
    /// before it and `before` the root before any child was asked, nothing
    /// outside the subtree of `node` has changed, the children that are yet
    /// to be asked are as they were at first, and the children that were
    /// asked before are as they were when this one was asked.
    proof fn lemma_child_asked(now: Root, asked: Root, before: Root, node: int, i: int)
        requires
            now.sized(),
            asked.sized(),
            now.tree == asked.tree,
            before.tree == asked.tree,
            0 <= node < now.tree.spec_len(),
            0 <= i < now.tree.child_lists()[node].len(),
            now.agrees_outside(asked, now.child_of(node, i)),
            asked.agrees_outside(before, node),
            forall|j: int|
                i <= j < now.tree.child_lists()[node].len() ==> asked.agrees_below(
                    before,
                    #[trigger] asked.child_of(node, j),
                ),
        ensures
            now.agrees_outside(before, node),
            forall|j: int|
                i + 1 <= j < now.tree.child_lists()[node].len() ==> now.agrees_below(
                    before,
                    #[trigger] now.child_of(node, j),
                ),
            forall|j: int|
                0 <= j < i ==> now.agrees_below(asked, #[trigger] now.child_of(node, j))
                    && now.agrees_at(asked, now.child_of(node, j)),
            asked.agrees_below(before, now.child_of(node, i)),
    {
        let c = now.child_of(node, i);
        assert forall|m: int|
            0 <= m < now.spec_tree().spec_len() && !now.below(
                node,
                m,
            ) implies #[trigger] now.agrees_at(before, m) by {
            now.lemma_below(node, i, i, m);
            assert(!now.below(c, m));
            assert(now.agrees_at(asked, m));
            assert(!asked.below(node, m));
            assert(asked.agrees_at(before, m));
        }
        assert forall|j: int|
            i + 1 <= j < now.tree.child_lists()[node].len() implies now.agrees_below(
            before,
            #[trigger] now.child_of(node, j),
        ) by {
            let other = now.child_of(node, j);
            assert(asked.agrees_below(before, asked.child_of(node, j)));
            assert forall|m: int| now.below(other, m) implies #[trigger] now.agrees_at(
                before,
                m,
            ) by {
                now.lemma_below(node, j, i, m);
                assert(!now.below(c, m));
                assert(now.agrees_at(asked, m));
                assert(asked.below(other, m));
                assert(asked.agrees_at(before, m));
            }
        }
        assert forall|j: int| 0 <= j < i implies now.agrees_below(
            asked,
            #[trigger] now.child_of(node, j),
        ) && now.agrees_at(asked, now.child_of(node, j)) by {
            let other = now.child_of(node, j);
            assert forall|m: int| now.below(other, m) implies #[trigger] now.agrees_at(
                asked,
                m,
            ) by {
                now.lemma_below(node, j, i, m);
                assert(!now.below(c, m));
            }
            now.lemma_below(node, j, j, other);
            assert(now.below(other, other));
        }
        assert(asked.agrees_below(before, asked.child_of(node, i)));
    }

    /// The children of `node` up to the one at position `i` are settled
    /// after that one was asked, where those before it were settled before
    /// and the one at `i` is as the asking has left it.
    proof fn lemma_child_settled(
        now: Root,
        asked: Root,
        before: Root,
        first: Graph,
        graph: Graph,
        node: int,
        i: int,
    )
        requires
            now.sized(),
            asked.sized(),
            before.sized(),
            now.tree == asked.tree,
            before.tree == asked.tree,
            now.clickable@ == asked.clickable@,
            0 <= node < now.tree.spec_len(),
            0 <= i < now.tree.child_lists()[node].len(),
            asked.children_settled(before, first, node, i),
            forall|j: int| 0 <= j < i ==> now.agrees_below(asked, #[trigger] now.child_of(node, j)),
            asked.agrees_below(before, now.child_of(node, i)),
            Root::dirt_kept(first, graph),
            before.observers_in(first),
            graph.dirty[asked.set_nodes()[now.child_of(node, i)] as int] ==> now.gathered_anew(
                asked,
                graph,
                now.child_of(node, i),
            ),
            !graph.dirty[asked.set_nodes()[now.child_of(node, i)] as int] ==> now.agrees_at(
                asked,
                now.child_of(node, i),
            ),
        ensures
            now.children_settled(before, first, node, i + 1),
    {
        let c = now.child_of(node, i);
        now.lemma_below(node, i, i, c);
        // the children that were asked before
        assert forall|j: int| 0 <= j < i implies {
            &&& now.agrees_below(asked, #[trigger] now.child_of(node, j))
            &&& before.agrees_below(before, now.child_of(node, j))
            &&& Root::same_dirt_below(before, first, first, now.child_of(node, j))
        } by {
            let other = now.child_of(node, j);
            assert forall|m: int| before.below(other, m) implies #[trigger] before.agrees_at(
                before,
                m,
            ) by {}
            assert forall|m: int| before.below(other, m) implies #[trigger] Root::dirt_at(
                before,
                first,
                first,
                m,
            ) by {}
        }
        Root::lemma_children_same(now, asked, before, before, first, first, node, i);
        // the child that was asked now
        assert(asked.below(c, c));
        assert(asked.agrees_at(before, c));
        assert(before.set_nodes()[c] < first.len());
        assert(graph.dirty[before.set_nodes()[c] as int] == first.dirty[before.set_nodes()[c] as int]);
        if first.dirty[before.set_nodes()[c] as int] {
            assert forall|m: int| now.below(c, m) implies #[trigger] now.agrees_at(now, m) by {}
            assert forall|m: int| asked.below(c, m) implies #[trigger] Root::dirt_at(
                asked,
                graph,
                first,
                m,
            ) by {
                assert(asked.agrees_at(before, m));
                assert(before.set_nodes()[m] < first.len());
                assert(graph.dirty[before.set_nodes()[m] as int]
                    == first.dirty[before.set_nodes()[m] as int]);
            }
            Root::lemma_anew_same(now, now, asked, before, graph, first, c);
        } else {
            assert(now.agrees_at(asked, c));
            assert(now.agrees_at(before, c));
        }
        now.tree.lemma_child_slack(node, i);
    }

    /// The children of `node` are settled after the set of `node` was
    /// stored, and what is gathered from them is what it was.
    proof fn lemma_stored(now: Root, gathered_root: Root, before: Root, first: Graph, node: int)
        requires
            now.sized(),
            gathered_root.sized(),
            before.sized(),
            now.tree == gathered_root.tree,
            before.tree == now.tree,
            now.clickable@ == gathered_root.clickable@,
            0 <= node < now.tree.spec_len(),
            forall|m: int|
                0 <= m < now.tree.spec_len() && m != node ==> #[trigger] now.agrees_at(
                    gathered_root,
                    m,
                ),
            gathered_root.children_settled(
                before,
                first,
                node,
                now.tree.child_lists()[node].len() as int,
            ),
        ensures
            now.children_settled(before, first, node, now.tree.child_lists()[node].len() as int),
            now.gathered(node, now.tree.child_lists()[node].len() as int) == gathered_root.gathered(
                node,
                now.tree.child_lists()[node].len() as int,
            ),
    {
        let count = now.tree.child_lists()[node].len() as int;
        assert forall|j: int| 0 <= j < count implies {
            &&& now.agrees_below(gathered_root, #[trigger] now.child_of(node, j))
            &&& before.agrees_below(before, now.child_of(node, j))
            &&& Root::same_dirt_below(before, first, first, now.child_of(node, j))
            &&& now.agrees_at(gathered_root, now.child_of(node, j))
        } by {
            let other = now.child_of(node, j);
            assert forall|m: int| now.below(other, m) implies #[trigger] now.agrees_at(
                gathered_root,
                m,
            ) by {
                now.lemma_below(node, j, j, m);
            }
            assert forall|m: int| before.below(other, m) implies #[trigger] before.agrees_at(
                before,
                m,
            ) by {}
            assert forall|m: int| before.below(other, m) implies #[trigger] Root::dirt_at(
                before,
                first,
                first,
                m,
            ) by {}
            now.lemma_below(node, j, j, other);
        }
        Root::lemma_children_same(now, gathered_root, before, before, first, first, node, count);
        now.lemma_gathered_same(gathered_root, node, count);
    }

    /// The observers of the children of `node` up to the one at position `i`
    /// have `observer` among their dependents after that one was asked.
    proof fn lemma_children_listed(
        now: Root,
        asked: Root,
        graph: Graph,
        after: Graph,
        node: int,
        i: int,
        observer: int,
    )
        requires
            after.extends(graph),
            forall|j: int| 0 <= j < i ==> #[trigger] asked.listed_by(graph, node, j, observer),
            forall|j: int| 0 <= j < i ==> now.agrees_at(asked, #[trigger] now.child_of(node, j)),
            now.spec_tree() == asked.spec_tree(),
            now.listed_by(after, node, i, observer),
        ensures
            forall|j: int| 0 <= j < i + 1 ==> #[trigger] now.listed_by(after, node, j, observer),
    {
        lemma_edges_kept(graph, after);
        assert forall|j: int| 0 <= j < i + 1 implies #[trigger] now.listed_by(
            after,
            node,
            j,
            observer,
        ) by {
            if j < i {
                assert(asked.listed_by(graph, node, j, observer));
                assert(now.agrees_at(asked, now.child_of(node, j)));
            }
        }
    }

    /// The set of interactions of the subtree of the root node, see
    /// [`Self::interactions_of`].
    pub fn interactions(&mut self, tracker: &mut Tracker) -> (r: InteractSet)
        requires
            old(self).wf(old(tracker)@),
            old(self).spec_root() < old(self).spec_tree().spec_len(),
        ensures
            final(self).wf(final(tracker)@),
            final(self).spec_tree() == old(self).spec_tree(),
            final(self).settled(
                *old(self),
                old(tracker)@,
                final(tracker)@,
                old(self).spec_root() as int,
                r,
            ),
    {
        self.interactions_of(tracker, self.root)
    }

    /// What a call for the set of interactions of `node` leaves behind,
    /// where `before` and `graph` are the root and the graph before the call,
    /// `after` the graph after it and `answer` what it returned.
    ///
    /// The answer is the set that is cached for `node` afterwards, and the
    /// read was registered with the computation that is running, if one is.
    /// No set outside the subtree of `node` has changed, and nothing was
    /// taken out of the graph. Where the observer of `node` was clean, no
    /// set has changed at all. Where it was dirty, the set was gathered anew
    /// from what the node accepts itself and from the sets of its children,
    /// which were asked in turn, so that each child whose observer was dirty
    /// was gathered anew in the same way, see [`Self::gathered_anew`]; its
    /// new observer is clean and stands among the dependents of the observer
    /// of each child, and of the layout of the node if the node takes
    /// clicks. No observer that was there before has changed its dirtiness.
    pub open spec fn settled(
        &self,
        before: Root,
        graph: Graph,
        after: Graph,
        node: int,
        answer: InteractSet,
    ) -> bool {
        let count = self.spec_tree().child_lists()[node].len() as int;
        &&& self.spec_root() == before.spec_root()
        &&& self.clickable() == before.clickable()
        &&& self.layout_nodes() == before.layout_nodes()
        &&& self.redraw_node() == before.redraw_node()
        &&& after.extends(graph)
        &&& after.scope == graph.scope
        &&& Root::dirt_kept(graph, after)
        &&& answer == self.sets()[node]
        &&& graph.scope is Some ==> after.edge(
            self.set_nodes()[node] as int,
            graph.scope->Some_0 as int,
        )
        &&& self.agrees_outside(before, node)
        &&& !graph.dirty[before.set_nodes()[node] as int] ==> {
            &&& self.sets() == before.sets()
            &&& self.set_nodes() == before.set_nodes()
            &&& after == graph.registered(before.set_nodes()[node] as int)
        }
        &&& graph.dirty[before.set_nodes()[node] as int] ==> {
            &&& answer == self.gathered(node, count)
            &&& self.gathered_anew(before, graph, node)
            &&& !after.dirty[self.set_nodes()[node] as int]
            &&& forall|j: int|
                0 <= j < count ==> #[trigger] self.listed_by(
                    after,
                    node,
                    j,
                    self.set_nodes()[node] as int,
                )
            &&& self.clickable()[node] ==> after.edge(
                self.layout_nodes()[node] as int,
                self.set_nodes()[node] as int,
            )
        }
    }

    /// The set of interactions of the subtree of `node`, through its cache,
    /// see [`Self::settled`].
    pub fn interactions_of(&mut self, tracker: &mut Tracker, node: usize) -> (r: InteractSet)
        requires
            old(self).wf(old(tracker)@),
            node < old(self).spec_tree().spec_len(),
        ensures
            final(self).wf(final(tracker)@),
            final(self).spec_tree() == old(self).spec_tree(),
            final(self).settled(*old(self), old(tracker)@, final(tracker)@, node as int, r),
        decreases old(self).spec_tree().slack(node as int),
    {
        let observer = self.observers[node];
        proof {
            lemma_steps_keep_wf(tracker@, observer.spec_id() as int);
            lemma_steps_extend(tracker@, observer.spec_id() as int, None);
            self.lemma_wf(tracker@);
            self.lemma_sized(tracker@);
            assert(self.observers_in(tracker@));
        }
        if !observer.is_dirty(tracker) {
            observer.as_observable().register(tracker);
            proof {
                self.lemma_wf_extended(old(tracker)@, tracker@);
                if old(tracker)@.scope is Some {
                    let listed = old(tracker)@.dependents[observer.spec_id() as int];
                    assert(tracker@.dependents[observer.spec_id() as int][listed.len() as int]
                        == old(tracker)@.scope->Some_0);
                }
                assert(Root::dirt_kept(old(tracker)@, tracker@));
                assert(self.agrees_outside(*old(self), node as int));
            }
            return self.sets[node];
        }
        let pending = tracker.begin();
        let ghost begun = tracker@;
        let ghost computing = pending.observer();
        proof {
            lemma_steps_extend(old(tracker)@, observer.spec_id() as int, None);
            self.lemma_wf_extended(old(tracker)@, tracker@);
            assert(Root::dirt_kept(old(tracker)@, begun));
        }
        let mut set = if self.clickable[node] {
            let reads = self.layout_reads[node];
            proof {
                lemma_steps_keep_wf(tracker@, reads.spec_id() as int);
                lemma_steps_extend(tracker@, reads.spec_id() as int, None);
            }
            reads.register(tracker);
            proof {
                self.lemma_wf_extended(begun, tracker@);
                lemma_extends_onwards(old(tracker)@, begun, tracker@);
                let listed = begun.dependents[reads.spec_id() as int];
                assert(tracker@.dependents[reads.spec_id() as int][listed.len() as int]
                    == computing);
                assert(Root::dirt_kept(old(tracker)@, tracker@));
            }
            InteractSet::clickable(self.tree.get_final_layout(node).border_box)
        } else {
            InteractSet::empty()
        };
        let count = self.tree.child_count(node);
        let mut i: usize = 0;
        proof {
            assert(self.agrees_outside(*old(self), node as int));
            assert forall|j: int| 0 <= j < count implies self.agrees_below(
                *old(self),
                #[trigger] self.child_of(node as int, j),
            ) by {}
        }
        while i < count
            invariant
                old(self).wf(old(tracker)@),
                old(self).sized(),
                old(self).observers_in(old(tracker)@),
                self.wf(tracker@),
                self.tree == old(self).tree,
                self.root == old(self).root,
                self.clickable@ == old(self).clickable@,
                self.layout_nodes() == old(self).layout_nodes(),
                self.redraw_node() == old(self).redraw_node(),
                node < self.tree.spec_len(),
                count == self.tree.child_lists()[node as int].len(),
                i <= count,
                tracker@.extends(old(tracker)@),
                tracker@.scope == Some(computing),
                computing == old(tracker)@.len(),
                pending.observer() == computing,
                pending.resumed() == old(tracker)@.scope,
                computing < tracker@.len(),
                set == self.gathered(node as int, i as int),
                Root::dirt_kept(old(tracker)@, tracker@),
                self.agrees_outside(*old(self), node as int),
                self.children_settled(*old(self), old(tracker)@, node as int, i as int),
                forall|j: int|
                    i <= j < count ==> self.agrees_below(
                        *old(self),
                        #[trigger] self.child_of(node as int, j),
                    ),
                forall|j: int|
                    0 <= j < i ==> #[trigger] self.listed_by(
                        tracker@,
                        node as int,
                        j,
                        computing as int,
                    ),
                self.clickable@[node as int] ==> tracker@.edge(
                    self.layout_nodes()[node as int] as int,
                    computing as int,
                ),
            decreases count - i,
        {
            let child = self.tree.child(node, i);
            let ghost asked = *self;
            let ghost graph = tracker@;
            proof {
                self.tree.lemma_child_slack(node as int, i as int);
            }
            let answer = self.interactions_of(tracker, child);
            proof {
                self.lemma_sized(tracker@);
                asked.lemma_sized(graph);
                lemma_extends_onwards(old(tracker)@, graph, tracker@);
                lemma_edges_kept(graph, tracker@);
                assert(child == self.child_of(node as int, i as int));
                assert(Root::dirt_kept(old(tracker)@, tracker@)) by {
                    assert forall|k: int| 0 <= k < old(tracker)@.len() implies (
                    #[trigger] tracker@.dirty[k]) == old(tracker)@.dirty[k] by {
                        assert(graph.dirty[k] == old(tracker)@.dirty[k]);
                    }
                }
                Root::lemma_child_asked(*self, asked, *old(self), node as int, i as int);
                Root::lemma_child_settled(
                    *self,
                    asked,
                    *old(self),
                    old(tracker)@,
                    graph,
                    node as int,
                    i as int,
                );
                assert(self.listed_by(tracker@, node as int, i as int, computing as int));
                Root::lemma_children_listed(
                    *self,
                    asked,
                    graph,
                    tracker@,
                    node as int,
                    i as int,
                    computing as int,
                );
                self.lemma_gathered_same(asked, node as int, i as int);
            }
            set = set | answer;
            i = i + 1;
        }
        let ghost gathered_graph = tracker@;
        let ghost gathered_root = *self;
        let new_observer = tracker.end(pending);
        self.sets.set(node, set);
        self.observers.set(node, new_observer);
        proof {
            lemma_steps_keep_wf(gathered_graph, observer.spec_id() as int);
            lemma_steps_extend(gathered_graph, computing as int, pending.resumed());
            lemma_steps_keep_wf(tracker@, observer.spec_id() as int);
            lemma_steps_extend(tracker@, observer.spec_id() as int, None);
        }
        let ghost ended = tracker@;
        observer.release(tracker);
        let ghost released = tracker@;
        proof {
            lemma_steps_keep_wf(tracker@, computing as int);
            lemma_steps_extend(tracker@, computing as int, None);
        }
        new_observer.as_observable().register(tracker);
        proof {
            lemma_extends_onwards(gathered_graph, ended, released);
            lemma_extends_onwards(gathered_graph, released, tracker@);
            lemma_extends_onwards(old(tracker)@, gathered_graph, tracker@);
            lemma_edges_kept(gathered_graph, tracker@);
            gathered_root.lemma_sized(gathered_graph);
            // the root is well-formed
            assert forall|m: int| 0 <= m < self.layout_reads@.len() implies (
            #[trigger] self.layout_reads@[m]).spec_id() < tracker@.len() by {
                assert(gathered_root.layout_reads@[m].spec_id() < gathered_graph.len());
            }
            assert forall|m: int| 0 <= m < self.observers@.len() implies (
            #[trigger] self.observers@[m]).spec_id() < tracker@.len() by {
                if m != node {
                    assert(gathered_root.observers@[m].spec_id() < gathered_graph.len());
                }
            }
            assert(self.layout_nodes() =~= gathered_root.layout_nodes());
            assert(self.wf(tracker@));
            self.lemma_sized(tracker@);
            // what was gathered
            assert forall|m: int|
                0 <= m < self.tree.spec_len() && m != node implies #[trigger] self.agrees_at(
                gathered_root,
                m,
            ) by {}
            Root::lemma_stored(*self, gathered_root, *old(self), old(tracker)@, node as int);
            assert(self.sets()[node as int] == set);
            assert(self.gathered_anew(*old(self), old(tracker)@, node as int));
            // the observers
            assert(Root::dirt_kept(old(tracker)@, tracker@)) by {
                assert forall|k: int| 0 <= k < old(tracker)@.len() implies (
                #[trigger] tracker@.dirty[k]) == old(tracker)@.dirty[k] by {
                    assert(gathered_graph.dirty[k] == old(tracker)@.dirty[k]);
                    assert(ended.dirty[k] == gathered_graph.dirty[k]);
                    assert(released.dirty[k] == ended.dirty[k]);
                }
            }
            assert(self.set_nodes()[node as int] == computing);
            assert forall|j: int| 0 <= j < count implies #[trigger] self.listed_by(
                tracker@,
                node as int,
                j,
                self.set_nodes()[node as int] as int,
            ) by {
                assert(gathered_root.listed_by(gathered_graph, node as int, j, computing as int));
                assert(self.agrees_at(gathered_root, self.child_of(node as int, j))) by {
                    self.lemma_below(node as int, j, j, node as int);
                    assert(self.child_of(node as int, j) != node);
                }
            }
            if old(tracker)@.scope is Some {
                let listed = released.dependents[computing as int];
                assert(tracker@.dependents[computing as int][listed.len() as int] == old(tracker)@.scope->Some_0);
                assert(tracker@.edge(
                    self.set_nodes()[node as int] as int,
                    old(tracker)@.scope->Some_0 as int,
                ));
            }
            assert(self.clickable()[node as int] ==> tracker@.edge(
                self.layout_nodes()[node as int] as int,
                self.set_nodes()[node as int] as int,
            ));
            assert(!tracker@.dirty[self.set_nodes()[node as int] as int]);
            assert(self.agrees_outside(*old(self), node as int)) by {
                assert forall|m: int|
                    0 <= m < self.spec_tree().spec_len() && !self.below(
                        node as int,
                        m,
                    ) implies #[trigger] self.agrees_at(*old(self), m) by {
                    self.lemma_below_self(node as int);
                    assert(m != node);
                    assert(self.agrees_at(gathered_root, m));
                    assert(!gathered_root.below(node as int, m));
                    assert(gathered_root.agrees_at(*old(self), m));
                }
            }
            assert(old(tracker)@.dirty[old(self).set_nodes()[node as int] as int]);
            assert(self.settled(*old(self), old(tracker)@, tracker@, node as int, set));
        }
        set
    }

    /// The tree is well-formed and every list has an entry for each node.
    pub closed spec fn sized(&self) -> bool {
        &&& self.tree.wf()
        &&& self.clickable@.len() == self.tree.spec_len()
        &&& self.layout_reads@.len() == self.tree.spec_len()
        &&& self.observers@.len() == self.tree.spec_len()
        &&& self.sets@.len() == self.tree.spec_len()
    }

    /// A well-formed root is sized.
    pub proof fn lemma_sized(&self, graph: Graph)
        requires
            self.wf(graph),
        ensures
            self.sized(),
            self.spec_tree().wf(),
            self.clickable().len() == self.spec_tree().spec_len(),
            self.sets().len() == self.spec_tree().spec_len(),
    {
    }

    /// `node` itself if it takes clicks and `interaction` is a click within
    /// its border box, else nothing.
    pub open spec fn own_target(&self, node: int, interaction: Interaction) -> Seq<usize> {
        match interaction {
            Interaction::Click(point) => if self.clickable()[node] && self.final_layout(
                node,
            ).border_box.spec_contains(point) {
                seq![node as usize]
            } else {
                Seq::empty()
            },
        }
    }

    /// The nodes of the subtree of `node` that `interaction` goes to,
    /// innermost first: where the cached set of `node` accepts the
    /// interaction, those of each child in the order of the children, then
    /// `node` itself if the interaction hits it; else none.
    pub open spec fn targets(&self, node: int, interaction: Interaction) -> Seq<usize>
        decreases self.spec_tree().slack(node), self.spec_tree().child_lists()[node].len() + 1,
    {
        if self.sets()[node].spec_accepts(&interaction) {
            self.targets_of_children(
                node,
                interaction,
                self.spec_tree().child_lists()[node].len() as int,
            ) + self.own_target(node, interaction)
        } else {
            Seq::empty()
        }
    }

    /// The nodes of the subtrees of the first `upto` children of `node`
    /// that `interaction` goes to.
    pub open spec fn targets_of_children(
        &self,
        node: int,
        interaction: Interaction,
        upto: int,
    ) -> Seq<usize>
        decreases self.spec_tree().slack(node), upto,
    {
        if upto <= 0 || upto > self.spec_tree().child_lists()[node].len() || !self.spec_tree().wf()
            || !(0 <= node < self.spec_tree().spec_len()) {
            Seq::empty()
        } else {
            proof {
                self.spec_tree().lemma_child_slack(node, upto - 1);
            }
            self.targets_of_children(node, interaction, upto - 1) + self.targets(
                self.spec_tree().child_lists()[node][upto - 1] as int,
                interaction,
            )
        }
    }

    /// The nodes that `interaction` goes to, innermost first, see
    /// [`Self::targets`].
    pub fn handle_interaction(&self, interaction: &Interaction) -> (r: Vec<usize>)
        requires
            self.sized(),
            self.spec_root() < self.spec_tree().spec_len(),
        ensures
            r@ == self.targets(self.spec_root() as int, *interaction),
    {
        let mut targets: Vec<usize> = Vec::new();
        self.collect_targets(self.root, interaction, &mut targets);
        assert(targets@ =~= self.targets(self.spec_root() as int, *interaction));
        targets
    }

    /// Appends to `targets` the nodes of the subtree of `node` that
    /// `interaction` goes to, see [`Self::targets`].
    pub fn collect_targets(&self, node: usize, interaction: &Interaction, targets: &mut Vec<usize>)
        requires
            self.sized(),
            node < self.spec_tree().spec_len(),
        ensures
            final(targets)@ == old(targets)@ + self.targets(node as int, *interaction),
        decreases self.spec_tree().slack(node as int),
    {
        if !self.sets[node].accepts(interaction) {
            assert(targets@ =~= old(targets)@ + self.targets(node as int, *interaction));
            return ;
        }
        let count = self.tree.child_count(node);
        let mut i: usize = 0;
        assert(targets@ =~= old(targets)@ + self.targets_of_children(node as int, *interaction, 0));
        while i < count
            invariant
                self.sized(),
                node < self.tree.spec_len(),
                count == self.tree.child_lists()[node as int].len(),
                i <= count,
                targets@ == old(targets)@ + self.targets_of_children(
                    node as int,
                    *interaction,
                    i as int,
                ),
            decreases count - i,
        {
            let child = self.tree.child(node, i);
            proof {
                self.tree.lemma_child_slack(node as int, i as int);
            }
            let ghost before = targets@;
            self.collect_targets(child, interaction, targets);
            proof {
                assert(targets@ =~= old(targets)@ + self.targets_of_children(
                    node as int,
                    *interaction,
                    i as int + 1,
                ));
            }
            i = i + 1;
        }
        match interaction {
            Interaction::Click(point) => {
                if self.clickable[node] && self.tree.get_final_layout(node).border_box.contains(
                    *point,
                ) {
                    targets.push(node);
                }
            },
        }
        proof {
            assert(targets@ =~= old(targets)@ + self.targets(node as int, *interaction));
        }
    }
}

/// What a change of selection asks of the tree: where the selection has
/// gone from the option at position `before` to another one at position
/// `now`, and both are options, the old child and the new child; else
/// nothing.
pub fn selection_change(before: usize, now: usize, options: &[usize]) -> (r: Option<
    (usize, usize),
>)
    ensures
        r == (if before != now && before < options@.len() && now < options@.len() {
            Some((options@[before as int], options@[now as int]))
        } else {
            None
        }),
{
    if before != now && before < options.len() && now < options.len() {
        Some((options[before], options[now]))
    } else {
        None
    }
}

} // verus!
